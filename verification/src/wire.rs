//! Little-endian integer fields and byte-run helpers shared by the binary
//! codecs (the Announce frames, the region wire form, OpAttrs, shape blobs).

use vstd::prelude::*;

verus! {

/// `256^n`.
pub open spec fn pow256(n: nat) -> nat
    decreases n,
{
    if n == 0 {
        1
    } else {
        256 * pow256((n - 1) as nat)
    }
}

/// The `n` little-endian bytes of `v` (least significant byte first).
pub open spec fn le_bytes(v: nat, n: nat) -> Seq<u8>
    decreases n,
{
    if n == 0 {
        seq![]
    } else {
        seq![(v % 256) as u8] + le_bytes(v / 256, (n - 1) as nat)
    }
}

/// The value of a little-endian byte run.
pub open spec fn le_value(s: Seq<u8>) -> nat
    decreases s.len(),
{
    if s.len() == 0 {
        0
    } else {
        s[0] as nat + 256 * le_value(s.drop_first())
    }
}

/// The two little-endian bytes of a `u16`.
pub open spec fn u16_le(v: u16) -> Seq<u8> {
    le_bytes(v as nat, 2)
}

/// The four little-endian bytes of a `u32`.
pub open spec fn u32_le(v: u32) -> Seq<u8> {
    le_bytes(v as nat, 4)
}

/// The eight little-endian bytes of a `u64`.
pub open spec fn u64_le(v: u64) -> Seq<u8> {
    le_bytes(v as nat, 8)
}

/// The eight little-endian bytes of an `i64` (two's complement).
pub open spec fn i64_le(v: i64) -> Seq<u8> {
    le_bytes(if v < 0 { (v + 0x1_0000_0000_0000_0000) as nat } else { v as nat }, 8)
}

/// The `i64` whose two's-complement pattern is the 8-byte little-endian run `s`.
pub open spec fn i64_of_le(s: Seq<u8>) -> int {
    let u = le_value(s);
    if u >= 0x8000_0000_0000_0000 {
        u - 0x1_0000_0000_0000_0000
    } else {
        u as int
    }
}

pub proof fn lemma_pow256_values()
    ensures
        pow256(0) == 1,
        pow256(1) == 256,
        pow256(2) == 0x1_0000,
        pow256(3) == 0x100_0000,
        pow256(4) == 0x1_0000_0000,
        pow256(5) == 0x100_0000_0000,
        pow256(6) == 0x1_0000_0000_0000,
        pow256(7) == 0x100_0000_0000_0000,
        pow256(8) == 0x1_0000_0000_0000_0000,
{
    reveal_with_fuel(pow256, 9);
}

/// `le_bytes` has exactly `n` bytes.
pub proof fn lemma_le_bytes_len(v: nat, n: nat)
    ensures
        le_bytes(v, n).len() == n,
    decreases n,
{
    if n > 0 {
        lemma_le_bytes_len(v / 256, (n - 1) as nat);
    }
}

/// Reading back the bytes of a value that fits gives the value.
pub proof fn lemma_le_roundtrip(v: nat, n: nat)
    requires
        v < pow256(n),
    ensures
        le_value(le_bytes(v, n)) == v,
        le_bytes(v, n).len() == n,
    decreases n,
{
    lemma_le_bytes_len(v, n);
    if n > 0 {
        assert(v / 256 < pow256((n - 1) as nat)) by (nonlinear_arith)
            requires
                v < 256 * pow256((n - 1) as nat),
        ;
        lemma_le_roundtrip(v / 256, (n - 1) as nat);
        let s = le_bytes(v, n);
        assert(s.drop_first() == le_bytes(v / 256, (n - 1) as nat));
    }
}

/// A little-endian run's value fits in its length.
pub proof fn lemma_le_value_bound(s: Seq<u8>)
    ensures
        le_value(s) < pow256(s.len()),
    decreases s.len(),
{
    if s.len() > 0 {
        lemma_le_value_bound(s.drop_first());
        assert(s[0] as nat + 256 * le_value(s.drop_first()) < 256 * pow256(
            (s.len() - 1) as nat,
        )) by (nonlinear_arith)
            requires
                le_value(s.drop_first()) < pow256((s.len() - 1) as nat),
                s[0] < 256,
        ;
    }
}

/// Writing back the value of a run gives the run.
pub proof fn lemma_le_bytes_of_value(s: Seq<u8>)
    ensures
        le_bytes(le_value(s), s.len()) == s,
    decreases s.len(),
{
    if s.len() > 0 {
        lemma_le_bytes_of_value(s.drop_first());
        let v = le_value(s);
        let r = le_value(s.drop_first());
        assert(v % 256 == s[0] as nat && v / 256 == r) by (nonlinear_arith)
            requires
                v == s[0] as nat + 256 * r,
                s[0] < 256,
        ;
        assert(le_bytes(v, s.len()) =~= s);
    }
}

/// Appends the `n` little-endian bytes of `v`.
pub fn push_le(out: &mut Vec<u8>, v: u64, n: usize)
    ensures
        final(out)@ == old(out)@ + le_bytes(v as nat, n as nat),
    decreases n,
{
    if n > 0 {
        let ghost before = out@;
        out.push((v % 256) as u8);
        push_le(out, v / 256, n - 1);
        assert(before.push((v % 256) as u8) + le_bytes((v / 256) as nat, (n - 1) as nat) == before
            + (seq![(v % 256) as u8] + le_bytes((v / 256) as nat, (n - 1) as nat)));
    }
}

pub fn push_u16_le(out: &mut Vec<u8>, v: u16)
    ensures
        final(out)@ == old(out)@ + u16_le(v),
{
    push_le(out, v as u64, 2);
}

pub fn push_u32_le(out: &mut Vec<u8>, v: u32)
    ensures
        final(out)@ == old(out)@ + u32_le(v),
{
    push_le(out, v as u64, 4);
}

pub fn push_u64_le(out: &mut Vec<u8>, v: u64)
    ensures
        final(out)@ == old(out)@ + u64_le(v),
{
    push_le(out, v, 8);
}

pub fn push_i64_le(out: &mut Vec<u8>, v: i64)
    ensures
        final(out)@ == old(out)@ + i64_le(v),
{
    let u: u64 = if v < 0 {
        (v as i128 + 0x1_0000_0000_0000_0000i128) as u64
    } else {
        v as u64
    };
    push_le(out, u, 8);
}

/// Reads the `n`-byte little-endian value at `off`.
pub fn read_le(b: &[u8], off: usize, n: usize) -> (r: u64)
    requires
        n <= 8,
        off + n <= b@.len(),
    ensures
        r as nat == le_value(b@.subrange(off as int, off + n)),
    decreases n,
{
    proof {
        lemma_pow256_values();
    }
    if n == 0 {
        0
    } else {
        assert(off + 1 <= b.len());
        let rest = read_le(b, off + 1, n - 1);
        let ghost run = b@.subrange(off as int, off + n);
        assert(run.drop_first() == b@.subrange(off + 1, off + n));
        proof {
            lemma_le_value_bound(run.drop_first());
            assert(pow256((n - 1) as nat) <= 0x100_0000_0000_0000) by {
                lemma_pow256_values();
                if n - 1 < 7 {
                    lemma_pow256_mono((n - 1) as nat, 7);
                }
            }
        }
        (b[off] as u64) + 256 * rest
    }
}

pub proof fn lemma_pow256_mono(a: nat, b: nat)
    requires
        a <= b,
    ensures
        pow256(a) <= pow256(b),
    decreases b,
{
    if a < b {
        lemma_pow256_mono(a, (b - 1) as nat);
    }
}

pub fn read_u16_le(b: &[u8], off: usize) -> (r: u16)
    requires
        off + 2 <= b@.len(),
    ensures
        r as nat == le_value(b@.subrange(off as int, off + 2)),
{
    let v = read_le(b, off, 2);
    proof {
        lemma_le_value_bound(b@.subrange(off as int, off + 2));
        lemma_pow256_values();
    }
    v as u16
}

pub fn read_u32_le(b: &[u8], off: usize) -> (r: u32)
    requires
        off + 4 <= b@.len(),
    ensures
        r as nat == le_value(b@.subrange(off as int, off + 4)),
{
    let v = read_le(b, off, 4);
    proof {
        lemma_le_value_bound(b@.subrange(off as int, off + 4));
        lemma_pow256_values();
    }
    v as u32
}

pub fn read_u64_le(b: &[u8], off: usize) -> (r: u64)
    requires
        off + 8 <= b@.len(),
    ensures
        r as nat == le_value(b@.subrange(off as int, off + 8)),
{
    read_le(b, off, 8)
}

pub fn read_i64_le(b: &[u8], off: usize) -> (r: i64)
    requires
        off + 8 <= b@.len(),
    ensures
        r as int == i64_of_le(b@.subrange(off as int, off + 8)),
{
    let u = read_le(b, off, 8);
    if u >= 0x8000_0000_0000_0000 {
        (u as i128 - 0x1_0000_0000_0000_0000i128) as i64
    } else {
        u as i64
    }
}

/// `u16_le` read back gives the value.
pub proof fn lemma_u16_roundtrip(v: u16)
    ensures
        le_value(u16_le(v)) == v,
        u16_le(v).len() == 2,
{
    lemma_pow256_values();
    lemma_le_roundtrip(v as nat, 2);
}

pub proof fn lemma_u32_roundtrip(v: u32)
    ensures
        le_value(u32_le(v)) == v,
        u32_le(v).len() == 4,
{
    lemma_pow256_values();
    lemma_le_roundtrip(v as nat, 4);
}

pub proof fn lemma_u64_roundtrip(v: u64)
    ensures
        le_value(u64_le(v)) == v,
        u64_le(v).len() == 8,
{
    lemma_pow256_values();
    lemma_le_roundtrip(v as nat, 8);
}

pub proof fn lemma_i64_roundtrip(v: i64)
    ensures
        i64_of_le(i64_le(v)) == v,
        i64_le(v).len() == 8,
{
    lemma_pow256_values();
    let u: nat = if v < 0 { (v + 0x1_0000_0000_0000_0000) as nat } else { v as nat };
    lemma_le_roundtrip(u, 8);
}

/// Copies `b[start..end]` into a new vector.
pub fn copy_range(b: &[u8], start: usize, end: usize) -> (v: Vec<u8>)
    requires
        start <= end <= b@.len(),
    ensures
        v@ == b@.subrange(start as int, end as int),
{
    let mut v: Vec<u8> = Vec::new();
    let mut i = start;
    while i < end
        invariant
            start <= i <= end,
            end <= b@.len(),
            v@ == b@.subrange(start as int, i as int),
        decreases end - i,
    {
        v.push(b[i]);
        i += 1;
    }
    v
}

/// Appends every byte of `src` to `out`.
pub fn push_all(out: &mut Vec<u8>, src: &[u8])
    ensures
        final(out)@ == old(out)@ + src@,
{
    let ghost o = out@;
    let mut i: usize = 0;
    while i < src.len()
        invariant
            i <= src.len(),
            out@ == o + src@.take(i as int),
        decreases src.len() - i,
    {
        out.push(src[i]);
        i += 1;
        assert(src@.take(i as int) == src@.take(i - 1).push(src@[i - 1]));
    }
    assert(src@.take(src.len() as int) == src@);
}

/// Whether `b[off..]` begins with `prefix`.
pub fn has_prefix_at(b: &[u8], off: usize, prefix: &[u8]) -> (r: bool)
    requires
        off <= b@.len(),
    ensures
        r == (off + prefix@.len() <= b@.len() && b@.subrange(off as int, off + prefix@.len())
            == prefix@),
{
    if prefix.len() > b.len() - off {
        return false;
    }
    let mut i: usize = 0;
    while i < prefix.len()
        invariant
            off + prefix@.len() <= b@.len(),
            i <= prefix.len(),
            forall|j: int| 0 <= j < i ==> b@[off + j] == prefix@[j],
        decreases prefix.len() - i,
    {
        assert(off + i < b.len());
        if b[off + i] != prefix[i] {
            assert(b@.subrange(off as int, off + prefix@.len())[i as int] != prefix@[i as int]);
            return false;
        }
        i += 1;
    }
    assert(b@.subrange(off as int, off + prefix@.len()) =~= prefix@);
    true
}

} // verus!
