//! The storage codec for the sub-byte dtype layouts: `s4`/`u4` nibble packing
//! (two logical values per byte, the low nibble holding the even index, the
//! high nibble the odd one) and `b1` bit packing (eight per byte, the least
//! significant bit holding the lowest index).

use vstd::prelude::*;

verus! {

/// The low nibble of a byte.
pub open spec fn lo_nib(b: u8) -> nat {
    (b as nat) % 16
}

/// The high nibble of a byte.
pub open spec fn hi_nib(b: u8) -> nat {
    (b as nat) / 16
}

/// A nibble read as an `s4`: `8..=15` are `-8..=-1`.
pub open spec fn s4_value(n: nat) -> int {
    let v = n % 16;
    if v >= 8 { v - 16 } else { v as int }
}

/// The two's-complement nibble pattern of an `s4` value.
pub open spec fn s4_pattern(v: i8) -> nat {
    (v as int % 16) as nat
}

/// The nibble that logical index `k` occupies in packed-pair bytes.
pub open spec fn nibble_at(bytes: Seq<u8>, k: int) -> nat {
    if k % 2 == 0 { lo_nib(bytes[k / 2]) } else { hi_nib(bytes[k / 2]) }
}

/// Packed pairs of nibbles: byte `j` holds nibble `2j` low and `2j+1` high
/// (zero when there is no odd partner).
pub open spec fn packed_pairs(nibs: Seq<nat>) -> Seq<u8> {
    Seq::new(
        ((nibs.len() + 1) / 2) as nat,
        |j: int| (nibs[2 * j] + 16 * (if 2 * j + 1 < nibs.len() { nibs[2 * j + 1] } else { 0 })) as u8,
    )
}

/// Sign-extend a 4-bit nibble as an `s4` value: nibbles `8..=15` are the
/// negatives `-8..=-1`.
pub fn s4_sign_extend(nibble: u8) -> (v: i8)
    ensures
        v as int == s4_value(nibble as nat),
{
    assert(nibble & 0x0F == nibble % 16) by (bit_vector);
    let n: u8 = nibble & 0x0F;
    assert((n & 0x08 != 0) == (n >= 8)) by (bit_vector)
        requires n < 16;
    if n & 0x08 != 0 {
        (n as i8) - 16
    } else {
        n as i8
    }
}

/// Zero-extend a 4-bit nibble as a `u4` value (`0xF` is 15, never -1).
pub fn u4_zero_extend(nibble: u8) -> (v: u8)
    ensures
        v == lo_nib(nibble),
{
    assert(nibble & 0x0F == nibble % 16) by (bit_vector);
    nibble & 0x0F
}

fn pair_byte(lo: u8, hi: u8) -> (b: u8)
    requires
        lo < 16,
        hi < 16,
    ensures
        b == lo + 16 * hi,
{
    assert(lo | (hi << 4) == lo + 16 * hi) by (bit_vector)
        requires lo < 16 && hi < 16;
    lo | (hi << 4)
}

fn s4_nibble(v: i8) -> (n: u8)
    ensures
        n as nat == s4_pattern(v),
{
    let u: u8 = if v < 0 { (v as i16 + 256) as u8 } else { v as u8 };
    assert(u & 0x0F == u % 16) by (bit_vector);
    assert((u as int) % 16 == (v as int) % 16) by {
        if v < 0 {
            assert((v as int + 256) % 16 == (v as int) % 16);
        }
    }
    u & 0x0F
}

/// The nibble patterns of a run of `s4` values.
pub open spec fn s4_patterns(vals: Seq<i8>) -> Seq<nat> {
    vals.map_values(|v: i8| s4_pattern(v))
}

/// The nibble patterns of a run of `u4` values (each truncated to 4 bits).
pub open spec fn u4_patterns(vals: Seq<u8>) -> Seq<nat> {
    vals.map_values(|v: u8| lo_nib(v))
}

/// Pack a run of `s4` logical values into packed-pair bytes: even index in the
/// low nibble, odd index in the high nibble, a trailing lone value with a zero
/// high nibble. Each value contributes its two's-complement 4-bit pattern.
pub fn s4_pack(vals: &[i8]) -> (out: Vec<u8>)
    ensures
        out@ == packed_pairs(s4_patterns(vals@)),
{
    let ghost nibs = s4_patterns(vals@);
    let n = vals.len();
    let npairs: usize = n / 2 + n % 2;
    let mut out: Vec<u8> = Vec::new();
    let mut j: usize = 0;
    while j < npairs
        invariant
            n == vals@.len(),
            npairs == (n + 1) / 2,
            j <= npairs,
            nibs == s4_patterns(vals@),
            out@.len() == j,
            forall|m: int| 0 <= m < out@.len() ==> out@[m] == packed_pairs(nibs)[m],
        decreases npairs - j,
    {
        let i = 2 * j;
        let lo = s4_nibble(vals[i]);
        let hi = if i + 1 < n { s4_nibble(vals[i + 1]) } else { 0 };
        out.push(pair_byte(lo, hi));
        j += 1;
    }
    assert(out@ =~= packed_pairs(nibs));
    out
}

/// Pack a run of `u4` logical values into packed-pair bytes (the layout of
/// `s4_pack`); each value is truncated to its low 4 bits.
pub fn u4_pack(vals: &[u8]) -> (out: Vec<u8>)
    ensures
        out@ == packed_pairs(u4_patterns(vals@)),
{
    let ghost nibs = u4_patterns(vals@);
    let n = vals.len();
    let npairs: usize = n / 2 + n % 2;
    let mut out: Vec<u8> = Vec::new();
    let mut j: usize = 0;
    while j < npairs
        invariant
            n == vals@.len(),
            npairs == (n + 1) / 2,
            j <= npairs,
            nibs == u4_patterns(vals@),
            out@.len() == j,
            forall|m: int| 0 <= m < out@.len() ==> out@[m] == packed_pairs(nibs)[m],
        decreases npairs - j,
    {
        let i = 2 * j;
        let lo = u4_zero_extend(vals[i]);
        let hi = if i + 1 < n { u4_zero_extend(vals[i + 1]) } else { 0 };
        out.push(pair_byte(lo, hi));
        j += 1;
    }
    assert(out@ =~= packed_pairs(nibs));
    out
}

fn nibble(byte: u8, odd: bool) -> (n: u8)
    ensures
        n as nat == if odd { hi_nib(byte) } else { lo_nib(byte) },
{
    if odd {
        assert((byte >> 4) & 0x0F == byte / 16) by (bit_vector);
        (byte >> 4) & 0x0F
    } else {
        assert(byte & 0x0F == byte % 16) by (bit_vector);
        byte & 0x0F
    }
}

/// Unpack `count` `s4` logical values: index `k` reads the low nibble of byte
/// `k/2` when `k` is even and the high nibble when `k` is odd, then
/// sign-extends. `bytes` must hold at least `count` nibbles.
pub fn s4_unpack(bytes: &[u8], count: usize) -> (out: Vec<i8>)
    requires
        count <= 2 * bytes@.len(),
    ensures
        out@.len() == count,
        forall|k: int| 0 <= k < count ==> out@[k] as int == s4_value(#[trigger] nibble_at(bytes@, k)),
{
    let mut out: Vec<i8> = Vec::new();
    let mut k: usize = 0;
    while k < count
        invariant
            k <= count <= 2 * bytes@.len(),
            out@.len() == k,
            forall|j: int| 0 <= j < k ==> out@[j] as int == s4_value(#[trigger] nibble_at(bytes@, j)),
        decreases count - k,
    {
        let n = nibble(bytes[k / 2], k % 2 == 1);
        out.push(s4_sign_extend(n));
        k += 1;
    }
    out
}

/// Unpack `count` `u4` logical values (the nibble selection of `s4_unpack`,
/// zero-extended). `bytes` must hold at least `count` nibbles.
pub fn u4_unpack(bytes: &[u8], count: usize) -> (out: Vec<u8>)
    requires
        count <= 2 * bytes@.len(),
    ensures
        out@.len() == count,
        forall|k: int| 0 <= k < count ==> out@[k] as nat == #[trigger] nibble_at(bytes@, k),
{
    let mut out: Vec<u8> = Vec::new();
    let mut k: usize = 0;
    while k < count
        invariant
            k <= count <= 2 * bytes@.len(),
            out@.len() == k,
            forall|j: int| 0 <= j < k ==> out@[j] as nat == #[trigger] nibble_at(bytes@, j),
        decreases count - k,
    {
        let n = nibble(bytes[k / 2], k % 2 == 1);
        out.push(n);
        k += 1;
    }
    out
}

proof fn lemma_nibble_of_packed(nibs: Seq<nat>, k: int)
    requires
        0 <= k < nibs.len(),
        forall|j: int| 0 <= j < nibs.len() ==> #[trigger] nibs[j] < 16,
    ensures
        nibble_at(packed_pairs(nibs), k) == nibs[k],
{
    let j = k / 2;
    let lo = nibs[2 * j];
    let hi = if 2 * j + 1 < nibs.len() { nibs[2 * j + 1] } else { 0 };
    assert(lo < 16 && hi < 16);
    let b = (lo + 16 * hi) as u8;
    assert(b as nat == lo + 16 * hi);
    assert(packed_pairs(nibs)[j] == b);
    assert((lo + 16 * hi) % 16 == lo && (lo + 16 * hi) / 16 == hi) by (nonlinear_arith)
        requires lo < 16, hi < 16;
}

/// Unpacking what was packed gives the `u4` values back: every value below 16
/// survives the nibble layout.
pub proof fn u4_pack_roundtrip(vals: Seq<u8>)
    requires
        forall|i: int| 0 <= i < vals.len() ==> #[trigger] vals[i] < 16,
    ensures
        packed_pairs(u4_patterns(vals)).len() * 2 >= vals.len(),
        forall|k: int| 0 <= k < vals.len() ==> nibble_at(packed_pairs(u4_patterns(vals)), k) == vals[k] as nat,
{
    let nibs = u4_patterns(vals);
    assert forall|k: int| 0 <= k < vals.len() implies nibble_at(packed_pairs(u4_patterns(vals)), k) == vals[k] as nat by {
        assert forall|j: int| 0 <= j < nibs.len() implies #[trigger] nibs[j] < 16 by {
            assert(nibs[j] == lo_nib(vals[j]));
        }
        lemma_nibble_of_packed(nibs, k);
        assert(nibs[k] == lo_nib(vals[k]));
    }
}

/// Unpacking what was packed gives the `s4` values back: every value in
/// `-8..=7` survives the nibble layout and the sign extension.
pub proof fn s4_pack_roundtrip(vals: Seq<i8>)
    requires
        forall|i: int| 0 <= i < vals.len() ==> -8 <= #[trigger] vals[i] <= 7,
    ensures
        packed_pairs(s4_patterns(vals)).len() * 2 >= vals.len(),
        forall|k: int| 0 <= k < vals.len() ==> s4_value(nibble_at(packed_pairs(s4_patterns(vals)), k)) == vals[k] as int,
{
    let nibs = s4_patterns(vals);
    assert forall|k: int| 0 <= k < vals.len() implies s4_value(nibble_at(packed_pairs(s4_patterns(vals)), k)) == vals[k] as int by {
        assert forall|j: int| 0 <= j < nibs.len() implies #[trigger] nibs[j] < 16 by {
            assert(nibs[j] == s4_pattern(vals[j]));
        }
        lemma_nibble_of_packed(nibs, k);
        assert(nibs[k] == s4_pattern(vals[k]));
    }
}

// ---------------------------------------------------------------------------
// b1: eight bits per byte, least significant bit first.
// ---------------------------------------------------------------------------

/// The bit that logical index `i` contributes: its low bit, zero past the end.
pub open spec fn b1_bit(bits: Seq<u8>, i: int) -> u8 {
    if 0 <= i < bits.len() && bits[i] % 2 == 1 { 1 } else { 0 }
}

/// Byte `k` of the packing, built from its first `j` bits.
pub open spec fn b1_partial(bits: Seq<u8>, k: int, j: int) -> u8
    decreases j,
{
    if j <= 0 {
        0
    } else {
        b1_partial(bits, k, j - 1) | (b1_bit(bits, 8 * k + j - 1) << ((j - 1) as u8))
    }
}

/// The `b1` packing: bit `j` of byte `k` carries logical index `8k + j`.
pub open spec fn b1_packed(bits: Seq<u8>) -> Seq<u8> {
    Seq::new(((bits.len() + 7) / 8) as nat, |k: int| b1_partial(bits, k, 8))
}

/// Bit `i % 8` of byte `i / 8`.
pub open spec fn b1_read(bytes: Seq<u8>, i: int) -> u8 {
    (bytes[i / 8] >> ((i % 8) as u8)) & 1
}

/// Pack `bits` (their low bits) into `b1` packed bytes, least significant bit
/// first; a trailing partial byte is zero-filled in its unused high bits.
pub fn b1_pack(bits: &[u8]) -> (out: Vec<u8>)
    ensures
        out@ == b1_packed(bits@),
{
    let blen = bits.len();
    let nbytes: usize = blen / 8 + if blen % 8 == 0 { 0 } else { 1 };
    let mut out: Vec<u8> = Vec::new();
    let mut k: usize = 0;
    while k < nbytes
        invariant
            nbytes == (bits@.len() + 7) / 8,
            blen == bits@.len(),
            k <= nbytes,
            out@.len() == k,
            forall|m: int| 0 <= m < k ==> out@[m] == b1_partial(bits@, m, 8),
        decreases nbytes - k,
    {
        let mut byte: u8 = 0;
        let mut j: u8 = 0;
        while j < 8
            invariant
                k < nbytes,
                nbytes == (bits@.len() + 7) / 8,
                blen == bits@.len(),
                j <= 8,
                byte == b1_partial(bits@, k as int, j as int),
            decreases 8 - j,
        {
            assert(8 * k < blen) by (nonlinear_arith)
                requires k < nbytes, nbytes == (blen + 7) / 8;
            let base = 8 * k;
            let b: u8 = if (j as usize) < bits.len() - base && bits[base + j as usize] % 2 == 1 { 1 } else { 0 };
            byte = byte | (b << j);
            j += 1;
        }
        out.push(byte);
        k += 1;
    }
    assert(out@ =~= b1_packed(bits@));
    out
}

/// Unpack `count` `b1` logical bits, least significant bit first: index `i` is
/// bit `i % 8` of byte `i / 8`. `bytes` must hold at least `count` bits.
pub fn b1_unpack(bytes: &[u8], count: usize) -> (out: Vec<u8>)
    requires
        count <= 8 * bytes@.len(),
    ensures
        out@.len() == count,
        forall|i: int| 0 <= i < count ==> out@[i] == #[trigger] b1_read(bytes@, i),
{
    let mut out: Vec<u8> = Vec::new();
    let mut i: usize = 0;
    while i < count
        invariant
            i <= count <= 8 * bytes@.len(),
            out@.len() == i,
            forall|m: int| 0 <= m < i ==> out@[m] == #[trigger] b1_read(bytes@, m),
        decreases count - i,
    {
        out.push((bytes[i / 8] >> ((i % 8) as u8)) & 1);
        i += 1;
    }
    out
}

proof fn lemma_b1_partial(bits: Seq<u8>, k: int, j: int, t: int)
    requires
        0 <= t < j <= 8,
    ensures
        (b1_partial(bits, k, j) >> (t as u8)) & 1 == b1_bit(bits, 8 * k + t),
        j < 8 ==> b1_partial(bits, k, j) >> (j as u8) == 0,
    decreases j,
{
    let p = b1_partial(bits, k, j - 1);
    let b = b1_bit(bits, 8 * k + j - 1);
    let s = (j - 1) as u8;
    if j - 1 > 0 {
        if t < j - 1 {
            lemma_b1_partial(bits, k, j - 1, t);
        } else {
            lemma_b1_partial(bits, k, j - 1, 0);
        }
    } else {
        assert(p == 0);
        assert(p >> s == 0) by (bit_vector)
            requires p == 0;
    }
    let tt = t as u8;
    assert(((p | (b << s)) >> tt) & 1 == (if tt == s { b } else { (p >> tt) & 1 })
        && (s + 1 < 8 ==> (p | (b << s)) >> ((s + 1) as u8) == 0))
        by (bit_vector)
        requires
            s < 8,
            tt <= s,
            b <= 1,
            p >> s == 0,
    ;
}

/// Unpacking what was packed gives the bits back: every `0`/`1` input
/// survives the `b1` layout.
pub proof fn b1_pack_roundtrip(bits: Seq<u8>)
    requires
        forall|i: int| 0 <= i < bits.len() ==> #[trigger] bits[i] <= 1,
    ensures
        8 * b1_packed(bits).len() >= bits.len(),
        forall|i: int| 0 <= i < bits.len() ==> b1_read(b1_packed(bits), i) == bits[i],
{
    assert forall|i: int| 0 <= i < bits.len() implies b1_read(b1_packed(bits), i) == bits[i] by {
        lemma_b1_partial(bits, i / 8, 8, i % 8);
        assert(8 * (i / 8) + i % 8 == i);
        assert(b1_packed(bits)[i / 8] == b1_partial(bits, i / 8, 8));
    }
}

} // verus!
