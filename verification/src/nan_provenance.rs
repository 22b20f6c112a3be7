//! Per-row NaN-output provenance comparison. A NaN output is compared by how
//! it arose:
//!
//! - MOVED: a raw-bit permutation or sign transform whose NaN output is a moved
//!   input value — the bytes are compared exactly (payload and sign).
//! - COMPUTED: an arithmetic or transcendental minted NaN — NaN-ness must
//!   match and, where the dtype's encoding admits a signaling NaN, so must the
//!   quiet bit. `f8e4m3fn` has a single NaN encoding and no signaling NaN, so
//!   for it the quietness obligation is vacuous.
//!
//! Bytes are big-endian at the dtype's native width.

use vstd::prelude::*;
use vstd::arithmetic::power2::{lemma2_to64, lemma2_to64_rest, pow2};
use crate::text::{byte_hex_upper, join, push_byte_hex_upper, push_str, str_eq};

verus! {

/// Which side of the moved/computed split a NaN output falls on.
#[derive(Clone, Copy, PartialEq, Eq, Debug, Structural)]
pub enum NanProvenance {
    Moved,
    Computed,
}

/// The bit layout of a float dtype: total width in bits, trailing-significand
/// bits, and whether it has a single NaN encoding (no signaling NaN).
pub open spec fn layout_of(dtype: Seq<char>) -> Option<(nat, nat, bool)> {
    if dtype == "f64"@ {
        Some((64, 52, false))
    } else if dtype == "f32"@ {
        Some((32, 23, false))
    } else if dtype == "f16"@ {
        Some((16, 10, false))
    } else if dtype == "bf16"@ {
        Some((16, 7, false))
    } else if dtype == "f8e5m2"@ {
        Some((8, 2, false))
    } else if dtype == "f8e4m3fn"@ {
        Some((8, 3, true))
    } else {
        None
    }
}

/// The value of big-endian bytes.
pub open spec fn be_value(be: Seq<u8>) -> nat
    decreases be.len(),
{
    if be.len() == 0 {
        0
    } else {
        be_value(be.drop_last()) * 256 + be.last() as nat
    }
}

/// Whether raw bits `v` are a NaN in a layout: for the single-encoding dtype
/// every non-sign bit set; otherwise the exponent field all ones and a nonzero
/// trailing significand.
pub open spec fn nan_bits(w: nat, m: nat, single: bool, v: nat) -> bool {
    if single {
        v % pow2((w - 1) as nat) == pow2((w - 1) as nat) - 1
    } else {
        let e = (w - 1 - m) as nat;
        (v / pow2(m)) % pow2(e) == pow2(e) - 1 && v % pow2(m) != 0
    }
}

/// Whether `be` (big-endian, native width) encodes a NaN in `dtype`.
pub open spec fn is_nan_of(dtype: Seq<char>, be: Seq<u8>) -> bool {
    match layout_of(dtype) {
        None => false,
        Some((w, m, single)) => be.len() * 8 == w && nan_bits(w, m, single, be_value(be)),
    }
}

/// Whether the quiet bit (the top trailing-significand bit) is set.
pub open spec fn quiet_of(m: nat, v: nat) -> bool {
    (v / pow2((m - 1) as nat)) % 2 == 1
}

/// Whether the dtype's encoding admits a signaling NaN.
pub open spec fn admits_snan_of(dtype: Seq<char>) -> bool {
    match layout_of(dtype) {
        Some((_, _, single)) => !single,
        None => false,
    }
}

struct Layout {
    width_bytes: usize,
    mant_pow: u64,
    exp_pow: u64,
    half_pow: u64,
    quiet_pow: u64,
    single: bool,
}

spec fn layout_matches(l: Layout, t: (nat, nat, bool)) -> bool {
    let (w, m, single) = t;
    &&& l.width_bytes * 8 == w
    &&& l.mant_pow == pow2(m)
    &&& l.exp_pow == pow2((w - 1 - m) as nat)
    &&& l.half_pow == pow2((w - 1) as nat)
    &&& l.quiet_pow == pow2((m - 1) as nat)
    &&& l.single == single
    &&& 1 <= m < w <= 64
}

fn layout(dtype: &str) -> (r: Option<Layout>)
    ensures
        r is Some <==> layout_of(dtype@) is Some,
        r matches Some(l) ==> layout_matches(l, layout_of(dtype@)->0),
{
    proof {
        lemma2_to64();
        lemma2_to64_rest();
    }
    if str_eq(dtype, "f64") {
        Some(Layout { width_bytes: 8, mant_pow: 0x10_0000_0000_0000, exp_pow: 2048, half_pow: 0x8000_0000_0000_0000, quiet_pow: 0x8_0000_0000_0000, single: false })
    } else if str_eq(dtype, "f32") {
        Some(Layout { width_bytes: 4, mant_pow: 0x80_0000, exp_pow: 256, half_pow: 0x8000_0000, quiet_pow: 0x40_0000, single: false })
    } else if str_eq(dtype, "f16") {
        Some(Layout { width_bytes: 2, mant_pow: 1024, exp_pow: 32, half_pow: 0x8000, quiet_pow: 512, single: false })
    } else if str_eq(dtype, "bf16") {
        Some(Layout { width_bytes: 2, mant_pow: 128, exp_pow: 256, half_pow: 0x8000, quiet_pow: 64, single: false })
    } else if str_eq(dtype, "f8e5m2") {
        Some(Layout { width_bytes: 1, mant_pow: 4, exp_pow: 32, half_pow: 128, quiet_pow: 2, single: false })
    } else if str_eq(dtype, "f8e4m3fn") {
        Some(Layout { width_bytes: 1, mant_pow: 8, exp_pow: 16, half_pow: 128, quiet_pow: 4, single: true })
    } else {
        None
    }
}

/// Whether this dtype's encoding admits a signaling NaN: every IEEE-style
/// dtype except `f8e4m3fn`.
pub fn admits_snan(dtype: &str) -> (r: bool)
    ensures
        r == admits_snan_of(dtype@),
{
    match layout(dtype) {
        Some(l) => !l.single,
        None => false,
    }
}

proof fn lemma_be_value_bound(be: Seq<u8>)
    ensures
        be_value(be) < pow2(8 * be.len()),
    decreases be.len(),
{
    if be.len() > 0 {
        lemma_be_value_bound(be.drop_last());
        vstd::arithmetic::power2::lemma_pow2_adds(8 * (be.len() - 1) as nat, 8);
        lemma2_to64();
        assert(8 * (be.len() - 1) + 8 == 8 * be.len());
        assert(be_value(be) < pow2(8 * be.len())) by (nonlinear_arith)
            requires
                be_value(be) == be_value(be.drop_last()) * 256 + be.last() as nat,
                be_value(be.drop_last()) < pow2(8 * (be.len() - 1) as nat),
                be.last() < 256,
                pow2(8 * be.len() as nat) == pow2(8 * (be.len() - 1) as nat) * 256;
    } else {
        lemma2_to64();
    }
}

/// The raw bits of big-endian bytes of the layout's native width.
fn bits_be(width_bytes: usize, be: &[u8]) -> (r: Option<u64>)
    requires
        width_bytes <= 8,
    ensures
        r is Some <==> be@.len() == width_bytes,
        r matches Some(v) ==> v as nat == be_value(be@),
{
    if be.len() != width_bytes {
        return None;
    }
    let mut acc: u64 = 0;
    let mut i: usize = 0;
    while i < be.len()
        invariant
            i <= be@.len() <= 8,
            acc as nat == be_value(be@.take(i as int)),
        decreases be.len() - i,
    {
        proof {
            assert(be@.take(i + 1).drop_last() == be@.take(i as int));
            lemma_be_value_bound(be@.take(i as int));
            lemma2_to64();
            lemma2_to64_rest();
            if 8 * i < 56 {
                vstd::arithmetic::power2::lemma_pow2_strictly_increases(8 * i as nat, 56);
            }
        }
        acc = acc * 256 + be[i] as u64;
        i += 1;
    }
    assert(be@.take(be@.len() as int) == be@);
    Some(acc)
}

fn nan_in(l: &Layout, bits: u64) -> (r: bool)
    requires
        1 <= l.mant_pow,
        1 <= l.exp_pow,
        1 <= l.half_pow,
    ensures
        r == if l.single {
            bits % l.half_pow == l.half_pow - 1
        } else {
            (bits / l.mant_pow) % l.exp_pow == l.exp_pow - 1 && bits % l.mant_pow != 0
        },
{
    if l.single {
        bits % l.half_pow == l.half_pow - 1
    } else {
        (bits / l.mant_pow) % l.exp_pow == l.exp_pow - 1 && bits % l.mant_pow != 0
    }
}

/// Whether `be` (big-endian, native width) encodes a NaN in `dtype`. An
/// unknown dtype or a byte run of the wrong width is not a NaN.
pub fn is_nan(dtype: &str, be: &[u8]) -> (r: bool)
    ensures
        r == is_nan_of(dtype@, be@),
{
    let l = match layout(dtype) {
        Some(l) => l,
        None => return false,
    };
    proof {
        lemma2_to64();
        lemma2_to64_rest();
    }
    let bits = match bits_be(l.width_bytes, be) {
        Some(b) => b,
        None => return false,
    };
    nan_in(&l, bits)
}

/// Bytes as the debug rendering of a byte list in two-digit uppercase hex:
/// `[7F, C0]`.
pub open spec fn hex_list(b: Seq<u8>) -> Seq<char> {
    "["@ + join(b.map_values(|x: u8| byte_hex_upper(x)), ", "@) + "]"@
}

fn push_hex_list(s: &mut String, b: &[u8])
    ensures
        final(s)@ == old(s)@ + hex_list(b@),
{
    let ghost s0 = s@;
    let ghost parts = b@.map_values(|x: u8| byte_hex_upper(x));
    push_str(s, "[");
    let mut i: usize = 0;
    while i < b.len()
        invariant
            i <= b@.len(),
            parts == b@.map_values(|x: u8| byte_hex_upper(x)),
            s@ == s0 + "["@ + join(parts.take(i as int), ", "@),
        decreases b.len() - i,
    {
        if i > 0 {
            push_str(s, ", ");
        }
        push_byte_hex_upper(s, b[i]);
        proof {
            crate::text::lemma_join_push(parts.take(i as int), byte_hex_upper(b@[i as int]), ", "@);
            assert(parts.take(i + 1) =~= parts.take(i as int).push(byte_hex_upper(b@[i as int])));
        }
        i += 1;
    }
    assert(parts.take(i as int) =~= parts);
    push_str(s, "]");
}

/// The reason a row fails its NaN-output comparison, if it does.
pub open spec fn nan_compare_error(dtype: Seq<char>, actual: Seq<u8>, expected: Seq<u8>, prov: NanProvenance) -> Option<Seq<char>> {
    match prov {
        NanProvenance::Moved => if actual == expected {
            None
        } else {
            Some("moved-NaN mismatch ("@ + dtype + "): bytes differ — payload/sign not preserved (actual "@
                + hex_list(actual) + ", expected "@ + hex_list(expected) + ")"@)
        },
        NanProvenance::Computed => match layout_of(dtype) {
            None => Some("unknown dtype `"@ + dtype + "`"@),
            Some((w, m, single)) => if !is_nan_of(dtype, actual) {
                Some("computed-NaN mismatch ("@ + dtype + "): actual is not a NaN"@)
            } else if !is_nan_of(dtype, expected) {
                Some("computed-NaN test error ("@ + dtype + "): expected is not a NaN"@)
            } else if single {
                None
            } else if quiet_of(m, be_value(actual)) == quiet_of(m, be_value(expected)) {
                None
            } else {
                Some("computed-NaN quietness mismatch ("@ + dtype + "): actual quiet="@
                    + bool_text(quiet_of(m, be_value(actual))) + ", expected quiet="@
                    + bool_text(quiet_of(m, be_value(expected)))
                    + " (§6.16-0010 — quietness must agree where the format admits an sNaN)"@)
            },
        },
    }
}

/// `true` / `false` as text.
pub open spec fn bool_text(b: bool) -> Seq<char> {
    if b { "true"@ } else { "false"@ }
}

fn push_bool(s: &mut String, b: bool)
    ensures
        final(s)@ == old(s)@ + bool_text(b),
{
    if b {
        push_str(s, "true");
    } else {
        push_str(s, "false");
    }
}

/// Compare a NaN-output row by its provenance (big-endian native bytes): a
/// moved NaN must match byte for byte; a computed NaN must be a NaN on both
/// sides and, where the dtype admits a signaling NaN, agree in its quiet bit.
pub fn compare_nan_output(dtype: &str, actual: &[u8], expected: &[u8], prov: NanProvenance) -> (r: Result<(), String>)
    ensures
        match nan_compare_error(dtype@, actual@, expected@, prov) {
            None => r is Ok,
            Some(e) => r matches Err(m) && m@ == e,
        },
{
    match prov {
        NanProvenance::Moved => {
            if crate::text::bytes_eq(actual, expected) {
                Ok(())
            } else {
                let mut s = String::new();
                push_str(&mut s, "moved-NaN mismatch (");
                push_str(&mut s, dtype);
                push_str(&mut s, "): bytes differ — payload/sign not preserved (actual ");
                push_hex_list(&mut s, actual);
                push_str(&mut s, ", expected ");
                push_hex_list(&mut s, expected);
                push_str(&mut s, ")");
                Err(s)
            }
        },
        NanProvenance::Computed => {
            let l = match layout(dtype) {
                Some(l) => l,
                None => {
                    let mut s = String::new();
                    push_str(&mut s, "unknown dtype `");
                    push_str(&mut s, dtype);
                    push_str(&mut s, "`");
                    return Err(s);
                },
            };
            if !is_nan(dtype, actual) {
                let mut s = String::new();
                push_str(&mut s, "computed-NaN mismatch (");
                push_str(&mut s, dtype);
                push_str(&mut s, "): actual is not a NaN");
                return Err(s);
            }
            if !is_nan(dtype, expected) {
                let mut s = String::new();
                push_str(&mut s, "computed-NaN test error (");
                push_str(&mut s, dtype);
                push_str(&mut s, "): expected is not a NaN");
                return Err(s);
            }
            if l.single {
                return Ok(());
            }
            proof {
                lemma2_to64();
                lemma2_to64_rest();
            }
            let (ab, eb) = match (bits_be(l.width_bytes, actual), bits_be(l.width_bytes, expected)) {
                (Some(a), Some(e)) => (a, e),
                _ => {
                    let mut s = String::new();
                    push_str(&mut s, "computed-NaN (");
                    push_str(&mut s, dtype);
                    push_str(&mut s, "): byte width mismatch");
                    return Err(s);
                },
            };
            let qa = (ab / l.quiet_pow) % 2 == 1;
            let qe = (eb / l.quiet_pow) % 2 == 1;
            if qa == qe {
                Ok(())
            } else {
                let mut s = String::new();
                push_str(&mut s, "computed-NaN quietness mismatch (");
                push_str(&mut s, dtype);
                push_str(&mut s, "): actual quiet=");
                push_bool(&mut s, qa);
                push_str(&mut s, ", expected quiet=");
                push_bool(&mut s, qe);
                push_str(&mut s, " (§6.16-0010 — quietness must agree where the format admits an sNaN)");
                Err(s)
            }
        },
    }
}

} // verus!
