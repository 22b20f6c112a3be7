//! KISS conformance core: reference codecs, readers and checks for the KISS
//! interface standards, with their behavior stated in contracts and proved.
//!
//! The crate root holds the determinism-class comparator and the hex helpers
//! the golden-vector checks use; the codecs live in their own modules.

pub mod text;
pub mod wire;
pub mod announce;
pub mod contract;
pub mod structure_key;
pub mod integer;
pub mod opattrs;
pub mod shape_expr;
pub mod antifork;
pub mod correlation_id;
pub mod decline;
pub mod bundle_envelope;
pub mod bundle_isolation;
pub mod differential;
pub mod structural;
pub mod determinism;
pub mod per_output;
pub mod expressibility;
pub mod dtype;
pub mod nan_provenance;
pub mod dispatch;
pub mod dispatch_expr;
pub mod decomp_grammar;
pub mod grammar;
pub mod hp;
pub mod json;
pub mod corpus;
pub mod opattrs_schema;
pub mod namespace_vocabulary;

use vstd::prelude::*;
use crate::text::{
    bytes_eq, chars_of, hex_upper_spaced, hex_val, hex_value, is_hex, is_hex_char,
    push_hex_upper_spaced, push_str,
};

verus! {

/// A determinism/fidelity class that selects a comparator.
#[derive(Debug, Clone, Copy, PartialEq, Eq, Structural)]
pub enum DeterminismClass {
    ExactByte,
    UlpTolerance,
    OrderInvariant,
}

/// The message `compare` gives for a byte mismatch under the exact-byte comparator.
pub open spec fn mismatch_message(actual: Seq<u8>, expected: Seq<u8>) -> Seq<char> {
    "byte mismatch under exact-byte comparator\n    expected: "@ + hex_upper_spaced(expected)
        + "\n    actual:   "@ + hex_upper_spaced(actual)
}

/// The name of a class as its debug rendering spells it.
pub open spec fn class_name(class: DeterminismClass) -> Seq<char> {
    match class {
        DeterminismClass::ExactByte => "ExactByte"@,
        DeterminismClass::UlpTolerance => "UlpTolerance"@,
        DeterminismClass::OrderInvariant => "OrderInvariant"@,
    }
}

/// Append the name of a class to `s`.
pub fn push_class_name(s: &mut String, class: DeterminismClass)
    ensures
        final(s)@ == old(s)@ + class_name(class),
{
    match class {
        DeterminismClass::ExactByte => push_str(s, "ExactByte"),
        DeterminismClass::UlpTolerance => push_str(s, "UlpTolerance"),
        DeterminismClass::OrderInvariant => push_str(s, "OrderInvariant"),
    }
}

/// The message `compare` gives for a class whose comparator is outside this slice.
pub open spec fn unsupported_class_message(class: DeterminismClass) -> Seq<char> {
    "comparator for "@ + class_name(class) + " is not part of this slice"@
}

/// Compare `actual` against `expected` under a determinism class. Only the
/// exact-byte comparator is part of this slice: it accepts exactly equal byte
/// strings.
pub fn compare(class: DeterminismClass, actual: &[u8], expected: &[u8]) -> (r: Result<(), String>)
    ensures
        r is Ok <==> (class == DeterminismClass::ExactByte && actual@ == expected@),
        r matches Err(e) ==> e@ == (if class == DeterminismClass::ExactByte {
            mismatch_message(actual@, expected@)
        } else {
            unsupported_class_message(class)
        }),
{
    match class {
        DeterminismClass::ExactByte => {
            if bytes_eq(actual, expected) {
                Ok(())
            } else {
                let mut s = String::new();
                push_str(&mut s, "byte mismatch under exact-byte comparator\n    expected: ");
                push_hex_upper_spaced(&mut s, expected);
                push_str(&mut s, "\n    actual:   ");
                push_hex_upper_spaced(&mut s, actual);
                Err(s)
            }
        },
        DeterminismClass::UlpTolerance => {
            let mut s = String::new();
            push_str(&mut s, "comparator for ");
            push_str(&mut s, "UlpTolerance");
            push_str(&mut s, " is not part of this slice");
            Err(s)
        },
        DeterminismClass::OrderInvariant => {
            let mut s = String::new();
            push_str(&mut s, "comparator for ");
            push_str(&mut s, "OrderInvariant");
            push_str(&mut s, " is not part of this slice");
            Err(s)
        },
    }
}

/// Render bytes as space-separated uppercase hex — the "bytes on the wire,
/// left to right" display convention.
pub fn hex(bytes: &[u8]) -> (s: String)
    ensures
        s@ == hex_upper_spaced(bytes@),
{
    let mut s = String::new();
    push_hex_upper_spaced(&mut s, bytes);
    s
}

/// The hex digits of `s`, in order, with every other character dropped.
pub open spec fn hex_digits_of(s: Seq<char>) -> Seq<char> {
    s.filter(|c: char| is_hex_char(c))
}

/// The bytes spelled by an even-length run of hex digits, two digits per byte.
pub open spec fn hex_pairs(d: Seq<char>) -> Seq<u8> {
    Seq::new(d.len() / 2, |i: int| (hex_value(d[2 * i]) * 16 + hex_value(d[2 * i + 1])) as u8)
}

/// Parse a golden-vector hex string into bytes. Any character that is not a hex
/// digit (spaces, the `·` grouping mark) is ignored, so a vector may be
/// transcribed exactly as printed. The digit count must be even.
pub fn parse_hex(s: &str) -> (v: Vec<u8>)
    requires
        hex_digits_of(s@).len() % 2 == 0,
    ensures
        v@ == hex_pairs(hex_digits_of(s@)),
{
    let cs = chars_of(s);
    let mut digits: Vec<char> = Vec::new();
    let mut i: usize = 0;
    while i < cs.len()
        invariant
            i <= cs.len(),
            cs@ == s@,
            digits@ == hex_digits_of(cs@.take(i as int)),
            forall|j: int| 0 <= j < digits@.len() ==> is_hex_char(#[trigger] digits@[j]),
        decreases cs.len() - i,
    {
        let c = cs[i];
        proof {
            reveal_with_fuel(Seq::filter, 1);
            assert(cs@.take(i + 1).drop_last() == cs@.take(i as int));
        }
        if is_hex(c) {
            digits.push(c);
        }
        i += 1;
    }
    assert(cs@.take(cs.len() as int) == cs@);
    let ghost d = digits@;
    let mut out: Vec<u8> = Vec::new();
    let mut k: usize = 0;
    while k + 1 < digits.len()
        invariant
            digits@ == d,
            d.len() % 2 == 0,
            k % 2 == 0,
            k <= d.len(),
            out@.len() == k / 2,
            forall|j: int| 0 <= j < d.len() ==> is_hex_char(#[trigger] d[j]),
            forall|j: int| 0 <= j < out@.len() ==> out@[j] == hex_pairs(d)[j],
        decreases d.len() - k,
    {
        let hi = hex_val(digits[k]);
        let lo = hex_val(digits[k + 1]);
        out.push(hi * 16 + lo);
        k += 2;
    }
    assert(out@ =~= hex_pairs(d));
    out
}

} // verus!
