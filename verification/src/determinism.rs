//! Determinism/fidelity class of the KISS-Ops scalar atoms, the true class of
//! an op (atoms plus the monoid folds), the permissiveness order on classes, and
//! the advertisement-honesty lint built on it.

use vstd::prelude::*;
use crate::{class_name, push_class_name, DeterminismClass};
use crate::structural::Monoid;
use crate::structure_key::{in_table, table_contains};
use crate::text::{push_str, str_eq};

verus! {

/// The exact-byte atoms whose class is unconditional (no monoid or combine).
pub const EXACT_BYTE_ATOMS: [&'static str; 39] = [
    "add", "sub", "mul", "div", "neg", "abs",
    "cmp_eq", "cmp_ne", "cmp_lt", "cmp_le", "cmp_gt", "cmp_ge",
    "floor", "ceil", "trunc", "round_even",
    "bit_and", "bit_or", "bit_xor", "bit_not", "shl", "shr", "popcount", "clz", "ctz",
    "select", "copysign", "nextafter",
    "cadd", "csub", "cneg", "cconj", "cmul", "cdiv", "cmake", "cre", "cim",
    "element_map", "gather",
];

/// The declared-ULP transcendental atoms; `atan2` is one of them.
pub const TRANSCENDENTAL_ATOMS: [&'static str; 9] =
    ["exp", "log", "sin", "cos", "sqrt", "erf", "atan", "lgamma", "atan2"];

/// The ordered comparison atoms: the ops whose output reports which value won
/// a comparison, so a node built from one is a selection.
pub const COMPARISON_ATOMS: [&'static str; 6] =
    ["cmp_eq", "cmp_ne", "cmp_lt", "cmp_le", "cmp_gt", "cmp_ge"];

/// The class of a scalar atom: ULP/tolerance for a transcendental, exact-byte
/// for an unconditional exact-byte atom, and nothing for any other token.
pub open spec fn atom_class(op: Seq<char>) -> Option<DeterminismClass> {
    if in_table(TRANSCENDENTAL_ATOMS@, op) {
        Some(DeterminismClass::UlpTolerance)
    } else if in_table(EXACT_BYTE_ATOMS@, op) {
        Some(DeterminismClass::ExactByte)
    } else {
        None
    }
}

/// The determinism/fidelity class of a scalar atom. Returns `None` for an op
/// this atom-level model does not cover (a conditional fold op, or an unknown
/// token) — a typed "not an unconditional scalar atom", never a panic.
pub fn atom_determinism_class(op: &str) -> (r: Option<DeterminismClass>)
    ensures
        r == atom_class(op@),
{
    if table_contains(&TRANSCENDENTAL_ATOMS, op) {
        Some(DeterminismClass::UlpTolerance)
    } else if table_contains(&EXACT_BYTE_ATOMS, op) {
        Some(DeterminismClass::ExactByte)
    } else {
        None
    }
}

/// Whether `op` is a comparison atom, whose output is a selection.
pub fn is_selection_producer(op: &str) -> (r: bool)
    ensures
        r == in_table(COMPARISON_ATOMS@, op@),
{
    table_contains(&COMPARISON_ATOMS, op)
}

/// The fold ops whose class depends on their monoid.
pub open spec fn is_fold_op(op: Seq<char>) -> bool {
    op == "reduce"@ || op == "prefix_scan"@
}

/// The true class of an op: a `reduce`/`prefix_scan` takes its monoid's class
/// (undetermined without a monoid); any other op is classed as a scalar atom.
pub open spec fn true_class(op: Seq<char>, monoid: Option<Monoid>) -> Option<DeterminismClass> {
    if is_fold_op(op) {
        match monoid {
            Some(Monoid::Sum) | Some(Monoid::Prod) => Some(DeterminismClass::OrderInvariant),
            Some(Monoid::Max) | Some(Monoid::Min) => Some(DeterminismClass::ExactByte),
            None => None,
        }
    } else {
        atom_class(op)
    }
}

/// The true determinism/fidelity class of an op: the unconditional-atom oracle
/// extended with the fold arm, where float `Sum`/`Prod` accumulate rounding
/// order-dependently and `Max`/`Min` are order-independent selections. `None`
/// means the model does not determine the class.
pub fn op_true_class(op: &str, monoid: Option<Monoid>) -> (r: Option<DeterminismClass>)
    ensures
        r == true_class(op@, monoid),
{
    if str_eq(op, "reduce") || str_eq(op, "prefix_scan") {
        return match monoid {
            Some(Monoid::Sum) | Some(Monoid::Prod) => Some(DeterminismClass::OrderInvariant),
            Some(Monoid::Max) | Some(Monoid::Min) => Some(DeterminismClass::ExactByte),
            None => None,
        };
    }
    atom_determinism_class(op)
}

/// The permissiveness rank: exact-byte < ULP/tolerance < order-invariant.
pub open spec fn rank(c: DeterminismClass) -> u8 {
    match c {
        DeterminismClass::ExactByte => 0,
        DeterminismClass::UlpTolerance => 1,
        DeterminismClass::OrderInvariant => 2,
    }
}

/// The permissiveness order `exact-byte < ULP/tolerance < order-invariant`. A
/// larger value admits a wider set of results.
pub fn class_permissiveness(c: DeterminismClass) -> (p: u8)
    ensures
        p == rank(c),
{
    match c {
        DeterminismClass::ExactByte => 0,
        DeterminismClass::UlpTolerance => 1,
        DeterminismClass::OrderInvariant => 2,
    }
}

/// The message for an advertised class more permissive than the true one.
pub open spec fn dishonest_message(advertised: DeterminismClass, truth: DeterminismClass) -> Seq<char> {
    "dishonest advertisement: "@ + class_name(advertised)
        + " is more permissive than the true class "@ + class_name(truth)
        + " (§6.0-0005) — its comparator could not catch a real error"@
}

/// The advertisement-honesty lint: rejects an advertised class strictly more
/// permissive than the op's true class (its comparator would be too loose to
/// catch a real error); an advertisement no more permissive than the truth
/// passes and is handed back for the comparator.
pub fn check_advertisement(advertised: DeterminismClass, true_class: DeterminismClass) -> (r: Result<DeterminismClass, String>)
    ensures
        r is Ok <==> rank(advertised) <= rank(true_class),
        r matches Ok(c) ==> c == advertised,
        r matches Err(e) ==> e@ == dishonest_message(advertised, true_class),
{
    if class_permissiveness(advertised) > class_permissiveness(true_class) {
        let mut s = String::new();
        push_str(&mut s, "dishonest advertisement: ");
        push_class_name(&mut s, advertised);
        push_str(&mut s, " is more permissive than the true class ");
        push_class_name(&mut s, true_class);
        push_str(&mut s, " (§6.0-0005) — its comparator could not catch a real error");
        return Err(s);
    }
    Ok(advertised)
}

/// The permissiveness rank orders the three classes strictly and tells them
/// apart: it is a faithful encoding of the order.
pub proof fn permissiveness_is_a_strict_order(a: DeterminismClass, b: DeterminismClass)
    ensures
        rank(a) == rank(b) <==> a == b,
        rank(DeterminismClass::ExactByte) < rank(DeterminismClass::UlpTolerance),
        rank(DeterminismClass::UlpTolerance) < rank(DeterminismClass::OrderInvariant),
{
}

} // verus!
