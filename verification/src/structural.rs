//! The structural (multi-element) access atoms: their parameter enums and the
//! determinism class each fold monoid and scatter combine carries over an `f32`
//! dtype. The float oracles that fold and compare `f32` values themselves sit
//! outside the verified library.

use vstd::prelude::*;
use crate::DeterminismClass;

verus! {

/// The `reduce` / `prefix_scan` fold monoid, one of `{sum, prod, max, min}`.
/// `Max`/`Min` are NaN-propagating.
#[derive(Debug, Clone, Copy, PartialEq, Eq, Structural)]
pub enum Monoid {
    Sum,
    Prod,
    Max,
    Min,
}

/// The class a monoid's `f32` fold carries: `Sum`/`Prod` fold with
/// non-associative float `add`/`mul`, so they are order-invariant; `Max`/`Min`
/// are exact-byte (compared after canonicalizing the sign of a zero result).
pub open spec fn monoid_class(m: Monoid) -> DeterminismClass {
    match m {
        Monoid::Sum | Monoid::Prod => DeterminismClass::OrderInvariant,
        Monoid::Max | Monoid::Min => DeterminismClass::ExactByte,
    }
}

impl Monoid {
    /// The determinism/fidelity class this monoid's `reduce`/`prefix_scan`
    /// carries over an `f32` dtype.
    pub fn class_f32(self) -> (c: DeterminismClass)
        ensures
            c == monoid_class(self),
    {
        match self {
            Monoid::Sum | Monoid::Prod => DeterminismClass::OrderInvariant,
            Monoid::Max | Monoid::Min => DeterminismClass::ExactByte,
        }
    }
}

/// Whether a `prefix_scan` element sees itself (`Inclusive`) or only its
/// strict predecessors (`Exclusive`).
#[derive(Debug, Clone, Copy, PartialEq, Eq, Structural)]
pub enum ScanKind {
    Inclusive,
    Exclusive,
}

/// The out-of-bounds policy for a `gather` read: `{skip, clamp, zero-fill}`.
#[derive(Debug, Clone, Copy, PartialEq, Eq, Structural)]
pub enum OobRead {
    /// The addressed output position is not written.
    Skip,
    /// The index is clamped into `[0, len-1]` and that element is read.
    Clamp,
    /// The read yields the dtype zero regardless of the index.
    ZeroFill,
}

/// The write-combining operator of `scatter`:
/// `{assign, atomic-add, atomic-max, atomic-min}`.
#[derive(Debug, Clone, Copy, PartialEq, Eq, Structural)]
pub enum Combine {
    /// Overwrite; the highest source index wins a tie.
    Assign,
    /// `dest += src`; on a floating-point dtype the one order-invariant combine.
    AtomicAdd,
    /// `dest = max_prop(dest, src)`, NaN-propagating.
    AtomicMax,
    /// `dest = min_prop(dest, src)`, NaN-propagating.
    AtomicMin,
}

/// The class a scatter combine carries over an `f32` dtype: only the float
/// atomic-add is order-invariant.
pub open spec fn combine_class(c: Combine) -> DeterminismClass {
    match c {
        Combine::AtomicAdd => DeterminismClass::OrderInvariant,
        Combine::Assign | Combine::AtomicMax | Combine::AtomicMin => DeterminismClass::ExactByte,
    }
}

impl Combine {
    /// The determinism/fidelity class of this combine over an `f32` dtype.
    pub fn class_f32(self) -> (c: DeterminismClass)
        ensures
            c == combine_class(self),
    {
        match self {
            Combine::AtomicAdd => DeterminismClass::OrderInvariant,
            Combine::Assign | Combine::AtomicMax | Combine::AtomicMin => DeterminismClass::ExactByte,
        }
    }
}

/// The `sort_network` sort direction, default ascending.
#[derive(Debug, Clone, Copy, PartialEq, Eq, Structural)]
pub enum SortDirection {
    Ascending,
    Descending,
}

} // verus!
