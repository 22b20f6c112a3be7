//! Reference evaluator and canonical serializer for the KISS-Ops
//! shape-expression vocabulary and the shape-side oracle (Ops §6.20).
//!
//! The closed core vocabulary is `ShapeExpr := SameAs(operand)` and
//! `DimExpr := Extent(operand, axis) | Const | Param | DimExpr BinOp DimExpr`.
//! Operand references are positional; `axis` is a non-negative index or the
//! reserved `last` sentinel ([`LAST`]); `÷` is floor division. `Reduce` /
//! `WithDim` / `Dims` are reserved tags, never emitted and rejected by a
//! reader. Serialization follows the §6.19 discipline: a one-byte tag (`0`
//! reserved), fixed-width little-endian fields and `u16`-LE length-prefixed
//! children, so a shape-bearing blob is byte-deterministic.

use vstd::prelude::*;
use std::collections::BTreeSet;
use crate::wire::{
    copy_range, i64_le, i64_of_le, le_value, lemma_i64_roundtrip, lemma_u16_roundtrip, push_all,
    push_i64_le, push_u16_le, read_i64_le, read_u16_le, u16_le,
};

verus! {

pub const TAG_SAME_AS: u8 = 0x01;
pub const TAG_EXTENT: u8 = 0x02;
pub const TAG_CONST: u8 = 0x03;
pub const TAG_PARAM: u8 = 0x04;
pub const TAG_ADD: u8 = 0x05;
pub const TAG_SUB: u8 = 0x06;
pub const TAG_MUL: u8 = 0x07;
pub const TAG_DIV: u8 = 0x08;
/// Reserved (extension registry).
pub const TAG_REDUCE: u8 = 0x09;
/// Reserved.
pub const TAG_WITH_DIM: u8 = 0x0A;
/// Reserved.
pub const TAG_DIMS: u8 = 0x0B;

/// The sentinel extent of a symbolic / data-dependent axis length: an
/// expression over it resolves to a surfaced gap (§6.20-0004).
pub const SYMBOLIC: i64 = i64::MIN;

/// The reserved `axis` sentinel for the last (trailing) axis, resolved to
/// `rank - 1` at evaluation time (§6.20-0002/-0003).
pub const LAST: u8 = 0xFF;

/// A single-dimension expression (`DimExpr`).
#[derive(Debug, PartialEq, Eq)]
pub enum Dim {
    /// The size of `operand`'s `axis` (non-negative index, or [`LAST`]).
    Extent { operand: u8, axis: u8 },
    /// A pinned integer constant.
    Const(i64),
    /// The value of the op's `field`-th declared param.
    Param(u8),
    Add(Box<Dim>, Box<Dim>),
    Sub(Box<Dim>, Box<Dim>),
    Mul(Box<Dim>, Box<Dim>),
    /// Floor division (rounds toward −∞).
    Div(Box<Dim>, Box<Dim>),
}

/// A whole-shape expression (`ShapeExpr`); the closed core is `SameAs`.
#[derive(Debug, Clone, PartialEq, Eq, Structural)]
pub enum ShapeExpr {
    /// The operand's whole shape.
    SameAs { operand: u8 },
}

/// A concrete dimension, or a surfaced gap (§6.20-0004).
#[derive(Debug, Clone, PartialEq, Eq, Structural)]
pub enum DimValue {
    Concrete(i64),
    Gap,
}

/// A concrete shape, or a surfaced gap.
#[derive(Debug, Clone, PartialEq, Eq)]
pub enum ShapeValue {
    Concrete(Vec<i64>),
    Gap,
}

/// A typed decline: a reader or evaluator refuses a malformed input with one of
/// these (§6.20-0003/0006).
#[derive(Debug, Clone, PartialEq, Eq, Structural)]
pub enum ShapeExprError {
    /// The reserved `0` tag was read (§6.19-0006).
    ZeroTag,
    /// A tag not defined for a `DimExpr` in this vocabulary version.
    ReservedTag { tag: u8 },
    /// The blob was shorter than the tag's schema requires.
    TruncatedBlob { need: usize, got: usize },
    /// Bytes remained after a complete expression was decoded.
    TrailingBytes { extra: usize },
    /// A concrete axis was `>= rank` (or `last` on a rank-0 operand).
    AxisOutOfRange { axis: u8, rank: usize },
    /// An operand index named no operand.
    OperandOutOfRange { operand: u8, operands: usize },
    /// A param index named no declared param.
    ParamOutOfRange { field: u8, params: usize },
    /// A `÷` by zero (§6.20-0003).
    DivideByZero,
    /// A concrete intermediate value left `i64`.
    Overflow,
}

// ---------------------------------------------------------------------------
// Serialization (§6.20-0005).
// ---------------------------------------------------------------------------

/// The canonical wire bytes of a shape expression.
pub open spec fn shape_bytes(s: ShapeExpr) -> Seq<u8> {
    match s {
        ShapeExpr::SameAs { operand } => seq![TAG_SAME_AS, operand],
    }
}

/// A binary node: the tag, then each child as a `u16`-LE length and its bytes.
pub open spec fn binary_bytes(tag: u8, a: Seq<u8>, b: Seq<u8>) -> Seq<u8> {
    seq![tag] + u16_le(a.len() as u16) + a + u16_le(b.len() as u16) + b
}

/// The canonical wire bytes of a dim expression.
pub open spec fn dim_bytes(d: Dim) -> Seq<u8>
    decreases d,
{
    match d {
        Dim::Extent { operand, axis } => seq![TAG_EXTENT, operand, axis],
        Dim::Const(c) => seq![TAG_CONST] + i64_le(c),
        Dim::Param(f) => seq![TAG_PARAM, f],
        Dim::Add(a, b) => binary_bytes(TAG_ADD, dim_bytes(*a), dim_bytes(*b)),
        Dim::Sub(a, b) => binary_bytes(TAG_SUB, dim_bytes(*a), dim_bytes(*b)),
        Dim::Mul(a, b) => binary_bytes(TAG_MUL, dim_bytes(*a), dim_bytes(*b)),
        Dim::Div(a, b) => binary_bytes(TAG_DIV, dim_bytes(*a), dim_bytes(*b)),
    }
}

impl ShapeExpr {
    /// The canonical wire bytes for this shape expression (§6.20-0005).
    pub fn encode(&self) -> (v: Vec<u8>)
        ensures
            v@ == shape_bytes(*self),
    {
        match self {
            ShapeExpr::SameAs { operand } => {
                let v = vec![TAG_SAME_AS, *operand];
                assert(v@ =~= shape_bytes(*self));
                v
            },
        }
    }
}

impl Dim {
    /// The canonical wire bytes for this dim expression (§6.20-0005).
    pub fn encode(&self) -> (v: Vec<u8>)
        ensures
            v@ == dim_bytes(*self),
        decreases self,
    {
        match self {
            Dim::Extent { operand, axis } => {
                let v = vec![TAG_EXTENT, *operand, *axis];
                assert(v@ =~= dim_bytes(*self));
                v
            },
            Dim::Const(c) => {
                let mut v = vec![TAG_CONST];
                push_i64_le(&mut v, *c);
                assert(v@ =~= dim_bytes(*self));
                v
            },
            Dim::Param(f) => {
                let v = vec![TAG_PARAM, *f];
                assert(v@ =~= dim_bytes(*self));
                v
            },
            Dim::Add(a, b) => {
                let ca = a.encode();
                let cb = b.encode();
                frame_binary(TAG_ADD, ca.as_slice(), cb.as_slice())
            },
            Dim::Sub(a, b) => {
                let ca = a.encode();
                let cb = b.encode();
                frame_binary(TAG_SUB, ca.as_slice(), cb.as_slice())
            },
            Dim::Mul(a, b) => {
                let ca = a.encode();
                let cb = b.encode();
                frame_binary(TAG_MUL, ca.as_slice(), cb.as_slice())
            },
            Dim::Div(a, b) => {
                let ca = a.encode();
                let cb = b.encode();
                frame_binary(TAG_DIV, ca.as_slice(), cb.as_slice())
            },
        }
    }
}

fn frame_binary(tag: u8, ca: &[u8], cb: &[u8]) -> (v: Vec<u8>)
    ensures
        v@ == binary_bytes(tag, ca@, cb@),
{
    let mut v = vec![tag];
    push_u16_le(&mut v, #[verifier::truncate] (ca.len() as u16));
    push_all(&mut v, ca);
    push_u16_le(&mut v, #[verifier::truncate] (cb.len() as u16));
    push_all(&mut v, cb);
    assert(v@ =~= binary_bytes(tag, ca@, cb@));
    v
}


// ---------------------------------------------------------------------------
// Deserialization (§6.20-0006: a typed decline, never a panic).
// ---------------------------------------------------------------------------

/// `a - b`, or `0` when `b > a`.
pub open spec fn sat_sub(a: nat, b: nat) -> nat {
    if a >= b {
        (a - b) as nat
    } else {
        0
    }
}

/// The binary node a tag builds.
pub open spec fn binary_node(tag: u8, a: Dim, b: Dim) -> Dim {
    if tag == TAG_ADD {
        Dim::Add(Box::new(a), Box::new(b))
    } else if tag == TAG_SUB {
        Dim::Sub(Box::new(a), Box::new(b))
    } else if tag == TAG_MUL {
        Dim::Mul(Box::new(a), Box::new(b))
    } else {
        Dim::Div(Box::new(a), Box::new(b))
    }
}

/// The reading of a whole blob as one dim expression: the expression at `0`
/// must consume every byte.
pub open spec fn dim_of(b: Seq<u8>) -> Result<Dim, ShapeExprError>
    decreases b.len(), 2nat,
{
    match dim_at(b, 0) {
        Err(e) => Err(e),
        Ok((d, c)) => if c != b.len() {
            Err(ShapeExprError::TrailingBytes { extra: (b.len() - c) as usize })
        } else {
            Ok(d)
        },
    }
}

/// The reading of the dim expression at `pos`, and the position after it.
pub open spec fn dim_at(b: Seq<u8>, pos: int) -> Result<(Dim, int), ShapeExprError>
    decreases b.len(), 1nat,
{
    if pos < 0 || pos >= b.len() {
        Err(ShapeExprError::TruncatedBlob { need: (pos + 1) as usize, got: b.len() as usize })
    } else {
        let tag = b[pos];
        if tag == 0 {
            Err(ShapeExprError::ZeroTag)
        } else if tag == TAG_EXTENT {
            if b.len() < pos + 3 {
                Err(ShapeExprError::TruncatedBlob { need: 3, got: sat_sub(b.len(), pos as nat) as usize })
            } else {
                Ok((Dim::Extent { operand: b[pos + 1], axis: b[pos + 2] }, pos + 3))
            }
        } else if tag == TAG_CONST {
            if b.len() < pos + 9 {
                Err(ShapeExprError::TruncatedBlob { need: 9, got: sat_sub(b.len(), pos as nat) as usize })
            } else {
                Ok((Dim::Const(i64_of_le(b.subrange(pos + 1, pos + 9)) as i64), pos + 9))
            }
        } else if tag == TAG_PARAM {
            if b.len() < pos + 2 {
                Err(ShapeExprError::TruncatedBlob { need: 2, got: sat_sub(b.len(), pos as nat) as usize })
            } else {
                Ok((Dim::Param(b[pos + 1]), pos + 2))
            }
        } else if TAG_ADD <= tag <= TAG_DIV {
            match child_at(b, pos + 1) {
                Err(e) => Err(e),
                Ok((c1, p1)) => match child_at(b, p1) {
                    Err(e) => Err(e),
                    Ok((c2, p2)) => Ok((binary_node(tag, c1, c2), p2)),
                },
            }
        } else {
            Err(ShapeExprError::ReservedTag { tag })
        }
    }
}

/// The reading of a `u16`-LE length-prefixed child at `pos`: the child must
/// consume its declared length exactly.
pub open spec fn child_at(b: Seq<u8>, pos: int) -> Result<(Dim, int), ShapeExprError>
    decreases b.len(), 0nat,
{
    if pos < 0 || b.len() < pos + 2 {
        Err(ShapeExprError::TruncatedBlob { need: 2, got: sat_sub(b.len(), pos as nat) as usize })
    } else {
        let len = le_value(b.subrange(pos, pos + 2));
        let start = pos + 2;
        if b.len() < start + len {
            Err(ShapeExprError::TruncatedBlob { need: len as usize, got: sat_sub(b.len(), start as nat) as usize })
        } else {
            match dim_of(b.subrange(start, start + len)) {
                Err(e) => Err(e),
                Ok(c) => Ok((c, start + len)),
            }
        }
    }
}

fn need(blob: &[u8], pos: usize, n: usize) -> (r: Result<(), ShapeExprError>)
    requires
        pos <= blob@.len(),
        n <= 9,
    ensures
        r is Ok <==> blob@.len() >= pos + n,
        r matches Err(e) ==> e == (ShapeExprError::TruncatedBlob { need: n, got: (blob@.len() - pos) as usize }),
{
    if blob.len() - pos < n {
        Err(ShapeExprError::TruncatedBlob { need: n, got: blob.len() - pos })
    } else {
        Ok(())
    }
}

/// Decode one `DimExpr` blob, rejecting a malformed one with a typed decline.
/// A well-formed blob round-trips: `decode_dim(&d.encode()) == Ok(d)`.
pub fn decode_dim(blob: &[u8]) -> (r: Result<Dim, ShapeExprError>)
    ensures
        r == dim_of(blob@),
    decreases blob@.len(), 2nat,
{
    match decode_dim_at(blob, 0) {
        Err(e) => Err(e),
        Ok((d, consumed)) => {
            if consumed != blob.len() {
                Err(ShapeExprError::TrailingBytes { extra: blob.len() - consumed })
            } else {
                Ok(d)
            }
        },
    }
}

fn decode_dim_at(blob: &[u8], pos: usize) -> (r: Result<(Dim, usize), ShapeExprError>)
    requires
        pos < usize::MAX,
    ensures
        match (r, dim_at(blob@, pos as int)) {
            (Ok((d, p)), Ok((e, q))) => d == e && p as int == q && p <= blob@.len(),
            (Err(x), Err(y)) => x == y,
            _ => false,
        },
    decreases blob@.len(), 1nat,
{
    if pos >= blob.len() {
        return Err(ShapeExprError::TruncatedBlob { need: pos + 1, got: blob.len() });
    }
    let tag = blob[pos];
    if tag == 0 {
        Err(ShapeExprError::ZeroTag)
    } else if tag == TAG_EXTENT {
        match need(blob, pos, 3) {
            Err(e) => Err(e),
            Ok(()) => Ok((Dim::Extent { operand: blob[pos + 1], axis: blob[pos + 2] }, pos + 3)),
        }
    } else if tag == TAG_CONST {
        match need(blob, pos, 9) {
            Err(e) => Err(e),
            Ok(()) => {
                let c = read_i64_le(blob, pos + 1);
                Ok((Dim::Const(c), pos + 9))
            },
        }
    } else if tag == TAG_PARAM {
        match need(blob, pos, 2) {
            Err(e) => Err(e),
            Ok(()) => Ok((Dim::Param(blob[pos + 1]), pos + 2)),
        }
    } else if TAG_ADD <= tag && tag <= TAG_DIV {
        let (c1, p1) = match read_child(blob, pos + 1) {
            Err(e) => {
                return Err(e);
            },
            Ok(x) => x,
        };
        let (c2, p2) = match read_child(blob, p1) {
            Err(e) => {
                return Err(e);
            },
            Ok(x) => x,
        };
        let a = Box::new(c1);
        let b = Box::new(c2);
        let d = if tag == TAG_ADD {
            Dim::Add(a, b)
        } else if tag == TAG_SUB {
            Dim::Sub(a, b)
        } else if tag == TAG_MUL {
            Dim::Mul(a, b)
        } else {
            Dim::Div(a, b)
        };
        Ok((d, p2))
    } else {
        Err(ShapeExprError::ReservedTag { tag })
    }
}

/// A `u16`-LE length-prefixed child expression at `pos`.
fn read_child(blob: &[u8], pos: usize) -> (r: Result<(Dim, usize), ShapeExprError>)
    requires
        pos <= blob@.len(),
    ensures
        match (r, child_at(blob@, pos as int)) {
            (Ok((d, p)), Ok((e, q))) => d == e && p as int == q && p <= blob@.len(),
            (Err(x), Err(y)) => x == y,
            _ => false,
        },
    decreases blob@.len(), 0nat,
{
    if blob.len() - pos < 2 {
        return Err(ShapeExprError::TruncatedBlob { need: 2, got: blob.len() - pos });
    }
    let len = read_u16_le(blob, pos) as usize;
    let start = pos + 2;
    if blob.len() - start < len {
        return Err(ShapeExprError::TruncatedBlob { need: len, got: blob.len() - start });
    }
    let sub = copy_range(blob, start, start + len);
    match decode_dim(sub.as_slice()) {
        Err(e) => Err(e),
        Ok(child) => Ok((child, start + len)),
    }
}


/// Whether every child encoding of `d` fits its `u16` length prefix.
pub open spec fn dim_encodable(d: Dim) -> bool
    decreases d,
{
    match d {
        Dim::Add(a, b) | Dim::Sub(a, b) | Dim::Mul(a, b) | Dim::Div(a, b) => dim_bytes(*a).len()
            <= 0xFFFF && dim_bytes(*b).len() <= 0xFFFF && dim_encodable(*a) && dim_encodable(*b),
        _ => true,
    }
}

proof fn lemma_child_read(pre: Seq<u8>, c: Seq<u8>, post: Seq<u8>, d: Dim)
    requires
        c.len() <= 0xFFFF,
        dim_of(c) == Ok::<Dim, ShapeExprError>(d),
    ensures
        child_at(pre + u16_le(c.len() as u16) + c + post, pre.len() as int) == Ok::<
            (Dim, int),
            ShapeExprError,
        >((d, pre.len() + 2 + c.len() as int)),
{
    let b = pre + u16_le(c.len() as u16) + c + post;
    lemma_u16_roundtrip(c.len() as u16);
    assert(b.subrange(pre.len() as int, pre.len() + 2 as int) =~= u16_le(c.len() as u16));
    assert(b.subrange(pre.len() + 2 as int, pre.len() + 2 + c.len() as int) =~= c);
}

proof fn lemma_binary_read(tag: u8, ca: Seq<u8>, cb: Seq<u8>, x: Dim, y: Dim)
    requires
        TAG_ADD <= tag <= TAG_DIV,
        ca.len() <= 0xFFFF,
        cb.len() <= 0xFFFF,
        dim_of(ca) == Ok::<Dim, ShapeExprError>(x),
        dim_of(cb) == Ok::<Dim, ShapeExprError>(y),
    ensures
        dim_of(binary_bytes(tag, ca, cb)) == Ok::<Dim, ShapeExprError>(binary_node(tag, x, y)),
{
    let b = binary_bytes(tag, ca, cb);
    let rest = u16_le(cb.len() as u16) + cb;
    lemma_u16_roundtrip(cb.len() as u16);
    lemma_u16_roundtrip(ca.len() as u16);
    lemma_child_read(seq![tag], ca, rest, x);
    assert(b =~= seq![tag] + u16_le(ca.len() as u16) + ca + rest);
    let pre2 = seq![tag] + u16_le(ca.len() as u16) + ca;
    lemma_child_read(pre2, cb, Seq::<u8>::empty(), y);
    assert(b =~= pre2 + u16_le(cb.len() as u16) + cb + Seq::<u8>::empty());
    assert(b[0] == tag);
}

/// A dim expression's encoding decodes back to the expression, whenever every
/// child encoding fits its `u16` length prefix.
pub proof fn dim_roundtrip(d: Dim)
    requires
        dim_encodable(d),
    ensures
        dim_of(dim_bytes(d)) == Ok::<Dim, ShapeExprError>(d),
    decreases d,
{
    match d {
        Dim::Const(c) => {
            lemma_i64_roundtrip(c);
            assert(dim_bytes(d).subrange(1, 9) =~= i64_le(c));
        },
        Dim::Add(x, y) => {
            dim_roundtrip(*x);
            dim_roundtrip(*y);
            lemma_binary_read(TAG_ADD, dim_bytes(*x), dim_bytes(*y), *x, *y);
        },
        Dim::Sub(x, y) => {
            dim_roundtrip(*x);
            dim_roundtrip(*y);
            lemma_binary_read(TAG_SUB, dim_bytes(*x), dim_bytes(*y), *x, *y);
        },
        Dim::Mul(x, y) => {
            dim_roundtrip(*x);
            dim_roundtrip(*y);
            lemma_binary_read(TAG_MUL, dim_bytes(*x), dim_bytes(*y), *x, *y);
        },
        Dim::Div(x, y) => {
            dim_roundtrip(*x);
            dim_roundtrip(*y);
            lemma_binary_read(TAG_DIV, dim_bytes(*x), dim_bytes(*y), *x, *y);
        },
        _ => {},
    }
}

// ---------------------------------------------------------------------------
// Evaluation (§6.20-0002/0003/0004).
// ---------------------------------------------------------------------------

/// `axis` resolved against `rank`: `last` is `rank - 1`; a concrete axis
/// `>= rank`, or `last` at rank 0, is a decline.
pub open spec fn axis_of(axis: u8, rank: usize) -> Result<usize, ShapeExprError> {
    if axis == LAST {
        if rank == 0 {
            Err(ShapeExprError::AxisOutOfRange { axis, rank })
        } else {
            Ok((rank - 1) as usize)
        }
    } else if axis as usize >= rank {
        Err(ShapeExprError::AxisOutOfRange { axis, rank })
    } else {
        Ok(axis as usize)
    }
}

fn resolve_axis(axis: u8, rank: usize) -> (r: Result<usize, ShapeExprError>)
    ensures
        r == axis_of(axis, rank),
{
    if axis == LAST {
        if rank == 0 {
            return Err(ShapeExprError::AxisOutOfRange { axis, rank });
        }
        return Ok(rank - 1);
    }
    let a = axis as usize;
    if a >= rank {
        return Err(ShapeExprError::AxisOutOfRange { axis, rank });
    }
    Ok(a)
}

/// Floor division: the quotient rounded toward −∞.
pub open spec fn floor_div(a: int, b: int) -> int {
    if b > 0 {
        a / b
    } else {
        (-a) / (-b)
    }
}

proof fn lemma_floor_neg(x: int, b: int)
    requires
        x > 0,
        b > 0,
    ensures
        -((x + b - 1) / b) == (-x) / b,
{
    let q = (x + b - 1) / b;
    let r = (x + b - 1) % b;
    vstd::arithmetic::div_mod::lemma_fundamental_div_mod(x + b - 1, b);
    assert(0 <= r < b);
    assert(x + b - 1 == b * q + r);
    assert(-x == b * (-q) + (b - 1 - r)) by (nonlinear_arith)
        requires
            x + b - 1 == b * q + r,
    ;
    vstd::arithmetic::div_mod::lemma_fundamental_div_mod_converse(-x, b, -q, b - 1 - r);
}

fn floordiv_pos(a: i128, b: i128) -> (q: i128)
    requires
        b > 0,
        -0x8000_0000_0000_0000 <= a <= 0x8000_0000_0000_0000,
        b <= 0x8000_0000_0000_0000,
    ensures
        q == a / b,
{
    if a >= 0 {
        a / b
    } else {
        proof {
            lemma_floor_neg(-a, b as int);
        }
        0 - ((0 - a + b - 1) / b)
    }
}

/// Floor division of `a` by `b` (nonzero), unlike Rust's truncating `/`.
fn floordiv(a: i64, b: i64) -> (q: i128)
    requires
        b != 0,
    ensures
        q == floor_div(a as int, b as int),
{
    if b > 0 {
        floordiv_pos(a as i128, b as i128)
    } else {
        floordiv_pos(0 - (a as i128), 0 - (b as i128))
    }
}

/// The result of a binary node over evaluated children: a gap in either child
/// propagates (§6.20-0004); a `÷` by zero is a decline; otherwise the exact
/// integer result.
pub open spec fn binary_value(tag: u8, x: Option<int>, y: Option<int>) -> Result<Option<int>, ShapeExprError> {
    match (x, y) {
        (Some(a), Some(b)) => if tag != TAG_ADD && tag != TAG_SUB && tag != TAG_MUL && b == 0 {
            Err(ShapeExprError::DivideByZero)
        } else {
            let v = if tag == TAG_ADD {
                a + b
            } else if tag == TAG_SUB {
                a - b
            } else if tag == TAG_MUL {
                a * b
            } else {
                floor_div(a, b)
            };
            if i64::MIN <= v <= i64::MAX {
                Ok(Some(v))
            } else {
                Err(ShapeExprError::Overflow)
            }
        },
        _ => Ok(None),
    }
}

/// The tag of a binary node.
pub open spec fn binary_tag(d: Dim) -> u8 {
    match d {
        Dim::Add(..) => TAG_ADD,
        Dim::Sub(..) => TAG_SUB,
        Dim::Mul(..) => TAG_MUL,
        _ => TAG_DIV,
    }
}

/// The shapes' content.
pub open spec fn shapes_view(v: Seq<Vec<i64>>) -> Seq<Seq<i64>> {
    Seq::new(v.len(), |i: int| v[i]@)
}

/// The evaluation of a dim expression against the operands' concrete shapes
/// and the params: `Some(value)`, `None` for a surfaced gap, or the first
/// decline (left child before right child).
pub open spec fn eval_of(d: Dim, ops: Seq<Seq<i64>>, params: Seq<i64>) -> Result<Option<int>, ShapeExprError>
    decreases d,
{
    match d {
        Dim::Extent { operand, axis } => if operand as int >= ops.len() {
            Err(ShapeExprError::OperandOutOfRange { operand, operands: ops.len() as usize })
        } else {
            match axis_of(axis, ops[operand as int].len() as usize) {
                Err(e) => Err(e),
                Ok(i) => if ops[operand as int][i as int] == SYMBOLIC {
                    Ok(None)
                } else {
                    Ok(Some(ops[operand as int][i as int] as int))
                },
            }
        },
        Dim::Const(c) => Ok(Some(c as int)),
        Dim::Param(f) => if f as int >= params.len() {
            Err(ShapeExprError::ParamOutOfRange { field: f, params: params.len() as usize })
        } else {
            Ok(Some(params[f as int] as int))
        },
        Dim::Add(a, b) | Dim::Sub(a, b) | Dim::Mul(a, b) | Dim::Div(a, b) => match eval_of(*a, ops, params) {
            Err(e) => Err(e),
            Ok(x) => match eval_of(*b, ops, params) {
                Err(e) => Err(e),
                Ok(y) => binary_value(binary_tag(d), x, y),
            },
        },
    }
}

/// An extent reads its operand's shape: `last` is the trailing extent (index
/// `rank - 1`), a concrete axis below the rank is the extent at that index, and
/// `last` of a rank-0 operand or an axis at or past the rank is declined.
pub proof fn extent_reads_the_shape(operand: u8, axis: u8, ops: Seq<Seq<i64>>, params: Seq<i64>)
    requires
        (operand as int) < ops.len(),
        ops[operand as int].len() <= usize::MAX,
    ensures
        ({
            let shape = ops[operand as int];
            let at = |i: int|
                if shape[i] == SYMBOLIC {
                    Ok::<Option<int>, ShapeExprError>(None)
                } else {
                    Ok(Some(shape[i] as int))
                };
            &&& axis == LAST && shape.len() > 0 ==> eval_of(Dim::Extent { operand, axis }, ops, params) == at(
                shape.len() - 1,
            )
            &&& axis != LAST && (axis as int) < shape.len() ==> eval_of(Dim::Extent { operand, axis }, ops, params)
                == at(axis as int)
            &&& (axis == LAST && shape.len() == 0) || (axis != LAST && (axis as int) >= shape.len())
                ==> eval_of(Dim::Extent { operand, axis }, ops, params) is Err
        }),
{
}

/// The evaluation outcome as the evaluator reports it.
pub open spec fn dim_value_of(r: Result<Option<int>, ShapeExprError>) -> Result<DimValue, ShapeExprError> {
    match r {
        Err(e) => Err(e),
        Ok(None) => Ok(DimValue::Gap),
        Ok(Some(v)) => Ok(DimValue::Concrete(v as i64)),
    }
}

/// Evaluate a `DimExpr` against the operands' concrete shapes and the param
/// values: an extent of [`SYMBOLIC`] surfaces a gap, which propagates through
/// every binary node; `÷` is floor division, and a `÷` by zero or a concrete
/// value outside `i64` is a decline.
pub fn eval_dim(d: &Dim, operands: &[Vec<i64>], params: &[i64]) -> (r: Result<DimValue, ShapeExprError>)
    ensures
        r == dim_value_of(eval_of(*d, shapes_view(operands@), params@)),
        d matches Dim::Extent { operand, axis } ==> (axis == LAST && (operand as int) < operands@.len()
            && operands@[operand as int]@.len() > 0 ==> r == (if operands@[operand as int]@.last() == SYMBOLIC {
            Ok::<DimValue, ShapeExprError>(DimValue::Gap)
        } else {
            Ok(DimValue::Concrete(operands@[operand as int]@.last()))
        })),
    decreases d,
{
    proof {
        if let Dim::Extent { operand, axis } = *d {
            if (operand as int) < operands@.len() {
                assert(shapes_view(operands@)[operand as int] == operands@[operand as int]@);
                assert(operands@[operand as int]@.len() == operands@[operand as int].len());
                extent_reads_the_shape(operand, axis, shapes_view(operands@), params@);
            }
        }
    }
    let ghost ops = shapes_view(operands@);
    match d {
        Dim::Extent { operand, axis } => {
            let op = *operand as usize;
            if op >= operands.len() {
                return Err(ShapeExprError::OperandOutOfRange { operand: *operand, operands: operands.len() });
            }
            let shape = &operands[op];
            assert(ops[op as int] == shape@);
            let idx = match resolve_axis(*axis, shape.len()) {
                Err(e) => {
                    return Err(e);
                },
                Ok(i) => i,
            };
            let ext = shape[idx];
            if ext == SYMBOLIC {
                Ok(DimValue::Gap)
            } else {
                Ok(DimValue::Concrete(ext))
            }
        },
        Dim::Const(c) => Ok(DimValue::Concrete(*c)),
        Dim::Param(f) => {
            let fi = *f as usize;
            if fi >= params.len() {
                return Err(ShapeExprError::ParamOutOfRange { field: *f, params: params.len() });
            }
            Ok(DimValue::Concrete(params[fi]))
        },
        Dim::Add(a, b) | Dim::Sub(a, b) | Dim::Mul(a, b) | Dim::Div(a, b) => {
            let x = match eval_dim(a, operands, params) {
                Err(e) => {
                    return Err(e);
                },
                Ok(v) => v,
            };
            let y = match eval_dim(b, operands, params) {
                Err(e) => {
                    return Err(e);
                },
                Ok(v) => v,
            };
            match (x, y) {
                (DimValue::Concrete(p), DimValue::Concrete(q)) => {
                    proof {
                        assert(eval_of(**a, ops, params@) == Ok::<Option<int>, ShapeExprError>(Some(p as int)));
                        assert(eval_of(**b, ops, params@) == Ok::<Option<int>, ShapeExprError>(Some(q as int)));
                    }
                    let tag: u8 = match d {
                        Dim::Add(..) => TAG_ADD,
                        Dim::Sub(..) => TAG_SUB,
                        Dim::Mul(..) => TAG_MUL,
                        _ => TAG_DIV,
                    };
                    assert(tag == binary_tag(*d));
                    if tag != TAG_ADD && tag != TAG_SUB && tag != TAG_MUL && q == 0 {
                        return Err(ShapeExprError::DivideByZero);
                    }
                    proof {
                        assert(-0x4000_0000_0000_0000_0000_0000_0000_0000 <= (p as int) * (q as int)
                            <= 0x4000_0000_0000_0000_0000_0000_0000_0000) by (nonlinear_arith)
                            requires
                                i64::MIN <= p <= i64::MAX,
                                i64::MIN <= q <= i64::MAX,
                        ;
                    }
                    let v: i128 = if tag == TAG_ADD {
                        (p as i128) + (q as i128)
                    } else if tag == TAG_SUB {
                        (p as i128) - (q as i128)
                    } else if tag == TAG_MUL {
                        (p as i128) * (q as i128)
                    } else {
                        floordiv(p, q)
                    };
                    if v < i64::MIN as i128 || v > i64::MAX as i128 {
                        return Err(ShapeExprError::Overflow);
                    }
                    Ok(DimValue::Concrete(v as i64))
                },
                _ => Ok(DimValue::Gap),
            }
        },
    }
}

/// The evaluation of a shape expression: the operand's whole shape, or a gap
/// when any of its extents is [`SYMBOLIC`].
pub open spec fn shape_of(s: ShapeExpr, ops: Seq<Seq<i64>>) -> Result<Option<Seq<i64>>, ShapeExprError> {
    match s {
        ShapeExpr::SameAs { operand } => if operand as int >= ops.len() {
            Err(ShapeExprError::OperandOutOfRange { operand, operands: ops.len() as usize })
        } else if ops[operand as int].contains(SYMBOLIC) {
            Ok(None)
        } else {
            Ok(Some(ops[operand as int]))
        },
    }
}

/// Evaluate a `ShapeExpr` to a concrete shape (or a surfaced gap).
pub fn eval_shape(s: &ShapeExpr, operands: &[Vec<i64>], _params: &[i64]) -> (r: Result<ShapeValue, ShapeExprError>)
    ensures
        match (r, shape_of(*s, shapes_view(operands@))) {
            (Ok(ShapeValue::Concrete(v)), Ok(Some(w))) => v@ == w,
            (Ok(ShapeValue::Gap), Ok(None)) => true,
            (Err(e), Err(f)) => e == f,
            _ => false,
        },
{
    match s {
        ShapeExpr::SameAs { operand } => {
            let op = *operand as usize;
            if op >= operands.len() {
                return Err(ShapeExprError::OperandOutOfRange { operand: *operand, operands: operands.len() });
            }
            let shape = &operands[op];
            assert(shapes_view(operands@)[op as int] == shape@);
            let mut gap = false;
            let mut i: usize = 0;
            while i < shape.len()
                invariant_except_break
                    !gap,
                invariant
                    i <= shape@.len(),
                    forall|j: int| 0 <= j < i ==> shape@[j] != SYMBOLIC,
                ensures
                    gap <==> shape@.contains(SYMBOLIC),
                decreases shape.len() - i,
            {
                if shape[i] == SYMBOLIC {
                    assert(shape@[i as int] == SYMBOLIC);
                    gap = true;
                    break;
                }
                i += 1;
            }
            if gap {
                return Ok(ShapeValue::Gap);
            }
            let mut copy: Vec<i64> = Vec::new();
            let mut k: usize = 0;
            while k < shape.len()
                invariant
                    k <= shape@.len(),
                    copy@ == shape@.take(k as int),
                decreases shape.len() - k,
            {
                copy.push(shape[k]);
                k += 1;
            }
            assert(shape@.take(k as int) == shape@);
            Ok(ShapeValue::Concrete(copy))
        },
    }
}

// ---------------------------------------------------------------------------
// §6.20-0007 primitive-floor shape rules; KISS-CONTRACT-6.4-0011.
// ---------------------------------------------------------------------------

/// The shape a `reduce`-family op gives its input over the first `n` axes: a
/// reduced axis removed (`keepdim = false`) or set to `1` (`keepdim = true`).
pub open spec fn reduced_shape(input: Seq<i64>, axes: Seq<usize>, keepdim: bool, n: nat) -> Seq<i64>
    decreases n,
{
    if n == 0 {
        seq![]
    } else {
        let r = reduced_shape(input, axes, keepdim, (n - 1) as nat);
        if axes.contains((n - 1) as usize) {
            if keepdim {
                r.push(1)
            } else {
                r
            }
        } else {
            r.push(input[n - 1])
        }
    }
}

/// `usize` keys order as std's `Ord` does, so a `BTreeSet<usize>` behaves as
/// its set view.
pub(crate) proof fn lemma_usize_keys_ordered()
    ensures
        vstd::laws_cmp::obeys_cmp::<usize>(),
{
    broadcast use vstd::laws_cmp::group_laws_cmp;
}

/// The set of a list of axes.
pub(crate) fn axis_set(axes: &[usize]) -> (set: BTreeSet<usize>)
    ensures
        set@ == axes@.to_set(),
{
    broadcast use vstd::std_specs::btree::group_btree_axioms;

    proof {
        lemma_usize_keys_ordered();
    }
    let mut set: BTreeSet<usize> = BTreeSet::new();
    let mut k: usize = 0;
    while k < axes.len()
        invariant
            k <= axes@.len(),
            set@ == axes@.take(k as int).to_set(),
        decreases axes.len() - k,
    {
        set.insert(axes[k]);
        assert(axes@.take(k + 1) == axes@.take(k as int).push(axes@[k as int]));
        proof {
            axes@.take(k as int).lemma_push_to_set_commute(axes@[k as int]);
        }
        k += 1;
    }
    assert(axes@.take(axes@.len() as int) == axes@);
    set
}

/// The shape rule of a `reduce` family op: the input shape with the
/// `reduce_axes` removed (`keepdim = false`) or set to `1` (`keepdim = true`).
pub fn reduce_shape(input: &[i64], reduce_axes: &[usize], keepdim: bool) -> (out: Vec<i64>)
    ensures
        out@ == reduced_shape(input@, reduce_axes@, keepdim, input@.len()),
{
    broadcast use vstd::std_specs::btree::group_btree_axioms;

    proof {
        lemma_usize_keys_ordered();
    }
    let set = axis_set(reduce_axes);
    let mut out: Vec<i64> = Vec::new();
    let mut i: usize = 0;
    while i < input.len()
        invariant
            i <= input@.len(),
            set@ == reduce_axes@.to_set(),
            out@ == reduced_shape(input@, reduce_axes@, keepdim, i as nat),
        decreases input.len() - i,
    {
        let hit = set.contains(&i);
        assert(hit == reduce_axes@.contains(i));
        if hit {
            if keepdim {
                out.push(1);
            }
        } else {
            out.push(input[i]);
        }
        i += 1;
    }
    out
}

fn i64s_equal(a: &[i64], b: &[i64]) -> (r: bool)
    ensures
        r == (a@ == b@),
{
    if a.len() != b.len() {
        return false;
    }
    let mut i: usize = 0;
    while i < a.len()
        invariant
            a@.len() == b@.len(),
            i <= a@.len(),
            forall|j: int| 0 <= j < i ==> a@[j] == b@[j],
        decreases a.len() - i,
    {
        if a[i] != b[i] {
            assert(a@[i as int] != b@[i as int]);
            return false;
        }
        i += 1;
    }
    assert(a@ =~= b@);
    true
}

/// The Interface `declared` output shape is consistent iff it equals the op's
/// shape rule over the operand shapes; a surfaced gap is never a hard
/// inconsistency.
pub fn shape_consistent(declared: &[i64], computed: &ShapeValue) -> (r: bool)
    ensures
        r == match computed {
            ShapeValue::Concrete(c) => declared@ == c@,
            ShapeValue::Gap => true,
        },
{
    match computed {
        ShapeValue::Concrete(c) => i64s_equal(declared, c.as_slice()),
        ShapeValue::Gap => true,
    }
}

} // verus!
