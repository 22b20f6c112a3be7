//! Reference encoder for the KISS-Ops OpAttrs canonical wire encoding (Ops
//! §6.19): every field of every per-op schema is emitted explicitly at its
//! resolved value (no elision); enums are frozen `u8` ordinals with `0`
//! reserved (§6.19.2); `reduce_axes` is a `u16` LE multiplex with a rank-aware
//! total precedence (§6.19-0020); window-parameter vectors are a `u8` count
//! then that many `u32` LE elements (§6.19-0023); fields appear in the
//! canonical per-op order (§6.19.3), names never on the wire.

use vstd::prelude::*;
use crate::wire::{push_all, push_u16_le, push_u32_le, u16_le, u32_le};

verus! {

/// §6.19-0014
#[derive(Debug, Clone, Copy, PartialEq, Eq, Structural)]
pub enum Monoid {
    Sum,
    Prod,
    Max,
    Min,
}

/// The frozen wire ordinal of a [`Monoid`] (§6.19.2).
pub open spec fn monoid_ordinal(v: Monoid) -> u8 {
    match v {
        Monoid::Sum => 1,
        Monoid::Prod => 2,
        Monoid::Max => 3,
        Monoid::Min => 4,
    }
}

impl Monoid {
    /// The frozen wire ordinal (§6.19.2).
    pub fn ordinal(self) -> (o: u8)
        ensures
            o == monoid_ordinal(self),
    {
        match self {
            Monoid::Sum => 1,
            Monoid::Prod => 2,
            Monoid::Max => 3,
            Monoid::Min => 4,
        }
    }
}

/// §6.19-0015
#[derive(Debug, Clone, Copy, PartialEq, Eq, Structural)]
pub enum OobPolicy {
    Skip,
    Clamp,
    ZeroFill,
}

/// The frozen wire ordinal of a [`OobPolicy`] (§6.19.2).
pub open spec fn oob_ordinal(v: OobPolicy) -> u8 {
    match v {
        OobPolicy::Skip => 1,
        OobPolicy::Clamp => 2,
        OobPolicy::ZeroFill => 3,
    }
}

impl OobPolicy {
    /// The frozen wire ordinal (§6.19.2).
    pub fn ordinal(self) -> (o: u8)
        ensures
            o == oob_ordinal(self),
    {
        match self {
            OobPolicy::Skip => 1,
            OobPolicy::Clamp => 2,
            OobPolicy::ZeroFill => 3,
        }
    }
}

/// §6.19-0016
#[derive(Debug, Clone, Copy, PartialEq, Eq, Structural)]
pub enum ScatterCombine {
    Assign,
    AtomicAdd,
    AtomicMax,
    AtomicMin,
}

/// The frozen wire ordinal of a [`ScatterCombine`] (§6.19.2).
pub open spec fn combine_ordinal(v: ScatterCombine) -> u8 {
    match v {
        ScatterCombine::Assign => 1,
        ScatterCombine::AtomicAdd => 2,
        ScatterCombine::AtomicMax => 3,
        ScatterCombine::AtomicMin => 4,
    }
}

impl ScatterCombine {
    /// The frozen wire ordinal (§6.19.2).
    pub fn ordinal(self) -> (o: u8)
        ensures
            o == combine_ordinal(self),
    {
        match self {
            ScatterCombine::Assign => 1,
            ScatterCombine::AtomicAdd => 2,
            ScatterCombine::AtomicMax => 3,
            ScatterCombine::AtomicMin => 4,
        }
    }
}

/// §6.19-0017
#[derive(Debug, Clone, Copy, PartialEq, Eq, Structural)]
pub enum IndexDtype {
    U32,
    I32,
    I64,
}

/// The frozen wire ordinal of a [`IndexDtype`] (§6.19.2).
pub open spec fn index_dtype_ordinal(v: IndexDtype) -> u8 {
    match v {
        IndexDtype::U32 => 1,
        IndexDtype::I32 => 2,
        IndexDtype::I64 => 3,
    }
}

impl IndexDtype {
    /// The frozen wire ordinal (§6.19.2).
    pub fn ordinal(self) -> (o: u8)
        ensures
            o == index_dtype_ordinal(self),
    {
        match self {
            IndexDtype::U32 => 1,
            IndexDtype::I32 => 2,
            IndexDtype::I64 => 3,
        }
    }
}

/// §6.19-0018
#[derive(Debug, Clone, Copy, PartialEq, Eq, Structural)]
pub enum SortDirection {
    Ascending,
    Descending,
}

/// The frozen wire ordinal of a [`SortDirection`] (§6.19.2).
pub open spec fn direction_ordinal(v: SortDirection) -> u8 {
    match v {
        SortDirection::Ascending => 1,
        SortDirection::Descending => 2,
    }
}

impl SortDirection {
    /// The frozen wire ordinal (§6.19.2).
    pub fn ordinal(self) -> (o: u8)
        ensures
            o == direction_ordinal(self),
    {
        match self {
            SortDirection::Ascending => 1,
            SortDirection::Descending => 2,
        }
    }
}

/// §6.19-0019
#[derive(Debug, Clone, Copy, PartialEq, Eq, Structural)]
pub enum ScanExclusivity {
    Inclusive,
    Exclusive,
}

/// The frozen wire ordinal of a [`ScanExclusivity`] (§6.19.2).
pub open spec fn exclusivity_ordinal(v: ScanExclusivity) -> u8 {
    match v {
        ScanExclusivity::Inclusive => 1,
        ScanExclusivity::Exclusive => 2,
    }
}

impl ScanExclusivity {
    /// The frozen wire ordinal (§6.19.2).
    pub fn ordinal(self) -> (o: u8)
        ensures
            o == exclusivity_ordinal(self),
    {
        match self {
            ScanExclusivity::Inclusive => 1,
            ScanExclusivity::Exclusive => 2,
        }
    }
}

/// §6.19-0021 (schema field `output_column_ordering`)
#[derive(Debug, Clone, Copy, PartialEq, Eq, Structural)]
pub enum ColumnOrdering {
    ChannelMajor,
    TapMajor,
}

/// The frozen wire ordinal of a [`ColumnOrdering`] (§6.19.2).
pub open spec fn column_ordering_ordinal(v: ColumnOrdering) -> u8 {
    match v {
        ColumnOrdering::ChannelMajor => 1,
        ColumnOrdering::TapMajor => 2,
    }
}

impl ColumnOrdering {
    /// The frozen wire ordinal (§6.19.2).
    pub fn ordinal(self) -> (o: u8)
        ensures
            o == column_ordering_ordinal(self),
    {
        match self {
            ColumnOrdering::ChannelMajor => 1,
            ColumnOrdering::TapMajor => 2,
        }
    }
}

// ---------------------------------------------------------------------------
// §6.19-0020 reduce_axes multiplex.
// ---------------------------------------------------------------------------

/// The low-byte subset mask of the axes below `n` that `reduced` holds.
pub open spec fn axes_mask(reduced: Seq<usize>, n: nat) -> nat
    decreases n,
{
    if n == 0 {
        0
    } else {
        axes_mask(reduced, (n - 1) as nat) + (if reduced.contains((n - 1) as usize) {
            vstd::arithmetic::power2::pow2((n - 1) as nat)
        } else {
            0
        })
    }
}

/// The §6.19-0020 `reduce_axes` value of a reduction over `reduced` axes of a
/// rank-`rank` operand: all axes `0xFFFF`, else trailing-only (rank > 1)
/// `0xFFFE`, else the subset mask.
pub open spec fn reduction_axes(reduced: Seq<usize>, rank: usize) -> u16 {
    if forall|k: usize| k < rank ==> reduced.contains(k) {
        0xFFFF
    } else if rank > 1 && forall|k: usize| k < rank ==> (reduced.contains(k) <==> k == rank - 1) {
        0xFFFE
    } else {
        axes_mask(reduced, rank as nat) as u16
    }
}

proof fn lemma_axes_mask_bound(reduced: Seq<usize>, n: nat)
    requires
        n <= 8,
    ensures
        axes_mask(reduced, n) < vstd::arithmetic::power2::pow2(n),
    decreases n,
{
    vstd::arithmetic::power2::lemma2_to64();
    if n > 0 {
        lemma_axes_mask_bound(reduced, (n - 1) as nat);
        vstd::arithmetic::power2::lemma_pow2_unfold(n);
    }
}

/// `reduce_axes` for a reduction (`reduce` / `reduce_var` / `reduce_std`) over
/// `reduced` axes of a rank-`rank` operand (§6.19-0020): all axes `0xFFFF`
/// beats trailing-only `0xFFFE` beats the low-byte subset mask. The rank is in
/// `1..=8` and the axes non-empty and below the rank.
pub fn reduce_axes_reduction(reduced: &[usize], rank: usize) -> (r: u16)
    requires
        1 <= rank <= 8,
        reduced@.len() > 0,
        forall|i: int| 0 <= i < reduced@.len() ==> reduced@[i] < rank,
    ensures
        r == reduction_axes(reduced@, rank),
{
    broadcast use vstd::std_specs::btree::group_btree_axioms;

    proof {
        crate::shape_expr::lemma_usize_keys_ordered();
    }
    let set = crate::shape_expr::axis_set(reduced);
    let mut all = true;
    let mut trailing = rank > 1;
    let mut mask: u16 = 0;
    let mut k: usize = 0;
    proof {
        vstd::arithmetic::power2::lemma2_to64();
    }
    while k < rank
        invariant
            1 <= rank <= 8,
            k <= rank,
            all == forall|j: usize| j < k ==> reduced@.contains(j),
            trailing == (rank > 1 && forall|j: usize| j < k ==> (reduced@.contains(j) <==> j == rank - 1)),
            mask == axes_mask(reduced@, k as nat),
            set@ == reduced@.to_set(),
        decreases rank - k,
    {
        let has = set.contains(&k);
        assert(has == reduced@.contains(k));
        proof {
            lemma_axes_mask_bound(reduced@, (k + 1) as nat);
            vstd::arithmetic::power2::lemma_pow2_strictly_increases((k + 1) as nat, 9);
            vstd::arithmetic::power2::lemma2_to64();
        }
        if has {
            let bit: u16 = pow2_u16(k as u32);
            mask = mask + bit;
        } else {
            all = false;
        }
        if has != (k == rank - 1) {
            trailing = false;
        }
        k += 1;
    }
    if all {
        0xFFFF
    } else if trailing {
        0xFFFE
    } else {
        mask
    }
}

fn pow2_u16(k: u32) -> (p: u16)
    requires
        k < 16,
    ensures
        p == vstd::arithmetic::power2::pow2(k as nat),
{
    let mut p: u16 = 1;
    let mut i: u32 = 0;
    proof {
        vstd::arithmetic::power2::lemma2_to64();
    }
    while i < k
        invariant
            i <= k < 16,
            p == vstd::arithmetic::power2::pow2(i as nat),
        decreases k - i,
    {
        proof {
            vstd::arithmetic::power2::lemma_pow2_unfold((i + 1) as nat);
            vstd::arithmetic::power2::lemma_pow2_strictly_increases((i + 1) as nat, 16);
            vstd::arithmetic::power2::lemma2_to64();
        }
        p = p * 2;
        i += 1;
    }
    p
}

/// The §6.19-0020 scan `reduce_axes`: the trailing axis of a rank > 1 operand
/// is `0xFFFE`, otherwise the single-bit mask.
pub open spec fn scan_axes(axis: usize, rank: usize) -> u16 {
    if rank > 1 && axis == rank - 1 {
        0xFFFE
    } else {
        vstd::arithmetic::power2::pow2(axis as nat) as u16
    }
}

/// `reduce_axes` for a `prefix_scan` folding over the single `axis`
/// (§6.19-0020): never `0xFFFF`, never `0x0000`. The rank is in `1..=8` and
/// the axis below it.
pub fn reduce_axes_scan(axis: usize, rank: usize) -> (r: u16)
    requires
        1 <= rank <= 8,
        axis < rank,
    ensures
        r == scan_axes(axis, rank),
{
    if rank > 1 && axis == rank - 1 {
        0xFFFE
    } else {
        pow2_u16(axis as u32)
    }
}

/// A window-parameter vector (§6.19-0023): `u8` count then each element as
/// `u32` LE, in the given order.
pub open spec fn window_bytes(elems: Seq<u32>) -> Seq<u8>
    decreases elems.len(),
{
    if elems.len() == 0 {
        seq![0u8]
    } else {
        let w = window_bytes(elems.drop_last());
        seq![elems.len() as u8] + w.drop_first() + u32_le(elems.last())
    }
}

/// A window-parameter vector (§6.19-0023): `u8` count then count × `u32` LE,
/// in the given (ascending spatial-axis) order — never sorted. At most 8
/// elements.
pub fn window_param_vector(elems: &[u32]) -> (v: Vec<u8>)
    requires
        elems@.len() <= 8,
    ensures
        v@ == window_bytes(elems@),
{
    let mut out: Vec<u8> = Vec::new();
    out.push(elems.len() as u8);
    let mut i: usize = 0;
    while i < elems.len()
        invariant
            i <= elems@.len() <= 8,
            out@ == seq![elems@.len() as u8] + window_bytes(elems@.take(i as int)).drop_first(),
        decreases elems.len() - i,
    {
        let ghost before = out@;
        push_u32_le(&mut out, elems[i]);
        proof {
            let t = elems@.take(i + 1);
            assert(t.drop_last() == elems@.take(i as int));
            assert(t.last() == elems@[i as int]);
            assert(window_bytes(t).drop_first() =~= window_bytes(elems@.take(i as int)).drop_first()
                + u32_le(elems@[i as int]));
        }
        i += 1;
    }
    assert(elems@.take(i as int) == elems@);
    assert(window_bytes(elems@) =~= seq![elems@.len() as u8] + window_bytes(elems@).drop_first());
    out
}


// ---------------------------------------------------------------------------
// §6.19.3 per-op schemas (canonical field order = ABI).
// ---------------------------------------------------------------------------

/// A `bool` field as one byte.
pub open spec fn flag(b: bool) -> u8 {
    if b {
        1
    } else {
        0
    }
}

/// `reduce`: monoid, reduce_axes, keepdim (§6.19-0025).
pub fn encode_reduce(monoid: Monoid, reduced: &[usize], rank: usize, keepdim: bool) -> (v: Vec<u8>)
    requires
        1 <= rank <= 8,
        reduced@.len() > 0,
        forall|i: int| 0 <= i < reduced@.len() ==> reduced@[i] < rank,
    ensures
        v@ == seq![monoid_ordinal(monoid)] + u16_le(reduction_axes(reduced@, rank)) + seq![flag(keepdim)],
{
    let mut out: Vec<u8> = Vec::new();
    out.push(monoid.ordinal());
    push_u16_le(&mut out, reduce_axes_reduction(reduced, rank));
    out.push(if keepdim {
        1
    } else {
        0
    });
    out
}

/// `prefix_scan`: monoid, reduce_axes, exclusivity (§6.19-0026).
pub fn encode_prefix_scan(monoid: Monoid, axis: usize, rank: usize, excl: ScanExclusivity) -> (v: Vec<u8>)
    requires
        1 <= rank <= 8,
        axis < rank,
    ensures
        v@ == seq![monoid_ordinal(monoid)] + u16_le(scan_axes(axis, rank)) + seq![exclusivity_ordinal(excl)],
{
    let mut out: Vec<u8> = Vec::new();
    out.push(monoid.ordinal());
    push_u16_le(&mut out, reduce_axes_scan(axis, rank));
    out.push(excl.ordinal());
    out
}

/// `gather`: axis, oob_policy, index_operand, index_dtype (§6.19-0027).
pub fn encode_gather(axis: u8, oob: OobPolicy, index_operand: u8, index_dtype: IndexDtype) -> (v: Vec<u8>)
    ensures
        v@ == seq![axis, oob_ordinal(oob), index_operand, index_dtype_ordinal(index_dtype)],
{
    let v = vec![axis, oob.ordinal(), index_operand, index_dtype.ordinal()];
    assert(v@ =~= seq![axis, oob_ordinal(oob), index_operand, index_dtype_ordinal(index_dtype)]);
    v
}

/// `scatter`: axis, combine, oob_policy, index_operand, index_dtype (§6.19-0028).
pub fn encode_scatter(
    axis: u8,
    combine: ScatterCombine,
    oob: OobPolicy,
    index_operand: u8,
    index_dtype: IndexDtype,
) -> (v: Vec<u8>)
    ensures
        v@ == seq![
            axis,
            combine_ordinal(combine),
            oob_ordinal(oob),
            index_operand,
            index_dtype_ordinal(index_dtype),
        ],
{
    let v = vec![axis, combine.ordinal(), oob.ordinal(), index_operand, index_dtype.ordinal()];
    assert(v@ =~= seq![
        axis,
        combine_ordinal(combine),
        oob_ordinal(oob),
        index_operand,
        index_dtype_ordinal(index_dtype),
    ]);
    v
}

/// `sort_network`: axis, direction, stability (§6.19-0029).
pub fn encode_sort_network(axis: u8, direction: SortDirection, stability: bool) -> (v: Vec<u8>)
    ensures
        v@ == seq![axis, direction_ordinal(direction), flag(stability)],
{
    let v = vec![axis, direction.ordinal(), if stability {
        1u8
    } else {
        0u8
    }];
    assert(v@ =~= seq![axis, direction_ordinal(direction), flag(stability)]);
    v
}

/// `reduce_var` / `reduce_std`: reduce_axes, keepdim, bessel_correction
/// (§6.19-0030).
pub fn encode_reduce_var(reduced: &[usize], rank: usize, keepdim: bool, bessel: bool) -> (v: Vec<u8>)
    requires
        1 <= rank <= 8,
        reduced@.len() > 0,
        forall|i: int| 0 <= i < reduced@.len() ==> reduced@[i] < rank,
    ensures
        v@ == u16_le(reduction_axes(reduced@, rank)) + seq![flag(keepdim), flag(bessel)],
{
    let mut out: Vec<u8> = Vec::new();
    push_u16_le(&mut out, reduce_axes_reduction(reduced, rank));
    out.push(if keepdim {
        1
    } else {
        0
    });
    out.push(if bessel {
        1
    } else {
        0
    });
    assert(out@ =~= u16_le(reduction_axes(reduced@, rank)) + seq![flag(keepdim), flag(bessel)]);
    out
}

/// `softmax` / `log_softmax`: norm_axis (§6.19-0031).
pub fn encode_softmax(norm_axis: u8) -> (v: Vec<u8>)
    ensures
        v@ == seq![norm_axis],
{
    let v = vec![norm_axis];
    assert(v@ =~= seq![norm_axis]);
    v
}

/// `index_select`: axis, index_operand, index_dtype (§6.19-0034).
pub fn encode_index_select(axis: u8, index_operand: u8, index_dtype: IndexDtype) -> (v: Vec<u8>)
    ensures
        v@ == seq![axis, index_operand, index_dtype_ordinal(index_dtype)],
{
    let v = vec![axis, index_operand, index_dtype.ordinal()];
    assert(v@ =~= seq![axis, index_operand, index_dtype_ordinal(index_dtype)]);
    v
}

/// The four window-parameter vectors of a pooling schema, in order.
pub open spec fn windows_bytes(w: Seq<u32>, s: Seq<u32>, d: Seq<u32>, p: Seq<u32>) -> Seq<u8> {
    window_bytes(w) + window_bytes(s) + window_bytes(d) + window_bytes(p)
}

/// `avg_pool`: window_size, stride, dilation, padding, count_include_pad
/// (§6.19-0032). Each vector holds at most 8 elements.
pub fn encode_avg_pool(
    window: &[u32],
    stride: &[u32],
    dilation: &[u32],
    padding: &[u32],
    count_include_pad: bool,
) -> (v: Vec<u8>)
    requires
        window@.len() <= 8,
        stride@.len() <= 8,
        dilation@.len() <= 8,
        padding@.len() <= 8,
    ensures
        v@ == windows_bytes(window@, stride@, dilation@, padding@) + seq![flag(count_include_pad)],
{
    let mut out: Vec<u8> = Vec::new();
    push_all(&mut out, window_param_vector(window).as_slice());
    push_all(&mut out, window_param_vector(stride).as_slice());
    push_all(&mut out, window_param_vector(dilation).as_slice());
    push_all(&mut out, window_param_vector(padding).as_slice());
    out.push(if count_include_pad {
        1
    } else {
        0
    });
    assert(out@ =~= windows_bytes(window@, stride@, dilation@, padding@) + seq![flag(count_include_pad)]);
    out
}

/// `im2col`: window_size, stride, dilation, padding, output_column_ordering
/// (§6.19-0033). Each vector holds at most 8 elements.
pub fn encode_im2col(
    window: &[u32],
    stride: &[u32],
    dilation: &[u32],
    padding: &[u32],
    column_ordering: ColumnOrdering,
) -> (v: Vec<u8>)
    requires
        window@.len() <= 8,
        stride@.len() <= 8,
        dilation@.len() <= 8,
        padding@.len() <= 8,
    ensures
        v@ == windows_bytes(window@, stride@, dilation@, padding@) + seq![column_ordering_ordinal(column_ordering)],
{
    let mut out: Vec<u8> = Vec::new();
    push_all(&mut out, window_param_vector(window).as_slice());
    push_all(&mut out, window_param_vector(stride).as_slice());
    push_all(&mut out, window_param_vector(dilation).as_slice());
    push_all(&mut out, window_param_vector(padding).as_slice());
    out.push(column_ordering.ordinal());
    assert(out@ =~= windows_bytes(window@, stride@, dilation@, padding@) + seq![column_ordering_ordinal(column_ordering)]);
    out
}

// ---------------------------------------------------------------------------
// Reader side: a typed decline, never a panic (Conform §6.7).
// ---------------------------------------------------------------------------

/// A typed decline raised when a blob fails validation.
#[derive(Debug, Clone, PartialEq, Eq)]
pub enum Decline {
    /// An enum field carried the reserved `0` ordinal or one past the last
    /// (§6.19.2).
    ReservedZeroOrdinal { field: &'static str },
    /// `reduce_axes` fell in the reserved band `0x0100..=0xFFFD` or was `0`
    /// (§6.19-0020, §6.19-0038).
    ReservedReduceAxes { value: u16 },
    /// The blob's length is not the op's schema length.
    TruncatedBlob { need: usize, got: usize },
}

/// The content of a [`Decline`].
pub enum DeclineView {
    ReservedZeroOrdinal { field: Seq<char> },
    ReservedReduceAxes { value: u16 },
    TruncatedBlob { need: usize, got: usize },
}

impl View for Decline {
    type V = DeclineView;

    open spec fn view(&self) -> DeclineView {
        match self {
            Decline::ReservedZeroOrdinal { field } => DeclineView::ReservedZeroOrdinal { field: field@ },
            Decline::ReservedReduceAxes { value } => DeclineView::ReservedReduceAxes { value: *value },
            Decline::TruncatedBlob { need, got } => DeclineView::TruncatedBlob { need: *need, got: *got },
        }
    }
}

/// The [`OobPolicy`] an ordinal names.
pub open spec fn oob_of(o: u8) -> Option<OobPolicy> {
    if o == 1 {
        Some(OobPolicy::Skip)
    } else if o == 2 {
        Some(OobPolicy::Clamp)
    } else if o == 3 {
        Some(OobPolicy::ZeroFill)
    } else {
        None
    }
}

/// The [`IndexDtype`] an ordinal names.
pub open spec fn index_dtype_of(o: u8) -> Option<IndexDtype> {
    if o == 1 {
        Some(IndexDtype::U32)
    } else if o == 2 {
        Some(IndexDtype::I32)
    } else if o == 3 {
        Some(IndexDtype::I64)
    } else {
        None
    }
}

/// The reading of a `gather` blob: exactly four bytes, a known `oob_policy`
/// ordinal, then a known `index_dtype` ordinal.
pub open spec fn gather_of(blob: Seq<u8>) -> Result<(u8, OobPolicy, u8, IndexDtype), DeclineView> {
    if blob.len() != 4 {
        Err(DeclineView::TruncatedBlob { need: 4, got: blob.len() as usize })
    } else if oob_of(blob[1]) is None {
        Err(DeclineView::ReservedZeroOrdinal { field: "oob_policy"@ })
    } else if index_dtype_of(blob[3]) is None {
        Err(DeclineView::ReservedZeroOrdinal { field: "index_dtype"@ })
    } else {
        Ok((blob[0], oob_of(blob[1])->0, blob[2], index_dtype_of(blob[3])->0))
    }
}

/// Validate a decoded `gather` blob (`[axis, oob, index_operand, index_dtype]`),
/// returning a typed decline for a malformed one: a wrong length, then a
/// reserved or unknown `oob_policy`, then a reserved or unknown `index_dtype`.
pub fn decode_gather(blob: &[u8]) -> (r: Result<(u8, OobPolicy, u8, IndexDtype), Decline>)
    ensures
        match (r, gather_of(blob@)) {
            (Ok(a), Ok(b)) => a == b,
            (Err(e), Err(d)) => e@ == d,
            _ => false,
        },
{
    if blob.len() != 4 {
        return Err(Decline::TruncatedBlob { need: 4, got: blob.len() });
    }
    let oob = match blob[1] {
        1 => OobPolicy::Skip,
        2 => OobPolicy::Clamp,
        3 => OobPolicy::ZeroFill,
        _ => {
            return Err(Decline::ReservedZeroOrdinal { field: "oob_policy" });
        },
    };
    let idt = match blob[3] {
        1 => IndexDtype::U32,
        2 => IndexDtype::I32,
        3 => IndexDtype::I64,
        _ => {
            return Err(Decline::ReservedZeroOrdinal { field: "index_dtype" });
        },
    };
    Ok((blob[0], oob, blob[2], idt))
}

/// Whether a carrier blob's `reduce_axes` is malformed: `0x0000` (the
/// not-a-reduction sentinel, unreachable on this channel, §6.19-0038) or the
/// reserved band `0x0100..=0xFFFD` (§6.19-0020).
pub open spec fn reduce_axes_reserved(value: u16) -> bool {
    value == 0 || (0x0100 <= value <= 0xFFFD)
}

/// Validate a `reduce_axes` u16 on a carrier OpAttrs blob (§6.19-0020,
/// §6.19-0038).
pub fn validate_reduce_axes(value: u16) -> (r: Result<(), Decline>)
    ensures
        r is Ok <==> !reduce_axes_reserved(value),
        r matches Err(e) ==> e@ == (DeclineView::ReservedReduceAxes { value }),
{
    if value == 0 || (0x0100 <= value && value <= 0xFFFD) {
        Err(Decline::ReservedReduceAxes { value })
    } else {
        Ok(())
    }
}

/// A `gather` blob reads back as what was encoded: decoding the encoding of
/// any field values gives those values.
pub proof fn gather_roundtrip(axis: u8, oob: OobPolicy, index_operand: u8, index_dtype: IndexDtype)
    ensures
        gather_of(seq![axis, oob_ordinal(oob), index_operand, index_dtype_ordinal(index_dtype)])
            == Ok::<(u8, OobPolicy, u8, IndexDtype), DeclineView>((axis, oob, index_operand, index_dtype)),
{
}

/// Every `reduce_axes` value a reduction or scan encodes passes validation:
/// the encoder never emits `0x0000` or a reserved-band value.
pub proof fn reduce_axes_never_reserved(reduced: Seq<usize>, axis: usize, rank: usize)
    requires
        1 <= rank <= 8,
        reduced.len() > 0,
        forall|i: int| 0 <= i < reduced.len() ==> reduced[i] < rank,
        axis < rank,
    ensures
        !reduce_axes_reserved(reduction_axes(reduced, rank)),
        !reduce_axes_reserved(scan_axes(axis, rank)),
{
    vstd::arithmetic::power2::lemma2_to64();
    lemma_axes_mask_bound(reduced, rank as nat);
    if rank >= 2 {
        vstd::arithmetic::power2::lemma_pow2_strictly_increases(rank as nat, 9);
    }
    vstd::arithmetic::power2::lemma_pow2_strictly_increases(axis as nat, 8);
    lemma_mask_nonzero(reduced, rank as nat, reduced[0]);
}

proof fn lemma_mask_nonzero(reduced: Seq<usize>, n: nat, k: usize)
    requires
        reduced.contains(k),
        k < n,
    ensures
        axes_mask(reduced, n) > 0,
    decreases n,
{
    vstd::arithmetic::power2::lemma_pow2_pos(k as nat);
    if k < n - 1 {
        lemma_mask_nonzero(reduced, (n - 1) as nat, k);
    }
}

} // verus!
