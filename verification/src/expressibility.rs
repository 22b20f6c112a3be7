//! The expressible-signature-set byte format: the canonical subtree
//! serialization of a signature's root (a structure-only projection, so the
//! operand-role tuple is always empty), the FNV-1a-64 `signature_hash` index
//! over those bytes, the set's JSON document, and the reader that declines a
//! set with a missing or unknown field or a violated enumerant.
//!
//! Per node, recursively:
//!   * a `Bind(i)` leaf is the byte `0x00`, then `i` as `u32` little-endian;
//!   * an `Op` node is the byte `0x01`, then the op name as a `u16`-LE
//!     length-prefixed UTF-8 string, the consumers byte (`0x01` for the region
//!     root — the last node — else `0x00`), the OpAttrs blob as a `u16`-LE
//!     length-prefixed byte string, the operand-role tuple count (`u16` LE,
//!     always 0), and the operand subtrees in canonical operand order: for a
//!     commutative op ascending unsigned-byte-lex of each operand's own
//!     serialization (ties keep their authored order), else the authored order.

use vstd::prelude::*;
use vstd::utf8::encode_utf8;
use crate::differential::{mul64, wrapping_mul64};
use vstd::utf8::{decode_utf8, valid_utf8};
use crate::json::{lookup, parse, parse_spec, member_views, Json, JsonV};
use crate::text::{
    chars_of, dec_chars, hex_fixed_lower, hex_lower_compact, join, push_char, push_dec, push_hex_fixed_lower,
    push_hex_lower_compact, push_join, push_str, str_eq, string_bytes, string_from, strings_view, utf8_decode,
};
use crate::wire::{push_all, push_u16_le, push_u32_le, u16_le, u32_le};

verus! {

/// One node of a signature's op-DAG: an input leaf bound to the region's
/// `i`-th external input, or an interior-or-root primitive-floor op with its
/// raw OpAttrs wire bytes (empty for the empty-attrs form).
#[derive(Debug, Clone, PartialEq, Eq)]
pub enum Node {
    Op { name: String, opattrs: Vec<u8> },
    Bind(u32),
}

/// A signature: a topologically-ordered node list with the root last, and
/// `edges[i]` the operand node-indices of node `i` in authored order.
#[derive(Debug, Clone, PartialEq, Eq)]
pub struct Signature {
    pub nodes: Vec<Node>,
    pub edges: Vec<Vec<u32>>,
}

/// A whole enumerated expressible-signature set.
#[derive(Debug, Clone, PartialEq, Eq)]
pub struct SignatureSet {
    pub owner: String,
    pub ops_op_set_version: String,
    pub opattrs_wire_version: String,
    pub generator: String,
    pub signatures: Vec<Signature>,
}

// ---------------------------------------------------------------------------
// Shape and the canonical serialization, as specifications.
// ---------------------------------------------------------------------------

/// The encoder's structural precondition: one operand list per node, every
/// operand naming a strictly earlier node, and every op name and OpAttrs blob
/// short enough for its `u16` length prefix.
pub open spec fn shape_ok(nodes: Seq<Node>, edges: Seq<Vec<u32>>) -> bool {
    &&& edges.len() == nodes.len()
    &&& forall|i: int, j: int|
        0 <= i < edges.len() && 0 <= j < edges[i]@.len() ==> #[trigger] edges[i]@[j] < i
    &&& forall|i: int| 0 <= i < nodes.len() ==> fits_u16(#[trigger] nodes[i])
}

/// An op node's name bytes and OpAttrs blob both fit a `u16` length.
pub open spec fn fits_u16(n: Node) -> bool {
    match n {
        Node::Op { name, opattrs } => encode_utf8(name@).len() < 0x1_0000 && opattrs@.len() < 0x1_0000,
        Node::Bind(_) => true,
    }
}

/// The ops whose operands are canonicalized by sorting.
pub open spec fn commutative(name: Seq<char>) -> bool {
    name == "add"@ || name == "mul"@
}

/// Unsigned-byte-lexicographic `a <= b` (a proper prefix sorts first).
pub open spec fn lex_le(a: Seq<u8>, b: Seq<u8>) -> bool
    decreases a.len(),
{
    if a.len() == 0 {
        true
    } else if b.len() == 0 {
        false
    } else if a[0] != b[0] {
        a[0] < b[0]
    } else {
        lex_le(a.drop_first(), b.drop_first())
    }
}

/// Insert `x` after the leading run of entries whose key is `<=` its key.
pub open spec fn insert_by_key<T>(x: (T, Seq<u8>), s: Seq<(T, Seq<u8>)>) -> Seq<(T, Seq<u8>)>
    decreases s.len(),
{
    if s.len() == 0 {
        seq![x]
    } else if lex_le(s[0].1, x.1) {
        seq![s[0]] + insert_by_key(x, s.drop_first())
    } else {
        seq![x] + s
    }
}

/// The stable ascending arrangement of `s` by key.
pub open spec fn sort_by_key<T>(s: Seq<(T, Seq<u8>)>) -> Seq<(T, Seq<u8>)>
    decreases s.len(),
{
    if s.len() == 0 {
        s
    } else {
        insert_by_key(s.last(), sort_by_key(s.drop_last()))
    }
}

/// The operand index and subtree bytes of the first `k` operands of node
/// `idx`, in authored order.
pub open spec fn authored_operands(nodes: Seq<Node>, edges: Seq<Vec<u32>>, idx: int, k: int) -> Seq<(u32, Seq<u8>)>
    decreases idx, k,
{
    if k <= 0 || k > edges[idx]@.len() {
        seq![]
    } else {
        let oi = edges[idx]@[k - 1];
        let prev = authored_operands(nodes, edges, idx, k - 1);
        if oi < idx {
            prev.push((oi, subtree_bytes(nodes, edges, oi as int)))
        } else {
            prev
        }
    }
}

/// The operands of node `idx` in canonical operand order.
pub open spec fn canonical_operands_of(nodes: Seq<Node>, edges: Seq<Vec<u32>>, idx: int) -> Seq<(u32, Seq<u8>)>
    decreases idx, edges[idx]@.len() + 2,
{
    let authored = authored_operands(nodes, edges, idx, edges[idx]@.len() as int);
    match nodes[idx] {
        Node::Op { name, .. } => if commutative(name@) {
            sort_by_key(authored)
        } else {
            authored
        },
        Node::Bind(_) => authored,
    }
}

/// The concatenation of the subtree bytes of `s`.
pub open spec fn concat_bytes(s: Seq<(u32, Seq<u8>)>) -> Seq<u8>
    decreases s.len(),
{
    if s.len() == 0 {
        seq![]
    } else {
        concat_bytes(s.drop_last()) + s.last().1
    }
}

/// The canonical subtree serialization of node `idx` (the root is the last
/// node).
pub open spec fn subtree_bytes(nodes: Seq<Node>, edges: Seq<Vec<u32>>, idx: int) -> Seq<u8>
    decreases idx, edges[idx]@.len() + 3,
{
    match nodes[idx] {
        Node::Bind(i) => seq![0u8] + u32_le(i),
        Node::Op { name, opattrs } => {
            let nb = encode_utf8(name@);
            seq![1u8] + u16_le(nb.len() as u16) + nb
                + seq![if idx == nodes.len() - 1 { 1u8 } else { 0u8 }]
                + u16_le(opattrs@.len() as u16) + opattrs@ + u16_le(0)
                + concat_bytes(canonical_operands_of(nodes, edges, idx))
        },
    }
}

/// The serialization of a signature: its root's subtree bytes, or nothing for
/// an empty signature.
pub open spec fn signature_bytes(sig: Signature) -> Seq<u8> {
    if sig.nodes@.len() == 0 {
        seq![]
    } else {
        subtree_bytes(sig.nodes@, sig.edges@, sig.nodes@.len() - 1)
    }
}

pub(crate) proof fn lemma_lex_le_total(a: Seq<u8>, b: Seq<u8>)
    ensures
        lex_le(a, b) || lex_le(b, a),
    decreases a.len(),
{
    if a.len() > 0 && b.len() > 0 && a[0] == b[0] {
        lemma_lex_le_total(a.drop_first(), b.drop_first());
    }
}

pub(crate) proof fn lemma_lex_le_antisymmetric(a: Seq<u8>, b: Seq<u8>)
    requires
        lex_le(a, b),
        lex_le(b, a),
    ensures
        a == b,
    decreases a.len(),
{
    if a.len() == 0 {
        assert(b.len() == 0);
        assert(a =~= b);
    } else {
        lemma_lex_le_antisymmetric(a.drop_first(), b.drop_first());
        assert(a =~= seq![a[0]] + a.drop_first());
        assert(b =~= seq![b[0]] + b.drop_first());
    }
}

/// Two keyed entries sort to the same keys in either order.
proof fn lemma_sort_pair_swap(p: (u32, Seq<u8>), q: (u32, Seq<u8>))
    ensures
        concat_bytes(sort_by_key(seq![p, q])) == concat_bytes(sort_by_key(seq![q, p])),
{
    let e: Seq<(u32, Seq<u8>)> = seq![];
    assert(seq![p, q].drop_last() =~= seq![p]);
    assert(seq![q, p].drop_last() =~= seq![q]);
    assert(seq![p].drop_last() =~= e);
    assert(seq![q].drop_last() =~= e);
    assert(sort_by_key(e) =~= e);
    assert(insert_by_key(p, e) =~= seq![p]);
    assert(insert_by_key(q, e) =~= seq![q]);
    assert(sort_by_key(seq![p]) =~= seq![p]);
    assert(sort_by_key(seq![q]) =~= seq![q]);
    assert(seq![p].drop_first() =~= e);
    assert(seq![q].drop_first() =~= e);
    let o1 = sort_by_key(seq![p, q]);
    let o2 = sort_by_key(seq![q, p]);
    assert(o1 == insert_by_key(q, seq![p]));
    assert(o2 == insert_by_key(p, seq![q]));
    lemma_lex_le_total(p.1, q.1);
    if lex_le(p.1, q.1) && lex_le(q.1, p.1) {
        lemma_lex_le_antisymmetric(p.1, q.1);
    }
    let lo = if lex_le(p.1, q.1) { p.1 } else { q.1 };
    let hi = if lex_le(p.1, q.1) { q.1 } else { p.1 };
    assert(o1.len() == 2 && o1[0].1 == lo && o1[1].1 == hi);
    assert(o2.len() == 2 && o2[0].1 == lo && o2[1].1 == hi);
    assert(o1.drop_last().drop_last() =~= e);
    assert(o2.drop_last().drop_last() =~= e);
    assert(concat_bytes(e) =~= Seq::<u8>::empty());
    assert(o1.drop_last().last().1 == lo);
    assert(o2.drop_last().last().1 == lo);
    assert(concat_bytes(o1.drop_last()) =~= lo);
    assert(concat_bytes(o2.drop_last()) =~= lo);
    assert(concat_bytes(o1) =~= lo + hi);
    assert(concat_bytes(o2) =~= lo + hi);
}

/// `e2` is `e1` with the two operands of node `idx` swapped.
pub open spec fn operands_swapped(e1: Seq<Vec<u32>>, e2: Seq<Vec<u32>>, idx: int) -> bool {
    &&& e2.len() == e1.len()
    &&& 0 <= idx < e1.len()
    &&& e1[idx]@.len() == 2
    &&& e2[idx]@ == seq![e1[idx]@[1], e1[idx]@[0]]
    &&& forall|i: int| 0 <= i < e1.len() && i != idx ==> #[trigger] e2[i]@ == e1[i]@
}

proof fn lemma_authored_same(nodes: Seq<Node>, e1: Seq<Vec<u32>>, e2: Seq<Vec<u32>>, j: int, k: int)
    requires
        0 <= j < e1.len(),
        e2.len() == e1.len(),
        e1[j]@ == e2[j]@,
        forall|m: int| 0 <= m < j ==> subtree_bytes(nodes, e1, m) == subtree_bytes(nodes, e2, m),
    ensures
        authored_operands(nodes, e1, j, k) == authored_operands(nodes, e2, j, k),
    decreases k,
{
    if k > 0 && k <= e1[j]@.len() {
        lemma_authored_same(nodes, e1, e2, j, k - 1);
        let oi = e1[j]@[k - 1];
        assert(e2[j]@[k - 1] == oi);
        if oi < j {
            assert(subtree_bytes(nodes, e1, oi as int) == subtree_bytes(nodes, e2, oi as int));
        }
    }
}

proof fn lemma_swap_subtree(nodes: Seq<Node>, e1: Seq<Vec<u32>>, e2: Seq<Vec<u32>>, idx: int, j: int)
    requires
        shape_ok(nodes, e1),
        operands_swapped(e1, e2, idx),
        nodes[idx] matches Node::Op { name, .. } && (name@ == "add"@ || name@ == "mul"@),
        0 <= j < nodes.len(),
    ensures
        subtree_bytes(nodes, e1, j) == subtree_bytes(nodes, e2, j),
    decreases j,
{
    assert forall|m: int| 0 <= m < j implies subtree_bytes(nodes, e1, m) == subtree_bytes(nodes, e2, m) by {
        lemma_swap_subtree(nodes, e1, e2, idx, m);
    }
    if j != idx {
        assert(e2[j]@ == e1[j]@);
        lemma_authored_same(nodes, e1, e2, j, e1[j]@.len() as int);
        assert(canonical_operands_of(nodes, e1, j) == canonical_operands_of(nodes, e2, j));
    } else {
        let a = e1[idx]@[0];
        let b = e1[idx]@[1];
        assert(a < idx && b < idx);
        assert(e2[idx]@[0] == b && e2[idx]@[1] == a);
        let pa = (a, subtree_bytes(nodes, e1, a as int));
        let pb = (b, subtree_bytes(nodes, e1, b as int));
        assert(subtree_bytes(nodes, e2, a as int) == pa.1);
        assert(subtree_bytes(nodes, e2, b as int) == pb.1);
        assert(authored_operands(nodes, e1, idx, 0) =~= Seq::<(u32, Seq<u8>)>::empty());
        assert(authored_operands(nodes, e2, idx, 0) =~= Seq::<(u32, Seq<u8>)>::empty());
        assert(authored_operands(nodes, e1, idx, 1) =~= seq![pa]);
        assert(authored_operands(nodes, e2, idx, 1) =~= seq![pb]);
        assert(authored_operands(nodes, e1, idx, 2) =~= seq![pa, pb]);
        assert(authored_operands(nodes, e2, idx, 2) =~= seq![pb, pa]);
        lemma_sort_pair_swap(pa, pb);
        assert(concat_bytes(canonical_operands_of(nodes, e1, idx)) == concat_bytes(
            canonical_operands_of(nodes, e2, idx),
        ));
    }
}

/// The serialization of a signature does not depend on the authored order of
/// a commutative node's two operands: swapping the operand edges of an `add`
/// or `mul` node leaves the signature's bytes (and so its hash) unchanged, and
/// the swapped signature is as well-formed as the original.
pub proof fn commutative_signature_ignores_operand_order(s1: Signature, s2: Signature, idx: int)
    requires
        signature_shape_ok(s1),
        s2.nodes@ == s1.nodes@,
        operands_swapped(s1.edges@, s2.edges@, idx),
        s1.nodes@[idx] matches Node::Op { name, .. } && (name@ == "add"@ || name@ == "mul"@),
    ensures
        signature_shape_ok(s2),
        signature_bytes(s1) == signature_bytes(s2),
{
    let e1 = s1.edges@;
    let e2 = s2.edges@;
    assert forall|i: int, j: int| 0 <= i < e2.len() && 0 <= j < e2[i]@.len() implies #[trigger] e2[i]@[j] < i by {
        if i != idx {
            assert(e2[i]@ == e1[i]@);
            assert(e1[i]@[j] < i);
        } else {
            assert(e1[idx]@[0] < idx && e1[idx]@[1] < idx);
        }
    }
    lemma_swap_subtree(s1.nodes@, e1, e2, idx, s1.nodes@.len() - 1);
}

/// The view of an operand list: each index with its subtree bytes.
pub open spec fn pairs_view<T>(v: Seq<(T, Vec<u8>)>) -> Seq<(T, Seq<u8>)> {
    v.map_values(|p: (T, Vec<u8>)| (p.0, p.1@))
}

// ---------------------------------------------------------------------------
// The canonical serialization, executable.
// ---------------------------------------------------------------------------

fn is_commutative(op_name: &str) -> (r: bool)
    ensures
        r == commutative(op_name@),
        r == (op_name@ == "add"@ || op_name@ == "mul"@),
{
    str_eq(op_name, "add") || str_eq(op_name, "mul")
}

/// Unsigned-byte-lexicographic comparison `a <= b`.
pub fn bytes_lex_le(a: &[u8], b: &[u8]) -> (r: bool)
    ensures
        r == lex_le(a@, b@),
{
    let mut i: usize = 0;
    assert(a@.skip(0) == a@ && b@.skip(0) == b@);
    while i < a.len() && i < b.len() && a[i] == b[i]
        invariant
            i <= a.len(),
            i <= b.len(),
            lex_le(a@, b@) == lex_le(a@.skip(i as int), b@.skip(i as int)),
        decreases a.len() - i,
    {
        assert(a@.skip(i as int).drop_first() == a@.skip(i + 1));
        assert(b@.skip(i as int).drop_first() == b@.skip(i + 1));
        i += 1;
    }
    if i == a.len() {
        true
    } else if i == b.len() {
        false
    } else {
        a[i] < b[i]
    }
}

proof fn lemma_insert_by_key<T>(x: (T, Seq<u8>), s: Seq<(T, Seq<u8>)>, p: int)
    requires
        0 <= p <= s.len(),
        forall|j: int| 0 <= j < p ==> lex_le(#[trigger] s[j].1, x.1),
        p == s.len() || !lex_le(s[p].1, x.1),
    ensures
        insert_by_key(x, s) == s.insert(p, x),
    decreases s.len(),
{
    if s.len() == 0 {
        assert(s.insert(p, x) =~= seq![x]);
    } else if p == 0 {
        assert(s.insert(0, x) =~= seq![x] + s);
    } else {
        let t = s.drop_first();
        assert forall|j: int| 0 <= j < p - 1 implies lex_le(#[trigger] t[j].1, x.1) by {
            assert(t[j] == s[j + 1]);
        }
        lemma_insert_by_key(x, t, p - 1);
        assert(s.insert(p, x) =~= seq![s[0]] + t.insert(p - 1, x));
    }
}

/// Stable insertion of `x` into `out` by key.
fn insert_sorted<T>(out: &mut Vec<(T, Vec<u8>)>, x: (T, Vec<u8>))
    ensures
        pairs_view(final(out)@) == insert_by_key((x.0, x.1@), pairs_view(old(out)@)),
{
    let ghost xv = (x.0, x.1@);
    let mut p: usize = 0;
    while p < out.len() && bytes_lex_le(out[p].1.as_slice(), x.1.as_slice())
        invariant
            p <= out@.len(),
            xv == (x.0, x.1@),
            forall|j: int| 0 <= j < p ==> lex_le(#[trigger] pairs_view(out@)[j].1, xv.1),
        decreases out.len() - p,
    {
        assert(pairs_view(out@)[p as int] == (out@[p as int].0, out@[p as int].1@));
        p += 1;
    }
    proof {
        lemma_insert_by_key(xv, pairs_view(out@), p as int);
    }
    let ghost before = out@;
    out.insert(p, x);
    assert(pairs_view(out@) =~= pairs_view(before).insert(p as int, xv));
}

/// The stable sort of `v` ascending by key.
pub fn sort_pairs<T>(v: Vec<(T, Vec<u8>)>) -> (out: Vec<(T, Vec<u8>)>)
    ensures
        pairs_view(out@) == sort_by_key(pairs_view(v@)),
{
    let ghost vv = pairs_view(v@);
    let n = v.len();
    assert(vv.len() == n);
    let mut out: Vec<(T, Vec<u8>)> = Vec::new();
    let mut rest = v;
    let mut i: usize = 0;
    while rest.len() > 0
        invariant
            i + rest@.len() == vv.len(),
            vv.len() <= usize::MAX,
            pairs_view(rest@) == vv.skip(i as int),
            pairs_view(out@) == sort_by_key(vv.take(i as int)),
        decreases rest.len(),
    {
        let ghost r0 = rest@;
        let x = rest.remove(0);
        assert(pairs_view(r0)[0] == (r0[0].0, r0[0].1@));
        assert(vv.skip(i as int)[0] == vv[i as int]);
        assert(x.1@ == vv[i as int].1 && x.0 == vv[i as int].0);
        insert_sorted(&mut out, x);
        assert(vv.take(i + 1).drop_last() == vv.take(i as int));
        assert(rest@ == r0.subrange(1, r0.len() as int));
        assert forall|k: int| 0 <= k < rest@.len() implies pairs_view(rest@)[k] == vv.skip(i + 1)[k] by {
            assert(pairs_view(rest@)[k] == (rest@[k].0, rest@[k].1@));
            assert(pairs_view(r0)[k + 1] == (r0[k + 1].0, r0[k + 1].1@));
            assert(vv.skip(i as int)[k + 1] == vv.skip(i + 1)[k]);
        }
        assert(pairs_view(rest@) =~= vv.skip(i + 1));
        i += 1;
    }
    assert(vv.take(i as int) == vv);
    out
}

/// The operands of node `idx`, each with its subtree bytes, in canonical
/// operand order.
fn canonical_operands(nodes: &[Node], edges: &[Vec<u32>], idx: usize) -> (r: Vec<(u32, Vec<u8>)>)
    requires
        shape_ok(nodes@, edges@),
        idx < nodes@.len(),
    ensures
        pairs_view(r@) == canonical_operands_of(nodes@, edges@, idx as int),
    decreases idx, 0nat,
{
    let ops = &edges[idx];
    let mut pairs: Vec<(u32, Vec<u8>)> = Vec::new();
    let mut j: usize = 0;
    while j < ops.len()
        invariant
            shape_ok(nodes@, edges@),
            idx < nodes@.len(),
            *ops == edges@[idx as int],
            j <= ops@.len(),
            pairs_view(pairs@) == authored_operands(nodes@, edges@, idx as int, j as int),
        decreases ops.len() - j,
    {
        let oi = ops[j];
        assert(edges@[idx as int]@[j as int] < idx);
        let b = node_bytes(nodes, edges, oi as usize);
        let ghost before = pairs@;
        pairs.push((oi, b));
        assert(pairs_view(pairs@) =~= pairs_view(before).push((oi, b@)));
        j += 1;
    }
    match &nodes[idx] {
        Node::Op { name, .. } => {
            if is_commutative(name.as_str()) {
                sort_pairs(pairs)
            } else {
                pairs
            }
        },
        Node::Bind(_) => pairs,
    }
}

/// The canonical subtree serialization of node `idx` (the root is the last
/// node).
fn node_bytes(nodes: &[Node], edges: &[Vec<u32>], idx: usize) -> (b: Vec<u8>)
    requires
        shape_ok(nodes@, edges@),
        idx < nodes@.len(),
    ensures
        b@ == subtree_bytes(nodes@, edges@, idx as int),
    decreases idx, 1nat,
{
    let root_idx = nodes.len() - 1;
    match &nodes[idx] {
        Node::Bind(i) => {
            let mut b: Vec<u8> = Vec::new();
            b.push(0u8);
            push_u32_le(&mut b, *i);
            b
        },
        Node::Op { name, opattrs } => {
            assert(fits_u16(nodes@[idx as int]));
            let mut b: Vec<u8> = Vec::new();
            b.push(1u8);
            let nb = string_bytes(name);
            push_u16_le(&mut b, nb.len() as u16);
            push_all(&mut b, nb.as_slice());
            b.push(if idx == root_idx { 1u8 } else { 0u8 });
            push_u16_le(&mut b, opattrs.len() as u16);
            push_all(&mut b, opattrs.as_slice());
            push_u16_le(&mut b, 0u16);
            let ghost head = b@;
            let ops = canonical_operands(nodes, edges, idx);
            let ghost ov = pairs_view(ops@);
            let mut k: usize = 0;
            while k < ops.len()
                invariant
                    k <= ops@.len(),
                    ov == pairs_view(ops@),
                    b@ == head + concat_bytes(ov.take(k as int)),
                decreases ops.len() - k,
            {
                push_all(&mut b, ops[k].1.as_slice());
                assert(ov.take(k + 1).drop_last() == ov.take(k as int));
                k += 1;
            }
            assert(ov.take(ops@.len() as int) == ov);
            b
        },
    }
}

/// Whether a signature meets the encoder's structural precondition.
pub open spec fn signature_shape_ok(sig: Signature) -> bool {
    shape_ok(sig.nodes@, sig.edges@)
}

/// The canonical subtree serialization of `sig`'s root (the last node) — the
/// membership key of the expressibility oracle. Every operand must name a
/// strictly earlier node, with one operand list per node.
pub fn serialize_signature_bytes(sig: &Signature) -> (b: Vec<u8>)
    requires
        signature_shape_ok(*sig),
    ensures
        b@ == signature_bytes(*sig),
{
    if sig.nodes.len() == 0 {
        return Vec::new();
    }
    node_bytes(sig.nodes.as_slice(), sig.edges.as_slice(), sig.nodes.len() - 1)
}

// ---------------------------------------------------------------------------
// signature_hash: the FNV-1a-64 membership index over the bytes.
// ---------------------------------------------------------------------------

/// The FNV-1a 64-bit offset basis.
pub const FNV_OFFSET_BASIS: u64 = 0xcbf2_9ce4_8422_2325;

/// The FNV-1a 64-bit prime.
pub const FNV_PRIME: u64 = 0x0000_0100_0000_01b3;

/// FNV-1a-64 of `data`: from the offset basis, one XOR-then-multiply
/// (mod 2^64) step per byte.
pub open spec fn fnv1a64_of(data: Seq<u8>) -> u64
    decreases data.len(),
{
    if data.len() == 0 {
        FNV_OFFSET_BASIS
    } else {
        mul64(fnv1a64_of(data.drop_last()) ^ (data.last() as u64), FNV_PRIME)
    }
}

/// FNV-1a (64-bit): offset basis `0xcbf29ce484222325`, prime
/// `0x100000001b3`, one XOR-then-multiply step per byte.
pub fn fnv1a64(data: &[u8]) -> (h: u64)
    ensures
        h == fnv1a64_of(data@),
{
    let mut h: u64 = FNV_OFFSET_BASIS;
    let mut i: usize = 0;
    while i < data.len()
        invariant
            i <= data@.len(),
            h == fnv1a64_of(data@.take(i as int)),
        decreases data.len() - i,
    {
        assert(data@.take(i + 1).drop_last() == data@.take(i as int));
        h = wrapping_mul64(h ^ (data[i] as u64), FNV_PRIME);
        i += 1;
    }
    assert(data@.take(data@.len() as int) == data@);
    h
}

/// `signature_hash`: the FNV-1a-64 hash of `bytes` as 16 lowercase hex digits
/// (big-endian rendering of the `u64`).
pub fn signature_hash_hex(bytes: &[u8]) -> (s: String)
    ensures
        s@ == hex_fixed_lower(fnv1a64_of(bytes@) as nat, 16),
{
    let mut s = String::new();
    push_hex_fixed_lower(&mut s, fnv1a64(bytes), 16);
    s
}


proof fn lemma_insert_members<T>(x: (T, Seq<u8>), s: Seq<(T, Seq<u8>)>)
    ensures
        insert_by_key(x, s).len() == s.len() + 1,
        forall|z: int| 0 <= z < insert_by_key(x, s).len() ==> #[trigger] insert_by_key(x, s)[z] == x || s.contains(insert_by_key(x, s)[z]),
    decreases s.len(),
{
    if s.len() > 0 && lex_le(s[0].1, x.1) {
        let t = s.drop_first();
        lemma_insert_members(x, t);
        let r = insert_by_key(x, s);
        assert forall|z: int| 0 <= z < r.len() implies #[trigger] r[z] == x || s.contains(r[z]) by {
            if z == 0 {
                assert(s[0] == r[0]);
            } else {
                assert(r[z] == insert_by_key(x, t)[z - 1]);
                if t.contains(r[z]) {
                    let k = choose|k: int| 0 <= k < t.len() && t[k] == r[z];
                    assert(s[k + 1] == r[z]);
                }
            }
        }
    } else if s.len() > 0 {
        let r = insert_by_key(x, s);
        assert forall|z: int| 0 <= z < r.len() implies #[trigger] r[z] == x || s.contains(r[z]) by {
            if z > 0 {
                assert(r[z] == s[z - 1]);
            }
        }
    }
}

/// Sorting keeps the entries: every entry of the arrangement is one of the
/// input's, and there are as many.
pub proof fn lemma_sort_members<T>(s: Seq<(T, Seq<u8>)>)
    ensures
        sort_by_key(s).len() == s.len(),
        forall|z: int| 0 <= z < sort_by_key(s).len() ==> s.contains(#[trigger] sort_by_key(s)[z]),
    decreases s.len(),
{
    if s.len() > 0 {
        let init = s.drop_last();
        lemma_sort_members(init);
        let si = sort_by_key(init);
        lemma_insert_members(s.last(), si);
        assert forall|z: int| 0 <= z < sort_by_key(s).len() implies s.contains(#[trigger] sort_by_key(s)[z]) by {
            let e = sort_by_key(s)[z];
            if e == s.last() {
                assert(s[s.len() - 1] == e);
            } else {
                assert(si.contains(e));
                let k = choose|k: int| 0 <= k < si.len() && si[k] == e;
                assert(init.contains(si[k]));
                let m = choose|m: int| 0 <= m < init.len() && init[m] == e;
                assert(s[m] == e);
            }
        }
    }
}

// ---------------------------------------------------------------------------
// The set document (JSON).
// ---------------------------------------------------------------------------

/// One character inside a JSON string literal: `"`, `\`, LF, CR and TAB get
/// their short escapes, every other control character `\u00XX` (lowercase).
pub open spec fn json_lit_char(c: char) -> Seq<char> {
    if c == '"' {
        "\\\""@
    } else if c == '\\' {
        "\\\\"@
    } else if c == '\n' {
        "\\n"@
    } else if c == '\r' {
        "\\r"@
    } else if c == '\t' {
        "\\t"@
    } else if (c as u32) < 0x20 {
        "\\u"@ + hex_fixed_lower((c as u32) as nat, 4)
    } else {
        seq![c]
    }
}

pub open spec fn json_lit_body(s: Seq<char>) -> Seq<char>
    decreases s.len(),
{
    if s.len() == 0 {
        seq![]
    } else {
        json_lit_body(s.drop_last()) + json_lit_char(s.last())
    }
}

/// A JSON string literal.
pub open spec fn json_lit(s: Seq<char>) -> Seq<char> {
    "\""@ + json_lit_body(s) + "\""@
}

fn push_json_lit(out: &mut String, t: &str)
    ensures
        final(out)@ == old(out)@ + json_lit(t@),
{
    let ghost s0 = out@;
    let cs = chars_of(t);
    push_str(out, "\"");
    let mut i: usize = 0;
    while i < cs.len()
        invariant
            i <= cs@.len(),
            cs@ == t@,
            out@ == s0 + "\""@ + json_lit_body(cs@.take(i as int)),
        decreases cs.len() - i,
    {
        let c = cs[i];
        let ghost before = out@;
        if c == '"' {
            push_str(out, "\\\"");
        } else if c == '\\' {
            push_str(out, "\\\\");
        } else if c == '\n' {
            push_str(out, "\\n");
        } else if c == '\r' {
            push_str(out, "\\r");
        } else if c == '\t' {
            push_str(out, "\\t");
        } else if (c as u32) < 0x20 {
            push_str(out, "\\u");
            push_hex_fixed_lower(out, (c as u32) as u64, 4);
        } else {
            push_char(out, c);
            assert(json_lit_char(c) == seq![c]);
        }
        proof {
            assert(out@ =~= before + json_lit_char(c));
            assert(cs@.take(i + 1).drop_last() =~= cs@.take(i as int));
        }
        i += 1;
    }
    proof {
        assert(cs@.take(cs@.len() as int) =~= cs@);
    }
    push_str(out, "\"");
    proof {
        assert(out@ =~= s0 + json_lit(t@));
    }
}

/// A node's display string: `Bind{i}` or `Op{name;opattrs_hex}`.
pub open spec fn node_display(n: Node) -> Seq<char> {
    match n {
        Node::Bind(i) => "Bind{"@ + dec_chars(i as nat) + "}"@,
        Node::Op { name, opattrs } => "Op{"@ + name@ + ";"@ + hex_lower_compact(opattrs@) + "}"@,
    }
}

/// The decimal spellings of the operand indices.
pub open spec fn index_texts(s: Seq<(u32, Seq<u8>)>) -> Seq<Seq<char>>
    decreases s.len(),
{
    if s.len() == 0 {
        seq![]
    } else {
        index_texts(s.drop_last()).push(dec_chars(s.last().0 as nat))
    }
}

/// Node `i`'s operand indices in canonical order, as a JSON array.
pub open spec fn edge_list(nodes: Seq<Node>, edges: Seq<Vec<u32>>, i: int) -> Seq<char> {
    "["@ + join(index_texts(canonical_operands_of(nodes, edges, i)), ","@) + "]"@
}

/// The edge arrays of the first `k` nodes.
pub open spec fn edge_lists(nodes: Seq<Node>, edges: Seq<Vec<u32>>, k: int) -> Seq<Seq<char>>
    decreases k,
{
    if k <= 0 {
        seq![]
    } else {
        edge_lists(nodes, edges, k - 1).push(edge_list(nodes, edges, k - 1))
    }
}

/// The node display strings, as JSON string literals.
pub open spec fn node_texts(nodes: Seq<Node>) -> Seq<Seq<char>>
    decreases nodes.len(),
{
    if nodes.len() == 0 {
        seq![]
    } else {
        node_texts(nodes.drop_last()).push(json_lit(node_display(nodes.last())))
    }
}

/// A signature's JSON object (keys in code-point order, no whitespace).
pub open spec fn signature_json(sig: Signature) -> Seq<char> {
    let nodes = sig.nodes@;
    let edges = sig.edges@;
    let bytes = signature_bytes(sig);
    "{\"bytes\":"@ + json_lit(hex_lower_compact(bytes)) + ",\"edges\":["@
        + join(edge_lists(nodes, edges, nodes.len() as int), ","@) + "],\"nodes\":["@
        + join(node_texts(nodes), ","@) + "],\"signature_hash\":"@
        + json_lit(hex_fixed_lower(fnv1a64_of(bytes) as nat, 16)) + "}"@
}

/// The signatures' indices with their bytes, in set order.
pub open spec fn indexed_bytes(sigs: Seq<Signature>, k: int) -> Seq<(usize, Seq<u8>)>
    decreases k,
{
    if k <= 0 {
        seq![]
    } else {
        indexed_bytes(sigs, k - 1).push(((k - 1) as usize, signature_bytes(sigs[k - 1])))
    }
}

/// The signatures by index with their bytes, in ascending byte order (ties
/// keep their set order).
pub open spec fn signature_order(sigs: Seq<Signature>) -> Seq<(usize, Seq<u8>)> {
    sort_by_key(indexed_bytes(sigs, sigs.len() as int))
}

/// The JSON objects of the signatures an ordering names.
pub open spec fn ordered_texts(sigs: Seq<Signature>, order: Seq<(usize, Seq<u8>)>) -> Seq<Seq<char>>
    decreases order.len(),
{
    if order.len() == 0 {
        seq![]
    } else {
        ordered_texts(sigs, order.drop_last()).push(signature_json(sigs[order.last().0 as int]))
    }
}

/// The set's JSON document.
pub open spec fn set_json(set: SignatureSet) -> Seq<char> {
    let sigs = set.signatures@;
    "{\"generator\":"@ + json_lit(set.generator@) + ",\"opattrs_wire_version\":"@
        + json_lit(set.opattrs_wire_version@) + ",\"ops_op_set_version\":"@
        + json_lit(set.ops_op_set_version@) + ",\"owner\":"@ + json_lit(set.owner@)
        + ",\"signatures\":["@ + join(ordered_texts(sigs, signature_order(sigs)), ","@)
        + "]}"@
}

proof fn lemma_strings_view_push(v: Seq<String>, x: String)
    ensures
        strings_view(v.push(x)) == strings_view(v).push(x@),
{
    assert(strings_view(v.push(x)) =~= strings_view(v).push(x@));
}

fn node_display_string(n: &Node) -> (s: String)
    ensures
        s@ == json_lit(node_display(*n)),
{
    let mut d = String::new();
    match n {
        Node::Bind(i) => {
            push_str(&mut d, "Bind{");
            push_dec(&mut d, *i as u64);
            push_str(&mut d, "}");
        },
        Node::Op { name, opattrs } => {
            push_str(&mut d, "Op{");
            push_str(&mut d, name.as_str());
            push_str(&mut d, ";");
            push_hex_lower_compact(&mut d, opattrs.as_slice());
            push_str(&mut d, "}");
        },
    }
    assert(d@ =~= node_display(*n));
    let mut s = String::new();
    push_json_lit(&mut s, d.as_str());
    assert(s@ =~= json_lit(node_display(*n)));
    s
}

fn edge_list_string(nodes: &[Node], edges: &[Vec<u32>], i: usize) -> (s: String)
    requires
        shape_ok(nodes@, edges@),
        i < nodes@.len(),
    ensures
        s@ == edge_list(nodes@, edges@, i as int),
{
    let ops = canonical_operands(nodes, edges, i);
    let ghost ov = pairs_view(ops@);
    let mut parts: Vec<String> = Vec::new();
    let mut k: usize = 0;
    proof {
        assert(strings_view(parts@) =~= index_texts(ov.take(0)));
    }
    while k < ops.len()
        invariant
            k <= ops@.len(),
            ov == pairs_view(ops@),
            ov.len() == ops@.len(),
            strings_view(parts@) == index_texts(ov.take(k as int)),
        decreases ops.len() - k,
    {
        let mut d = String::new();
        push_dec(&mut d, ops[k].0 as u64);
        let ghost before = parts@;
        parts.push(d);
        proof {
            assert(ov[k as int].0 == ops@[k as int].0);
            lemma_strings_view_push(before, d);
            assert(ov.take(k + 1).drop_last() =~= ov.take(k as int));
        }
        k += 1;
    }
    let mut s = String::new();
    push_str(&mut s, "[");
    push_join(&mut s, parts.as_slice(), ",");
    push_str(&mut s, "]");
    proof {
        assert(ov.take(ops@.len() as int) =~= ov);
        assert(s@ =~= edge_list(nodes@, edges@, i as int));
    }
    s
}

fn signature_json_string(sig: &Signature) -> (r: (Vec<u8>, String))
    requires
        signature_shape_ok(*sig),
    ensures
        r.0@ == signature_bytes(*sig),
        r.1@ == signature_json(*sig),
{
    let bytes = serialize_signature_bytes(sig);
    let nodes = sig.nodes.as_slice();
    let edges = sig.edges.as_slice();
    let mut edge_parts: Vec<String> = Vec::new();
    let mut node_parts: Vec<String> = Vec::new();
    let mut i: usize = 0;
    proof {
        assert(strings_view(edge_parts@) =~= seq![]);
        assert(node_texts(nodes@.take(0)) =~= seq![]);
        assert(strings_view(node_parts@) =~= seq![]);
    }
    while i < nodes.len()
        invariant
            i <= nodes@.len(),
            nodes@ == sig.nodes@,
            edges@ == sig.edges@,
            shape_ok(nodes@, edges@),
            strings_view(edge_parts@) == edge_lists(nodes@, edges@, i as int),
            strings_view(node_parts@) == node_texts(nodes@.take(i as int)),
        decreases nodes.len() - i,
    {
        let e = edge_list_string(nodes, edges, i);
        let n = node_display_string(&nodes[i]);
        let ghost eb = edge_parts@;
        let ghost nb = node_parts@;
        edge_parts.push(e);
        node_parts.push(n);
        proof {
            lemma_strings_view_push(eb, e);
            lemma_strings_view_push(nb, n);
            assert(nodes@.take(i + 1).drop_last() =~= nodes@.take(i as int));
        }
        i += 1;
    }
    let mut s = String::new();
    push_str(&mut s, "{\"bytes\":");
    let mut hx = String::new();
    push_hex_lower_compact(&mut hx, bytes.as_slice());
    push_json_lit(&mut s, hx.as_str());
    push_str(&mut s, ",\"edges\":[");
    push_join(&mut s, edge_parts.as_slice(), ",");
    push_str(&mut s, "],\"nodes\":[");
    push_join(&mut s, node_parts.as_slice(), ",");
    push_str(&mut s, "],\"signature_hash\":");
    let hash = signature_hash_hex(bytes.as_slice());
    push_json_lit(&mut s, hash.as_str());
    push_str(&mut s, "}");
    proof {
        assert(nodes@.take(nodes@.len() as int) =~= nodes@);
        assert(s@ =~= signature_json(*sig));
    }
    (bytes, s)
}

/// Each signature's bytes (keyed by its index) and its JSON object.
fn signature_parts(sigs: &[Signature]) -> (r: (Vec<(usize, Vec<u8>)>, Vec<String>))
    requires
        forall|i: int| 0 <= i < sigs@.len() ==> signature_shape_ok(#[trigger] sigs@[i]),
    ensures
        pairs_view(r.0@) == indexed_bytes(sigs@, sigs@.len() as int),
        r.1@.len() == sigs@.len(),
        forall|j: int| 0 <= j < sigs@.len() ==> #[trigger] r.1@[j]@ == signature_json(sigs@[j]),
{
    let mut keyed: Vec<(usize, Vec<u8>)> = Vec::new();
    let mut texts: Vec<String> = Vec::new();
    let mut i: usize = 0;
    proof {
        assert(pairs_view(keyed@) =~= seq![]);
    }
    while i < sigs.len()
        invariant
            i <= sigs@.len(),
            forall|k: int| 0 <= k < sigs@.len() ==> signature_shape_ok(#[trigger] sigs@[k]),
            pairs_view(keyed@) == indexed_bytes(sigs@, i as int),
            texts@.len() == i,
            forall|j: int| 0 <= j < i ==> #[trigger] texts@[j]@ == signature_json(sigs@[j]),
        decreases sigs.len() - i,
    {
        let (bytes, text) = signature_json_string(&sigs[i]);
        let ghost kb = keyed@;
        keyed.push((i, bytes));
        texts.push(text);
        proof {
            assert(pairs_view(keyed@) =~= pairs_view(kb).push((i, signature_bytes(sigs@[i as int]))));
        }
        i += 1;
    }
    (keyed, texts)
}

/// The signature objects in the given order.
fn ordered_parts(
    sv: Ghost<Seq<Signature>>,
    order: &Vec<(usize, Vec<u8>)>,
    texts: &Vec<String>,
) -> (parts: Vec<String>)
    requires
        forall|z: int| 0 <= z < order@.len() ==> (#[trigger] order@[z]).0 < sv@.len(),
        texts@.len() == sv@.len(),
        forall|j: int| 0 <= j < sv@.len() ==> #[trigger] texts@[j]@ == signature_json(sv@[j]),
    ensures
        strings_view(parts@) == ordered_texts(sv@, pairs_view(order@)),
{
    let ghost ov = pairs_view(order@);
    let mut parts: Vec<String> = Vec::new();
    let mut k: usize = 0;
    proof {
        assert(strings_view(parts@) =~= ordered_texts(sv@, ov.take(0)));
    }
    while k < order.len()
        invariant
            k <= order@.len(),
            ov == pairs_view(order@),
            forall|z: int| 0 <= z < order@.len() ==> (#[trigger] order@[z]).0 < sv@.len(),
            texts@.len() == sv@.len(),
            forall|j: int| 0 <= j < sv@.len() ==> #[trigger] texts@[j]@ == signature_json(sv@[j]),
            strings_view(parts@) == ordered_texts(sv@, ov.take(k as int)),
        decreases order.len() - k,
    {
        let idx = order[k].0;
        proof {
            assert(ov[k as int].0 == idx);
        }
        let t = string_from(texts[idx].as_str());
        let ghost pb = parts@;
        parts.push(t);
        proof {
            lemma_strings_view_push(pb, t);
            assert(ov.take(k + 1).drop_last() =~= ov.take(k as int));
        }
        k += 1;
    }
    proof {
        assert(ov.take(ov.len() as int) =~= ov);
    }
    parts
}

/// The set document around its ordered signature objects.
fn set_document(set: &SignatureSet, parts: &Vec<String>) -> (doc: String)
    requires
        strings_view(parts@) == ordered_texts(set.signatures@, signature_order(set.signatures@)),
    ensures
        doc@ == set_json(*set),
{
    let mut doc = String::new();
    push_str(&mut doc, "{\"generator\":");
    push_json_lit(&mut doc, set.generator.as_str());
    push_str(&mut doc, ",\"opattrs_wire_version\":");
    push_json_lit(&mut doc, set.opattrs_wire_version.as_str());
    push_str(&mut doc, ",\"ops_op_set_version\":");
    push_json_lit(&mut doc, set.ops_op_set_version.as_str());
    push_str(&mut doc, ",\"owner\":");
    push_json_lit(&mut doc, set.owner.as_str());
    push_str(&mut doc, ",\"signatures\":[");
    push_join(&mut doc, parts.as_slice(), ",");
    push_str(&mut doc, "]}");
    proof {
        assert(doc@ =~= set_json(*set));
    }
    doc
}

/// The set's JSON document as UTF-8 bytes: object keys in ascending
/// code-point order, no insignificant whitespace, `signatures` ordered by
/// each signature's `bytes` (unsigned-byte-lex, ties in set order).
pub fn serialize_set(set: &SignatureSet) -> (b: Vec<u8>)
    requires
        forall|i: int| 0 <= i < set.signatures@.len() ==> signature_shape_ok(#[trigger] set.signatures@[i]),
    ensures
        b@ == encode_utf8(set_json(*set)),
{
    let sigs = set.signatures.as_slice();
    let n = sigs.len();
    let ghost sv = set.signatures@;
    let (keyed, texts) = signature_parts(sigs);
    let order = sort_pairs(keyed);
    proof {
        let ib = indexed_bytes(sv, sv.len() as int);
        lemma_sort_members(ib);
        lemma_indexed_bytes(sv, n as int);
        let ov = pairs_view(order@);
        assert forall|z: int| 0 <= z < order@.len() implies (#[trigger] order@[z]).0 < sv.len() by {
            assert(ov[z].0 == order@[z].0);
            assert(ib.contains(ov[z]));
            let w = choose|w: int| 0 <= w < ib.len() && ib[w] == ov[z];
        }
    }
    let parts = ordered_parts(Ghost(sv), &order, &texts);
    let doc = set_document(set, &parts);
    string_bytes(&doc)
}

proof fn lemma_indexed_bytes(sigs: Seq<Signature>, k: int)
    requires
        0 <= k <= usize::MAX,
    ensures
        indexed_bytes(sigs, k).len() == k,
        forall|w: int| 0 <= w < k ==> (#[trigger] indexed_bytes(sigs, k)[w]).0 == w,
    decreases k,
{
    if k > 0 {
        lemma_indexed_bytes(sigs, k - 1);
    }
}

// ---------------------------------------------------------------------------
// Reading a set document back: typed declines.
// ---------------------------------------------------------------------------

/// A typed decline from [`reject_set`].
#[derive(Debug, Clone, PartialEq, Eq)]
pub enum Decline {
    MissingField(String),
    UnknownField(String),
    BadEnumerant(String),
}

/// The content of a [`Decline`].
pub enum DeclineV {
    MissingField(Seq<char>),
    UnknownField(Seq<char>),
    BadEnumerant(Seq<char>),
}

impl View for Decline {
    type V = DeclineV;

    open spec fn view(&self) -> DeclineV {
        match self {
            Decline::MissingField(s) => DeclineV::MissingField(s@),
            Decline::UnknownField(s) => DeclineV::UnknownField(s@),
            Decline::BadEnumerant(s) => DeclineV::BadEnumerant(s@),
        }
    }
}

/// The top-level fields of a set document, in order.
pub open spec fn top_level_fields() -> Seq<Seq<char>> {
    seq!["generator"@, "opattrs_wire_version"@, "ops_op_set_version"@, "owner"@, "signatures"@]
}

/// The fields of a signature object, in order.
pub open spec fn signature_fields() -> Seq<Seq<char>> {
    seq!["bytes"@, "edges"@, "nodes"@, "signature_hash"@]
}

pub open spec fn has_key(ms: Seq<(Seq<char>, JsonV)>, k: Seq<char>) -> bool {
    exists|i: int| 0 <= i < ms.len() && (#[trigger] ms[i]).0 == k
}

/// The first required field that is absent.
pub open spec fn first_missing(ms: Seq<(Seq<char>, JsonV)>, req: Seq<Seq<char>>) -> Option<Seq<char>>
    decreases req.len(),
{
    if req.len() == 0 {
        None
    } else if !has_key(ms, req[0]) {
        Some(req[0])
    } else {
        first_missing(ms, req.drop_first())
    }
}

/// The first field present that is not required.
pub open spec fn first_unknown(ms: Seq<(Seq<char>, JsonV)>, req: Seq<Seq<char>>) -> Option<Seq<char>>
    decreases ms.len(),
{
    if ms.len() == 0 {
        None
    } else if !req.contains(ms[0].0) {
        Some(ms[0].0)
    } else {
        first_unknown(ms.drop_first(), req)
    }
}

/// Every required field present (the first absent one, in required order,
/// declines), then every present field required (the first stranger declines).
pub open spec fn fields_check(ms: Seq<(Seq<char>, JsonV)>, req: Seq<Seq<char>>) -> Option<DeclineV> {
    match first_missing(ms, req) {
        Some(k) => Some(DeclineV::MissingField(k)),
        None => match first_unknown(ms, req) {
            Some(k) => Some(DeclineV::UnknownField(k)),
            None => None,
        },
    }
}

/// Each signature an object with exactly its fields.
pub open spec fn signatures_check(xs: Seq<JsonV>) -> Option<DeclineV>
    decreases xs.len(),
{
    if xs.len() == 0 {
        None
    } else {
        match xs[0] {
            JsonV::Obj(m) => match fields_check(m, signature_fields()) {
                Some(d) => Some(d),
                None => signatures_check(xs.drop_first()),
            },
            _ => Some(DeclineV::MissingField("bytes"@)),
        }
    }
}

/// The decline for a document that is not even a JSON object.
pub open spec fn not_a_document() -> Option<DeclineV> {
    Some(DeclineV::MissingField("generator"@))
}

/// What [`reject_set`] decides: `None` to accept.
pub open spec fn reject_spec(b: Seq<u8>) -> Option<DeclineV> {
    if !valid_utf8(b) {
        not_a_document()
    } else {
        match parse_spec(decode_utf8(b)) {
            Err(_) => not_a_document(),
            Ok(JsonV::Obj(top)) => match fields_check(top, top_level_fields()) {
                Some(d) => Some(d),
                None => {
                    let owner = match lookup(top, "owner"@) {
                        Some(JsonV::Str(o)) => o,
                        _ => ""@,
                    };
                    if owner != "KISS-OPS"@ {
                        Some(DeclineV::BadEnumerant("owner="@ + owner))
                    } else {
                        match lookup(top, "signatures"@) {
                            Some(JsonV::Arr(sigs)) => signatures_check(sigs),
                            _ => Some(DeclineV::MissingField("signatures[array]"@)),
                        }
                    }
                },
            },
            Ok(_) => not_a_document(),
        }
    }
}

fn has_key_exec(obj: &[(String, Json)], k: &str) -> (r: bool)
    ensures
        r == has_key(member_views(obj@), k@),
{
    proof {
        crate::json::lemma_member_views_len(obj@);
    }
    let ghost mv = member_views(obj@);
    let mut i: usize = 0;
    while i < obj.len()
        invariant
            i <= obj@.len(),
            mv == member_views(obj@),
            mv.len() == obj@.len(),
            forall|z: int| 0 <= z < obj@.len() ==> #[trigger] mv[z] == (obj@[z].0@, crate::json::json_view(obj@[z].1)),
            forall|z: int| 0 <= z < i ==> (#[trigger] mv[z]).0 != k@,
        decreases obj@.len() - i,
    {
        if str_eq(obj[i].0.as_str(), k) {
            proof {
                assert(mv[i as int].0 == k@);
            }
            return true;
        }
        i += 1;
    }
    false
}

fn in_list(list: &[&str], k: &str) -> (r: bool)
    ensures
        r == list@.map_values(|x: &str| x@).contains(k@),
{
    let ghost lv = list@.map_values(|x: &str| x@);
    let mut i: usize = 0;
    while i < list.len()
        invariant
            i <= list@.len(),
            lv == list@.map_values(|x: &str| x@),
            forall|z: int| 0 <= z < i ==> lv[z] != k@,
        decreases list@.len() - i,
    {
        if str_eq(list[i], k) {
            proof {
                assert(lv[i as int] == k@);
            }
            return true;
        }
        i += 1;
    }
    false
}

/// Missing fields first (in `required`'s order), then unknown ones.
fn check_fields(obj: &[(String, Json)], required: &[&str]) -> (r: Option<Decline>)
    ensures
        match fields_check(member_views(obj@), required@.map_values(|x: &str| x@)) {
            Some(d) => r matches Some(x) && x@ == d,
            None => r is None,
        },
{
    let ghost mv = member_views(obj@);
    let ghost req = required@.map_values(|x: &str| x@);
    let mut i: usize = 0;
    proof {
        assert(req.skip(0) =~= req);
    }
    while i < required.len()
        invariant
            i <= required@.len(),
            mv == member_views(obj@),
            req == required@.map_values(|x: &str| x@),
            first_missing(mv, req.skip(i as int)) == first_missing(mv, req),
        decreases required@.len() - i,
    {
        proof {
            assert(req.skip(i as int).drop_first() =~= req.skip(i + 1));
            assert(req.skip(i as int)[0] == required@[i as int]@);
        }
        if !has_key_exec(obj, required[i]) {
            return Some(Decline::MissingField(string_from(required[i])));
        }
        i += 1;
    }
    proof {
        assert(req.skip(i as int).len() == 0);
        crate::json::lemma_member_views_len(obj@);
        assert(mv.skip(0) =~= mv);
    }
    let mut j: usize = 0;
    while j < obj.len()
        invariant
            j <= obj@.len(),
            mv == member_views(obj@),
            mv.len() == obj@.len(),
            forall|z: int| 0 <= z < obj@.len() ==> #[trigger] mv[z] == (obj@[z].0@, crate::json::json_view(obj@[z].1)),
            req == required@.map_values(|x: &str| x@),
            first_missing(mv, req) is None,
            first_unknown(mv.skip(j as int), req) == first_unknown(mv, req),
        decreases obj@.len() - j,
    {
        proof {
            assert(mv.skip(j as int).drop_first() =~= mv.skip(j + 1));
            assert(mv.skip(j as int)[0] == mv[j as int]);
        }
        if !in_list(required, obj[j].0.as_str()) {
            return Some(Decline::UnknownField(string_from(obj[j].0.as_str())));
        }
        j += 1;
    }
    proof {
        assert(mv.skip(j as int).len() == 0);
    }
    None
}

/// Reads and validates a set document: a missing required field, an unknown
/// field, or an `owner` other than `KISS-OPS` declines, typed. Bytes that are
/// not UTF-8, text that is not JSON, and a root that is not an object decline
/// as a missing `generator`. `Ok` otherwise.
pub fn reject_set(json: &[u8]) -> (r: Result<(), Decline>)
    requires
        json@.len() <= 0x1000_0000_0000,
    ensures
        match reject_spec(json@) {
            Some(d) => r matches Err(x) && x@ == d,
            None => r is Ok,
        },
{
    let text = match utf8_decode(json) {
        Some(t) => t,
        None => {
            return Err(Decline::MissingField(string_from("generator")));
        },
    };
    proof {
        lemma_decode_len(json@);
    }
    let doc = match parse(text.as_str()) {
        Ok(d) => d,
        Err(_) => {
            return Err(Decline::MissingField(string_from("generator")));
        },
    };
    let top = match &doc {
        Json::Obj(m) => m,
        _ => {
            return Err(Decline::MissingField(string_from("generator")));
        },
    };
    let top_fields = ["generator", "opattrs_wire_version", "ops_op_set_version", "owner", "signatures"];
    proof {
        assert(top_fields@.map_values(|x: &str| x@) =~= top_level_fields());
    }
    match check_fields(top.as_slice(), top_fields.as_slice()) {
        Some(d) => {
            return Err(d);
        },
        None => {},
    }
    let owner: &str = match doc.get("owner") {
        Some(o) => match o.as_str() {
            Some(s) => s,
            None => "",
        },
        None => "",
    };
    if !str_eq(owner, "KISS-OPS") {
        let mut m = String::new();
        push_str(&mut m, "owner=");
        push_str(&mut m, owner);
        proof {
            assert(m@ =~= "owner="@ + owner@);
        }
        return Err(Decline::BadEnumerant(m));
    }
    let sig_fields = ["bytes", "edges", "nodes", "signature_hash"];
    proof {
        assert(sig_fields@.map_values(|x: &str| x@) =~= signature_fields());
    }
    match doc.get("signatures") {
        Some(Json::Arr(sigs)) => {
            let ghost xs = crate::json::json_views(sigs@);
            proof {
                crate::json::lemma_json_views_len(sigs@);
                assert(xs.skip(0) =~= xs);
                assert(reject_spec(json@) == signatures_check(xs));
            }
            let mut i: usize = 0;
            while i < sigs.len()
                invariant
                    i <= sigs@.len(),
                    xs == crate::json::json_views(sigs@),
                    xs.len() == sigs@.len(),
                    forall|z: int| 0 <= z < sigs@.len() ==> #[trigger] xs[z] == sigs@[z]@,
                    sig_fields@.map_values(|x: &str| x@) == signature_fields(),
                    signatures_check(xs.skip(i as int)) == signatures_check(xs),
                    reject_spec(json@) == signatures_check(xs),
                decreases sigs@.len() - i,
            {
                proof {
                    assert(xs.skip(i as int).drop_first() =~= xs.skip(i + 1));
                    assert(xs.skip(i as int)[0] == sigs@[i as int]@);
                }
                match &sigs[i] {
                    Json::Obj(m) => {
                        match check_fields(m.as_slice(), sig_fields.as_slice()) {
                            Some(d) => {
                                return Err(d);
                            },
                            None => {},
                        }
                    },
                    _ => {
                        return Err(Decline::MissingField(string_from("bytes")));
                    },
                }
                i += 1;
            }
            proof {
                assert(xs.skip(i as int).len() == 0);
            }
            Ok(())
        },
        _ => Err(Decline::MissingField(string_from("signatures[array]"))),
    }
}

/// Valid UTF-8 decodes to no more characters than it has bytes.
proof fn lemma_decode_len(b: Seq<u8>)
    requires
        valid_utf8(b),
    ensures
        decode_utf8(b).len() <= b.len(),
    decreases b.len(),
{
    if b.len() > 0 {
        let rest = vstd::utf8::pop_first_scalar(b);
        assert(1 <= vstd::utf8::length_of_first_scalar(b) <= b.len());
        assert(rest.len() < b.len());
        lemma_decode_len(rest);
    }
}

} // verus!
