//! The region codec's round trip: reading back an encoded region gives its
//! header, its canonical post-order node table and its sorted extracts.

use vstd::prelude::*;
use vstd::utf8::{decode_utf8, encode_utf8, valid_utf8};
use crate::grammar::{
    canonical_order, child_keys, concat_records, decode_spec, decode_tail, encode_spec, extract_key,
    extract_order, extract_record, extract_records, first_index, idx_bytes, idx_u32, is_root_marked,
    keyed, le16s, operand_roles_bytes, rd_extracts, rd_node, rd_nodes, rd_operands, rd_path,
    rd_roles, rd_take, rd_token, rd_u16, rd_u32, rd_u8, role_at, role_count, role_entries_bytes,
    root_count, token_bytes, visit_kids, visit_spec, wire_bytes, CONSUMERS_INTERIOR, CONSUMERS_ROOT,
    DecodeDecline, Extract, KIND_BIND, KIND_OP, MAGIC, Node, ParsedNodeV, ParsedRegionV, Region,
    RoleEntry, RoleV, SCHEMA_VERSION, Table,
};
use crate::wire::{le_value, lemma_u16_roundtrip, lemma_u32_roundtrip, u16_le, u32_le};

verus! {

/// `b` holds `x` at position `p`.
pub open spec fn holds_at(b: Seq<u8>, p: int, x: Seq<u8>) -> bool {
    0 <= p && p + x.len() <= b.len() && b.subrange(p, p + x.len()) == x
}

proof fn lemma_holds_split(b: Seq<u8>, p: int, x: Seq<u8>, y: Seq<u8>)
    requires
        holds_at(b, p, x + y),
    ensures
        holds_at(b, p, x),
        holds_at(b, p + x.len(), y),
{
    let w = b.subrange(p, p + (x + y).len());
    assert forall|i: int| 0 <= i < x.len() implies b.subrange(p, p + x.len())[i] == x[i] by {
        assert(w[i] == (x + y)[i]);
    }
    assert(b.subrange(p, p + x.len()) =~= x);
    assert forall|i: int| 0 <= i < y.len() implies b.subrange(p + x.len(), p + x.len() + y.len())[i] == y[i] by {
        assert(w[x.len() + i] == (x + y)[x.len() + i]);
    }
    assert(b.subrange(p + x.len(), p + x.len() + y.len()) =~= y);
}

/// A concatenation splits off its first part.
pub proof fn lemma_concat_first(rs: Seq<Seq<u8>>)
    requires
        rs.len() >= 1,
    ensures
        concat_records(rs) == rs[0] + concat_records(rs.drop_first()),
    decreases rs.len(),
{
    if rs.len() == 1 {
        assert(rs.drop_last().len() == 0);
        assert(rs.drop_first().len() == 0);
        assert(rs.last() == rs[0]);
        assert(concat_records(rs.drop_last()) == Seq::<u8>::empty());
        assert(concat_records(rs.drop_first()) == Seq::<u8>::empty());
        assert(concat_records(rs) =~= rs[0] + concat_records(rs.drop_first()));
    } else {
        lemma_concat_first(rs.drop_last());
        assert(rs.drop_last().drop_first() =~= rs.drop_first().drop_last());
        assert(rs.drop_first().last() == rs.last());
        assert(rs.drop_last()[0] == rs[0]);
        assert(concat_records(rs) == concat_records(rs.drop_last()) + rs.last());
        assert(concat_records(rs.drop_first()) == concat_records(rs.drop_first().drop_last()) + rs.drop_first().last());
        assert(concat_records(rs) =~= rs[0] + concat_records(rs.drop_first()));
    }
}

proof fn lemma_rd_u8(b: Seq<u8>, p: int, v: u8)
    requires
        holds_at(b, p, seq![v]),
    ensures
        rd_u8(b, p) == Ok::<(u8, int), crate::grammar::DecodeDecline>((v, p + 1)),
{
    assert(b.subrange(p, p + 1)[0] == b[p]);
}

proof fn lemma_rd_u16(b: Seq<u8>, p: int, v: u16)
    requires
        holds_at(b, p, u16_le(v)),
    ensures
        rd_u16(b, p) == Ok::<(u16, int), crate::grammar::DecodeDecline>((v, p + 2)),
{
    lemma_u16_roundtrip(v);
}

proof fn lemma_rd_u32(b: Seq<u8>, p: int, v: u32)
    requires
        holds_at(b, p, u32_le(v)),
    ensures
        rd_u32(b, p) == Ok::<(u32, int), crate::grammar::DecodeDecline>((v, p + 4)),
{
    lemma_u32_roundtrip(v);
}

proof fn lemma_rd_take(b: Seq<u8>, p: int, x: Seq<u8>)
    requires
        holds_at(b, p, x),
    ensures
        rd_take(b, p, x.len() as int) == Ok::<(Seq<u8>, int), crate::grammar::DecodeDecline>((x, p + x.len())),
{
}

/// A token whose UTF-8 form fits the `u16` length reads back as itself.
proof fn lemma_rd_token(b: Seq<u8>, p: int, s: Seq<char>)
    requires
        encode_utf8(s).len() < 0x1_0000,
        holds_at(b, p, token_bytes(s)),
    ensures
        rd_token(b, p) == Ok::<(Seq<char>, int), crate::grammar::DecodeDecline>((s, p + token_bytes(s).len())),
{
    let e = encode_utf8(s);
    let n = (e.len() % 0x1_0000) as u16;
    assert(n == e.len());
    lemma_holds_split(b, p, u16_le(n), e);
    lemma_u16_roundtrip(n);
    lemma_rd_u16(b, p, n);
    lemma_rd_take(b, p + 2, e);
    vstd::utf8::encode_utf8_valid_utf8(s);
    vstd::utf8::encode_utf8_decode_utf8(s);
}

/// A role entry's bytes: the role token then the dtype token.
pub open spec fn role_entry_bytes(e: RoleV) -> Seq<u8> {
    token_bytes(e.0) + token_bytes(e.1)
}

/// Role entries' bytes, in order.
pub open spec fn roles_bytes(es: Seq<RoleV>) -> Seq<u8> {
    concat_records(Seq::new(es.len(), |i: int| role_entry_bytes(es[i])))
}

/// The wire record of a parsed node.
pub open spec fn record_of(v: ParsedNodeV) -> Seq<u8> {
    match v {
        ParsedNodeV::Bind(i) => seq![KIND_BIND] + u32_le(i),
        ParsedNodeV::Op { op_name, consumers, opattrs, roles, operands } => seq![KIND_OP] + token_bytes(op_name)
            + seq![consumers] + u16_le((opattrs.len() % 0x1_0000) as u16) + opattrs + u16_le(
            (roles.len() % 0x1_0000) as u16,
        ) + roles_bytes(roles) + u16_le((operands.len() % 0x1_0000) as u16) + idx_bytes(operands),
    }
}

/// A token's UTF-8 form fits its `u16` length.
pub open spec fn token_fits(s: Seq<char>) -> bool {
    encode_utf8(s).len() < 0x1_0000
}

/// A parsed node the `idx`-th record can hold: every length fits its field,
/// the consumers byte is one of the two, every operand is earlier.
pub open spec fn node_fits(v: ParsedNodeV, idx: nat) -> bool {
    match v {
        ParsedNodeV::Bind(_) => true,
        ParsedNodeV::Op { op_name, consumers, opattrs, roles, operands } => {
            &&& token_fits(op_name)
            &&& (consumers == CONSUMERS_INTERIOR || consumers == CONSUMERS_ROOT)
            &&& opattrs.len() < 0x1_0000
            &&& roles.len() < 0x1_0000
            &&& forall|k: int| 0 <= k < roles.len() ==> token_fits(#[trigger] roles[k].0) && token_fits(roles[k].1)
            &&& operands.len() < 0x1_0000
            &&& forall|k: int| 0 <= k < operands.len() ==> #[trigger] operands[k] < idx
        },
    }
}

pub proof fn lemma_idx_bytes_first(cis: Seq<u32>)
    requires
        cis.len() >= 1,
    ensures
        idx_bytes(cis) == u32_le(cis[0]) + idx_bytes(cis.drop_first()),
    decreases cis.len(),
{
    if cis.len() == 1 {
        assert(cis.drop_last().len() == 0);
        assert(idx_bytes(cis.drop_last()) == Seq::<u8>::empty());
        assert(idx_bytes(cis.drop_first()) == Seq::<u8>::empty());
        assert(cis.last() == cis[0]);
        assert(idx_bytes(cis) =~= u32_le(cis[0]) + idx_bytes(cis.drop_first()));
    } else {
        lemma_idx_bytes_first(cis.drop_last());
        assert(cis.drop_last().drop_first() =~= cis.drop_first().drop_last());
        assert(cis.drop_first().last() == cis.last());
        assert(cis.drop_last()[0] == cis[0]);
        assert(idx_bytes(cis.drop_first()) == idx_bytes(cis.drop_first().drop_last()) + u32_le(cis.drop_first().last()));
        assert(idx_bytes(cis) =~= u32_le(cis[0]) + idx_bytes(cis.drop_first()));
    }
}

pub proof fn lemma_le16s_first(ps: Seq<u16>)
    requires
        ps.len() >= 1,
    ensures
        le16s(ps) == u16_le(ps[0]) + le16s(ps.drop_first()),
    decreases ps.len(),
{
    if ps.len() == 1 {
        assert(ps.drop_last().len() == 0);
        assert(le16s(ps.drop_last()) == Seq::<u8>::empty());
        assert(le16s(ps.drop_first()) == Seq::<u8>::empty());
        assert(ps.last() == ps[0]);
        assert(le16s(ps) =~= u16_le(ps[0]) + le16s(ps.drop_first()));
    } else {
        lemma_le16s_first(ps.drop_last());
        assert(ps.drop_last().drop_first() =~= ps.drop_first().drop_last());
        assert(ps.drop_first().last() == ps.last());
        assert(ps.drop_last()[0] == ps[0]);
        assert(le16s(ps.drop_first()) == le16s(ps.drop_first().drop_last()) + u16_le(ps.drop_first().last()));
        assert(le16s(ps) =~= u16_le(ps[0]) + le16s(ps.drop_first()));
    }
}

proof fn lemma_rd_operands(b: Seq<u8>, p: int, cis: Seq<u32>, idx: u32)
    requires
        holds_at(b, p, idx_bytes(cis)),
        forall|k: int| 0 <= k < cis.len() ==> #[trigger] cis[k] < idx,
    ensures
        rd_operands(b, p, cis.len(), idx) == Ok::<(Seq<u32>, int), DecodeDecline>((cis, p + idx_bytes(cis).len())),
    decreases cis.len(),
{
    if cis.len() > 0 {
        lemma_idx_bytes_first(cis);
        lemma_holds_split(b, p, u32_le(cis[0]), idx_bytes(cis.drop_first()));
        lemma_u32_roundtrip(cis[0]);
        lemma_rd_u32(b, p, cis[0]);
        assert forall|k: int| 0 <= k < cis.drop_first().len() implies #[trigger] cis.drop_first()[k] < idx by {
            assert(cis.drop_first()[k] == cis[k + 1]);
        }
        lemma_rd_operands(b, p + 4, cis.drop_first(), idx);
        assert(seq![cis[0]] + cis.drop_first() =~= cis);
    } else {
        assert(idx_bytes(cis) == Seq::<u8>::empty());
        assert(cis =~= Seq::<u32>::empty());
    }
}

proof fn lemma_rd_path(b: Seq<u8>, p: int, ps: Seq<u16>)
    requires
        holds_at(b, p, le16s(ps)),
    ensures
        rd_path(b, p, ps.len()) == Ok::<(Seq<u16>, int), DecodeDecline>((ps, p + le16s(ps).len())),
    decreases ps.len(),
{
    if ps.len() > 0 {
        lemma_le16s_first(ps);
        lemma_holds_split(b, p, u16_le(ps[0]), le16s(ps.drop_first()));
        lemma_u16_roundtrip(ps[0]);
        lemma_rd_u16(b, p, ps[0]);
        lemma_rd_path(b, p + 2, ps.drop_first());
        assert(seq![ps[0]] + ps.drop_first() =~= ps);
    } else {
        assert(le16s(ps) == Seq::<u8>::empty());
        assert(ps =~= Seq::<u16>::empty());
    }
}

proof fn lemma_rd_roles(b: Seq<u8>, p: int, es: Seq<RoleV>)
    requires
        holds_at(b, p, roles_bytes(es)),
        forall|k: int| 0 <= k < es.len() ==> token_fits(#[trigger] es[k].0) && token_fits(es[k].1),
    ensures
        rd_roles(b, p, es.len()) == Ok::<(Seq<RoleV>, int), DecodeDecline>((es, p + roles_bytes(es).len())),
    decreases es.len(),
{
    if es.len() > 0 {
        let parts = Seq::new(es.len(), |i: int| role_entry_bytes(es[i]));
        lemma_concat_first(parts);
        assert(parts.drop_first() =~= Seq::new(es.drop_first().len(), |i: int| role_entry_bytes(es.drop_first()[i])));
        let e0 = es[0];
        lemma_holds_split(b, p, role_entry_bytes(e0), roles_bytes(es.drop_first()));
        lemma_holds_split(b, p, token_bytes(e0.0), token_bytes(e0.1));
        lemma_rd_token(b, p, e0.0);
        lemma_rd_token(b, p + token_bytes(e0.0).len(), e0.1);
        assert forall|k: int| 0 <= k < es.drop_first().len() implies token_fits(#[trigger] es.drop_first()[k].0)
            && token_fits(es.drop_first()[k].1) by {
            assert(es.drop_first()[k] == es[k + 1]);
        }
        lemma_rd_roles(b, p + role_entry_bytes(e0).len(), es.drop_first());
        assert(seq![(e0.0, e0.1)] + es.drop_first() =~= es);
    } else {
        assert(Seq::new(es.len(), |i: int| role_entry_bytes(es[i])).len() == 0);
        assert(roles_bytes(es) == Seq::<u8>::empty());
        assert(es =~= Seq::<RoleV>::empty());
    }
}

#[verifier::spinoff_prover]
#[verifier::rlimit(80)]
proof fn lemma_rd_node(b: Seq<u8>, p: int, v: ParsedNodeV, idx: nat)
    requires
        idx < 0x1_0000_0000,
        node_fits(v, idx),
        holds_at(b, p, record_of(v)),
    ensures
        rd_node(b, p, idx as u32) == Ok::<(ParsedNodeV, int), DecodeDecline>((v, p + record_of(v).len())),
{
    match v {
        ParsedNodeV::Bind(i) => {
            lemma_holds_split(b, p, seq![KIND_BIND], u32_le(i));
            lemma_rd_u8(b, p, KIND_BIND);
            lemma_u32_roundtrip(i);
            lemma_rd_u32(b, p + 1, i);
        },
        ParsedNodeV::Op { op_name, consumers, opattrs, roles, operands } => {
            let a = (opattrs.len() % 0x1_0000) as u16;
            let k = (roles.len() % 0x1_0000) as u16;
            let n = (operands.len() % 0x1_0000) as u16;
            assert(a == opattrs.len() && k == roles.len() && n == operands.len());
            let t = token_bytes(op_name);
            let rb = roles_bytes(roles);
            let ib = idx_bytes(operands);
            let r7 = u16_le(n) + ib;
            let r6 = rb + r7;
            let r5 = u16_le(k) + r6;
            let r4 = opattrs + r5;
            let r3 = u16_le(a) + r4;
            let r2 = seq![consumers] + r3;
            let r1 = t + r2;
            assert(record_of(v) =~= seq![KIND_OP] + r1);
            lemma_u16_roundtrip(a);
            lemma_u16_roundtrip(k);
            lemma_u16_roundtrip(n);
            lemma_holds_split(b, p, seq![KIND_OP], r1);
            lemma_rd_u8(b, p, KIND_OP);
            let p1 = p + 1;
            lemma_holds_split(b, p1, t, r2);
            lemma_rd_token(b, p1, op_name);
            let p2 = p1 + t.len();
            lemma_holds_split(b, p2, seq![consumers], r3);
            lemma_rd_u8(b, p2, consumers);
            let p3 = p2 + 1;
            lemma_holds_split(b, p3, u16_le(a), r4);
            lemma_rd_u16(b, p3, a);
            let p4 = p3 + 2;
            lemma_holds_split(b, p4, opattrs, r5);
            lemma_rd_take(b, p4, opattrs);
            let p5 = p4 + opattrs.len();
            lemma_holds_split(b, p5, u16_le(k), r6);
            lemma_rd_u16(b, p5, k);
            let p6 = p5 + 2;
            lemma_holds_split(b, p6, rb, r7);
            lemma_rd_roles(b, p6, roles);
            let p7 = p6 + rb.len();
            lemma_holds_split(b, p7, u16_le(n), ib);
            lemma_rd_u16(b, p7, n);
            let p8 = p7 + 2;
            assert forall|j: int| 0 <= j < operands.len() implies #[trigger] operands[j] < idx as u32 by {}
            lemma_rd_operands(b, p8, operands, idx as u32);
        },
    }
}

/// The records of parsed nodes, in order.
pub open spec fn records_of(vs: Seq<ParsedNodeV>) -> Seq<Seq<u8>> {
    Seq::new(vs.len(), |i: int| record_of(vs[i]))
}

proof fn lemma_rd_nodes(b: Seq<u8>, p: int, vs: Seq<ParsedNodeV>, i0: nat)
    requires
        i0 + vs.len() <= 0x1_0000_0000,
        forall|k: int| 0 <= k < vs.len() ==> node_fits(#[trigger] vs[k], (i0 + k) as nat),
        holds_at(b, p, concat_records(records_of(vs))),
    ensures
        rd_nodes(b, p, i0, i0 + vs.len()) == Ok::<(Seq<ParsedNodeV>, int), DecodeDecline>((
            vs,
            p + concat_records(records_of(vs)).len(),
        )),
    decreases vs.len(),
{
    if vs.len() > 0 {
        let rs = records_of(vs);
        lemma_concat_first(rs);
        assert(rs.drop_first() =~= records_of(vs.drop_first()));
        lemma_holds_split(b, p, record_of(vs[0]), concat_records(records_of(vs.drop_first())));
        assert(node_fits(vs[0], (i0 + 0) as nat));
        lemma_rd_node(b, p, vs[0], i0);
        assert forall|k: int| 0 <= k < vs.drop_first().len() implies node_fits(#[trigger] vs.drop_first()[k], (
        i0 + 1 + k) as nat) by {
            assert(vs.drop_first()[k] == vs[k + 1]);
            assert(node_fits(vs[k + 1], (i0 + (k + 1)) as nat));
        }
        lemma_rd_nodes(b, p + record_of(vs[0]).len(), vs.drop_first(), i0 + 1);
        assert(seq![vs[0]] + vs.drop_first() =~= vs);
    } else {
        assert(records_of(vs).len() == 0);
        assert(concat_records(records_of(vs)) == Seq::<u8>::empty());
        assert(vs =~= Seq::<ParsedNodeV>::empty());
    }
}

// ---------------------------------------------------------------------------
// The canonical node table: every record is a node that reads back.
// ---------------------------------------------------------------------------

/// Every length in a subtree fits its wire field.
pub open spec fn node_sizes_ok(n: Node) -> bool
    decreases n, 0nat,
{
    match n {
        Node::Bind(_) => true,
        Node::Op { op_name, opattrs, roles, operands } => {
            &&& token_fits(op_name@)
            &&& opattrs@.len() < 0x1_0000
            &&& operands@.len() < 0x1_0000
            &&& forall|k: int| 0 <= k < roles@.len() ==> token_fits((#[trigger] roles@[k]).role@) && token_fits(
                roles@[k].dtype@,
            )
            &&& sizes_list(operands@)
        },
    }
}

/// Every length in a list of subtrees fits its wire field.
pub open spec fn sizes_list(cs: Seq<Node>) -> bool
    decreases cs, cs.len(),
{
    if cs.len() == 0 {
        true
    } else {
        sizes_list(cs.subrange(0, cs.len() - 1)) && node_sizes_ok(cs[cs.len() - 1])
    }
}

proof fn lemma_sizes_list(cs: Seq<Node>, k: int)
    requires
        sizes_list(cs),
        0 <= k < cs.len(),
    ensures
        node_sizes_ok(cs[k]),
    decreases cs.len(),
{
    if k < cs.len() - 1 {
        lemma_sizes_list(cs.subrange(0, cs.len() - 1), k);
    }
}

proof fn lemma_child_keys_len(cs: Seq<Node>)
    ensures
        child_keys(cs).len() == cs.len(),
    decreases cs.len(),
{
    if cs.len() > 0 {
        lemma_child_keys_len(cs.subrange(0, cs.len() - 1));
    }
}

proof fn lemma_order_len(name: Seq<char>, cs: Seq<Node>)
    ensures
        canonical_order(name, child_keys(cs)).len() == cs.len(),
{
    lemma_child_keys_len(cs);
    crate::expressibility::lemma_sort_members(keyed(child_keys(cs)));
}

proof fn lemma_first_index_bound(keys: Seq<Seq<u8>>, key: Seq<u8>)
    ensures
        first_index(keys, key) matches Some(i) ==> i < keys.len(),
    decreases keys.len(),
{
    if keys.len() > 0 {
        lemma_first_index_bound(keys.drop_last(), key);
    }
}

proof fn lemma_role_count_bound(roles: Seq<RoleEntry>, n: nat)
    ensures
        role_count(roles, n) <= n,
    decreases n,
{
    if n > 0 {
        lemma_role_count_bound(roles, (n - 1) as nat);
    }
}

/// The role entries a record keeps: those before the last non-default one.
pub open spec fn kept_roles(roles: Seq<RoleEntry>, n: nat) -> Seq<RoleV> {
    Seq::new(role_count(roles, n), |i: int| role_at(roles, i))
}

proof fn lemma_role_entries(roles: Seq<RoleEntry>, k: nat)
    ensures
        role_entries_bytes(roles, k) == roles_bytes(Seq::new(k, |i: int| role_at(roles, i))),
    decreases k,
{
    let es = Seq::new(k, |i: int| role_at(roles, i));
    let parts = Seq::new(es.len(), |i: int| role_entry_bytes(es[i]));
    if k == 0 {
        assert(parts.len() == 0);
        assert(concat_records(parts) == Seq::<u8>::empty());
    } else {
        lemma_role_entries(roles, (k - 1) as nat);
        let es1 = Seq::new((k - 1) as nat, |i: int| role_at(roles, i));
        assert(parts.drop_last() =~= Seq::new(es1.len(), |i: int| role_entry_bytes(es1[i])));
        assert(concat_records(parts) == concat_records(parts.drop_last()) + parts.last());
        assert(role_entries_bytes(roles, k) =~= roles_bytes(es));
    }
}

/// The parsed node an op's record holds.
pub open spec fn op_view(n: Node, consumers: u8, cis: Seq<u32>) -> ParsedNodeV {
    match n {
        Node::Op { op_name, opattrs, roles, operands } => ParsedNodeV::Op {
            op_name: op_name@,
            consumers,
            opattrs: opattrs@,
            roles: kept_roles(roles@, operands@.len()),
            operands: cis,
        },
        Node::Bind(i) => ParsedNodeV::Bind(i),
    }
}

/// An op's record is the record of its view.
proof fn lemma_op_record(n: Node, consumers: u8, cis: Seq<u32>)
    requires
        n is Op,
    ensures
        ({
            let (op_name, opattrs, roles, operands) = match n {
                Node::Op { op_name, opattrs, roles, operands } => (op_name@, opattrs@, roles@, operands@),
                _ => (seq![], seq![], seq![], seq![]),
            };
            record_of(op_view(n, consumers, cis)) == seq![KIND_OP] + token_bytes(op_name) + seq![consumers]
                + u16_le((opattrs.len() % 0x1_0000) as u16) + opattrs + operand_roles_bytes(roles, operands.len())
                + u16_le((cis.len() % 0x1_0000) as u16) + idx_bytes(cis)
        }),
{
    match n {
        Node::Op { op_name, opattrs, roles, operands } => {
            let k = role_count(roles@, operands@.len());
            lemma_role_entries(roles@, k);
            assert(kept_roles(roles@, operands@.len()).len() == k);
            assert(record_of(op_view(n, consumers, cis)) =~= seq![KIND_OP] + token_bytes(op_name@) + seq![consumers]
                + u16_le((opattrs@.len() % 0x1_0000) as u16) + opattrs@ + operand_roles_bytes(roles@, operands@.len())
                + u16_le((cis.len() % 0x1_0000) as u16) + idx_bytes(cis));
        },
        _ => {},
    }
}

/// The default role entry's tokens fit.
proof fn lemma_default_fits()
    ensures
        token_fits("data"@),
        token_fits("*"@),
{
    reveal_strlit("data");
    reveal_strlit("*");
    assert(vstd::utf8::is_ascii_chars("data"@));
    assert(vstd::utf8::is_ascii_chars("*"@));
    vstd::utf8::is_ascii_chars_encode_utf8("data"@);
    vstd::utf8::is_ascii_chars_encode_utf8("*"@);
}

/// A table whose records are the given nodes, each fitting its index and
/// none marked as the root.
pub open spec fn table_ok(t: Table, vs: Seq<ParsedNodeV>) -> bool {
    &&& t.0.len() == t.1.len()
    &&& vs.len() == t.0.len()
    &&& forall|i: int| 0 <= i < vs.len() ==> t.0[i] == record_of(#[trigger] vs[i]) && node_fits(vs[i], i as nat)
        && !is_root_marked(vs[i])
}

/// `t2` extends `t`.
pub open spec fn extends(t: Table, t2: Table) -> bool {
    &&& t2.0.len() >= t.0.len()
    &&& forall|i: int| 0 <= i < t.0.len() ==> #[trigger] t2.0[i] == t.0[i]
}

proof fn lemma_visit(n: Node, tb: Table, vs: Seq<ParsedNodeV>) -> (vs2: Seq<ParsedNodeV>)
    requires
        node_sizes_ok(n),
        table_ok(tb, vs),
    ensures
        extends(tb, visit_spec(n, false, tb).1),
        visit_spec(n, false, tb).1.0.len() == visit_spec(n, false, tb).1.1.len(),
        visit_spec(n, false, tb).1.0.len() < 0x1_0000_0000 ==> table_ok(visit_spec(n, false, tb).1, vs2)
            && (visit_spec(n, false, tb).0 as nat) < visit_spec(n, false, tb).1.0.len(),
    decreases n, 1nat, 0nat,
{
    let key = crate::grammar::canonical_key(n);
    lemma_first_index_bound(tb.1, key);
    if first_index(tb.1, key) is Some {
        return vs;
    }
    match n {
        Node::Bind(i) => {
            let v = ParsedNodeV::Bind(i);
            let tb2 = visit_spec(n, false, tb).1;
            assert(tb2.0 == tb.0.push(seq![KIND_BIND] + u32_le(i)));
            let vs2 = vs.push(v);
            assert(forall|j: int| 0 <= j < tb.0.len() ==> #[trigger] tb2.0[j] == tb.0[j]);
            if tb2.0.len() < 0x1_0000_0000 {
                assert forall|j: int| 0 <= j < vs2.len() implies tb2.0[j] == record_of(#[trigger] vs2[j]) && node_fits(
                    vs2[j],
                    j as nat,
                ) && !is_root_marked(vs2[j]) by {
                    if j < vs.len() {
                        assert(vs2[j] == vs[j]);
                    }
                }
            }
            vs2
        },
        Node::Op { op_name, opattrs, roles, operands } => {
            let order = canonical_order(op_name@, child_keys(operands@));
            lemma_order_len(op_name@, operands@);
            let vs1 = lemma_visit_kids(n, order, order.len(), tb, vs);
            let (cis, tb1) = visit_kids(n, order, order.len(), tb);
            let v = op_view(n, CONSUMERS_INTERIOR, cis);
            lemma_op_record(n, CONSUMERS_INTERIOR, cis);
            let tb2 = visit_spec(n, false, tb).1;
            assert(tb2.0 == tb1.0.push(record_of(v)));
            let vs2 = vs1.push(v);
            assert(forall|j: int| 0 <= j < tb.0.len() ==> #[trigger] tb2.0[j] == tb.0[j]) by {
                assert forall|j: int| 0 <= j < tb.0.len() implies #[trigger] tb2.0[j] == tb.0[j] by {
                    assert(tb1.0[j] == tb.0[j]);
                }
            }
            if tb2.0.len() < 0x1_0000_0000 {
                lemma_role_count_bound(roles@, operands@.len());
                lemma_default_fits();
                let kr = kept_roles(roles@, operands@.len());
                assert forall|k: int| 0 <= k < kr.len() implies token_fits(#[trigger] kr[k].0) && token_fits(kr[k].1) by {
                    if k < roles@.len() {
                        assert(kr[k] == roles@[k]@);
                    }
                }
                assert forall|k: int| 0 <= k < cis.len() implies #[trigger] cis[k] < tb1.0.len() by {}
                assert(node_fits(v, tb1.0.len() as nat));
                assert forall|j: int| 0 <= j < vs2.len() implies tb2.0[j] == record_of(#[trigger] vs2[j]) && node_fits(
                    vs2[j],
                    j as nat,
                ) && !is_root_marked(vs2[j]) by {
                    if j < vs1.len() {
                        assert(vs2[j] == vs1[j]);
                    }
                }
            }
            vs2
        },
    }
}

proof fn lemma_visit_kids(parent: Node, order: Seq<(usize, Seq<u8>)>, k: nat, tb: Table, vs: Seq<ParsedNodeV>) -> (vs2: Seq<ParsedNodeV>)
    requires
        node_sizes_ok(parent),
        table_ok(tb, vs),
    ensures
        visit_kids(parent, order, k, tb).0.len() <= k,
        extends(tb, visit_kids(parent, order, k, tb).1),
        visit_kids(parent, order, k, tb).1.0.len() == visit_kids(parent, order, k, tb).1.1.len(),
        visit_kids(parent, order, k, tb).1.0.len() < 0x1_0000_0000 ==> table_ok(visit_kids(parent, order, k, tb).1, vs2)
            && forall|z: int| 0 <= z < visit_kids(parent, order, k, tb).0.len() ==> (#[trigger] visit_kids(parent, order, k, tb).0[z] as nat) < visit_kids(parent, order, k, tb).1.0.len(),
    decreases parent, 0nat, k,
{
    if k == 0 || k > order.len() {
        return vs;
    }
    let vs1 = lemma_visit_kids(parent, order, (k - 1) as nat, tb, vs);
    let (cis, tb1) = visit_kids(parent, order, (k - 1) as nat, tb);
    match parent {
        Node::Op { operands, .. } => {
            let j = order[k - 1].0;
            if j < operands@.len() {
                assert(sizes_list(operands@));
                lemma_sizes_list(operands@, j as int);
                let child = operands@[j as int];
                if tb1.0.len() < 0x1_0000_0000 {
                    let vs2 = lemma_visit(child, tb1, vs1);
                    let (ci, tb2) = visit_spec(child, false, tb1);
                    assert(forall|i: int| 0 <= i < tb.0.len() ==> #[trigger] tb2.0[i] == tb.0[i]) by {
                        assert forall|i: int| 0 <= i < tb.0.len() implies #[trigger] tb2.0[i] == tb.0[i] by {
                            assert(tb1.0[i] == tb.0[i]);
                        }
                    }
                    if tb2.0.len() < 0x1_0000_0000 {
                        assert forall|z: int| 0 <= z < cis.push(ci).len() implies (#[trigger] cis.push(ci)[z] as nat) < tb2.0.len() by {
                            if z < cis.len() {
                                assert(cis.push(ci)[z] == cis[z]);
                            }
                        }
                    }
                    vs2
                } else {
                    lemma_visit_grows(child, false, tb1);
                    let tb2 = visit_spec(child, false, tb1).1;
                    assert forall|i: int| 0 <= i < tb.0.len() implies #[trigger] tb2.0[i] == tb.0[i] by {
                        assert(tb1.0[i] == tb.0[i]);
                    }
                    vs1
                }
            } else {
                vs1
            }
        },
        Node::Bind(_) => vs1,
    }
}

/// Visiting only appends to the table.
proof fn lemma_visit_grows(n: Node, is_root: bool, tb: Table)
    requires
        tb.0.len() == tb.1.len(),
    ensures
        extends(tb, visit_spec(n, is_root, tb).1),
        visit_spec(n, is_root, tb).1.0.len() == visit_spec(n, is_root, tb).1.1.len(),
    decreases n, 1nat, 0nat,
{
    let key = crate::grammar::canonical_key(n);
    if !is_root && first_index(tb.1, key) is Some {
        return;
    }
    match n {
        Node::Bind(_) => {},
        Node::Op { op_name, operands, .. } => {
            let order = canonical_order(op_name@, child_keys(operands@));
            lemma_kids_grows(n, order, order.len(), tb);
            let tb1 = visit_kids(n, order, order.len(), tb).1;
            let tb2 = visit_spec(n, is_root, tb).1;
            assert forall|i: int| 0 <= i < tb.0.len() implies #[trigger] tb2.0[i] == tb.0[i] by {
                assert(tb1.0[i] == tb.0[i]);
            }
        },
    }
}

proof fn lemma_kids_grows(parent: Node, order: Seq<(usize, Seq<u8>)>, k: nat, tb: Table)
    requires
        tb.0.len() == tb.1.len(),
    ensures
        visit_kids(parent, order, k, tb).0.len() <= k,
        extends(tb, visit_kids(parent, order, k, tb).1),
        visit_kids(parent, order, k, tb).1.0.len() == visit_kids(parent, order, k, tb).1.1.len(),
    decreases parent, 0nat, k,
{
    if k == 0 || k > order.len() {
        return;
    }
    lemma_kids_grows(parent, order, (k - 1) as nat, tb);
    let tb1 = visit_kids(parent, order, (k - 1) as nat, tb).1;
    match parent {
        Node::Op { operands, .. } => {
            let j = order[k - 1].0;
            if j < operands@.len() {
                lemma_visit_grows(operands@[j as int], false, tb1);
                let tb2 = visit_spec(operands@[j as int], false, tb1).1;
                assert forall|i: int| 0 <= i < tb.0.len() implies #[trigger] tb2.0[i] == tb.0[i] by {
                    assert(tb1.0[i] == tb.0[i]);
                }
            }
        },
        Node::Bind(_) => {},
    }
}

// ---------------------------------------------------------------------------
// The root, the extracts, and the round trip.
// ---------------------------------------------------------------------------

/// The canonical node table of a region: the records of the post-order
/// visit from the root.
pub open spec fn table_of(root: Node) -> Seq<Seq<u8>> {
    visit_spec(root, true, (seq![], seq![])).1.0
}

proof fn lemma_visit_root(root: Node) -> (vs: Seq<ParsedNodeV>)
    requires
        node_sizes_ok(root),
        table_of(root).len() < 0x1_0000_0000,
    ensures
        vs.len() == table_of(root).len(),
        vs.len() >= 1,
        records_of(vs) == table_of(root),
        forall|i: int| 0 <= i < vs.len() ==> node_fits(#[trigger] vs[i], i as nat),
        forall|i: int| 0 <= i < vs.len() - 1 ==> !is_root_marked(#[trigger] vs[i]),
        root is Op ==> is_root_marked(vs.last()),
        root is Bind ==> vs.last() is Bind,
{
    let tb: Table = (seq![], seq![]);
    let e: Seq<ParsedNodeV> = seq![];
    assert(table_ok(tb, e));
    match root {
        Node::Bind(i) => {
            let vs = seq![ParsedNodeV::Bind(i)];
            assert(records_of(vs) =~= table_of(root));
            vs
        },
        Node::Op { op_name, opattrs, roles, operands } => {
            let order = canonical_order(op_name@, child_keys(operands@));
            lemma_order_len(op_name@, operands@);
            lemma_kids_grows(root, order, order.len(), tb);
            let vs1 = lemma_visit_kids(root, order, order.len(), tb, e);
            let (cis, tb1) = visit_kids(root, order, order.len(), tb);
            let v = op_view(root, CONSUMERS_ROOT, cis);
            lemma_op_record(root, CONSUMERS_ROOT, cis);
            assert(table_of(root) == tb1.0.push(record_of(v)));
            let vs = vs1.push(v);
            lemma_role_count_bound(roles@, operands@.len());
            lemma_default_fits();
            let kr = kept_roles(roles@, operands@.len());
            assert forall|k: int| 0 <= k < kr.len() implies token_fits(#[trigger] kr[k].0) && token_fits(kr[k].1) by {
                if k < roles@.len() {
                    assert(kr[k] == roles@[k]@);
                }
            }
            assert forall|k: int| 0 <= k < cis.len() implies #[trigger] cis[k] < tb1.0.len() by {}
            assert(node_fits(v, tb1.0.len() as nat));
            assert forall|i: int| 0 <= i < vs.len() implies node_fits(#[trigger] vs[i], i as nat) by {
                if i < vs1.len() {
                    assert(vs[i] == vs1[i]);
                }
            }
            assert forall|i: int| 0 <= i < vs.len() - 1 implies !is_root_marked(#[trigger] vs[i]) by {
                assert(vs[i] == vs1[i]);
            }
            assert forall|i: int| 0 <= i < vs.len() implies #[trigger] records_of(vs)[i] == table_of(root)[i] by {
                if i < vs1.len() {
                    assert(vs[i] == vs1[i]);
                }
            }
            assert(records_of(vs) =~= table_of(root));
            vs
        },
    }
}

proof fn lemma_root_count(vs: Seq<ParsedNodeV>)
    requires
        forall|i: int| 0 <= i < vs.len() - 1 ==> !is_root_marked(#[trigger] vs[i]),
    ensures
        root_count(vs) <= 1,
        vs.len() >= 1 ==> root_count(vs.drop_last()) == 0,
    decreases vs.len(),
{
    if vs.len() > 0 {
        lemma_root_count_zero(vs.drop_last());
    }
}

proof fn lemma_root_count_zero(vs: Seq<ParsedNodeV>)
    requires
        forall|i: int| 0 <= i < vs.len() ==> !is_root_marked(#[trigger] vs[i]),
    ensures
        root_count(vs) == 0,
    decreases vs.len(),
{
    if vs.len() > 0 {
        assert(!is_root_marked(vs[vs.len() - 1]));
        lemma_root_count_zero(vs.drop_last());
    }
}

/// An extract as the reader gives it: its path and its param slot.
pub open spec fn extract_view(e: Extract) -> (Seq<u16>, u32) {
    (e.path@, e.param_slot)
}

/// The extracts in the order the encoder writes them: ascending by
/// `(param_slot, path)`.
pub open spec fn sorted_extracts(ex: Seq<Extract>) -> Seq<(Seq<u16>, u32)> {
    Seq::new(extract_order(ex).len(), |i: int| extract_view(ex[extract_order(ex)[i].0 as int]))
}

/// An extract record's bytes, from its view.
pub open spec fn ext_bytes(e: (Seq<u16>, u32)) -> Seq<u8> {
    u16_le((e.0.len() % 0x1_0000) as u16) + le16s(e.0) + u32_le(e.1)
}

proof fn lemma_extract_records(ex: Seq<Extract>, order: Seq<(usize, Seq<u8>)>)
    requires
        forall|i: int| 0 <= i < order.len() ==> (#[trigger] order[i]).0 < ex.len(),
    ensures
        extract_records(ex, order) == concat_records(
            Seq::new(order.len(), |i: int| ext_bytes(extract_view(ex[order[i].0 as int]))),
        ),
    decreases order.len(),
{
    let parts = Seq::new(order.len(), |i: int| ext_bytes(extract_view(ex[order[i].0 as int])));
    if order.len() == 0 {
        assert(parts.len() == 0);
        assert(concat_records(parts) == Seq::<u8>::empty());
    } else {
        let o1 = order.drop_last();
        assert forall|i: int| 0 <= i < o1.len() implies (#[trigger] o1[i]).0 < ex.len() by {
            assert(o1[i] == order[i]);
        }
        lemma_extract_records(ex, o1);
        assert(parts.drop_last() =~= Seq::new(o1.len(), |i: int| ext_bytes(extract_view(ex[o1[i].0 as int]))));
        assert(concat_records(parts) == concat_records(parts.drop_last()) + parts.last());
        assert(extract_record(ex[order.last().0 as int]) == ext_bytes(extract_view(ex[order.last().0 as int])));
    }
}

proof fn lemma_rd_extracts(b: Seq<u8>, p: int, es: Seq<(Seq<u16>, u32)>)
    requires
        holds_at(b, p, concat_records(Seq::new(es.len(), |i: int| ext_bytes(es[i])))),
        forall|k: int| 0 <= k < es.len() ==> (#[trigger] es[k]).0.len() < 0x1_0000,
    ensures
        rd_extracts(b, p, es.len()) == Ok::<(Seq<(Seq<u16>, u32)>, int), DecodeDecline>((
            es,
            p + concat_records(Seq::new(es.len(), |i: int| ext_bytes(es[i]))).len(),
        )),
    decreases es.len(),
{
    let parts = Seq::new(es.len(), |i: int| ext_bytes(es[i]));
    if es.len() > 0 {
        lemma_concat_first(parts);
        let rest = es.drop_first();
        assert(parts.drop_first() =~= Seq::new(rest.len(), |i: int| ext_bytes(rest[i])));
        let e0 = es[0];
        let n = (e0.0.len() % 0x1_0000) as u16;
        assert(n == e0.0.len());
        lemma_u16_roundtrip(n);
        lemma_holds_split(b, p, ext_bytes(e0), concat_records(parts.drop_first()));
        assert(ext_bytes(e0) =~= u16_le(n) + (le16s(e0.0) + u32_le(e0.1)));
        lemma_holds_split(b, p, u16_le(n), le16s(e0.0) + u32_le(e0.1));
        lemma_holds_split(b, p + 2, le16s(e0.0), u32_le(e0.1));
        lemma_u16_roundtrip(n);
        lemma_rd_u16(b, p, n);
        lemma_rd_path(b, p + 2, e0.0);
        lemma_u32_roundtrip(e0.1);
        lemma_rd_u32(b, p + 2 + le16s(e0.0).len(), e0.1);
        assert forall|k: int| 0 <= k < rest.len() implies (#[trigger] rest[k]).0.len() < 0x1_0000 by {
            assert(rest[k] == es[k + 1]);
        }
        lemma_rd_extracts(b, p + ext_bytes(e0).len(), rest);
        assert(seq![(e0.0, e0.1)] + rest =~= es);
    } else {
        assert(parts.len() == 0);
        assert(concat_records(parts) == Seq::<u8>::empty());
        assert(es =~= Seq::<(Seq<u16>, u32)>::empty());
    }
}

/// Every length in a region fits its wire field: the version tokens, each
/// op's name, OpAttrs, operand count and role tokens, the node table (which
/// `u32` indices address), the extract count and each extract's path.
pub open spec fn region_fits(r: Region) -> bool {
    &&& token_fits(r.ops_version@)
    &&& token_fits(r.classify_version@)
    &&& node_sizes_ok(r.root)
    &&& table_of(r.root).len() < 0x1_0000_0000
    &&& r.extracts@.len() < 0x1_0000
    &&& forall|k: int| 0 <= k < r.extracts@.len() ==> (#[trigger] r.extracts@[k]).path@.len() < 0x1_0000
}

/// What reading back a region's wire form gives: its header; its canonical
/// post-order node table (each parsed node is the record at its index, every
/// operand an earlier index, only the last node marked as the root, and it
/// so marked when the root is an op); and its extracts ascending by
/// `(param_slot, path)`.
pub open spec fn read_back(r: Region, p: ParsedRegionV) -> bool {
    &&& p.n_inputs == r.n_inputs
    &&& p.ops_version == r.ops_version@
    &&& p.classify_version == r.classify_version@
    &&& records_of(p.nodes) == table_of(r.root)
    &&& forall|i: int| 0 <= i < p.nodes.len() ==> node_fits(#[trigger] p.nodes[i], i as nat)
    &&& forall|i: int| 0 <= i < p.nodes.len() - 1 ==> !is_root_marked(#[trigger] p.nodes[i])
    &&& (r.root is Op ==> is_root_marked(p.nodes.last()))
    &&& p.extracts == sorted_extracts(r.extracts@)
}

/// The header of a region's wire form, up to and including the node count.
pub open spec fn header_bytes(r: Region) -> Seq<u8> {
    MAGIC@ + u16_le(SCHEMA_VERSION) + u32_le(r.n_inputs) + token_bytes(r.ops_version@) + token_bytes(
        r.classify_version@,
    ) + u32_le(idx_u32(table_of(r.root).len()))
}

/// The extract section of a region's wire form.
pub open spec fn extract_section(r: Region) -> Seq<u8> {
    u16_le((r.extracts@.len() % 0x1_0000) as u16) + extract_records(r.extracts@, extract_order(r.extracts@))
}

proof fn lemma_wire_parts(r: Region)
    ensures
        wire_bytes(r) == header_bytes(r) + (concat_records(table_of(r.root)) + extract_section(r)),
{
    assert(wire_bytes(r) =~= header_bytes(r) + (concat_records(table_of(r.root)) + extract_section(r)));
}

#[verifier::spinoff_prover]
proof fn lemma_read_header(r: Region, bb: Seq<u8>)
    requires
        token_fits(r.ops_version@),
        token_fits(r.classify_version@),
        holds_at(bb, 0, header_bytes(r)),
    ensures
        rd_take(bb, 0, 4) == Ok::<(Seq<u8>, int), DecodeDecline>((MAGIC@, 4)),
        rd_u16(bb, 4) == Ok::<(u16, int), DecodeDecline>((SCHEMA_VERSION, 6)),
        rd_u32(bb, 6) == Ok::<(u32, int), DecodeDecline>((r.n_inputs, 10)),
        rd_token(bb, 10) == Ok::<(Seq<char>, int), DecodeDecline>((
            r.ops_version@,
            10 + token_bytes(r.ops_version@).len() as int,
        )),
        rd_token(bb, 10 + token_bytes(r.ops_version@).len() as int) == Ok::<
            (Seq<char>, int),
            DecodeDecline,
        >((
            r.classify_version@,
            10 + token_bytes(r.ops_version@).len() as int + token_bytes(r.classify_version@).len() as int,
        )),
        rd_u32(
            bb,
            10 + token_bytes(r.ops_version@).len() as int + token_bytes(r.classify_version@).len() as int,
        ) == Ok::<(u32, int), DecodeDecline>((idx_u32(table_of(r.root).len()), header_bytes(r).len() as int)),
{
    let m = MAGIC@;
    let a = u16_le(SCHEMA_VERSION);
    let c = u32_le(r.n_inputs);
    let t1 = token_bytes(r.ops_version@);
    let t2 = token_bytes(r.classify_version@);
    let count = idx_u32(table_of(r.root).len());
    let d = u32_le(count);
    lemma_u16_roundtrip(SCHEMA_VERSION);
    lemma_u32_roundtrip(r.n_inputs);
    lemma_u32_roundtrip(count);
    assert(header_bytes(r) =~= m + (a + (c + (t1 + (t2 + d)))));
    lemma_holds_split(bb, 0, m, a + (c + (t1 + (t2 + d))));
    lemma_rd_take(bb, 0, m);
    lemma_holds_split(bb, 4, a, c + (t1 + (t2 + d)));
    lemma_rd_u16(bb, 4, SCHEMA_VERSION);
    lemma_holds_split(bb, 6, c, t1 + (t2 + d));
    lemma_rd_u32(bb, 6, r.n_inputs);
    lemma_holds_split(bb, 10, t1, t2 + d);
    lemma_rd_token(bb, 10, r.ops_version@);
    let p3: int = 10 + t1.len() as int;
    lemma_holds_split(bb, p3, t2, d);
    lemma_rd_token(bb, p3, r.classify_version@);
    lemma_rd_u32(bb, p3 + t2.len(), count);
}

#[verifier::spinoff_prover]
proof fn lemma_read_extracts(r: Region, bb: Seq<u8>, p: int)
    requires
        r.extracts@.len() < 0x1_0000,
        forall|k: int| 0 <= k < r.extracts@.len() ==> (#[trigger] r.extracts@[k]).path@.len() < 0x1_0000,
        holds_at(bb, p, extract_section(r)),
    ensures
        rd_u16(bb, p) == Ok::<(u16, int), DecodeDecline>(((r.extracts@.len() % 0x1_0000) as u16, p + 2)),
        rd_extracts(bb, p + 2, r.extracts@.len()) == Ok::<(Seq<(Seq<u16>, u32)>, int), DecodeDecline>((
            sorted_extracts(r.extracts@),
            p + extract_section(r).len(),
        )),
{
    let ex = r.extracts@;
    let want = Seq::new(ex.len(), |i: int| (i as usize, extract_key(ex[i])));
    assert forall|i: int| 0 <= i < want.len() implies (#[trigger] want[i]).0 == i by {}
    crate::grammar::lemma_sort_keeps_positions(want);
    crate::expressibility::lemma_sort_members(want);
    let ord = extract_order(ex);
    assert(ord == crate::expressibility::sort_by_key(want));
    assert forall|i: int| 0 <= i < ord.len() implies (#[trigger] ord[i]).0 < ex.len() by {}
    lemma_extract_records(ex, ord);
    let es = sorted_extracts(ex);
    assert(Seq::new(es.len(), |i: int| ext_bytes(es[i])) =~= Seq::new(
        ord.len(),
        |i: int| ext_bytes(extract_view(ex[ord[i].0 as int])),
    ));
    assert forall|k: int| 0 <= k < es.len() implies (#[trigger] es[k]).0.len() < 0x1_0000 by {
        assert(es[k] == extract_view(ex[ord[k].0 as int]));
    }
    let ec = (ex.len() % 0x1_0000) as u16;
    lemma_u16_roundtrip(ec);
    lemma_holds_split(bb, p, u16_le(ec), extract_records(ex, ord));
    lemma_rd_u16(bb, p, ec);
    lemma_rd_extracts(bb, p + 2, es);
}

#[verifier::spinoff_prover]
proof fn lemma_read_tail(r: Region, bb: Seq<u8>, p6: int, vs: Seq<ParsedNodeV>)
    requires
        r.extracts@.len() < 0x1_0000,
        forall|k: int| 0 <= k < r.extracts@.len() ==> (#[trigger] r.extracts@[k]).path@.len() < 0x1_0000,
        holds_at(bb, p6, extract_section(r)),
        vs.len() >= 1,
        forall|i: int| 0 <= i < vs.len() - 1 ==> !is_root_marked(#[trigger] vs[i]),
        vs.last() is Op ==> is_root_marked(vs.last()),
    ensures
        decode_tail(bb, p6, r.n_inputs, r.ops_version@, r.classify_version@, vs) == if p6
            + extract_section(r).len() != bb.len() {
            Err::<ParsedRegionV, DecodeDecline>(DecodeDecline::TrailingBytes)
        } else {
            Ok(
                ParsedRegionV {
                    n_inputs: r.n_inputs,
                    ops_version: r.ops_version@,
                    classify_version: r.classify_version@,
                    nodes: vs,
                    extracts: sorted_extracts(r.extracts@),
                },
            )
        },
{
    lemma_root_count(vs);
    lemma_read_extracts(r, bb, p6);
}

proof fn lemma_decode_parts(
    bb: Seq<u8>,
    n_inputs: u32,
    ov: Seq<char>,
    cv: Seq<char>,
    count: u32,
    p3: int,
    p4: int,
    p5: int,
    vs: Seq<ParsedNodeV>,
    p6: int,
)
    requires
        rd_take(bb, 0, 4) == Ok::<(Seq<u8>, int), DecodeDecline>((MAGIC@, 4)),
        rd_u16(bb, 4) == Ok::<(u16, int), DecodeDecline>((SCHEMA_VERSION, 6)),
        rd_u32(bb, 6) == Ok::<(u32, int), DecodeDecline>((n_inputs, 10)),
        rd_token(bb, 10) == Ok::<(Seq<char>, int), DecodeDecline>((ov, p3)),
        rd_token(bb, p3) == Ok::<(Seq<char>, int), DecodeDecline>((cv, p4)),
        rd_u32(bb, p4) == Ok::<(u32, int), DecodeDecline>((count, p5)),
        rd_nodes(bb, p5, 0, count as nat) == Ok::<(Seq<ParsedNodeV>, int), DecodeDecline>((vs, p6)),
    ensures
        decode_spec(bb) == decode_tail(bb, p6, n_inputs, ov, cv, vs),
{
}

#[verifier::spinoff_prover]
#[verifier::rlimit(80)]
proof fn lemma_decode_wire(r: Region, bb: Seq<u8>, vs: Seq<ParsedNodeV>)
    requires
        token_fits(r.ops_version@),
        token_fits(r.classify_version@),
        r.extracts@.len() < 0x1_0000,
        forall|k: int| 0 <= k < r.extracts@.len() ==> (#[trigger] r.extracts@[k]).path@.len() < 0x1_0000,
        holds_at(bb, 0, wire_bytes(r)),
        vs.len() == table_of(r.root).len(),
        vs.len() >= 1,
        vs.len() < 0x1_0000_0000,
        records_of(vs) == table_of(r.root),
        forall|i: int| 0 <= i < vs.len() ==> node_fits(#[trigger] vs[i], i as nat),
        forall|i: int| 0 <= i < vs.len() - 1 ==> !is_root_marked(#[trigger] vs[i]),
        vs.last() is Op ==> is_root_marked(vs.last()),
    ensures
        decode_spec(bb) == if wire_bytes(r).len() != bb.len() {
            Err::<ParsedRegionV, DecodeDecline>(DecodeDecline::TrailingBytes)
        } else {
            Ok(
                ParsedRegionV {
                    n_inputs: r.n_inputs,
                    ops_version: r.ops_version@,
                    classify_version: r.classify_version@,
                    nodes: vs,
                    extracts: sorted_extracts(r.extracts@),
                },
            )
        },
{
    let recs = table_of(r.root);
    let h = header_bytes(r);
    let nb = concat_records(recs);
    let xs = extract_section(r);
    lemma_wire_parts(r);
    lemma_holds_split(bb, 0, h, nb + xs);
    lemma_holds_split(bb, h.len() as int, nb, xs);
    lemma_read_header(r, bb);
    let count = idx_u32(recs.len());
    assert(count == recs.len());
    let p5: int = h.len() as int;
    assert forall|k: int| 0 <= k < vs.len() implies node_fits(#[trigger] vs[k], (0 + k) as nat) by {}
    lemma_rd_nodes(bb, p5, vs, 0);
    let p6: int = p5 + nb.len();
    lemma_read_tail(r, bb, p6, vs);
    let p3: int = 10 + token_bytes(r.ops_version@).len() as int;
    let p4: int = p3 + token_bytes(r.classify_version@).len() as int;
    lemma_decode_parts(bb, r.n_inputs, r.ops_version@, r.classify_version@, count, p3, p4, p5, vs, p6);
}

proof fn lemma_read_wire(r: Region, bb: Seq<u8>)
    requires
        region_fits(r),
        holds_at(bb, 0, wire_bytes(r)),
    ensures
        bb.len() == wire_bytes(r).len() ==> (decode_spec(bb) matches Ok(p) && read_back(r, p)),
        bb.len() > wire_bytes(r).len() ==> decode_spec(bb) == Err::<ParsedRegionV, DecodeDecline>(
            DecodeDecline::TrailingBytes,
        ),
{
    let vs = lemma_visit_root(r.root);
    lemma_decode_wire(r, bb, vs);
}

/// Reading back what the encoder writes gives the region: its header, its
/// canonical post-order node table (every operand an earlier index, only the
/// last node marked as the root), and its extracts sorted by
/// `(param_slot, path)` — whenever every length fits its wire field.
pub proof fn decode_encode_roundtrip(r: Region)
    requires
        encode_spec(r) is Ok,
        region_fits(r),
    ensures
        decode_spec(encode_spec(r)->Ok_0) matches Ok(p) && read_back(r, p),
{
    let w = wire_bytes(r);
    assert(encode_spec(r)->Ok_0 == w);
    assert(w.subrange(0, w.len() as int) =~= w);
    lemma_read_wire(r, w);
}

/// One byte after an encoded region is declined as trailing bytes.
#[verifier::spinoff_prover]
pub proof fn decode_rejects_trailing_byte(r: Region, x: u8)
    requires
        encode_spec(r) is Ok,
        region_fits(r),
    ensures
        decode_spec(encode_spec(r)->Ok_0.push(x)) == Err::<ParsedRegionV, DecodeDecline>(DecodeDecline::TrailingBytes),
{
    let w = wire_bytes(r);
    assert(encode_spec(r)->Ok_0 == w);
    assert(w.push(x).subrange(0, w.len() as int) =~= w);
    lemma_read_wire(r, w.push(x));
}

} // verus!
