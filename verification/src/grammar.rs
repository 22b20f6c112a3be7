//! The region wire form: a single-rooted DAG of advertisable-op nodes over
//! positional `Bind(input_index)` leaves, serialized to a flat, indexed node
//! table prefixed by the magic `KGRM` and an in-band schema version, plus the
//! canonicalization rules it depends on (commutative-operand ordering and
//! maximal structural sharing). The validating reader rejects a malformed
//! stream with a typed decline.
//!
//! Region-level field order: magic and schema version, `n_inputs`,
//! `ops_version`, `classify_version`, `node_count`, the node records,
//! `extract_count`, the extract records. The node table is in canonical
//! post-order from the root.

pub mod roundtrip;

use vstd::prelude::*;
use std::collections::BTreeSet;
use vstd::utf8::{decode_utf8, encode_utf8, valid_utf8};
use crate::text::{str_eq, string_from, utf8_decode};
use crate::wire::{le_value, read_u16_le, read_u32_le, u16_le, u32_le};

verus! {

/// The region wire-form magic: ASCII `KGRM`.
pub const MAGIC: [u8; 4] = [0x4B, 0x47, 0x52, 0x4D];
/// The frozen-shape schema version, encoded as a `u16` little-endian.
pub const SCHEMA_VERSION: u16 = 1;
/// The `consumers` value of an interior node.
pub const CONSUMERS_INTERIOR: u8 = 0x00;
/// The `consumers` value of the root node.
pub const CONSUMERS_ROOT: u8 = 0x01;
/// The node-record `kind` tag of a bind leaf.
pub const KIND_BIND: u8 = 0x00;
/// The node-record `kind` tag of an op node.
pub const KIND_OP: u8 = 0x01;
/// The dtype-role wildcard token `*`.
pub const WILDCARD: &'static str = "*";
/// The default operand role.
pub const DEFAULT_ROLE: &'static str = "data";

/// One operand-role entry: a role token and a dtype role (a dtype token or the
/// wildcard `*`).
#[derive(Debug, Clone, PartialEq, Eq)]
pub struct RoleEntry {
    pub role: String,
    pub dtype: String,
}

impl View for RoleEntry {
    type V = (Seq<char>, Seq<char>);

    open spec fn view(&self) -> (Seq<char>, Seq<char>) {
        (self.role@, self.dtype@)
    }
}

impl RoleEntry {
    /// The default (unconstrained) entry `(data, *)`.
    pub fn default_entry() -> (e: RoleEntry)
        ensures
            e@ == ("data"@, "*"@),
    {
        RoleEntry { role: string_from(DEFAULT_ROLE), dtype: string_from(WILDCARD) }
    }
}

/// A scalar-param extract record: a path of canonical operand indices from the
/// root, and a 0-based param slot.
#[derive(Debug, Clone, PartialEq, Eq)]
pub struct Extract {
    pub path: Vec<u16>,
    pub param_slot: u32,
}

/// A parsed node of the wire form.
#[derive(Debug, Clone, PartialEq, Eq)]
pub enum ParsedNode {
    Bind(u32),
    Op {
        op_name: String,
        consumers: u8,
        opattrs: Vec<u8>,
        roles: Vec<RoleEntry>,
        operands: Vec<u32>,
    },
}

/// A parsed region.
#[derive(Debug, Clone, PartialEq, Eq)]
pub struct ParsedRegion {
    pub n_inputs: u32,
    pub ops_version: String,
    pub classify_version: String,
    pub nodes: Vec<ParsedNode>,
    pub extracts: Vec<Extract>,
}

/// A typed decline from the validating reader.
#[derive(Debug, Clone, Copy, PartialEq, Eq, Structural)]
pub enum DecodeDecline {
    BadMagic,
    UnsupportedSchemaVersion { got: u16 },
    Truncated,
    BadUtf8,
    BadKind { got: u8 },
    BadConsumers { got: u8 },
    /// An operand index that does not reference a strictly-earlier table entry.
    ForwardOperandReference { node: u32, operand: u32 },
    /// The last (root) node does not carry `consumers = ROOT`.
    RootNotRoot,
    /// More than one node carries `consumers = ROOT` — a multi-output forest.
    MultipleRoots { count: usize },
    TrailingBytes,
}

pub type RoleV = (Seq<char>, Seq<char>);

pub enum ParsedNodeV {
    Bind(u32),
    Op { op_name: Seq<char>, consumers: u8, opattrs: Seq<u8>, roles: Seq<RoleV>, operands: Seq<u32> },
}

pub struct ParsedRegionV {
    pub n_inputs: u32,
    pub ops_version: Seq<char>,
    pub classify_version: Seq<char>,
    pub nodes: Seq<ParsedNodeV>,
    pub extracts: Seq<(Seq<u16>, u32)>,
}

pub open spec fn roles_view(v: Seq<RoleEntry>) -> Seq<RoleV> {
    v.map_values(|e: RoleEntry| e@)
}

impl View for ParsedNode {
    type V = ParsedNodeV;

    open spec fn view(&self) -> ParsedNodeV {
        match self {
            ParsedNode::Bind(i) => ParsedNodeV::Bind(*i),
            ParsedNode::Op { op_name, consumers, opattrs, roles, operands } => ParsedNodeV::Op {
                op_name: op_name@,
                consumers: *consumers,
                opattrs: opattrs@,
                roles: roles_view(roles@),
                operands: operands@,
            },
        }
    }
}

pub open spec fn extracts_view(v: Seq<Extract>) -> Seq<(Seq<u16>, u32)> {
    v.map_values(|e: Extract| (e.path@, e.param_slot))
}

pub open spec fn nodes_view(v: Seq<ParsedNode>) -> Seq<ParsedNodeV> {
    v.map_values(|n: ParsedNode| n@)
}

impl View for ParsedRegion {
    type V = ParsedRegionV;

    open spec fn view(&self) -> ParsedRegionV {
        ParsedRegionV {
            n_inputs: self.n_inputs,
            ops_version: self.ops_version@,
            classify_version: self.classify_version@,
            nodes: nodes_view(self.nodes@),
            extracts: extracts_view(self.extracts@),
        }
    }
}

// ---------------------------------------------------------------------------
// The reader, as a specification: each step reads at a position and gives
// the value and the next position, or the decline.
// ---------------------------------------------------------------------------

pub type Rd<T> = Result<(T, int), DecodeDecline>;

pub open spec fn rd_u8(b: Seq<u8>, p: int) -> Rd<u8> {
    if 0 <= p < b.len() { Ok((b[p], p + 1)) } else { Err(DecodeDecline::Truncated) }
}

pub open spec fn rd_u16(b: Seq<u8>, p: int) -> Rd<u16> {
    if 0 <= p && p + 2 <= b.len() {
        Ok((le_value(b.subrange(p, p + 2)) as u16, p + 2))
    } else {
        Err(DecodeDecline::Truncated)
    }
}

pub open spec fn rd_u32(b: Seq<u8>, p: int) -> Rd<u32> {
    if 0 <= p && p + 4 <= b.len() {
        Ok((le_value(b.subrange(p, p + 4)) as u32, p + 4))
    } else {
        Err(DecodeDecline::Truncated)
    }
}

pub open spec fn rd_take(b: Seq<u8>, p: int, n: int) -> Rd<Seq<u8>> {
    if 0 <= p && 0 <= n && p + n <= b.len() {
        Ok((b.subrange(p, p + n), p + n))
    } else {
        Err(DecodeDecline::Truncated)
    }
}

/// A length-prefixed UTF-8 token.
pub open spec fn rd_token(b: Seq<u8>, p: int) -> Rd<Seq<char>> {
    match rd_u16(b, p) {
        Err(e) => Err(e),
        Ok((n, q)) => match rd_take(b, q, n as int) {
            Err(e) => Err(e),
            Ok((raw, q2)) => if valid_utf8(raw) { Ok((decode_utf8(raw), q2)) } else { Err(DecodeDecline::BadUtf8) },
        },
    }
}

/// `k` role entries, each a role token then a dtype token.
pub open spec fn rd_roles(b: Seq<u8>, p: int, k: nat) -> Rd<Seq<RoleV>>
    decreases k,
{
    if k == 0 {
        Ok((seq![], p))
    } else {
        match rd_token(b, p) {
            Err(e) => Err(e),
            Ok((role, p1)) => match rd_token(b, p1) {
                Err(e) => Err(e),
                Ok((dtype, p2)) => match rd_roles(b, p2, (k - 1) as nat) {
                    Err(e) => Err(e),
                    Ok((rest, p3)) => Ok((seq![(role, dtype)] + rest, p3)),
                },
            },
        }
    }
}

/// `n` operand indices of node `idx`, each strictly earlier than `idx`.
pub open spec fn rd_operands(b: Seq<u8>, p: int, n: nat, idx: u32) -> Rd<Seq<u32>>
    decreases n,
{
    if n == 0 {
        Ok((seq![], p))
    } else {
        match rd_u32(b, p) {
            Err(e) => Err(e),
            Ok((oi, p1)) => if oi >= idx {
                Err(DecodeDecline::ForwardOperandReference { node: idx, operand: oi })
            } else {
                match rd_operands(b, p1, (n - 1) as nat, idx) {
                    Err(e) => Err(e),
                    Ok((rest, p2)) => Ok((seq![oi] + rest, p2)),
                }
            },
        }
    }
}

/// One node record, the `idx`-th of the table.
pub open spec fn rd_node(b: Seq<u8>, p: int, idx: u32) -> Rd<ParsedNodeV> {
    match rd_u8(b, p) {
        Err(e) => Err(e),
        Ok((kind, p1)) => if kind == KIND_BIND {
            match rd_u32(b, p1) {
                Err(e) => Err(e),
                Ok((i, p2)) => Ok((ParsedNodeV::Bind(i), p2)),
            }
        } else if kind == KIND_OP {
            match rd_token(b, p1) {
                Err(e) => Err(e),
                Ok((op_name, p2)) => match rd_u8(b, p2) {
                    Err(e) => Err(e),
                    Ok((consumers, p3)) => if consumers != CONSUMERS_INTERIOR && consumers != CONSUMERS_ROOT {
                        Err(DecodeDecline::BadConsumers { got: consumers })
                    } else {
                        match rd_u16(b, p3) {
                            Err(e) => Err(e),
                            Ok((oalen, p4)) => match rd_take(b, p4, oalen as int) {
                                Err(e) => Err(e),
                                Ok((opattrs, p5)) => match rd_u16(b, p5) {
                                    Err(e) => Err(e),
                                    Ok((k, p6)) => match rd_roles(b, p6, k as nat) {
                                        Err(e) => Err(e),
                                        Ok((roles, p7)) => match rd_u16(b, p7) {
                                            Err(e) => Err(e),
                                            Ok((opc, p8)) => match rd_operands(b, p8, opc as nat, idx) {
                                                Err(e) => Err(e),
                                                Ok((operands, p9)) => Ok((ParsedNodeV::Op { op_name, consumers, opattrs, roles, operands }, p9)),
                                            },
                                        },
                                    },
                                },
                            },
                        }
                    },
                },
            }
        } else {
            Err(DecodeDecline::BadKind { got: kind })
        }
    }
}

/// The node records `idx..count` of the table.
pub open spec fn rd_nodes(b: Seq<u8>, p: int, idx: nat, count: nat) -> Rd<Seq<ParsedNodeV>>
    decreases count - idx,
{
    if idx >= count {
        Ok((seq![], p))
    } else {
        match rd_node(b, p, idx as u32) {
            Err(e) => Err(e),
            Ok((n, p1)) => match rd_nodes(b, p1, idx + 1, count) {
                Err(e) => Err(e),
                Ok((rest, p2)) => Ok((seq![n] + rest, p2)),
            },
        }
    }
}

/// `n` `u16` path steps.
pub open spec fn rd_path(b: Seq<u8>, p: int, n: nat) -> Rd<Seq<u16>>
    decreases n,
{
    if n == 0 {
        Ok((seq![], p))
    } else {
        match rd_u16(b, p) {
            Err(e) => Err(e),
            Ok((s, p1)) => match rd_path(b, p1, (n - 1) as nat) {
                Err(e) => Err(e),
                Ok((rest, p2)) => Ok((seq![s] + rest, p2)),
            },
        }
    }
}

/// `k` extract records: a `u16` path length, the path, a `u32` param slot.
pub open spec fn rd_extracts(b: Seq<u8>, p: int, k: nat) -> Rd<Seq<(Seq<u16>, u32)>>
    decreases k,
{
    if k == 0 {
        Ok((seq![], p))
    } else {
        match rd_u16(b, p) {
            Err(e) => Err(e),
            Ok((plen, p1)) => match rd_path(b, p1, plen as nat) {
                Err(e) => Err(e),
                Ok((path, p2)) => match rd_u32(b, p2) {
                    Err(e) => Err(e),
                    Ok((slot, p3)) => match rd_extracts(b, p3, (k - 1) as nat) {
                        Err(e) => Err(e),
                        Ok((rest, p4)) => Ok((seq![(path, slot)] + rest, p4)),
                    },
                },
            },
        }
    }
}

/// Whether a parsed node is an op marked as the root.
pub open spec fn is_root_marked(n: ParsedNodeV) -> bool {
    n matches ParsedNodeV::Op { consumers, .. } && consumers == CONSUMERS_ROOT
}

/// The number of root-marked nodes.
pub open spec fn root_count(nodes: Seq<ParsedNodeV>) -> nat
    decreases nodes.len(),
{
    if nodes.len() == 0 {
        0
    } else {
        root_count(nodes.drop_last()) + if is_root_marked(nodes.last()) { 1nat } else { 0nat }
    }
}

/// What the validating reader gives a byte stream: the magic, the schema
/// version, the header fields, the node table (every operand strictly
/// earlier), at most one root-marked node and a last op node marked as root,
/// the extract table, and no trailing bytes.
pub open spec fn decode_spec(b: Seq<u8>) -> Result<ParsedRegionV, DecodeDecline> {
    match rd_take(b, 0, 4) {
        Err(e) => Err(e),
        Ok((magic, p0)) => if magic != MAGIC@ {
            Err(DecodeDecline::BadMagic)
        } else {
            match rd_u16(b, p0) {
                Err(e) => Err(e),
                Ok((sv, p1)) => if sv != SCHEMA_VERSION {
                    Err(DecodeDecline::UnsupportedSchemaVersion { got: sv })
                } else {
                    match rd_u32(b, p1) {
                        Err(e) => Err(e),
                        Ok((n_inputs, p2)) => match rd_token(b, p2) {
                            Err(e) => Err(e),
                            Ok((ops_version, p3)) => match rd_token(b, p3) {
                                Err(e) => Err(e),
                                Ok((classify_version, p4)) => match rd_u32(b, p4) {
                                    Err(e) => Err(e),
                                    Ok((count, p5)) => match rd_nodes(b, p5, 0, count as nat) {
                                        Err(e) => Err(e),
                                        Ok((nodes, p6)) => decode_tail(b, p6, n_inputs, ops_version, classify_version, nodes),
                                    },
                                },
                            },
                        },
                    }
                },
            }
        },
    }
}

/// The checks after the node table, then the extract table.
pub open spec fn decode_tail(b: Seq<u8>, p: int, n_inputs: u32, ops_version: Seq<char>, classify_version: Seq<char>, nodes: Seq<ParsedNodeV>) -> Result<ParsedRegionV, DecodeDecline> {
    if root_count(nodes) > 1 {
        Err(DecodeDecline::MultipleRoots { count: root_count(nodes) as usize })
    } else if nodes.len() > 0 && nodes.last() is Op && !is_root_marked(nodes.last()) {
        Err(DecodeDecline::RootNotRoot)
    } else {
        match rd_u16(b, p) {
            Err(e) => Err(e),
            Ok((ecount, p1)) => match rd_extracts(b, p1, ecount as nat) {
                Err(e) => Err(e),
                Ok((extracts, p2)) => if p2 != b.len() {
                    Err(DecodeDecline::TrailingBytes)
                } else {
                    Ok(ParsedRegionV { n_inputs, ops_version, classify_version, nodes, extracts })
                },
            },
        }
    }
}


// ---------------------------------------------------------------------------
// The reader, executable.
// ---------------------------------------------------------------------------

fn ex_u8(b: &[u8], p: usize) -> (r: Result<(u8, usize), DecodeDecline>)
    requires
        p <= b@.len(),
    ensures
        match rd_u8(b@, p as int) {
            Ok((v, q)) => r matches Ok((x, qq)) && x == v && qq == q && q <= b@.len(),
            Err(e) => r == Err::<(u8, usize), DecodeDecline>(e),
        },
{
    if p < b.len() { Ok((b[p], p + 1)) } else { Err(DecodeDecline::Truncated) }
}

fn ex_u16(b: &[u8], p: usize) -> (r: Result<(u16, usize), DecodeDecline>)
    requires
        p <= b@.len(),
    ensures
        match rd_u16(b@, p as int) {
            Ok((v, q)) => r matches Ok((x, qq)) && x == v && qq == q && q <= b@.len(),
            Err(e) => r == Err::<(u16, usize), DecodeDecline>(e),
        },
{
    if b.len() - p < 2 {
        return Err(DecodeDecline::Truncated);
    }
    Ok((read_u16_le(b, p), p + 2))
}

fn ex_u32(b: &[u8], p: usize) -> (r: Result<(u32, usize), DecodeDecline>)
    requires
        p <= b@.len(),
    ensures
        match rd_u32(b@, p as int) {
            Ok((v, q)) => r matches Ok((x, qq)) && x == v && qq == q && q <= b@.len(),
            Err(e) => r == Err::<(u32, usize), DecodeDecline>(e),
        },
{
    if b.len() - p < 4 {
        return Err(DecodeDecline::Truncated);
    }
    Ok((read_u32_le(b, p), p + 4))
}

fn ex_take(b: &[u8], p: usize, n: usize) -> (r: Result<(Vec<u8>, usize), DecodeDecline>)
    requires
        p <= b@.len(),
    ensures
        match rd_take(b@, p as int, n as int) {
            Ok((v, q)) => r matches Ok((x, qq)) && x@ == v && qq == q && q <= b@.len(),
            Err(e) => r == Err::<(Vec<u8>, usize), DecodeDecline>(e),
        },
{
    if b.len() - p < n {
        return Err(DecodeDecline::Truncated);
    }
    Ok((crate::wire::copy_range(b, p, p + n), p + n))
}

fn ex_token(b: &[u8], p: usize) -> (r: Result<(String, usize), DecodeDecline>)
    requires
        p <= b@.len(),
    ensures
        match rd_token(b@, p as int) {
            Ok((v, q)) => r matches Ok((x, qq)) && x@ == v && qq == q && q <= b@.len(),
            Err(e) => r == Err::<(String, usize), DecodeDecline>(e),
        },
{
    let (n, q) = match ex_u16(b, p) {
        Ok(x) => x,
        Err(e) => return Err(e),
    };
    let (raw, q2) = match ex_take(b, q, n as usize) {
        Ok(x) => x,
        Err(e) => return Err(e),
    };
    match utf8_decode(raw.as_slice()) {
        Some(s) => Ok((s, q2)),
        None => Err(DecodeDecline::BadUtf8),
    }
}

fn ex_roles(b: &[u8], p: usize, k: usize) -> (r: Result<(Vec<RoleEntry>, usize), DecodeDecline>)
    requires
        p <= b@.len(),
    ensures
        match rd_roles(b@, p as int, k as nat) {
            Ok((v, q)) => r matches Ok((x, qq)) && roles_view(x@) == v && qq == q && q <= b@.len(),
            Err(e) => r == Err::<(Vec<RoleEntry>, usize), DecodeDecline>(e),
        },
{
    let mut out: Vec<RoleEntry> = Vec::new();
    let mut q = p;
    let mut i: usize = 0;
    assert(roles_view(out@) =~= Seq::<RoleV>::empty());
    while i < k
        invariant
            i <= k,
            q <= b@.len(),
            rd_roles(b@, p as int, k as nat) == (match rd_roles(b@, q as int, (k - i) as nat) {
                Ok((rest, e)) => Ok((roles_view(out@) + rest, e)),
                Err(e) => Err(e),
            }),
        decreases k - i,
    {
        let ghost ov = roles_view(out@);
        let (role, q1) = match ex_token(b, q) {
            Ok(x) => x,
            Err(e) => return Err(e),
        };
        let (dtype, q2) = match ex_token(b, q1) {
            Ok(x) => x,
            Err(e) => return Err(e),
        };
        let ghost ent = (role@, dtype@);
        out.push(RoleEntry { role, dtype });
        assert(roles_view(out@) =~= ov.push(ent));
        proof {
            match rd_roles(b@, q2 as int, (k - i - 1) as nat) {
                Ok((rest, e)) => {
                    assert(ov + (seq![ent] + rest) =~= ov.push(ent) + rest);
                },
                Err(_) => {},
            }
        }
        q = q2;
        i += 1;
    }
    assert(roles_view(out@) + Seq::<RoleV>::empty() =~= roles_view(out@));
    Ok((out, q))
}

fn ex_operands(b: &[u8], p: usize, n: usize, idx: u32) -> (r: Result<(Vec<u32>, usize), DecodeDecline>)
    requires
        p <= b@.len(),
    ensures
        match rd_operands(b@, p as int, n as nat, idx) {
            Ok((v, q)) => r matches Ok((x, qq)) && x@ == v && qq == q && q <= b@.len(),
            Err(e) => r == Err::<(Vec<u32>, usize), DecodeDecline>(e),
        },
{
    let mut out: Vec<u32> = Vec::new();
    let mut q = p;
    let mut i: usize = 0;
    while i < n
        invariant
            i <= n,
            q <= b@.len(),
            rd_operands(b@, p as int, n as nat, idx) == (match rd_operands(b@, q as int, (n - i) as nat, idx) {
                Ok((rest, e)) => Ok((out@ + rest, e)),
                Err(e) => Err(e),
            }),
        decreases n - i,
    {
        let (oi, q1) = match ex_u32(b, q) {
            Ok(x) => x,
            Err(e) => return Err(e),
        };
        if oi >= idx {
            return Err(DecodeDecline::ForwardOperandReference { node: idx, operand: oi });
        }
        let ghost ov = out@;
        out.push(oi);
        proof {
            match rd_operands(b@, q1 as int, (n - i - 1) as nat, idx) {
                Ok((rest, e)) => {
                    assert(ov + (seq![oi] + rest) =~= ov.push(oi) + rest);
                },
                Err(_) => {},
            }
        }
        q = q1;
        i += 1;
    }
    assert(out@ + Seq::<u32>::empty() =~= out@);
    Ok((out, q))
}

fn ex_node(b: &[u8], p: usize, idx: u32) -> (r: Result<(ParsedNode, usize), DecodeDecline>)
    requires
        p <= b@.len(),
    ensures
        match rd_node(b@, p as int, idx) {
            Ok((v, q)) => r matches Ok((x, qq)) && x@ == v && qq == q && q <= b@.len(),
            Err(e) => r == Err::<(ParsedNode, usize), DecodeDecline>(e),
        },
{
    let (kind, p1) = match ex_u8(b, p) {
        Ok(x) => x,
        Err(e) => return Err(e),
    };
    if kind == KIND_BIND {
        let (i, p2) = match ex_u32(b, p1) {
            Ok(x) => x,
            Err(e) => return Err(e),
        };
        return Ok((ParsedNode::Bind(i), p2));
    }
    if kind != KIND_OP {
        return Err(DecodeDecline::BadKind { got: kind });
    }
    let (op_name, p2) = match ex_token(b, p1) {
        Ok(x) => x,
        Err(e) => return Err(e),
    };
    let (consumers, p3) = match ex_u8(b, p2) {
        Ok(x) => x,
        Err(e) => return Err(e),
    };
    if consumers != CONSUMERS_INTERIOR && consumers != CONSUMERS_ROOT {
        return Err(DecodeDecline::BadConsumers { got: consumers });
    }
    let (oalen, p4) = match ex_u16(b, p3) {
        Ok(x) => x,
        Err(e) => return Err(e),
    };
    let (opattrs, p5) = match ex_take(b, p4, oalen as usize) {
        Ok(x) => x,
        Err(e) => return Err(e),
    };
    let (k, p6) = match ex_u16(b, p5) {
        Ok(x) => x,
        Err(e) => return Err(e),
    };
    let (roles, p7) = match ex_roles(b, p6, k as usize) {
        Ok(x) => x,
        Err(e) => return Err(e),
    };
    let (opc, p8) = match ex_u16(b, p7) {
        Ok(x) => x,
        Err(e) => return Err(e),
    };
    let (operands, p9) = match ex_operands(b, p8, opc as usize, idx) {
        Ok(x) => x,
        Err(e) => return Err(e),
    };
    Ok((ParsedNode::Op { op_name, consumers, opattrs, roles, operands }, p9))
}

fn ex_path(b: &[u8], p: usize, n: usize) -> (r: Result<(Vec<u16>, usize), DecodeDecline>)
    requires
        p <= b@.len(),
    ensures
        match rd_path(b@, p as int, n as nat) {
            Ok((v, q)) => r matches Ok((x, qq)) && x@ == v && qq == q && q <= b@.len(),
            Err(e) => r == Err::<(Vec<u16>, usize), DecodeDecline>(e),
        },
{
    let mut out: Vec<u16> = Vec::new();
    let mut q = p;
    let mut i: usize = 0;
    while i < n
        invariant
            i <= n,
            q <= b@.len(),
            rd_path(b@, p as int, n as nat) == (match rd_path(b@, q as int, (n - i) as nat) {
                Ok((rest, e)) => Ok((out@ + rest, e)),
                Err(e) => Err(e),
            }),
        decreases n - i,
    {
        let (v, q1) = match ex_u16(b, q) {
            Ok(x) => x,
            Err(e) => return Err(e),
        };
        let ghost ov = out@;
        out.push(v);
        proof {
            match rd_path(b@, q1 as int, (n - i - 1) as nat) {
                Ok((rest, e)) => {
                    assert(ov + (seq![v] + rest) =~= ov.push(v) + rest);
                },
                Err(_) => {},
            }
        }
        q = q1;
        i += 1;
    }
    assert(out@ + Seq::<u16>::empty() =~= out@);
    Ok((out, q))
}

fn ex_extracts(b: &[u8], p: usize, k: usize) -> (r: Result<(Vec<Extract>, usize), DecodeDecline>)
    requires
        p <= b@.len(),
    ensures
        match rd_extracts(b@, p as int, k as nat) {
            Ok((v, q)) => r matches Ok((x, qq)) && extracts_view(x@) == v && qq == q && q <= b@.len(),
            Err(e) => r == Err::<(Vec<Extract>, usize), DecodeDecline>(e),
        },
{
    let mut out: Vec<Extract> = Vec::new();
    let mut q = p;
    let mut i: usize = 0;
    assert(extracts_view(out@) =~= Seq::<(Seq<u16>, u32)>::empty());
    while i < k
        invariant
            i <= k,
            q <= b@.len(),
            rd_extracts(b@, p as int, k as nat) == (match rd_extracts(b@, q as int, (k - i) as nat) {
                Ok((rest, e)) => Ok((extracts_view(out@) + rest, e)),
                Err(e) => Err(e),
            }),
        decreases k - i,
    {
        let (plen, q1) = match ex_u16(b, q) {
            Ok(x) => x,
            Err(e) => return Err(e),
        };
        let (path, q2) = match ex_path(b, q1, plen as usize) {
            Ok(x) => x,
            Err(e) => return Err(e),
        };
        let (slot, q3) = match ex_u32(b, q2) {
            Ok(x) => x,
            Err(e) => return Err(e),
        };
        let ghost ov = extracts_view(out@);
        let ghost ent = (path@, slot);
        out.push(Extract { path, param_slot: slot });
        assert(extracts_view(out@) =~= ov.push(ent));
        proof {
            match rd_extracts(b@, q3 as int, (k - i - 1) as nat) {
                Ok((rest, e)) => {
                    assert(ov + (seq![ent] + rest) =~= ov.push(ent) + rest);
                },
                Err(_) => {},
            }
        }
        q = q3;
        i += 1;
    }
    assert(extracts_view(out@) + Seq::<(Seq<u16>, u32)>::empty() =~= extracts_view(out@));
    Ok((out, q))
}

fn ex_nodes(b: &[u8], p: usize, count: u32) -> (r: Result<(Vec<ParsedNode>, usize), DecodeDecline>)
    requires
        p <= b@.len(),
    ensures
        match rd_nodes(b@, p as int, 0, count as nat) {
            Ok((v, q)) => r matches Ok((x, qq)) && nodes_view(x@) == v && qq == q && q <= b@.len(),
            Err(e) => r == Err::<(Vec<ParsedNode>, usize), DecodeDecline>(e),
        },
{
    let mut out: Vec<ParsedNode> = Vec::new();
    let mut q = p;
    let mut idx: u32 = 0;
    assert(nodes_view(out@) =~= Seq::<ParsedNodeV>::empty());
    while idx < count
        invariant
            idx <= count,
            q <= b@.len(),
            rd_nodes(b@, p as int, 0, count as nat) == (match rd_nodes(b@, q as int, idx as nat, count as nat) {
                Ok((rest, e)) => Ok((nodes_view(out@) + rest, e)),
                Err(e) => Err(e),
            }),
        decreases count - idx,
    {
        let (n, q1) = match ex_node(b, q, idx) {
            Ok(x) => x,
            Err(e) => return Err(e),
        };
        let ghost ov = nodes_view(out@);
        let ghost nv = n@;
        out.push(n);
        assert(nodes_view(out@) =~= ov.push(nv));
        proof {
            match rd_nodes(b@, q1 as int, (idx + 1) as nat, count as nat) {
                Ok((rest, e)) => {
                    assert(ov + (seq![nv] + rest) =~= ov.push(nv) + rest);
                },
                Err(_) => {},
            }
        }
        q = q1;
        idx += 1;
    }
    assert(nodes_view(out@) + Seq::<ParsedNodeV>::empty() =~= nodes_view(out@));
    Ok((out, q))
}

fn count_roots(nodes: &Vec<ParsedNode>) -> (c: usize)
    ensures
        c as nat == root_count(nodes_view(nodes@)),
{
    let ghost nv = nodes_view(nodes@);
    let mut c: usize = 0;
    let mut i: usize = 0;
    while i < nodes.len()
        invariant
            i <= nodes@.len(),
            nv == nodes_view(nodes@),
            c <= i,
            c as nat == root_count(nv.take(i as int)),
        decreases nodes.len() - i,
    {
        assert(nv.take(i + 1).drop_last() == nv.take(i as int));
        assert(nv[i as int] == nodes@[i as int]@);
        if let ParsedNode::Op { consumers, .. } = &nodes[i] {
            if *consumers == CONSUMERS_ROOT {
                c += 1;
            }
        }
        i += 1;
    }
    assert(nv.take(i as int) == nv);
    c
}

/// Parse and validate a region wire-form byte stream: the magic and in-band
/// schema version, the `consumers` enum domain, every operand index naming a
/// strictly-earlier entry, at most one root-marked node and the last op node
/// marked as the root, and no trailing bytes. A malformed stream is a typed
/// decline.
pub fn decode(bytes: &[u8]) -> (r: Result<ParsedRegion, DecodeDecline>)
    ensures
        match decode_spec(bytes@) {
            Ok(v) => r matches Ok(x) && x@ == v,
            Err(e) => r == Err::<ParsedRegion, DecodeDecline>(e),
        },
{
    let (magic, p0) = match ex_take(bytes, 0, 4) {
        Ok(x) => x,
        Err(e) => return Err(e),
    };
    if !crate::text::bytes_eq(magic.as_slice(), &MAGIC) {
        return Err(DecodeDecline::BadMagic);
    }
    let (sv, p1) = match ex_u16(bytes, p0) {
        Ok(x) => x,
        Err(e) => return Err(e),
    };
    if sv != SCHEMA_VERSION {
        return Err(DecodeDecline::UnsupportedSchemaVersion { got: sv });
    }
    let (n_inputs, p2) = match ex_u32(bytes, p1) {
        Ok(x) => x,
        Err(e) => return Err(e),
    };
    let (ops_version, p3) = match ex_token(bytes, p2) {
        Ok(x) => x,
        Err(e) => return Err(e),
    };
    let (classify_version, p4) = match ex_token(bytes, p3) {
        Ok(x) => x,
        Err(e) => return Err(e),
    };
    let (count, p5) = match ex_u32(bytes, p4) {
        Ok(x) => x,
        Err(e) => return Err(e),
    };
    let (nodes, p6) = match ex_nodes(bytes, p5, count) {
        Ok(x) => x,
        Err(e) => return Err(e),
    };
    let rc = count_roots(&nodes);
    if rc > 1 {
        return Err(DecodeDecline::MultipleRoots { count: rc });
    }
    let ghost nv = nodes_view(nodes@);
    if nodes.len() > 0 {
        assert(nv.last() == nodes@[nodes@.len() - 1]@);
        if let ParsedNode::Op { consumers, .. } = &nodes[nodes.len() - 1] {
            if *consumers != CONSUMERS_ROOT {
                return Err(DecodeDecline::RootNotRoot);
            }
        }
    }
    let (ecount, p7) = match ex_u16(bytes, p6) {
        Ok(x) => x,
        Err(e) => return Err(e),
    };
    let (extracts, p8) = match ex_extracts(bytes, p7, ecount as usize) {
        Ok(x) => x,
        Err(e) => return Err(e),
    };
    if p8 != bytes.len() {
        return Err(DecodeDecline::TrailingBytes);
    }
    Ok(ParsedRegion { n_inputs, ops_version, classify_version, nodes, extracts })
}


// ---------------------------------------------------------------------------
// The logical region model, and the encoder's building blocks.
// ---------------------------------------------------------------------------

/// A logical region node: a positional-input bind leaf or an advertisable-op
/// node whose OpAttrs blob is carried uninterpreted.
#[derive(Debug, PartialEq, Eq)]
pub enum Node {
    /// `Bind(input_index)` — binds this leaf to the region's positional input.
    Bind(u32),
    /// An advertisable-op node.
    Op { op_name: String, opattrs: Vec<u8>, roles: Vec<RoleEntry>, operands: Vec<Node> },
}

impl Node {
    /// An op node with empty OpAttrs and all-default operand roles.
    pub fn op(op_name: &str, operands: Vec<Node>) -> (n: Node)
        ensures
            n matches Node::Op { op_name: name, opattrs, roles, operands: ops } && name@ == op_name@
                && opattrs@.len() == 0 && roles@.len() == 0 && ops == operands,
    {
        Node::Op { op_name: string_from(op_name), opattrs: Vec::new(), roles: Vec::new(), operands }
    }
}

/// A logical region: its declared arity, upstream version bindings, its root
/// node, and its extract list.
#[derive(Debug, PartialEq, Eq)]
pub struct Region {
    pub n_inputs: u32,
    pub ops_version: String,
    pub classify_version: String,
    pub root: Node,
    pub extracts: Vec<Extract>,
}

impl Region {
    /// A region with no extracts.
    pub fn new(n_inputs: u32, ops_version: &str, classify_version: &str, root: Node) -> (r: Region)
        ensures
            r.n_inputs == n_inputs,
            r.ops_version@ == ops_version@,
            r.classify_version@ == classify_version@,
            r.root == root,
            r.extracts@.len() == 0,
    {
        Region {
            n_inputs,
            ops_version: string_from(ops_version),
            classify_version: string_from(classify_version),
            root,
            extracts: Vec::new(),
        }
    }
}

/// A typed decline from the encoder: the region is not expressible.
#[derive(Debug, Clone, Copy, PartialEq, Eq, Structural)]
pub enum Decline {
    /// The bound-input set is a strict subset of `[0, n_inputs)`.
    BindSetMismatch { declared: u32, unbound: u32 },
    /// A bind names an index `>= n_inputs`.
    BindIndexOutOfRange { index: u32, n_inputs: u32 },
}

/// The ops whose operands are put in canonical byte order.
pub open spec fn commutative(name: Seq<char>) -> bool {
    name == "add"@ || name == "mul"@
}

/// The commutativity oracle, read by op name: `add` and `mul` are
/// commutative; every other op is positional.
pub fn is_commutative(op_name: &str) -> (r: bool)
    ensures
        r == commutative(op_name@),
{
    str_eq(op_name, "add") || str_eq(op_name, "mul")
}

/// A token: its UTF-8 byte length as a `u16` (low 16 bits), then the bytes.
pub open spec fn token_bytes(s: Seq<char>) -> Seq<u8> {
    let b = encode_utf8(s);
    u16_le((b.len() % 0x1_0000) as u16) + b
}

fn push_token(out: &mut Vec<u8>, s: &str)
    ensures
        final(out)@ == old(out)@ + token_bytes(s@),
{
    let b = crate::text::str_bytes(s);
    let ghost o = out@;
    crate::wire::push_u16_le(out, (b.len() % 0x1_0000) as u16);
    crate::wire::push_all(out, b.as_slice());
    assert(out@ =~= o + token_bytes(s@));
}

/// The role entry of operand `i`: the given one, or `(data, *)` past the end.
pub open spec fn role_at(roles: Seq<RoleEntry>, i: int) -> RoleV {
    if 0 <= i < roles.len() { roles[i]@ } else { ("data"@, "*"@) }
}

/// One more than the greatest operand index below `n` whose entry differs
/// from the default, or 0.
pub open spec fn role_count(roles: Seq<RoleEntry>, n: nat) -> nat
    decreases n,
{
    if n == 0 {
        0
    } else if role_at(roles, n - 1) != ("data"@, "*"@) {
        n
    } else {
        role_count(roles, (n - 1) as nat)
    }
}

/// The first `k` role entries, each a role token then a dtype token.
pub open spec fn role_entries_bytes(roles: Seq<RoleEntry>, k: nat) -> Seq<u8>
    decreases k,
{
    if k == 0 {
        seq![]
    } else {
        role_entries_bytes(roles, (k - 1) as nat) + token_bytes(role_at(roles, k - 1).0) + token_bytes(role_at(roles, k - 1).1)
    }
}

/// The canonical operand-role tuple: the entry count `k`, then the `k`
/// entries, trailing defaults omitted.
pub open spec fn operand_roles_bytes(roles: Seq<RoleEntry>, n: nat) -> Seq<u8> {
    let k = role_count(roles, n);
    u16_le((k % 0x1_0000) as u16) + role_entries_bytes(roles, k)
}

fn is_default_entry(e: &RoleEntry) -> (r: bool)
    ensures
        r == (e@ == ("data"@, "*"@)),
{
    str_eq(e.role.as_str(), DEFAULT_ROLE) && str_eq(e.dtype.as_str(), WILDCARD)
}

/// Encode a node's operand-role tuple in canonical form: a `u16` entry count
/// `k` (0 if every operand is the default `(data, *)`, else one more than the
/// greatest operand index differing from the default), then the `k` entries,
/// each a role token and a dtype token. Every operand index `>= k` is
/// `(data, *)`.
pub fn encode_operand_roles(roles: &[RoleEntry], operand_count: usize) -> (out: Vec<u8>)
    ensures
        out@ == operand_roles_bytes(roles@, operand_count as nat),
{
    let mut k: usize = 0;
    let mut i: usize = 0;
    while i < operand_count
        invariant
            i <= operand_count,
            k as nat == role_count(roles@, i as nat),
            k <= i,
        decreases operand_count - i,
    {
        let differs = if i < roles.len() { !is_default_entry(&roles[i]) } else { false };
        if differs {
            k = i + 1;
        }
        i += 1;
    }
    let mut out: Vec<u8> = Vec::new();
    crate::wire::push_u16_le(&mut out, (k % 0x1_0000) as u16);
    let ghost head = out@;
    let mut j: usize = 0;
    while j < k
        invariant
            j <= k,
            out@ == head + role_entries_bytes(roles@, j as nat),
        decreases k - j,
    {
        if j < roles.len() {
            push_token(&mut out, roles[j].role.as_str());
            push_token(&mut out, roles[j].dtype.as_str());
        } else {
            push_token(&mut out, DEFAULT_ROLE);
            push_token(&mut out, WILDCARD);
        }
        j += 1;
    }
    out
}

/// The canonical tag serialization: the op-name token, the OpAttrs blob with
/// its `u16` length, then the canonical operand-role tuple.
pub open spec fn tag_bytes(op_name: Seq<char>, opattrs: Seq<u8>, roles: Seq<RoleEntry>, n: nat) -> Seq<u8> {
    token_bytes(op_name) + u16_le((opattrs.len() % 0x1_0000) as u16) + opattrs + operand_roles_bytes(roles, n)
}

/// Serialize an advertisable-op tag: the op-name token, the OpAttrs sub-block
/// (`u16` length and the verbatim bytes), and the canonical operand-role
/// tuple — and none of the region framing. Tag equality is byte equality of
/// this serialization.
pub fn encode_tag(op_name: &str, opattrs: &[u8], roles: &[RoleEntry], operand_count: usize) -> (out: Vec<u8>)
    ensures
        out@ == tag_bytes(op_name@, opattrs@, roles@, operand_count as nat),
{
    let mut out: Vec<u8> = Vec::new();
    push_token(&mut out, op_name);
    crate::wire::push_u16_le(&mut out, (opattrs.len() % 0x1_0000) as u16);
    crate::wire::push_all(&mut out, opattrs);
    let r = encode_operand_roles(roles, operand_count);
    crate::wire::push_all(&mut out, r.as_slice());
    assert(out@ =~= tag_bytes(op_name@, opattrs@, roles@, operand_count as nat));
    out
}


// ---------------------------------------------------------------------------
// Canonical subtree serialization and operand order.
// ---------------------------------------------------------------------------

/// The keys of a list of subtrees.
pub open spec fn child_keys(cs: Seq<Node>) -> Seq<Seq<u8>>
    decreases cs, cs.len(),
{
    if cs.len() == 0 {
        seq![]
    } else {
        child_keys(cs.subrange(0, cs.len() - 1)).push(canonical_key(cs[cs.len() - 1]))
    }
}

/// Each operand position with its key.
pub open spec fn keyed(keys: Seq<Seq<u8>>) -> Seq<(usize, Seq<u8>)> {
    Seq::new(keys.len(), |i: int| (i as usize, keys[i]))
}

/// The operands in canonical order, by position with key: ascending
/// unsigned-byte-lex over the keys (ties keep their authored order) for a
/// commutative op, the authored order otherwise.
pub open spec fn canonical_order(name: Seq<char>, keys: Seq<Seq<u8>>) -> Seq<(usize, Seq<u8>)> {
    if commutative(name) {
        crate::expressibility::sort_by_key(keyed(keys))
    } else {
        keyed(keys)
    }
}

/// The keys of an ordered operand list, concatenated.
pub open spec fn concat_keys(s: Seq<(usize, Seq<u8>)>) -> Seq<u8>
    decreases s.len(),
{
    if s.len() == 0 {
        seq![]
    } else {
        concat_keys(s.drop_last()) + s.last().1
    }
}

/// The canonical subtree serialization of a node: `0x00` and the input index
/// for a bind; for an op `0x01`, the op-name token, the INTERIOR consumers
/// byte, the OpAttrs blob with its length, the operand-role tuple, and the
/// operand subtrees in canonical order.
pub open spec fn canonical_key(n: Node) -> Seq<u8>
    decreases n, 0nat,
{
    match n {
        Node::Bind(i) => seq![KIND_BIND] + u32_le(i),
        Node::Op { op_name, opattrs, roles, operands } =>
            seq![KIND_OP] + token_bytes(op_name@) + seq![CONSUMERS_INTERIOR]
                + u16_le((opattrs@.len() % 0x1_0000) as u16) + opattrs@
                + operand_roles_bytes(roles@, operands@.len())
                + concat_keys(canonical_order(op_name@, child_keys(operands@))),
    }
}

pub open spec fn vvec_view(v: Seq<Vec<u8>>) -> Seq<Seq<u8>> {
    v.map_values(|x: Vec<u8>| x@)
}

fn keys_of(cs: &Vec<Node>) -> (ks: Vec<Vec<u8>>)
    ensures
        vvec_view(ks@) == child_keys(cs@),
    decreases cs, 1nat,
{
    let mut ks: Vec<Vec<u8>> = Vec::new();
    let mut i: usize = 0;
    assert(vvec_view(ks@) =~= child_keys(cs@.take(0)));
    while i < cs.len()
        invariant
            i <= cs@.len(),
            vvec_view(ks@) == child_keys(cs@.take(i as int)),
        decreases cs@.len() - i,
    {
        let k = subtree_key(&cs[i]);
        let ghost kv = vvec_view(ks@);
        ks.push(k);
        proof {
            let t = cs@.take(i + 1);
            assert(t.subrange(0, t.len() - 1) == cs@.take(i as int));
            assert(t[t.len() - 1] == cs@[i as int]);
            assert(vvec_view(ks@) =~= kv.push(k@));
        }
        i += 1;
    }
    assert(cs@.take(cs@.len() as int) == cs@);
    ks
}

/// The operand positions and keys in canonical order.
fn order_of(op_name: &str, keys: Vec<Vec<u8>>) -> (o: Vec<(usize, Vec<u8>)>)
    ensures
        crate::expressibility::pairs_view(o@) == canonical_order(op_name@, vvec_view(keys@)),
{
    let ghost kv = vvec_view(keys@);
    let n = keys.len();
    let mut pairs: Vec<(usize, Vec<u8>)> = Vec::new();
    let mut rest = keys;
    let mut i: usize = 0;
    while rest.len() > 0
        invariant
            i + rest@.len() == n,
            n == kv.len(),
            vvec_view(rest@) == kv.skip(i as int),
            crate::expressibility::pairs_view(pairs@) == keyed(kv).take(i as int),
        decreases rest.len(),
    {
        let ghost r0 = rest@;
        let k = rest.remove(0);
        assert(vvec_view(r0)[0] == r0[0]@);
        assert(kv.skip(i as int)[0] == kv[i as int]);
        let ghost pv = crate::expressibility::pairs_view(pairs@);
        pairs.push((i, k));
        assert(crate::expressibility::pairs_view(pairs@) =~= pv.push((i, kv[i as int])));
        assert(keyed(kv).take(i + 1) =~= keyed(kv).take(i as int).push((i, kv[i as int])));
        assert forall|m: int| 0 <= m < rest@.len() implies vvec_view(rest@)[m] == kv.skip(i + 1)[m] by {
            assert(rest@[m] == r0[m + 1]);
            assert(vvec_view(r0)[m + 1] == r0[m + 1]@);
            assert(kv.skip(i as int)[m + 1] == kv.skip(i + 1)[m]);
        }
        assert(vvec_view(rest@) =~= kv.skip(i + 1));
        i += 1;
    }
    assert(keyed(kv).take(i as int) =~= keyed(kv));
    if is_commutative(op_name) {
        crate::expressibility::sort_pairs(pairs)
    } else {
        pairs
    }
}

/// The canonical subtree serialization of a node: `0x00` then the input index
/// (`u32` LE) for a bind; for an op `0x01`, the length-prefixed op name, the
/// INTERIOR consumers byte, the length-prefixed OpAttrs blob, the operand-role
/// tuple, and the operand serializations in canonical order.
pub fn subtree_key(node: &Node) -> (out: Vec<u8>)
    ensures
        out@ == canonical_key(*node),
    decreases node, 0nat,
{
    match node {
        Node::Bind(i) => {
            let mut out: Vec<u8> = Vec::new();
            out.push(KIND_BIND);
            crate::wire::push_u32_le(&mut out, *i);
            assert(out@ =~= canonical_key(*node));
            out
        },
        Node::Op { op_name, opattrs, roles, operands } => {
            let mut out: Vec<u8> = Vec::new();
            out.push(KIND_OP);
            push_token(&mut out, op_name.as_str());
            out.push(CONSUMERS_INTERIOR);
            crate::wire::push_u16_le(&mut out, (opattrs.len() % 0x1_0000) as u16);
            crate::wire::push_all(&mut out, opattrs.as_slice());
            let rb = encode_operand_roles(roles.as_slice(), operands.len());
            crate::wire::push_all(&mut out, rb.as_slice());
            let ks = keys_of(operands);
            let order = order_of(op_name.as_str(), ks);
            let ghost ov = crate::expressibility::pairs_view(order@);
            let ghost head = out@;
            let mut j: usize = 0;
            while j < order.len()
                invariant
                    j <= order@.len(),
                    ov == crate::expressibility::pairs_view(order@),
                    out@ == head + concat_keys(ov.take(j as int)),
                decreases order.len() - j,
            {
                assert(ov[j as int].1 == order@[j as int].1@);
                crate::wire::push_all(&mut out, order[j].1.as_slice());
                assert(ov.take(j + 1).drop_last() == ov.take(j as int));
                j += 1;
            }
            assert(ov.take(order@.len() as int) == ov);
            assert(out@ =~= canonical_key(*node));
            out
        },
    }
}

#[verifier::spinoff_prover]
proof fn lemma_two_keys_sorted(ka: Seq<u8>, kb: Seq<u8>)
    ensures
        concat_keys(crate::expressibility::sort_by_key(keyed(seq![ka, kb])))
            == concat_keys(crate::expressibility::sort_by_key(keyed(seq![kb, ka]))),
{
    let k1 = keyed(seq![ka, kb]);
    let k2 = keyed(seq![kb, ka]);
    assert(k1.drop_last() =~= seq![(0usize, ka)]);
    assert(k2.drop_last() =~= seq![(0usize, kb)]);
    let e: Seq<(usize, Seq<u8>)> = seq![];
    assert(seq![(0usize, ka)].drop_last() =~= e);
    assert(seq![(0usize, kb)].drop_last() =~= e);
    assert(crate::expressibility::sort_by_key(e) =~= e);
    assert(crate::expressibility::insert_by_key((0usize, ka), e) =~= seq![(0usize, ka)]);
    assert(crate::expressibility::insert_by_key((0usize, kb), e) =~= seq![(0usize, kb)]);
    assert(crate::expressibility::sort_by_key(seq![(0usize, ka)]) =~= seq![(0usize, ka)]);
    assert(crate::expressibility::sort_by_key(seq![(0usize, kb)]) =~= seq![(0usize, kb)]);
    assert(seq![(0usize, ka)].drop_first() =~= e);
    assert(seq![(0usize, kb)].drop_first() =~= e);
    let o1 = crate::expressibility::sort_by_key(k1);
    let o2 = crate::expressibility::sort_by_key(k2);
    assert(k1.last() == (1usize, kb));
    assert(k2.last() == (1usize, ka));
    assert(o1 == crate::expressibility::insert_by_key((1usize, kb), seq![(0usize, ka)]));
    assert(o2 == crate::expressibility::insert_by_key((1usize, ka), seq![(0usize, kb)]));
    assert(crate::expressibility::insert_by_key((1usize, kb), e) =~= seq![(1usize, kb)]);
    assert(crate::expressibility::insert_by_key((1usize, ka), e) =~= seq![(1usize, ka)]);
    crate::expressibility::lemma_lex_le_total(ka, kb);
    if crate::expressibility::lex_le(ka, kb) && crate::expressibility::lex_le(kb, ka) {
        crate::expressibility::lemma_lex_le_antisymmetric(ka, kb);
    }
    let lo = if crate::expressibility::lex_le(ka, kb) { ka } else { kb };
    let hi = if crate::expressibility::lex_le(ka, kb) { kb } else { ka };
    assert(o1.len() == 2 && o1[0].1 == lo && o1[1].1 == hi);
    assert(o2.len() == 2 && o2[0].1 == lo && o2[1].1 == hi);
    assert(o1.drop_last().drop_last() =~= e);
    assert(o2.drop_last().drop_last() =~= e);
    assert(concat_keys(e) =~= Seq::<u8>::empty());
    assert(o1.drop_last().last().1 == lo);
    assert(o2.drop_last().last().1 == lo);
    assert(concat_keys(o1.drop_last()) =~= lo);
    assert(concat_keys(o2.drop_last()) =~= lo);
    assert(concat_keys(o1) =~= lo + hi);
    assert(concat_keys(o2) =~= lo + hi);
}

/// The canonical key of a commutative op (`add`, `mul`) with two operands
/// does not depend on their authored order: swapping them leaves the key
/// unchanged, since the operands are arranged by their own keys.
#[verifier::spinoff_prover]
pub proof fn commutative_key_ignores_operand_order(n1: Node, n2: Node)
    requires
        n1 is Op,
        n2 is Op,
        n1->op_name@ == n2->op_name@,
        n1->opattrs@ == n2->opattrs@,
        n1->roles@ == n2->roles@,
        n1->op_name@ == "add"@ || n1->op_name@ == "mul"@,
        n1->operands@.len() == 2,
        n2->operands@ == seq![n1->operands@[1], n1->operands@[0]],
    ensures
        canonical_key(n1) == canonical_key(n2),
{
    let a = n1->operands@[0];
    let b = n1->operands@[1];
    let ka = canonical_key(a);
    let kb = canonical_key(b);
    let s1 = n1->operands@;
    let s2 = n2->operands@;
    assert(s1.subrange(0, 1) =~= seq![a]);
    assert(seq![a].subrange(0, 0) =~= Seq::<Node>::empty());
    assert(s2.subrange(0, 1) =~= seq![b]);
    assert(seq![b].subrange(0, 0) =~= Seq::<Node>::empty());
    assert(child_keys(Seq::<Node>::empty()) =~= Seq::<Seq<u8>>::empty());
    assert(child_keys(seq![a]) =~= seq![ka]);
    assert(child_keys(seq![b]) =~= seq![kb]);
    assert(child_keys(s1) =~= seq![ka, kb]);
    assert(child_keys(s2) =~= seq![kb, ka]);
    lemma_two_keys_sorted(ka, kb);
}



// ---------------------------------------------------------------------------
// The encoder's node table: canonical post-order with maximal sharing.
// ---------------------------------------------------------------------------

/// The records emitted so far and the key of each.
pub type Table = (Seq<Seq<u8>>, Seq<Seq<u8>>);

/// The first position of `key` in `keys`.
pub open spec fn first_index(keys: Seq<Seq<u8>>, key: Seq<u8>) -> Option<nat>
    decreases keys.len(),
{
    if keys.len() == 0 {
        None
    } else {
        match first_index(keys.drop_last(), key) {
            Some(i) => Some(i),
            None => if keys.last() == key { Some((keys.len() - 1) as nat) } else { None },
        }
    }
}

/// A table index as the `u32` the record stores.
pub open spec fn idx_u32(n: nat) -> u32 {
    (n % 0x1_0000_0000) as u32
}

/// Operand indices, each a `u32` little-endian.
pub open spec fn idx_bytes(cis: Seq<u32>) -> Seq<u8>
    decreases cis.len(),
{
    if cis.len() == 0 {
        seq![]
    } else {
        idx_bytes(cis.drop_last()) + u32_le(cis.last())
    }
}

/// Visit a node: a non-root subtree whose key is already in the table reuses
/// that index; otherwise its operands are visited in canonical order first
/// (post-order) and its record appended.
pub open spec fn visit_spec(n: Node, is_root: bool, tb: Table) -> (u32, Table)
    decreases n, 1nat, 0nat,
{
    let key = canonical_key(n);
    if !is_root && first_index(tb.1, key) is Some {
        (idx_u32(first_index(tb.1, key)->0), tb)
    } else {
        match n {
            Node::Bind(i) => (idx_u32(tb.0.len()), (tb.0.push(seq![KIND_BIND] + u32_le(i)), tb.1.push(key))),
            Node::Op { op_name, opattrs, roles, operands } => {
                let order = canonical_order(op_name@, child_keys(operands@));
                let (cis, tb1) = visit_kids(n, order, order.len(), tb);
                let rec = seq![KIND_OP] + token_bytes(op_name@)
                    + seq![if is_root { CONSUMERS_ROOT } else { CONSUMERS_INTERIOR }]
                    + u16_le((opattrs@.len() % 0x1_0000) as u16) + opattrs@
                    + operand_roles_bytes(roles@, operands@.len())
                    + u16_le((cis.len() % 0x1_0000) as u16) + idx_bytes(cis);
                (idx_u32(tb1.0.len()), (tb1.0.push(rec), tb1.1.push(key)))
            },
        }
    }
}

/// Visit the first `k` operands of `parent` in the given order.
pub open spec fn visit_kids(parent: Node, order: Seq<(usize, Seq<u8>)>, k: nat, tb: Table) -> (Seq<u32>, Table)
    decreases parent, 0nat, k,
{
    if k == 0 || k > order.len() {
        (seq![], tb)
    } else {
        let (cis, tb1) = visit_kids(parent, order, (k - 1) as nat, tb);
        match parent {
            Node::Op { operands, .. } => {
                let j = order[k - 1].0;
                if j < operands@.len() {
                    let (ci, tb2) = visit_spec(operands@[j as int], false, tb1);
                    (cis.push(ci), tb2)
                } else {
                    (cis, tb1)
                }
            },
            Node::Bind(_) => (cis, tb1),
        }
    }
}

struct Builder {
    records: Vec<Vec<u8>>,
    keys: Vec<Vec<u8>>,
}

impl Builder {
    spec fn table(&self) -> Table {
        (vvec_view(self.records@), vvec_view(self.keys@))
    }

    fn lookup(&self, key: &Vec<u8>) -> (r: Option<usize>)
        ensures
            match first_index(vvec_view(self.keys@), key@) {
                Some(i) => r matches Some(x) && x == i,
                None => r is None,
            },
    {
        let ghost kv = vvec_view(self.keys@);
        let mut i: usize = 0;
        while i < self.keys.len()
            invariant
                i <= self.keys@.len(),
                kv == vvec_view(self.keys@),
                first_index(kv.take(i as int), key@) is None,
            decreases self.keys.len() - i,
        {
            assert(kv.take(i + 1).drop_last() == kv.take(i as int));
            assert(kv[i as int] == self.keys@[i as int]@);
            if crate::text::bytes_eq(self.keys[i].as_slice(), key.as_slice()) {
                assert(first_index(kv.take(i + 1), key@) == Some(i as nat));
                proof {
                    lemma_first_index_prefix(kv, key@, (i + 1) as nat);
                }
                return Some(i);
            }
            i += 1;
        }
        assert(kv.take(i as int) == kv);
        None
    }

    fn visit(&mut self, node: &Node, is_root: bool) -> (idx: u32)
        ensures
            (idx, final(self).table()) == visit_spec(*node, is_root, old(self).table()),
        decreases node, 1nat, 0nat,
    {
        let key = subtree_key(node);
        let ghost told = self.table();
        if !is_root {
            match self.lookup(&key) {
                Some(i) => {
                    return ((i as u64) % 0x1_0000_0000) as u32;
                },
                None => {},
            }
        }
        let record: Vec<u8> = match node {
            Node::Bind(i) => {
                let mut r: Vec<u8> = Vec::new();
                r.push(KIND_BIND);
                crate::wire::push_u32_le(&mut r, *i);
                assert(r@ =~= seq![KIND_BIND] + u32_le(*i));
                r
            },
            Node::Op { op_name, opattrs, roles, operands } => {
                let ks = keys_of(operands);
                let order = order_of(op_name.as_str(), ks);
                let ghost ov = crate::expressibility::pairs_view(order@);
                let ghost tb0 = self.table();
                let mut cis: Vec<u32> = Vec::new();
                let mut j: usize = 0;
                while j < order.len()
                    invariant
                        j <= order@.len(),
                        ov == crate::expressibility::pairs_view(order@),
                        ov == canonical_order(op_name@, child_keys(operands@)),
                        *node == (Node::Op { op_name: *op_name, opattrs: *opattrs, roles: *roles, operands: *operands }),
                        (cis@, self.table()) == visit_kids(*node, ov, j as nat, tb0),
                    decreases order.len() - j,
                {
                    let pos = order[j].0;
                    assert(ov[j as int].0 == pos);
                    if pos < operands.len() {
                        let ci = self.visit(&operands[pos], false);
                        cis.push(ci);
                    }
                    j += 1;
                }
                let mut r: Vec<u8> = Vec::new();
                r.push(KIND_OP);
                push_token(&mut r, op_name.as_str());
                r.push(if is_root { CONSUMERS_ROOT } else { CONSUMERS_INTERIOR });
                crate::wire::push_u16_le(&mut r, (opattrs.len() % 0x1_0000) as u16);
                crate::wire::push_all(&mut r, opattrs.as_slice());
                let rb = encode_operand_roles(roles.as_slice(), operands.len());
                crate::wire::push_all(&mut r, rb.as_slice());
                crate::wire::push_u16_le(&mut r, (cis.len() % 0x1_0000) as u16);
                let ghost head = r@;
                let mut m: usize = 0;
                while m < cis.len()
                    invariant
                        m <= cis@.len(),
                        r@ == head + idx_bytes(cis@.take(m as int)),
                    decreases cis.len() - m,
                {
                    crate::wire::push_u32_le(&mut r, cis[m]);
                    assert(cis@.take(m + 1).drop_last() == cis@.take(m as int));
                    m += 1;
                }
                assert(cis@.take(cis@.len() as int) == cis@);
                assert(ov.len() == order@.len());
                assert(tb0 == told);
                let ghost vk = visit_kids(*node, ov, ov.len(), told);
                assert(vk == (cis@, self.table()));
                assert(r@ =~= seq![KIND_OP] + token_bytes(op_name@)
                    + seq![if is_root { CONSUMERS_ROOT } else { CONSUMERS_INTERIOR }]
                    + u16_le((opattrs@.len() % 0x1_0000) as u16) + opattrs@
                    + operand_roles_bytes(roles@, operands@.len())
                    + u16_le((cis@.len() % 0x1_0000) as u16) + idx_bytes(cis@));
                r
            },
        };
        let idx = ((self.records.len() as u64) % 0x1_0000_0000) as u32;
        let ghost tb = self.table();
        assert(tb.0.len() == self.records@.len());
        assert(idx == idx_u32(tb.0.len()));
        self.records.push(record);
        self.keys.push(key);
        assert(self.table() =~= (tb.0.push(record@), tb.1.push(key@)));
        idx
    }
}

proof fn lemma_first_index_prefix(keys: Seq<Seq<u8>>, key: Seq<u8>, n: nat)
    requires
        n <= keys.len(),
        first_index(keys.take(n as int), key) is Some,
    ensures
        first_index(keys, key) == first_index(keys.take(n as int), key),
    decreases keys.len(),
{
    if n < keys.len() {
        assert(keys.drop_last().take(n as int) == keys.take(n as int));
        lemma_first_index_prefix(keys.drop_last(), key, n);
    } else {
        assert(keys.take(n as int) == keys);
    }
}


// ---------------------------------------------------------------------------
// The encoder.
// ---------------------------------------------------------------------------

/// The input indices a subtree binds.
pub open spec fn binds_of(n: Node) -> Set<u32>
    decreases n, 0nat,
{
    match n {
        Node::Bind(i) => set![i],
        Node::Op { operands, .. } => binds_list(operands@),
    }
}

/// The input indices a list of subtrees binds.
pub open spec fn binds_list(cs: Seq<Node>) -> Set<u32>
    decreases cs, cs.len(),
{
    if cs.len() == 0 {
        Set::empty()
    } else {
        binds_list(cs.subrange(0, cs.len() - 1)).union(binds_of(cs[cs.len() - 1]))
    }
}

/// The big-endian bytes of a `u16` / `u32`, so that byte order is numeric
/// order.
pub open spec fn be16(v: u16) -> Seq<u8> {
    seq![(v / 256) as u8, (v % 256) as u8]
}

pub open spec fn be32(v: u32) -> Seq<u8> {
    seq![(v / 0x100_0000) as u8, ((v / 0x1_0000) % 256) as u8, ((v / 256) % 256) as u8, (v % 256) as u8]
}

pub open spec fn be16s(p: Seq<u16>) -> Seq<u8>
    decreases p.len(),
{
    if p.len() == 0 { seq![] } else { be16s(p.drop_last()) + be16(p.last()) }
}

/// An extract's sort key: its param slot, then its path, as big-endian bytes —
/// byte-lexicographic order on it is the order of `(param_slot, path)`.
pub open spec fn extract_key(e: Extract) -> Seq<u8> {
    be32(e.param_slot) + be16s(e.path@)
}

/// An extract record: the path length, the `u16` steps, the param slot.
pub open spec fn extract_record(e: Extract) -> Seq<u8> {
    u16_le((e.path@.len() % 0x1_0000) as u16) + le16s(e.path@) + u32_le(e.param_slot)
}

pub open spec fn le16s(p: Seq<u16>) -> Seq<u8>
    decreases p.len(),
{
    if p.len() == 0 { seq![] } else { le16s(p.drop_last()) + u16_le(p.last()) }
}

/// The extract records, ascending by `(param_slot, path)`.
pub open spec fn extract_records(ex: Seq<Extract>, order: Seq<(usize, Seq<u8>)>) -> Seq<u8>
    decreases order.len(),
{
    if order.len() == 0 {
        seq![]
    } else {
        extract_records(ex, order.drop_last()) + extract_record(ex[order.last().0 as int])
    }
}

pub open spec fn extract_order(ex: Seq<Extract>) -> Seq<(usize, Seq<u8>)> {
    crate::expressibility::sort_by_key(Seq::new(ex.len(), |i: int| (i as usize, extract_key(ex[i]))))
}

/// Records concatenated.
pub open spec fn concat_records(rs: Seq<Seq<u8>>) -> Seq<u8>
    decreases rs.len(),
{
    if rs.len() == 0 { seq![] } else { concat_records(rs.drop_last()) + rs.last() }
}

/// The wire form of an expressible region.
pub open spec fn wire_bytes(r: Region) -> Seq<u8> {
    let recs = visit_spec(r.root, true, (seq![], seq![])).1.0;
    MAGIC@ + u16_le(SCHEMA_VERSION) + u32_le(r.n_inputs) + token_bytes(r.ops_version@)
        + token_bytes(r.classify_version@) + u32_le(idx_u32(recs.len())) + concat_records(recs)
        + u16_le((r.extracts@.len() % 0x1_0000) as u16) + extract_records(r.extracts@, extract_order(r.extracts@))
}

/// What encoding a region gives: the least bound index out of range, else
/// the least unbound input, else the wire form.
pub open spec fn encode_spec(r: Region) -> Result<Seq<u8>, Decline> {
    let b = binds_of(r.root);
    if exists|x: u32| b.contains(x) && x >= r.n_inputs {
        let x = choose|x: u32| b.contains(x) && x >= r.n_inputs && forall|y: u32| b.contains(y) && y >= r.n_inputs ==> x <= y;
        Err(Decline::BindIndexOutOfRange { index: x, n_inputs: r.n_inputs })
    } else if exists|i: u32| i < r.n_inputs && !b.contains(i) {
        let i = choose|i: u32| i < r.n_inputs && !b.contains(i) && forall|j: u32| j < i ==> b.contains(j);
        Err(Decline::BindSetMismatch { declared: r.n_inputs, unbound: i })
    } else {
        Ok(wire_bytes(r))
    }
}

/// `u32` keys order as std's `Ord` does, so a `BTreeSet<u32>` behaves as its
/// set view.
proof fn lemma_u32_keys_ordered()
    ensures
        vstd::laws_cmp::obeys_cmp::<u32>(),
{
    broadcast use vstd::laws_cmp::group_laws_cmp;
}

/// A `BTreeSet<u32>` walks its keys in ascending order.
proof fn lemma_u32_walk_increasing(s: Seq<&u32>)
    requires
        vstd::std_specs::btree::increasing_seq(s),
    ensures
        forall|i: int, j: int| 0 <= i < j < s.len() ==> *s[i] < *s[j],
{
    broadcast use vstd::laws_cmp::group_laws_cmp, vstd::std_specs::btree::group_btree_axioms;

    assert(vstd::laws_cmp::obeys_cmp::<&u32>());
    assert forall|i: int, j: int| 0 <= i < j < s.len() implies *s[i] < *s[j] by {
        assert(vstd::std_specs::cmp::OrdSpec::cmp_spec(&s[i], &s[j]) is Less);
    }
}

fn collect_binds(node: &Node, out: &mut BTreeSet<u32>)
    ensures
        final(out)@ == old(out)@.union(binds_of(*node)),
    decreases node, 0nat,
{
    proof {
        lemma_u32_keys_ordered();
    }
    match node {
        Node::Bind(i) => {
            out.insert(*i);
            assert(out@ =~= old(out)@.union(set![*i]));
        },
        Node::Op { operands, .. } => {
            collect_binds_list(operands, out);
        },
    }
}

fn collect_binds_list(cs: &Vec<Node>, out: &mut BTreeSet<u32>)
    ensures
        final(out)@ == old(out)@.union(binds_list(cs@)),
    decreases cs, 1nat,
{
    let ghost o = out@;
    let mut k: usize = 0;
    assert(o.union(binds_list(cs@.take(0))) =~= o);
    while k < cs.len()
        invariant
            k <= cs@.len(),
            out@ == o.union(binds_list(cs@.take(k as int))),
        decreases cs@.len() - k,
    {
        collect_binds(&cs[k], out);
        proof {
            let t = cs@.take(k + 1);
            assert(t.subrange(0, t.len() - 1) == cs@.take(k as int));
            assert(t[t.len() - 1] == cs@[k as int]);
            assert(out@ =~= o.union(binds_list(t)));
        }
        k += 1;
    }
    assert(cs@.take(cs@.len() as int) == cs@);
}

fn extract_sort_key(e: &Extract) -> (k: Vec<u8>)
    ensures
        k@ == extract_key(*e),
{
    let mut k: Vec<u8> = Vec::new();
    let s = e.param_slot;
    k.push((s / 0x100_0000) as u8);
    k.push(((s / 0x1_0000) % 256) as u8);
    k.push(((s / 256) % 256) as u8);
    k.push((s % 256) as u8);
    let ghost head = k@;
    let mut i: usize = 0;
    while i < e.path.len()
        invariant
            i <= e.path@.len(),
            k@ == head + be16s(e.path@.take(i as int)),
        decreases e.path.len() - i,
    {
        let v = e.path[i];
        k.push((v / 256) as u8);
        k.push((v % 256) as u8);
        assert(e.path@.take(i + 1).drop_last() == e.path@.take(i as int));
        i += 1;
    }
    assert(e.path@.take(e.path@.len() as int) == e.path@);
    assert(k@ =~= extract_key(*e));
    k
}

fn push_extract(out: &mut Vec<u8>, e: &Extract)
    ensures
        final(out)@ == old(out)@ + extract_record(*e),
{
    let ghost o = out@;
    crate::wire::push_u16_le(out, (e.path.len() % 0x1_0000) as u16);
    let ghost head = out@;
    let mut i: usize = 0;
    while i < e.path.len()
        invariant
            i <= e.path@.len(),
            out@ == head + le16s(e.path@.take(i as int)),
        decreases e.path.len() - i,
    {
        crate::wire::push_u16_le(out, e.path[i]);
        assert(e.path@.take(i + 1).drop_last() == e.path@.take(i as int));
        i += 1;
    }
    assert(e.path@.take(e.path@.len() as int) == e.path@);
    crate::wire::push_u32_le(out, e.param_slot);
    assert(out@ =~= o + extract_record(*e));
}

/// Serialize a region to the canonical region wire form, or decline a region
/// that is not expressible: every bind must name an input below `n_inputs`
/// (the least offending index is reported), and every input must be bound
/// (the least unbound one is reported).
pub fn encode(region: &Region) -> (r: Result<Vec<u8>, Decline>)
    ensures
        match encode_spec(*region) {
            Ok(b) => r matches Ok(v) && v@ == b,
            Err(d) => r == Err::<Vec<u8>, Decline>(d),
        },
{
    broadcast use vstd::std_specs::btree::group_btree_axioms;

    proof {
        lemma_u32_keys_ordered();
    }
    let mut binds: BTreeSet<u32> = BTreeSet::new();
    collect_binds(&region.root, &mut binds);
    let ghost bs = binds_of(region.root);
    assert(binds@ =~= bs);
    let n = region.n_inputs;
    // the least bound index at or above n_inputs: the set walks in ascending order
    let ghost walk = vstd::std_specs::iter::IteratorSpec::remaining(&vstd::std_specs::btree::spec_btree_keys_iter(&binds));
    let ghost ks = walk.unref();
    proof {
        assert(walk.unref().to_set() == binds@);
        lemma_u32_walk_increasing(walk);
        assert forall|i: int, j: int| 0 <= i < j < ks.len() implies ks[i] < ks[j] by {
            assert(ks[i] == *walk[i] && ks[j] == *walk[j]);
        }
    }
    let ghost mut seen: int = 0;
    for x in it: binds.iter()
        invariant
            n == region.n_inputs,
            bs == binds_of(region.root),
            binds@ == bs,
            it.seq().unref() == ks,
            ks.to_set() == bs,
            forall|i: int, j: int| 0 <= i < j < ks.len() ==> ks[i] < ks[j],
            seen == it.index(),
            forall|k: int| 0 <= k < seen ==> ks[k] < n,
    {
        if *x >= n {
            proof {
                let w = *x;
                assert(w == ks[seen]);
                assert forall|y: u32| bs.contains(y) && y >= n implies w <= y by {
                    assert(ks.to_set().contains(y));
                    let j = choose|j: int| 0 <= j < ks.len() && ks[j] == y;
                    if j < seen {
                        assert(ks[j] < n);
                    } else if j > seen {
                        assert(ks[seen] < ks[j]);
                    }
                }
                assert(ks.to_set().contains(w));
                assert(bs.contains(w) && w >= n);
                assert(exists|x: u32| bs.contains(x) && x >= n);
                let c = choose|c: u32| bs.contains(c) && c >= n && forall|y: u32| bs.contains(y) && y >= n ==> c <= y;
                assert(c == w);
            }
            return Err(Decline::BindIndexOutOfRange { index: *x, n_inputs: n });
        }
        proof {
            seen = seen + 1;
        }
    }
    assert(seen == ks.len());
    assert forall|y: u32| bs.contains(y) implies y < n by {
        assert(ks.to_set().contains(y));
        let k = choose|k: int| 0 <= k < ks.len() && ks[k] == y;
    }
    let mut j: u32 = 0;
    while j < n
        invariant
            j <= n,
            n == region.n_inputs,
            bs == binds_of(region.root),
            binds@ == bs,
            forall|y: u32| bs.contains(y) ==> y < n,
            forall|m: u32| m < j ==> bs.contains(m),
        decreases n - j,
    {
        if !binds.contains(&j) {
            proof {
                let jj = j;
                assert(jj < n && !bs.contains(jj) && forall|m: u32| m < jj ==> bs.contains(m));
                let x = choose|i: u32| i < n && !bs.contains(i) && forall|j: u32| j < i ==> bs.contains(j);
                assert(x == jj) by {
                    if x < jj {
                        assert(bs.contains(x));
                    } else if x > jj {
                        assert(bs.contains(jj));
                    }
                }
            }
            return Err(Decline::BindSetMismatch { declared: n, unbound: j });
        }
        j += 1;
    }
    let mut b = Builder { records: Vec::new(), keys: Vec::new() };
    assert(b.table() =~= (Seq::<Seq<u8>>::empty(), Seq::<Seq<u8>>::empty()));
    let _ = b.visit(&region.root, true);
    let ghost recs = vvec_view(b.records@);
    let mut out: Vec<u8> = Vec::new();
    crate::wire::push_all(&mut out, &MAGIC);
    crate::wire::push_u16_le(&mut out, SCHEMA_VERSION);
    crate::wire::push_u32_le(&mut out, n);
    push_token(&mut out, region.ops_version.as_str());
    push_token(&mut out, region.classify_version.as_str());
    crate::wire::push_u32_le(&mut out, ((b.records.len() as u64) % 0x1_0000_0000) as u32);
    let ghost head = out@;
    let mut m: usize = 0;
    while m < b.records.len()
        invariant
            m <= b.records@.len(),
            recs == vvec_view(b.records@),
            out@ == head + concat_records(recs.take(m as int)),
        decreases b.records.len() - m,
    {
        assert(recs[m as int] == b.records@[m as int]@);
        crate::wire::push_all(&mut out, b.records[m].as_slice());
        assert(recs.take(m + 1).drop_last() == recs.take(m as int));
        m += 1;
    }
    assert(recs.take(recs.len() as int) == recs);
    // extracts, ascending by (param_slot, path)
    let ex = &region.extracts;
    let mut keyed: Vec<(usize, Vec<u8>)> = Vec::new();
    let mut q: usize = 0;
    let ghost want = Seq::new(ex@.len(), |i: int| (i as usize, extract_key(ex@[i])));
    while q < ex.len()
        invariant
            q <= ex@.len(),
            want == Seq::new(ex@.len(), |i: int| (i as usize, extract_key(ex@[i]))),
            crate::expressibility::pairs_view(keyed@) == want.take(q as int),
        decreases ex.len() - q,
    {
        let k = extract_sort_key(&ex[q]);
        let ghost pv = crate::expressibility::pairs_view(keyed@);
        keyed.push((q, k));
        assert(crate::expressibility::pairs_view(keyed@) =~= pv.push((q, k@)));
        assert(want.take(q + 1) =~= want.take(q as int).push(want[q as int]));
        q += 1;
    }
    assert(want.take(ex@.len() as int) =~= want);
    let order = crate::expressibility::sort_pairs(keyed);
    let ghost ov = crate::expressibility::pairs_view(order@);
    proof {
        lemma_sort_keeps_positions(want);
    }
    crate::wire::push_u16_le(&mut out, (ex.len() % 0x1_0000) as u16);
    let ghost head2 = out@;
    let mut t: usize = 0;
    while t < order.len()
        invariant
            t <= order@.len(),
            ov == crate::expressibility::pairs_view(order@),
            ov == extract_order(ex@),
            forall|z: int| 0 <= z < ov.len() ==> (#[trigger] ov[z]).0 < ex@.len(),
            out@ == head2 + extract_records(ex@, ov.take(t as int)),
        decreases order.len() - t,
    {
        assert(ov[t as int].0 == order@[t as int].0);
        let pos = order[t].0;
        push_extract(&mut out, &ex[pos]);
        assert(ov.take(t + 1).drop_last() == ov.take(t as int));
        t += 1;
    }
    assert(ov.take(ov.len() as int) == ov);
    Ok(out)
}


pub(crate) proof fn lemma_sort_keeps_positions(want: Seq<(usize, Seq<u8>)>)
    requires
        forall|i: int| 0 <= i < want.len() ==> (#[trigger] want[i]).0 == i,
    ensures
        forall|z: int| 0 <= z < crate::expressibility::sort_by_key(want).len() ==> (#[trigger] crate::expressibility::sort_by_key(want)[z]).0 < want.len(),
{
    crate::expressibility::lemma_sort_members(want);
    assert forall|z: int| 0 <= z < crate::expressibility::sort_by_key(want).len() implies (#[trigger] crate::expressibility::sort_by_key(want)[z]).0 < want.len() by {
        let e = crate::expressibility::sort_by_key(want)[z];
        assert(want.contains(e));
        let k = choose|k: int| 0 <= k < want.len() && want[k] == e;
    }
}


// ---------------------------------------------------------------------------
// The golden region vectors.
// ---------------------------------------------------------------------------

/// An op node with the given name, empty OpAttrs, all-default roles and `k`
/// operands.
pub open spec fn op_shape(n: Node, name: Seq<char>, k: nat) -> bool {
    n matches Node::Op { op_name, opattrs, roles, operands } && op_name@ == name && opattrs@.len() == 0
        && roles@.len() == 0 && operands@.len() == k
}

pub open spec fn operands_of(n: Node) -> Seq<Node> {
    match n {
        Node::Op { operands, .. } => operands@,
        Node::Bind(_) => seq![],
    }
}

/// The header of the golden vectors: the given arity, versions `1` and `1`,
/// no extracts.
pub open spec fn golden_header(r: Region, n_inputs: u32) -> bool {
    r.n_inputs == n_inputs && r.ops_version@ == "1"@ && r.classify_version@ == "1"@ && r.extracts@.len() == 0
}

/// G1: `out = (a * b) + c` — three inputs, root `add` over an interior `mul`.
pub open spec fn is_g1(r: Region) -> bool {
    &&& golden_header(r, 3)
    &&& op_shape(r.root, "add"@, 2)
    &&& op_shape(operands_of(r.root)[0], "mul"@, 2)
    &&& operands_of(operands_of(r.root)[0])[0] == Node::Bind(0)
    &&& operands_of(operands_of(r.root)[0])[1] == Node::Bind(1)
    &&& operands_of(r.root)[1] == Node::Bind(2)
}

/// G4: `out = a + a` — one input bound twice.
pub open spec fn is_g4(r: Region) -> bool {
    &&& golden_header(r, 1)
    &&& op_shape(r.root, "add"@, 2)
    &&& operands_of(r.root)[0] == Node::Bind(0)
    &&& operands_of(r.root)[1] == Node::Bind(0)
}

/// The golden vector G1, the three-input elementwise fusion `out = (a * b) + c`.
pub fn g1_region() -> (r: Region)
    ensures
        is_g1(r),
{
    let mul = Node::op("mul", vec![Node::Bind(0), Node::Bind(1)]);
    let root = Node::op("add", vec![mul, Node::Bind(2)]);
    Region::new(3, "1", "1", root)
}

/// The golden vector G4, the repeated-bind / structural-dedup vector
/// `out = a + a`.
pub fn g4_region() -> (r: Region)
    ensures
        is_g4(r),
{
    Region::new(1, "1", "1", Node::op("add", vec![Node::Bind(0), Node::Bind(0)]))
}

/// The golden region vectors this codec renders, as `(id, description,
/// region)`: G1 and G4.
pub fn golden_regions() -> (v: Vec<(&'static str, &'static str, Region)>)
    ensures
        v@.len() == 2,
        v@[0].0@ == "G1"@ && is_g1(v@[0].2),
        v@[1].0@ == "G4"@ && is_g4(v@[1].2),
{
    let mut v: Vec<(&'static str, &'static str, Region)> = Vec::new();
    v.push(("G1", "three-input elementwise fusion (§2.3), out = (a * b) + c", g1_region()));
    v.push(("G4", "repeated-bind / structural dedup, out = a + a", g4_region()));
    v
}

// ---------------------------------------------------------------------------
// The vectors the grammar document's Appendix A declares.
// ---------------------------------------------------------------------------

/// Why the declared-vector reading found nothing to report.
#[derive(Debug, Clone, Copy, PartialEq, Eq, Structural)]
pub enum AppendixDecline {
    /// The document has no `## Appendix A` heading.
    NoAppendix,
    /// Appendix A holds no `*Vector <id>` heading: a broken reading, never
    /// "nothing is declared".
    NoVectors,
}

/// The first position at or after `i` where `pat` occurs in `s`.
pub open spec fn find_from(s: Seq<char>, pat: Seq<char>, i: int) -> Option<int>
    decreases s.len() + 1 - i,
{
    if i < 0 || i + pat.len() > s.len() {
        None
    } else if s.subrange(i, i + pat.len()) == pat {
        Some(i)
    } else {
        find_from(s, pat, i + 1)
    }
}

/// An ASCII letter or digit.
pub open spec fn ascii_alnum(c: char) -> bool {
    ('0' <= c && c <= '9') || ('a' <= c && c <= 'z') || ('A' <= c && c <= 'Z')
}

/// The length of the run of ASCII letters and digits that starts `t`.
pub open spec fn alnum_run(t: Seq<char>) -> nat
    decreases t.len(),
{
    if t.len() > 0 && ascii_alnum(t[0]) {
        1 + alnum_run(t.drop_first())
    } else {
        0
    }
}

/// The ids after each `*Vector ` in `rem`, in order, each kept once.
pub open spec fn collect_vector_ids(rem: Seq<char>, out: Seq<Seq<char>>) -> Seq<Seq<char>>
    decreases rem.len(),
{
    match find_from(rem, "*Vector "@, 0) {
        None => out,
        Some(i) => {
            let tail = if 0 <= i && i + 8 <= rem.len() { rem.skip(i + 8) } else { seq![] };
            let id = tail.take(alnum_run(tail) as int);
            let out2 = if id.len() > 0 && !out.contains(id) { out.push(id) } else { out };
            if tail.len() < rem.len() {
                collect_vector_ids(tail, out2)
            } else {
                out2
            }
        },
    }
}

/// Appendix A of the grammar document: from its `## Appendix A` heading to
/// the next `\n## ` heading (or the end).
pub open spec fn appendix_a(doc: Seq<char>) -> Option<Seq<char>> {
    match find_from(doc, "## Appendix A"@, 0) {
        None => None,
        Some(start) => {
            let rest = doc.skip(start);
            match find_from(rest, "\n## "@, 0) {
                Some(end) => Some(rest.take(end)),
                None => Some(rest),
            }
        },
    }
}

/// The declared vector ids of a grammar document.
pub open spec fn declared_vectors_of(doc: Seq<char>) -> Result<Seq<Seq<char>>, AppendixDecline> {
    match appendix_a(doc) {
        None => Err(AppendixDecline::NoAppendix),
        Some(a) => if collect_vector_ids(a, seq![]).len() == 0 {
            Err(AppendixDecline::NoVectors)
        } else {
            Ok(collect_vector_ids(a, seq![]))
        },
    }
}

pub(crate) proof fn lemma_find_from_bound(s: Seq<char>, pat: Seq<char>, i: int)
    ensures
        find_from(s, pat, i) matches Some(j) ==> i <= j && 0 <= j && j + pat.len() <= s.len() && s.subrange(
            j,
            j + pat.len(),
        ) == pat,
    decreases s.len() + 1 - i,
{
    if !(i < 0 || i + pat.len() > s.len()) && s.subrange(i, i + pat.len()) != pat {
        lemma_find_from_bound(s, pat, i + 1);
    }
}

/// The first occurrence of `pat` in `s` at or after `i`.
pub(crate) fn find_exec(s: &[char], pat: &[char], i: usize) -> (r: Option<usize>)
    ensures
        match find_from(s@, pat@, i as int) {
            Some(j) => r matches Some(x) && x as int == j,
            None => r is None,
        },
{
    let n: usize = s.len();
    let mut k: usize = i;
    while k <= n && pat.len() <= n - k
        invariant
            n == s@.len(),
            i <= k,
            find_from(s@, pat@, k as int) == find_from(s@, pat@, i as int),
        decreases s.len() + 1 - k,
    {
        let mut m: usize = 0;
        while m < pat.len()
            invariant
                m <= pat@.len(),
                n == s@.len(),
                k + pat@.len() <= n,
                forall|z: int| 0 <= z < m ==> s@[k + z] == pat@[z],
            ensures
                m <= pat@.len(),
                forall|z: int| 0 <= z < m ==> s@[k + z] == pat@[z],
                m < pat@.len() ==> s@[k + m] != pat@[m as int],
            decreases pat@.len() - m,
        {
            assert(k + m < s@.len());
            if s[k + m] != pat[m] {
                break;
            }
            m += 1;
        }
        if m == pat.len() {
            assert(s@.subrange(k as int, k + pat@.len()) =~= pat@);
            return Some(k);
        }
        assert(s@.subrange(k as int, k + pat@.len()) != pat@) by {
            assert(s@.subrange(k as int, k + pat@.len())[m as int] == s@[k + m]);
        }
        k += 1;
    }
    None
}

proof fn lemma_alnum_run_bound(t: Seq<char>)
    ensures
        alnum_run(t) <= t.len(),
        forall|z: int| 0 <= z < alnum_run(t) ==> ascii_alnum(#[trigger] t[z]),
        alnum_run(t) < t.len() ==> !ascii_alnum(t[alnum_run(t) as int]),
    decreases t.len(),
{
    if t.len() > 0 && ascii_alnum(t[0]) {
        lemma_alnum_run_bound(t.drop_first());
        assert forall|z: int| 0 <= z < alnum_run(t) implies ascii_alnum(#[trigger] t[z]) by {
            if z > 0 {
                assert(t[z] == t.drop_first()[z - 1]);
            }
        }
    }
}

proof fn lemma_alnum_run_skip(t: Seq<char>, k: int)
    requires
        0 <= k <= t.len(),
        forall|z: int| 0 <= z < k ==> ascii_alnum(#[trigger] t[z]),
    ensures
        alnum_run(t) == k + alnum_run(t.skip(k)),
    decreases k,
{
    if k > 0 {
        assert(t.skip(1) =~= t.drop_first());
        lemma_alnum_run_skip(t.drop_first(), k - 1);
        assert(t.drop_first().skip(k - 1) =~= t.skip(k));
    } else {
        assert(t.skip(0) =~= t);
    }
}

fn is_ascii_alnum(c: char) -> (r: bool)
    ensures
        r == ascii_alnum(c),
{
    ('0' <= c && c <= '9') || ('a' <= c && c <= 'z') || ('A' <= c && c <= 'Z')
}

fn contains_id(out: &Vec<Vec<char>>, id: &Vec<char>) -> (r: bool)
    ensures
        r == crate::grammar::chars_vv_view(out@).contains(id@),
{
    let ghost ov = chars_vv_view(out@);
    let mut i: usize = 0;
    while i < out.len()
        invariant
            i <= out@.len(),
            ov == chars_vv_view(out@),
            ov.len() == out@.len(),
            forall|z: int| 0 <= z < out@.len() ==> ov[z] == (#[trigger] out@[z])@,
            forall|z: int| 0 <= z < i ==> ov[z] != id@,
        decreases out@.len() - i,
    {
        let a = &out[i];
        let mut same = a.len() == id.len();
        if same {
            let mut j: usize = 0;
            while j < a.len()
                invariant
                    j <= a@.len() == id@.len(),
                    same == forall|z: int| 0 <= z < j ==> a@[z] == id@[z],
                decreases a@.len() - j,
            {
                if a[j] != id[j] {
                    same = false;
                }
                j += 1;
            }
            if same {
                assert(a@ =~= id@);
            }
        }
        if same {
            assert(ov[i as int] == id@);
            return true;
        }
        assert(ov[i as int] != id@) by {
            if a@.len() == id@.len() {
                let z = choose|z: int| 0 <= z < a@.len() && a@[z] != id@[z];
            }
        }
        i += 1;
    }
    false
}

/// The views of a vector of character vectors.
pub open spec fn chars_vv_view(v: Seq<Vec<char>>) -> Seq<Seq<char>> {
    Seq::new(v.len(), |i: int| v[i]@)
}

/// Every golden region vector Appendix A of the grammar document declares,
/// read from the appendix itself: the id after each `*Vector ` heading, in
/// order, once each.
pub fn declared_appendix_vectors(grammar_spec: &str) -> (r: Result<Vec<String>, AppendixDecline>)
    ensures
        match declared_vectors_of(grammar_spec@) {
            Ok(ids) => r matches Ok(v) && v@.len() == ids.len() && forall|i: int| 0 <= i < ids.len() ==> (
            #[trigger] v@[i])@ == ids[i],
            Err(d) => r == Err::<Vec<String>, AppendixDecline>(d),
        },
{
    let doc = crate::text::chars_of(grammar_spec);
    let head: Vec<char> = crate::text::chars_of("## Appendix A");
    let start = match find_exec(doc.as_slice(), head.as_slice(), 0) {
        Some(i) => i,
        None => {
            return Err(AppendixDecline::NoAppendix);
        },
    };
    proof {
        lemma_find_from_bound(doc@, head@, 0);
    }
    let rest = crate::text::chars_skip(doc.as_slice(), start);
    let next: Vec<char> = crate::text::chars_of("\n## ");
    let end = match find_exec(rest.as_slice(), next.as_slice(), 0) {
        Some(e) => e,
        None => rest.len(),
    };
    proof {
        lemma_find_from_bound(rest@, next@, 0);
    }
    let mut app: Vec<char> = Vec::new();
    let mut k: usize = 0;
    while k < end
        invariant
            k <= end <= rest@.len(),
            app@ == rest@.take(k as int),
        decreases end - k,
    {
        app.push(rest[k]);
        k += 1;
        assert(rest@.take(k as int) =~= rest@.take(k - 1).push(rest@[k - 1]));
    }
    let ghost a = app@;
    proof {
        if end == rest@.len() {
            assert(rest@.take(end as int) =~= rest@);
        }
        assert(head@ == "## Appendix A"@);
        assert(doc@ == grammar_spec@);
        assert(find_from(doc@, head@, 0) == Some(start as int));
        assert(find_from(grammar_spec@, "## Appendix A"@, 0) == Some(start as int));
        assert(rest@ == grammar_spec@.skip(start as int));
        assert(appendix_a(grammar_spec@) == Some(a));
    }
    let pat: Vec<char> = crate::text::chars_of("*Vector ");
    proof {
        reveal_strlit("*Vector ");
        assert(pat@.len() == 8);
    }
    let mut out: Vec<Vec<char>> = Vec::new();
    let mut pos: usize = 0;
    proof {
        assert(a.skip(0) =~= a);
        assert(chars_vv_view(out@) =~= Seq::<Seq<char>>::empty());
    }
    loop
        invariant
            app@ == a,
            pat@ == "*Vector "@,
            pat@.len() == 8,
            pos <= a.len(),
            collect_vector_ids(a.skip(pos as int), chars_vv_view(out@)) == collect_vector_ids(a, seq![]),
        ensures
            chars_vv_view(out@) == collect_vector_ids(a, seq![]),
        decreases a.len() - pos,
    {
        let rem = crate::text::chars_skip(app.as_slice(), pos);
        let i = match find_exec(rem.as_slice(), pat.as_slice(), 0) {
            Some(i) => i,
            None => {
                break;
            },
        };
        proof {
            lemma_find_from_bound(rem@, pat@, 0);
            assert(rem@.len() == a.len() - pos);
            assert(pos + i + 8 <= a.len());
            assert(a.len() == app.len());
        }
        let t0: usize = pos + i + 8;
        let mut j: usize = t0;
        while j < app.len() && is_ascii_alnum(app[j])
            invariant
                t0 <= j <= app@.len(),
                forall|z: int| t0 <= z < j ==> ascii_alnum(#[trigger] app@[z]),
            decreases app@.len() - j,
        {
            j += 1;
        }
        let ghost tail = rem@.skip(i + 8);
        proof {
            assert(tail =~= a.skip(t0 as int));
            lemma_alnum_run_bound(tail);
            lemma_alnum_run_skip(tail, (j - t0) as int);
            assert(tail.skip((j - t0) as int) =~= a.skip(j as int));
            if j < a.len() {
                lemma_alnum_run_bound(a.skip(j as int));
                assert(a.skip(j as int)[0] == a[j as int]);
            }
            assert(alnum_run(tail) == j - t0);
        }
        let mut id: Vec<char> = Vec::new();
        let mut q: usize = t0;
        while q < j
            invariant
                t0 <= q <= j <= app@.len(),
                id@ == app@.subrange(t0 as int, q as int),
            decreases j - q,
        {
            id.push(app[q]);
            q += 1;
            assert(app@.subrange(t0 as int, q as int) =~= app@.subrange(t0 as int, q - 1).push(app@[q - 1]));
        }
        proof {
            assert(id@ =~= tail.take(alnum_run(tail) as int));
        }
        let ghost before = chars_vv_view(out@);
        if id.len() > 0 && !contains_id(&out, &id) {
            out.push(id);
            proof {
                assert(chars_vv_view(out@) =~= before.push(tail.take(alnum_run(tail) as int)));
            }
        }
        pos = t0;
    }
    let ghost ids = collect_vector_ids(a, seq![]);
    if out.len() == 0 {
        return Err(AppendixDecline::NoVectors);
    }
    let mut res: Vec<String> = Vec::new();
    let mut z: usize = 0;
    while z < out.len()
        invariant
            z <= out@.len(),
            chars_vv_view(out@) == ids,
            res@.len() == z,
            forall|y: int| 0 <= y < z ==> (#[trigger] res@[y])@ == ids[y],
        decreases out@.len() - z,
    {
        res.push(crate::text::string_of(out[z].as_slice()));
        proof {
            assert(chars_vv_view(out@)[z as int] == out@[z as int]@);
        }
        z += 1;
    }
    Ok(res)
}

} // verus!
