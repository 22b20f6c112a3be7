//! Per-output determinism class by full-sub-DAG propagation. For a multi-output
//! op each output's class is the class of the sub-DAG that transitively produces
//! it:
//!
//!   * a **value** output takes the most-permissive class over its producing
//!     sub-DAG — exact-byte only if that whole sub-DAG is exact-byte;
//!   * a **selection** output (one reporting which value won a comparison) is
//!     exact-byte iff its sub-DAG is entirely exact-byte, else order-invariant —
//!     never ULP/tolerance, since a small perturbation of a compared value can
//!     relocate the selection without bound.

use vstd::prelude::*;
use crate::DeterminismClass;
use crate::determinism::{
    atom_class, atom_determinism_class, class_permissiveness, is_selection_producer, rank,
    COMPARISON_ATOMS,
};
use crate::structure_key::in_table;

verus! {

/// A node in an op's reference-decomposition DAG. `local_class` is the node's
/// own class; `inputs` are the indices of the nodes whose outputs it consumes
/// (strictly-earlier indices: the DAG is topologically ordered);
/// `is_selection` marks a node that reports which value won a comparison.
#[derive(Debug, Clone)]
pub struct RecipeNode {
    pub local_class: DeterminismClass,
    pub inputs: Vec<usize>,
    pub is_selection: bool,
}

fn copy_indices(v: &[usize]) -> (out: Vec<usize>)
    ensures
        out@ == v@,
{
    let mut out: Vec<usize> = Vec::new();
    let mut i: usize = 0;
    while i < v.len()
        invariant
            i <= v.len(),
            out@ == v@.take(i as int),
        decreases v.len() - i,
    {
        out.push(v[i]);
        i += 1;
        assert(v@.take(i as int) == v@.take(i - 1).push(v@[i - 1]));
    }
    assert(v@.take(v.len() as int) == v@);
    out
}

impl RecipeNode {
    /// A value node (not a selection) with the given local class and inputs.
    pub fn value(local_class: DeterminismClass, inputs: &[usize]) -> (n: RecipeNode)
        ensures
            n.local_class == local_class,
            n.inputs@ == inputs@,
            !n.is_selection,
    {
        RecipeNode { local_class, inputs: copy_indices(inputs), is_selection: false }
    }

    /// A selection node over `inputs`. Its own local class is exact-byte (the
    /// index arithmetic is deterministic); the class of its output is decided by
    /// `output_class` from the values it consumes.
    pub fn selection(inputs: &[usize]) -> (n: RecipeNode)
        ensures
            n.local_class == DeterminismClass::ExactByte,
            n.inputs@ == inputs@,
            n.is_selection,
    {
        RecipeNode { local_class: DeterminismClass::ExactByte, inputs: copy_indices(inputs), is_selection: true }
    }

    /// A node built from a scalar-atom op token: the local class is the atom's
    /// class and the node is a selection exactly when the op is a comparison.
    /// `op` must be a scalar atom; a fold or a leaf is built with `value`.
    pub fn from_op(op: &str, inputs: &[usize]) -> (n: RecipeNode)
        requires
            atom_class(op@) is Some,
        ensures
            Some(n.local_class) == atom_class(op@),
            n.inputs@ == inputs@,
            n.is_selection == in_table(COMPARISON_ATOMS@, op@),
    {
        let local_class = match atom_determinism_class(op) {
            Some(c) => c,
            None => DeterminismClass::ExactByte,
        };
        RecipeNode { local_class, inputs: copy_indices(inputs), is_selection: is_selection_producer(op) }
    }
}

/// Every input of every node names a strictly earlier node.
pub open spec fn dag_ok(nodes: Seq<RecipeNode>) -> bool {
    forall|i: int, j: int|
        0 <= i < nodes.len() && 0 <= j < nodes[i].inputs@.len() ==> #[trigger] nodes[i].inputs@[j] < i
}

pub open spec fn max_nat(a: nat, b: nat) -> nat {
    if a >= b { a } else { b }
}

/// The permissiveness rank of the sub-DAG producing node `v`: the largest rank
/// of `v`'s local class and of the sub-DAGs of everything it consumes.
pub open spec fn subdag_rank(nodes: Seq<RecipeNode>, v: int) -> nat
    decreases v, nodes[v].inputs@.len() + 1,
{
    max_nat(rank(nodes[v].local_class) as nat, inputs_rank(nodes, v, nodes[v].inputs@.len() as int))
}

/// The largest sub-DAG rank over the first `k` inputs of node `v`.
pub open spec fn inputs_rank(nodes: Seq<RecipeNode>, v: int, k: int) -> nat
    decreases v, k,
{
    if k <= 0 || k > nodes[v].inputs@.len() {
        0
    } else {
        let u = nodes[v].inputs@[k - 1] as int;
        if u < v {
            max_nat(inputs_rank(nodes, v, k - 1), subdag_rank(nodes, u))
        } else {
            inputs_rank(nodes, v, k - 1)
        }
    }
}

/// The class with a given permissiveness rank.
pub open spec fn class_of_rank(r: nat) -> DeterminismClass {
    if r == 0 {
        DeterminismClass::ExactByte
    } else if r == 1 {
        DeterminismClass::UlpTolerance
    } else {
        DeterminismClass::OrderInvariant
    }
}

/// The most-permissive class over the sub-DAG producing `root`.
pub open spec fn subdag_class(nodes: Seq<RecipeNode>, root: int) -> DeterminismClass {
    class_of_rank(subdag_rank(nodes, root))
}

/// The class of the output at `root`: the sub-DAG class, escalated to
/// order-invariant for a selection over anything not exact-byte.
pub open spec fn output_class_of(nodes: Seq<RecipeNode>, root: int) -> DeterminismClass {
    let join = subdag_class(nodes, root);
    if nodes[root].is_selection && join != DeterminismClass::ExactByte {
        DeterminismClass::OrderInvariant
    } else {
        join
    }
}

proof fn lemma_inputs_rank_bound(nodes: Seq<RecipeNode>, v: int, k: int)
    requires
        0 <= v < nodes.len(),
        dag_ok(nodes),
    ensures
        inputs_rank(nodes, v, k) <= 2,
    decreases v, k,
{
    if 0 < k <= nodes[v].inputs@.len() {
        lemma_inputs_rank_bound(nodes, v, k - 1);
        let u = nodes[v].inputs@[k - 1] as int;
        if u < v {
            lemma_inputs_rank_bound(nodes, u, nodes[u].inputs@.len() as int);
            assert(rank(nodes[u].local_class) <= 2);
            assert(subdag_rank(nodes, u) <= 2);
        }
        assert(inputs_rank(nodes, v, k - 1) <= 2);
    }
}

/// The rank of the sub-DAG producing each of the nodes `0..=root`, computed in
/// topological order.
fn subdag_ranks(nodes: &[RecipeNode], root: usize) -> (ranks: Vec<u8>)
    requires
        root < nodes@.len(),
        dag_ok(nodes@),
    ensures
        ranks@.len() == root + 1,
        forall|k: int| 0 <= k <= root ==> ranks@[k] as nat == subdag_rank(nodes@, k),
{
    let mut ranks: Vec<u8> = Vec::new();
    let mut i: usize = 0;
    while i <= root
        invariant
            root < nodes@.len(),
            dag_ok(nodes@),
            i <= root + 1,
            ranks@.len() == i,
            forall|k: int| 0 <= k < i ==> ranks@[k] as nat == subdag_rank(nodes@, k),
        decreases root + 1 - i,
    {
        let node = &nodes[i];
        let mut r: u8 = class_permissiveness(node.local_class);
        let mut j: usize = 0;
        while j < node.inputs.len()
            invariant
                i < nodes@.len(),
                *node == nodes@[i as int],
                dag_ok(nodes@),
                ranks@.len() == i,
                forall|k: int| 0 <= k < i ==> ranks@[k] as nat == subdag_rank(nodes@, k),
                j <= node.inputs@.len(),
                r as nat == max_nat(rank(node.local_class) as nat, inputs_rank(nodes@, i as int, j as int)),
            decreases node.inputs.len() - j,
        {
            let u = node.inputs[j];
            assert(u < i) by {
                assert(nodes@[i as int].inputs@[j as int] < i);
            }
            let ru = ranks[u];
            if ru > r {
                r = ru;
            }
            j += 1;
        }
        ranks.push(r);
        i += 1;
    }
    ranks
}

/// The per-output determinism class of the output at `root`: a value output is
/// the most-permissive class over its producing sub-DAG; a selection output is
/// exact-byte iff that sub-DAG is all exact-byte, else order-invariant — never
/// ULP/tolerance. The DAG must be topologically ordered with `root` a node.
pub fn output_class(nodes: &[RecipeNode], root: usize) -> (c: DeterminismClass)
    requires
        root < nodes@.len(),
        dag_ok(nodes@),
    ensures
        c == output_class_of(nodes@, root as int),
        nodes@[root as int].is_selection ==> c != DeterminismClass::UlpTolerance,
{
    let ranks = subdag_ranks(nodes, root);
    let r = ranks[root];
    proof {
        lemma_inputs_rank_bound(nodes@, root as int, nodes@[root as int].inputs@.len() as int);
    }
    let join = if r == 0 {
        DeterminismClass::ExactByte
    } else if r == 1 {
        DeterminismClass::UlpTolerance
    } else {
        DeterminismClass::OrderInvariant
    };
    if nodes[root].is_selection && join != DeterminismClass::ExactByte {
        DeterminismClass::OrderInvariant
    } else {
        join
    }
}

/// A node's sub-DAG is at least as permissive as its own local class and as
/// the sub-DAG of every node it consumes: a non-exact producer anywhere below
/// an output keeps that output from being exact-byte.
pub proof fn subdag_dominates_inputs(nodes: Seq<RecipeNode>, v: int, j: int)
    requires
        dag_ok(nodes),
        0 <= v < nodes.len(),
        0 <= j < nodes[v].inputs@.len(),
    ensures
        rank(nodes[v].local_class) <= subdag_rank(nodes, v),
        subdag_rank(nodes, nodes[v].inputs@[j] as int) <= subdag_rank(nodes, v),
{
    lemma_input_in_rank(nodes, v, nodes[v].inputs@.len() as int, j);
}

proof fn lemma_input_in_rank(nodes: Seq<RecipeNode>, v: int, k: int, j: int)
    requires
        dag_ok(nodes),
        0 <= v < nodes.len(),
        0 <= j < k <= nodes[v].inputs@.len(),
    ensures
        subdag_rank(nodes, nodes[v].inputs@[j] as int) <= inputs_rank(nodes, v, k),
    decreases k,
{
    assert(nodes[v].inputs@[k - 1] < v);
    if j < k - 1 {
        lemma_input_in_rank(nodes, v, k - 1, j);
    }
}

} // verus!
