//! The arena that holds the computation graph, and the handle type through
//! which nodes are read and mutated.
//!
//! A node's identity is its slot index in the arena; identities are unique,
//! monotonically assigned, and never reused. Operand edges always point at
//! strictly earlier slots, so the graph is a DAG by construction.

use vstd::prelude::*;

use crate::node::{op_of_rule, rule_arity, Node, NodeModel, Op, Rule};
use crate::scalar::{add_bits, add_of, ZERO_BITS};

verus! {

/// The arena of nodes. Its mathematical model is the sequence of node
/// models, in slot order.
pub struct Graph {
    nodes: Vec<Node>,
}

/// A handle on one node of a [`Graph`]: its slot index. Two handles are
/// equal exactly when they name the same slot; the scalar held by a node
/// plays no part in its identity, so two nodes built from identical data
/// are distinct.
#[derive(Clone, Copy, Debug, PartialEq, Eq, Structural, Hash)]
pub struct Value {
    idx: usize,
}

impl View for Graph {
    type V = Seq<NodeModel>;

    closed spec fn view(&self) -> Seq<NodeModel> {
        self.nodes@.map_values(|n: Node| n@)
    }
}

impl View for Value {
    type V = int;

    closed spec fn view(&self) -> int {
        self.idx as int
    }
}

/// Whether slot `i` of `s` is well formed: its operand count matches its
/// rule, and every operand edge points at a strictly earlier slot.
pub open spec fn node_wf(s: Seq<NodeModel>, i: int) -> bool {
    &&& s[i].prev.len() == rule_arity(s[i].rule)
    &&& forall|k: int| 0 <= k < s[i].prev.len() ==> 0 <= #[trigger] s[i].prev[k] < i
}

/// Whether every slot of `s` is well formed. This is the acyclicity
/// invariant: edges only ever point backwards.
pub open spec fn graph_wf(s: Seq<NodeModel>) -> bool {
    forall|i: int| 0 <= i < s.len() ==> #[trigger] node_wf(s, i)
}

/// Whether `s2` has the same length, operand edges and rules as `s1` (node
/// for node); the scalars and labels may differ.
pub open spec fn same_shape(s1: Seq<NodeModel>, s2: Seq<NodeModel>) -> bool {
    &&& s1.len() == s2.len()
    &&& forall|i: int|
        0 <= i < s1.len() ==> (#[trigger] s2[i]).prev == s1[i].prev && s2[i].rule == s1[i].rule
}

/// Well-formedness depends only on the shape of the graph.
pub proof fn lemma_wf_same_shape(s1: Seq<NodeModel>, s2: Seq<NodeModel>)
    requires
        graph_wf(s1),
        same_shape(s1, s2),
    ensures
        graph_wf(s2),
{
    assert forall|i: int| 0 <= i < s2.len() implies #[trigger] node_wf(s2, i) by {
        assert(node_wf(s1, i));
    }
}

/// Whether slot `to` is reachable from slot `from` by following operand
/// edges (every slot reaches itself).
pub open spec fn reaches(s: Seq<NodeModel>, from: int, to: int) -> bool
    decreases from,
    when graph_wf(s) && 0 <= from < s.len()
    via reaches_decreases
{
    ||| from == to
    ||| exists|k: int| 0 <= k < s[from].prev.len() && reaches(s, #[trigger] s[from].prev[k], to)
}

#[via_fn]
proof fn reaches_decreases(s: Seq<NodeModel>, from: int, to: int) {
    assert(node_wf(s, from));
}

/// The label a leaf is given at construction: the one asked for, or empty.
pub open spec fn label_view(label: Option<&str>) -> Seq<char> {
    match label {
        Some(s) => s@,
        None => Seq::empty(),
    }
}

impl Graph {
    /// An empty arena.
    pub fn new() -> (g: Graph)
        ensures
            g@ == Seq::<NodeModel>::empty(),
            g.wf(),
    {
        let g = Graph { nodes: Vec::new() };
        proof {
            assert(g@ =~= Seq::<NodeModel>::empty());
        }
        g
    }

    /// Whether the whole arena is well formed. Every function of this crate
    /// that grows or mutates a graph preserves this invariant.
    pub open spec fn wf(&self) -> bool {
        graph_wf(self@)
    }

    /// How many nodes the arena holds.
    pub fn len(&self) -> (n: usize)
        ensures
            n == self@.len(),
    {
        self.nodes.len()
    }
}

/// Appends a node to the arena. The caller supplies operand edges that point
/// into the existing arena and match the rule's arity, so well-formedness is
/// preserved.
pub(crate) fn push_node(g: &mut Graph, data: u64, label: String, prev: Vec<usize>, rule: Rule) -> (
    v: Value)
    requires
        old(g).wf(),
        prev@.len() == rule_arity(rule),
        forall|k: int| 0 <= k < prev@.len() ==> #[trigger] prev@[k] < old(g)@.len(),
    ensures
        final(g).wf(),
        v@ == old(g)@.len(),
        final(g)@ == old(g)@.push(
            NodeModel {
                data,
                grad: ZERO_BITS,
                label: label@,
                prev: prev@.map_values(|p: usize| p as int),
                rule,
            },
        ),
{
    let ghost old_view = g@;
    let idx = g.nodes.len();
    let node = Node { data, grad: ZERO_BITS, label, prev, rule };
    let ghost model = node@;
    g.nodes.push(node);
    proof {
        assert(g@ =~~= old_view.push(model));
        assert forall|i: int| 0 <= i < g@.len() implies #[trigger] node_wf(g@, i) by {
            if i < old_view.len() {
                assert(node_wf(old_view, i));
                assert(g@[i] == old_view[i]);
            } else {
                assert(g@[i] == model);
                assert forall|k: int| 0 <= k < model.prev.len() implies 0 <= #[trigger] model.prev[k]
                    < i by {
                    assert(model.prev[k] == prev@[k] as int);
                }
            }
        }
    }
    Value { idx }
}

/// A handle's index is never negative: it is a slot index.
pub broadcast proof fn lemma_value_index_nonneg(v: Value)
    ensures
        #[trigger] v@ >= 0,
{
}

/// The handle on slot `idx`.
pub(crate) fn mk_value(idx: usize) -> (v: Value)
    ensures
        v@ == idx as int,
{
    Value { idx }
}

/// Reads the rule of slot `i`.
pub(crate) fn rule_at(g: &Graph, i: usize) -> (r: Rule)
    requires
        i < g@.len(),
    ensures
        r == g@[i as int].rule,
{
    g.nodes[i].rule
}

/// Reads how many operand edges slot `i` carries.
pub(crate) fn prev_len_at(g: &Graph, i: usize) -> (n: usize)
    requires
        i < g@.len(),
    ensures
        n == g@[i as int].prev.len(),
{
    g.nodes[i].prev.len()
}

/// Reads the `k`-th operand edge of slot `i`.
pub(crate) fn prev_at(g: &Graph, i: usize, k: usize) -> (p: usize)
    requires
        i < g@.len(),
        k < g@[i as int].prev.len(),
    ensures
        p as int == g@[i as int].prev[k as int],
{
    g.nodes[i].prev[k]
}

impl Value {
    /// A fresh leaf holding `data`, with an optional diagnostic label. The
    /// leaf has no operands, no rule, and a zero gradient.
    pub fn new(g: &mut Graph, data: u64, label: Option<&str>) -> (v: Value)
        requires
            old(g).wf(),
        ensures
            final(g).wf(),
            v@ == old(g)@.len(),
            final(g)@ == old(g)@.push(
                NodeModel {
                    data,
                    grad: ZERO_BITS,
                    label: label_view(label),
                    prev: Seq::empty(),
                    rule: Rule::Leaf,
                },
            ),
    {
        let lab = match label {
            Some(s) => s.to_owned(),
            None => String::new(),
        };
        let v = push_node(g, data, lab, Vec::new(), Rule::Leaf);
        proof {
            assert(g@ =~~= old(g)@.push(
                NodeModel {
                    data,
                    grad: ZERO_BITS,
                    label: label_view(label),
                    prev: Seq::empty(),
                    rule: Rule::Leaf,
                },
            ));
        }
        v
    }

    /// The node's identity: its slot index.
    pub fn id(&self) -> (i: usize)
        ensures
            i == self@,
    {
        self.idx
    }

    /// Reads the node's scalar value.
    pub fn data(&self, g: &Graph) -> (d: u64)
        requires
            self@ < g@.len(),
        ensures
            d == g@[self@].data,
    {
        g.nodes[self.idx].data
    }

    /// Overwrites the node's scalar value; everything else is untouched.
    pub fn set_data(&self, g: &mut Graph, data: u64)
        requires
            self@ < old(g)@.len(),
        ensures
            final(g)@ == old(g)@.update(self@, NodeModel { data, ..old(g)@[self@] }),
            old(g).wf() ==> final(g).wf(),
    {
        let ghost old_view = g@;
        let node_ref = &mut g.nodes[self.idx];
        node_ref.data = data;
        proof {
            assert(g@ =~~= old_view.update(self@, NodeModel { data, ..old_view[self@] }));
            if graph_wf(old_view) {
                lemma_wf_same_shape(old_view, g@);
            }
        }
    }

    /// Reads the node's accumulated gradient.
    pub fn grad(&self, g: &Graph) -> (d: u64)
        requires
            self@ < g@.len(),
        ensures
            d == g@[self@].grad,
    {
        g.nodes[self.idx].grad
    }

    /// Overwrites the node's gradient; everything else is untouched.
    pub fn set_grad(&self, g: &mut Graph, grad: u64)
        requires
            self@ < old(g)@.len(),
        ensures
            final(g)@ == old(g)@.update(self@, old(g)@[self@].with_grad(grad)),
            old(g).wf() ==> final(g).wf(),
    {
        let ghost old_view = g@;
        let node_ref = &mut g.nodes[self.idx];
        node_ref.grad = grad;
        proof {
            assert(g@ =~~= old_view.update(self@, old_view[self@].with_grad(grad)));
            if graph_wf(old_view) {
                lemma_wf_same_shape(old_view, g@);
            }
        }
    }

    /// Resets the node's gradient to zero.
    pub fn zero_grad(&self, g: &mut Graph)
        requires
            self@ < old(g)@.len(),
        ensures
            final(g)@ == old(g)@.update(self@, old(g)@[self@].with_grad(ZERO_BITS)),
            old(g).wf() ==> final(g).wf(),
    {
        self.set_grad(g, ZERO_BITS);
    }

    /// Accumulates `delta` into the node's gradient: the new gradient is the
    /// old one plus `delta`. Contributions are only ever added, never
    /// overwritten.
    pub fn add_grad(&self, g: &mut Graph, delta: u64)
        requires
            self@ < old(g)@.len(),
        ensures
            final(g)@ == old(g)@.update(
                self@,
                old(g)@[self@].with_grad(add_of(old(g)@[self@].grad, delta)),
            ),
            old(g).wf() ==> final(g).wf(),
    {
        let cur = g.nodes[self.idx].grad;
        let sum = add_bits(cur, delta);
        self.set_grad(g, sum);
    }

    /// Reads the node's label.
    pub fn label(&self, g: &Graph) -> (l: String)
        requires
            self@ < g@.len(),
        ensures
            l@ == g@[self@].label,
    {
        let s: &String = &g.nodes[self.idx].label;
        s.clone()
    }

    /// Overwrites the node's label; everything else is untouched.
    pub fn set_label(&self, g: &mut Graph, label: &str)
        requires
            self@ < old(g)@.len(),
        ensures
            final(g)@ == old(g)@.update(self@, NodeModel { label: label@, ..old(g)@[self@] }),
            old(g).wf() ==> final(g).wf(),
    {
        let ghost old_view = g@;
        let node_ref = &mut g.nodes[self.idx];
        node_ref.label = label.to_owned();
        proof {
            assert(g@ =~~= old_view.update(self@, NodeModel { label: label@, ..old_view[self@] }));
            if graph_wf(old_view) {
                lemma_wf_same_shape(old_view, g@);
            }
        }
    }

    /// The node's operator tag: which operator produced it, or `None` for a
    /// leaf.
    pub fn op(&self, g: &Graph) -> (o: Option<Op>)
        requires
            self@ < g@.len(),
        ensures
            o == op_of_rule(g@[self@].rule),
    {
        match g.nodes[self.idx].rule {
            Rule::Leaf => None,
            Rule::AddRule => Some(Op::Add),
            Rule::SubRule => Some(Op::Sub),
            Rule::NegRule => Some(Op::Neg),
            Rule::MulRule { .. } => Some(Op::Mul),
            Rule::DivRule { .. } => Some(Op::Div),
            Rule::ReluRule { .. } => Some(Op::Relu),
            Rule::TanhRule { .. } => Some(Op::Tanh),
        }
    }

    /// A snapshot of the node's operand handles, in operand order; empty for
    /// a leaf.
    pub fn prev(&self, g: &Graph) -> (r: Vec<Value>)
        requires
            self@ < g@.len(),
        ensures
            r@.map_values(|v: Value| v@) == g@[self@].prev,
    {
        let n = g.nodes[self.idx].prev.len();
        let mut r: Vec<Value> = Vec::new();
        let mut k: usize = 0;
        while k < n
            invariant
                self@ < g@.len(),
                n == g@[self@].prev.len(),
                k <= n,
                r@.len() == k,
                forall|j: int| 0 <= j < k ==> #[trigger] r@[j]@ == g@[self@].prev[j],
            decreases n - k,
        {
            let p = g.nodes[self.idx].prev[k];
            r.push(Value { idx: p });
            k += 1;
        }
        proof {
            assert(r@.map_values(|v: Value| v@) =~= g@[self@].prev);
        }
        r
    }
}

} // verus!
