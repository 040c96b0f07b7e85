//! The topological sorter and the backward engine.
//!
//! `build_topo` walks the graph from a root in depth-first post order,
//! collapsing shared sub-expressions through a visited set, so that every
//! operand stands before every node that uses it. `backward` seeds the
//! root's gradient with one and replays the local gradient rules in the
//! reversed order, accumulating each node's contributions into its
//! operands' gradients. Both are proved equal to spec-level recursions
//! (`topo_spec`, `backward_spec`), so the whole pass is a function of the
//! graph alone.

use vstd::prelude::*;

use crate::graph::{graph_wf, mk_value, node_wf, prev_at, prev_len_at, reaches, rule_at, Graph,
    Value};
use crate::node::{contrib0, contrib1, rule_arity, NodeModel, Rule};
use crate::scalar::{add_of, div_bits, mul_bits, neg_bits, sub_bits, ONE_BITS, ZERO_BITS};

verus! {

broadcast use crate::graph::lemma_value_index_nonneg;

/// The state a depth-first walk carries: which slots it has finished or
/// entered, and the post order built so far.
#[verifier::ext_equal]
pub struct TopoState {
    pub visited: Set<int>,
    pub order: Seq<int>,
}

impl TopoState {
    /// The state a walk starts from.
    pub open spec fn init() -> TopoState {
        TopoState { visited: Set::empty(), order: Seq::empty() }
    }
}

/// One step of the walk: skip `i` if it was seen already, otherwise mark
/// it, walk its operands in order, and append `i` behind them.
pub open spec fn dfs_node(s: Seq<NodeModel>, i: int, st: TopoState) -> TopoState
    decreases i, 1int, 0int,
    when graph_wf(s) && 0 <= i < s.len()
    via dfs_node_decreases
{
    if st.visited.contains(i) {
        st
    } else {
        let entered = TopoState { visited: st.visited.insert(i), order: st.order };
        let walked = dfs_prevs(s, i, 0, entered);
        TopoState { visited: walked.visited, order: walked.order.push(i) }
    }
}

/// Walks the operands of `i` from position `k` on.
pub open spec fn dfs_prevs(s: Seq<NodeModel>, i: int, k: int, st: TopoState) -> TopoState
    decreases i, 0int, s[i].prev.len() - k,
    when graph_wf(s) && 0 <= i < s.len() && 0 <= k
    via dfs_prevs_decreases
{
    if k < s[i].prev.len() {
        dfs_prevs(s, i, k + 1, dfs_node(s, s[i].prev[k], st))
    } else {
        st
    }
}

#[via_fn]
proof fn dfs_node_decreases(s: Seq<NodeModel>, i: int, st: TopoState) {
    assert(node_wf(s, i));
}

#[via_fn]
proof fn dfs_prevs_decreases(s: Seq<NodeModel>, i: int, k: int, st: TopoState) {
    assert(node_wf(s, i));
}

/// The depth-first post order of the slots reachable from `root`: every
/// reachable slot exactly once, every operand before every node that uses
/// it.
pub open spec fn topo_spec(s: Seq<NodeModel>, root: int) -> Seq<int> {
    dfs_node(s, root, TopoState::init()).order
}

/// Accumulates `d` into the gradient of slot `j` (and is the identity on an
/// index outside the arena, which a well-formed graph never yields).
pub open spec fn bump(s: Seq<NodeModel>, j: int, d: u64) -> Seq<NodeModel> {
    if 0 <= j < s.len() {
        s.update(j, s[j].with_grad(add_of(s[j].grad, d)))
    } else {
        s
    }
}

/// One invocation of the rule of slot `i`: reads the slot's accumulated
/// gradient and adds the weighted contributions into its operands'
/// gradients, first operand first. A leaf changes nothing.
pub open spec fn apply_rule(s: Seq<NodeModel>, i: int) -> Seq<NodeModel> {
    let g = s[i].grad;
    let r = s[i].rule;
    if !(0 <= i < s.len()) {
        s
    } else if rule_arity(r) == 0 {
        s
    } else if rule_arity(r) == 1 {
        bump(s, s[i].prev[0], contrib0(r, g))
    } else {
        bump(bump(s, s[i].prev[0], contrib0(r, g)), s[i].prev[1], contrib1(r, g))
    }
}

/// Invokes the rules of `order`, left to right.
pub open spec fn run_rules(s: Seq<NodeModel>, order: Seq<int>) -> Seq<NodeModel>
    decreases order.len(),
{
    if order.len() == 0 {
        s
    } else {
        apply_rule(run_rules(s, order.drop_last()), order.last())
    }
}

/// The whole backward pass from `root`: seed the root's gradient with one,
/// then replay every reachable node's rule in reversed topological order.
pub open spec fn backward_spec(s: Seq<NodeModel>, root: int) -> Seq<NodeModel> {
    run_rules(s.update(root, s[root].with_grad(ONE_BITS)), topo_spec(s, root).reverse())
}

/// The slots marked in a visited vector.
pub open spec fn visited_set(vb: Seq<bool>) -> Set<int> {
    Set::new(|j: int| 0 <= j < vb.len() && vb[j])
}

/// The walk state a visited vector and an order vector stand for.
pub open spec fn to_state(vb: Seq<bool>, ord: Seq<usize>) -> TopoState {
    TopoState { visited: visited_set(vb), order: ord.map_values(|u: usize| u as int) }
}

/// The depth-first walk behind [`build_topo`], proved equal to `dfs_node`.
fn dfs(g: &Graph, i: usize, visited: &mut Vec<bool>, order: &mut Vec<usize>)
    requires
        g.wf(),
        i < g@.len(),
        old(visited)@.len() == g@.len(),
        forall|j: int| 0 <= j < old(order)@.len() ==> #[trigger] old(order)@[j] < g@.len(),
    ensures
        final(visited)@.len() == g@.len(),
        old(order)@.is_prefix_of(final(order)@),
        forall|j: int| 0 <= j < final(order)@.len() ==> #[trigger] final(order)@[j] < g@.len(),
        to_state(final(visited)@, final(order)@) == dfs_node(
            g@,
            i as int,
            to_state(old(visited)@, old(order)@),
        ),
    decreases i,
{
    let ghost st0 = to_state(old(visited)@, old(order)@);
    proof {
        assert(node_wf(g@, i as int));
    }
    if visited[i] {
        proof {
            assert(st0.visited.contains(i as int));
            assert(to_state(visited@, order@) == st0);
        }
        return ;
    }
    proof {
        assert(!st0.visited.contains(i as int));
    }
    let flag = &mut visited[i];
    *flag = true;
    let ghost st1 = TopoState { visited: st0.visited.insert(i as int), order: st0.order };
    proof {
        assert(to_state(visited@, order@) =~~= st1);
    }
    let n = prev_len_at(g, i);
    let mut k: usize = 0;
    while k < n
        invariant
            g.wf(),
            i < g@.len(),
            n == g@[i as int].prev.len(),
            k <= n,
            visited@.len() == g@.len(),
            old(order)@.is_prefix_of(order@),
            forall|j: int| 0 <= j < order@.len() ==> #[trigger] order@[j] < g@.len(),
            dfs_prevs(g@, i as int, k as int, to_state(visited@, order@)) == dfs_prevs(
                g@,
                i as int,
                0,
                st1,
            ),
        decreases n - k,
    {
        proof {
            assert(node_wf(g@, i as int));
        }
        let p = prev_at(g, i, k);
        let ghost st_before = to_state(visited@, order@);
        dfs(g, p, visited, order);
        proof {
            assert(old(order)@ =~= order@.take(old(order)@.len() as int));
            assert(dfs_prevs(g@, i as int, k as int, st_before) == dfs_prevs(
                g@,
                i as int,
                k + 1,
                dfs_node(g@, p as int, st_before),
            ));
        }
        k += 1;
    }
    let ghost st2 = to_state(visited@, order@);
    proof {
        assert(dfs_prevs(g@, i as int, n as int, st2) == st2);
        assert(st2 == dfs_prevs(g@, i as int, 0, st1));
    }
    order.push(i);
    proof {
        assert(to_state(visited@, order@) =~~= TopoState {
            visited: st2.visited,
            order: st2.order.push(i as int),
        });
        assert(to_state(visited@, order@) == dfs_node(g@, i as int, st0));
    }
}

/// The topological order of the slots reachable from `root`: the
/// depth-first post order `topo_spec` gives.
pub fn build_topo(g: &Graph, root: Value) -> (order: Vec<usize>)
    requires
        g.wf(),
        root@ < g@.len(),
    ensures
        order@.map_values(|u: usize| u as int) == topo_spec(g@, root@),
        forall|j: int| 0 <= j < order@.len() ==> #[trigger] order@[j] < g@.len(),
{
    let n = g.len();
    let mut visited: Vec<bool> = Vec::new();
    while visited.len() < n
        invariant
            visited@.len() <= n,
            forall|j: int| 0 <= j < visited@.len() ==> !(#[trigger] visited@[j]),
        decreases n - visited@.len(),
    {
        visited.push(false);
    }
    let mut order: Vec<usize> = Vec::new();
    proof {
        assert(to_state(visited@, order@) =~~= TopoState::init());
    }
    dfs(g, root.id(), &mut visited, &mut order);
    proof {
        assert(order@.map_values(|u: usize| u as int) == topo_spec(g@, root@));
    }
    order
}

impl Value {
    /// Invokes the node's local gradient rule once: reads the node's
    /// current accumulated gradient and adds the weighted contributions
    /// into its operands' gradients. A leaf is a no-op.
    pub fn invoke_grad_fn(&self, g: &mut Graph)
        requires
            old(g).wf(),
            self@ < old(g)@.len(),
        ensures
            final(g).wf(),
            final(g)@ == apply_rule(old(g)@, self@),
    {
        proof {
            assert(node_wf(g@, self@));
        }
        let i = self.id();
        let gval = self.grad(g);
        let rule = rule_at(g, i);
        match rule {
            Rule::Leaf => {},
            Rule::AddRule => {
                let p0 = prev_at(g, i, 0);
                let p1 = prev_at(g, i, 1);
                mk_value(p0).add_grad(g, gval);
                mk_value(p1).add_grad(g, gval);
            },
            Rule::SubRule => {
                let p0 = prev_at(g, i, 0);
                let p1 = prev_at(g, i, 1);
                mk_value(p0).add_grad(g, gval);
                mk_value(p1).add_grad(g, neg_bits(gval));
            },
            Rule::NegRule => {
                let p0 = prev_at(g, i, 0);
                mk_value(p0).add_grad(g, neg_bits(gval));
            },
            Rule::MulRule { a, b } => {
                let p0 = prev_at(g, i, 0);
                let p1 = prev_at(g, i, 1);
                mk_value(p0).add_grad(g, mul_bits(gval, b));
                mk_value(p1).add_grad(g, mul_bits(gval, a));
            },
            Rule::DivRule { a, b } => {
                let p0 = prev_at(g, i, 0);
                let p1 = prev_at(g, i, 1);
                mk_value(p0).add_grad(g, div_bits(gval, b));
                mk_value(p1).add_grad(g, div_bits(mul_bits(neg_bits(gval), a), mul_bits(b, b)));
            },
            Rule::ReluRule { active } => {
                let p0 = prev_at(g, i, 0);
                let local = if active {
                    ONE_BITS
                } else {
                    ZERO_BITS
                };
                mk_value(p0).add_grad(g, mul_bits(gval, local));
            },
            Rule::TanhRule { t } => {
                let p0 = prev_at(g, i, 0);
                mk_value(p0).add_grad(g, mul_bits(gval, sub_bits(ONE_BITS, mul_bits(t, t))));
            },
        }
        proof {
            assert(g@ =~~= apply_rule(old(g)@, self@));
        }
    }

    /// The backward pass: computes the topological order from this node,
    /// seeds this node's gradient with one, and replays every node's rule
    /// in the reversed order. Afterwards the graph equals `backward_spec`
    /// of the graph it started from: each reachable node's gradient has
    /// received, rule by rule, the contributions of every node that
    /// consumes it. Gradients are only ever added to, so repeated calls
    /// without an intervening reset accumulate across calls.
    pub fn backward(&self, g: &mut Graph)
        requires
            old(g).wf(),
            self@ < old(g)@.len(),
        ensures
            final(g).wf(),
            final(g)@ == backward_spec(old(g)@, self@),
    {
        let order = build_topo(g, *self);
        let ghost s0 = g@;
        let ghost rev = topo_spec(s0, self@).reverse();
        self.set_grad(g, ONE_BITS);
        let ghost seed = s0.update(self@, s0[self@].with_grad(ONE_BITS));
        let len = order.len();
        let mut j: usize = len;
        proof {
            assert(rev.len() == len);
            assert(g@ =~~= run_rules(seed, rev.take(0)));
        }
        while j > 0
            invariant
                g.wf(),
                j <= len,
                len == order@.len(),
                len == rev.len(),
                forall|m: int| 0 <= m < order@.len() ==> #[trigger] order@[m] < s0.len(),
                order@.map_values(|u: usize| u as int) == topo_spec(s0, self@),
                rev == topo_spec(s0, self@).reverse(),
                seed.len() == s0.len(),
                g@ == run_rules(seed, rev.take(len - j)),
            decreases j,
        {
            j -= 1;
            let idx = order[j];
            let ghost c = len - 1 - j;
            proof {
                assert(rev[c] == order@[j as int] as int);
                assert(g@.len() == s0.len()) by {
                    lemma_run_rules_len(seed, rev.take(c));
                }
            }
            mk_value(idx).invoke_grad_fn(g);
            proof {
                assert(rev.take(c + 1).drop_last() =~= rev.take(c));
                assert(rev.take(c + 1).last() == rev[c]);
                assert(g@ == run_rules(seed, rev.take(c + 1)));
            }
        }
        proof {
            assert(rev.take(len as int) =~= rev);
            assert(g@ == backward_spec(s0, self@));
        }
    }
}

/// Replaying rules never changes how many nodes there are.
pub proof fn lemma_run_rules_len(s: Seq<NodeModel>, order: Seq<int>)
    ensures
        run_rules(s, order).len() == s.len(),
    decreases order.len(),
{
    if order.len() > 0 {
        lemma_run_rules_len(s, order.drop_last());
    }
}

/// Whether `s2` differs from `s1` at most in the gradient accumulators:
/// same length, and node for node the same scalar, label, operand edges and
/// rule.
pub open spec fn grads_only(s1: Seq<NodeModel>, s2: Seq<NodeModel>) -> bool {
    &&& s1.len() == s2.len()
    &&& forall|j: int| 0 <= j < s1.len() ==> #[trigger] s2[j] == s1[j].with_grad(s2[j].grad)
}

/// Every gradient accumulator reset to zero.
pub open spec fn zero_grads(s: Seq<NodeModel>) -> Seq<NodeModel> {
    s.map_values(|n: NodeModel| n.with_grad(ZERO_BITS))
}

/// Following an operand edge of a reachable slot stays reachable.
proof fn lemma_reaches_prev(s: Seq<NodeModel>, root: int, x: int, m: int)
    requires
        graph_wf(s),
        0 <= root < s.len(),
        reaches(s, root, x),
        0 <= x < s.len(),
        0 <= m < s[x].prev.len(),
    ensures
        reaches(s, root, s[x].prev[m]),
    decreases root,
{
    assert(node_wf(s, root));
    assert(node_wf(s, x));
    let p = s[x].prev[m];
    if root == x {
        assert(reaches(s, p, p));
        assert(0 <= m < s[root].prev.len() && reaches(s, s[root].prev[m], p));
    } else {
        let k = choose|k: int|
            0 <= k < s[root].prev.len() && reaches(s, #[trigger] s[root].prev[k], x);
        lemma_reaches_prev(s, s[root].prev[k], x, m);
        assert(0 <= k < s[root].prev.len() && reaches(s, s[root].prev[k], p));
    }
}

/// Replaying the rules of reachable slots changes gradients alone, and only
/// those of reachable slots.
proof fn lemma_run_rules_frame(s0: Seq<NodeModel>, s: Seq<NodeModel>, root: int, order: Seq<int>)
    requires
        graph_wf(s0),
        0 <= root < s0.len(),
        grads_only(s0, s),
        forall|j: int| 0 <= j < order.len() ==> reaches(s0, root, #[trigger] order[j]),
        forall|j: int| 0 <= j < order.len() ==> 0 <= #[trigger] order[j] < s0.len(),
    ensures
        grads_only(s0, run_rules(s, order)),
        forall|j: int|
            0 <= j < s0.len() && !reaches(s0, root, j) ==> run_rules(s, order)[j] == s[j],
    decreases order.len(),
{
    if order.len() > 0 {
        let front = order.drop_last();
        let x = order.last();
        lemma_run_rules_frame(s0, s, root, front);
        let r1 = run_rules(s, front);
        let r2 = apply_rule(r1, x);
        assert(run_rules(s, order) == r2);
        assert(r1[x] == s0[x].with_grad(r1[x].grad));
        assert(node_wf(s0, x));
        if rule_arity(s0[x].rule) >= 1 {
            lemma_reaches_prev(s0, root, x, 0);
        }
        if rule_arity(s0[x].rule) >= 2 {
            lemma_reaches_prev(s0, root, x, 1);
        }
        assert(grads_only(s0, r2));
        assert forall|j: int| 0 <= j < s0.len() && !reaches(s0, root, j) implies r2[j] == s[j] by {
            assert(r1[j] == s[j]);
        }
    }
}

/// The backward pass changes gradient accumulators alone, and only those of
/// slots reachable from the root: every other node of the arena comes out
/// exactly as it went in. In particular, nodes of an earlier expression
/// that the root does not reach play no part in a pass and are not touched
/// by it.
pub proof fn lemma_backward_frame(s: Seq<NodeModel>, root: int)
    requires
        graph_wf(s),
        0 <= root < s.len(),
    ensures
        backward_spec(s, root).len() == s.len(),
        grads_only(s, backward_spec(s, root)),
        forall|j: int|
            0 <= j < s.len() && j != root && !reaches(s, root, j) ==> backward_spec(s, root)[j]
                == s[j],
{
    let seed = s.update(root, s[root].with_grad(ONE_BITS));
    assert(grads_only(s, seed));
    lemma_topo_exactly_once(s, root);
    let topo = topo_spec(s, root);
    let rev = topo.reverse();
    assert forall|j: int| 0 <= j < rev.len() implies reaches(s, root, #[trigger] rev[j]) by {
        assert(rev[j] == topo[rev.len() - 1 - j]);
        assert(topo.contains(topo[rev.len() - 1 - j]));
    }
    assert forall|j: int| 0 <= j < rev.len() implies 0 <= #[trigger] rev[j] < s.len() by {
        assert(rev[j] == topo[rev.len() - 1 - j]);
    }
    lemma_run_rules_frame(s, seed, root, rev);
    assert forall|j: int|
        0 <= j < s.len() && j != root && !reaches(s, root, j) implies backward_spec(s, root)[j]
        == s[j] by {
        assert(run_rules(seed, rev)[j] == seed[j]);
        assert(seed[j] == s[j]);
    }
}

/// Whether `s1` and `s2` hold the very same records on every slot that
/// `root` reaches in `s1`.
pub open spec fn agree_reachable(s1: Seq<NodeModel>, s2: Seq<NodeModel>, root: int) -> bool {
    &&& s1.len() == s2.len()
    &&& forall|j: int| 0 <= j < s1.len() && #[trigger] reaches(s1, root, j) ==> s1[j] == s2[j]
}

/// Reachability within the reachable region does not depend on the rest of
/// the graph.
proof fn lemma_reaches_agree(s1: Seq<NodeModel>, s2: Seq<NodeModel>, root: int, a: int, b: int)
    requires
        graph_wf(s1),
        graph_wf(s2),
        0 <= root < s1.len(),
        agree_reachable(s1, s2, root),
        0 <= a < s1.len(),
        reaches(s1, root, a),
        reaches(s1, a, b),
    ensures
        reaches(s2, a, b),
    decreases a,
{
    assert(node_wf(s1, a));
    if a != b {
        let k = choose|k: int|
            0 <= k < s1[a].prev.len() && reaches(s1, #[trigger] s1[a].prev[k], b);
        lemma_reaches_prev(s1, root, a, k);
        lemma_reaches_agree(s1, s2, root, s1[a].prev[k], b);
        assert(s2[a] == s1[a]);
        assert(0 <= k < s2[a].prev.len() && reaches(s2, s2[a].prev[k], b));
    }
}

proof fn lemma_dfs_node_agree(
    s1: Seq<NodeModel>,
    s2: Seq<NodeModel>,
    root: int,
    i: int,
    st: TopoState,
)
    requires
        graph_wf(s1),
        graph_wf(s2),
        0 <= root < s1.len(),
        agree_reachable(s1, s2, root),
        0 <= i < s1.len(),
        reaches(s1, root, i),
    ensures
        dfs_node(s2, i, st) == dfs_node(s1, i, st),
    decreases i, 1int, 0int,
{
    assert(node_wf(s1, i));
    if !st.visited.contains(i) {
        assert(s2[i] == s1[i]);
        let entered = TopoState { visited: st.visited.insert(i), order: st.order };
        lemma_dfs_prevs_agree(s1, s2, root, i, 0, entered);
    }
}

proof fn lemma_dfs_prevs_agree(
    s1: Seq<NodeModel>,
    s2: Seq<NodeModel>,
    root: int,
    i: int,
    k: int,
    st: TopoState,
)
    requires
        graph_wf(s1),
        graph_wf(s2),
        0 <= root < s1.len(),
        agree_reachable(s1, s2, root),
        0 <= i < s1.len(),
        0 <= k,
        reaches(s1, root, i),
    ensures
        dfs_prevs(s2, i, k, st) == dfs_prevs(s1, i, k, st),
    decreases i, 0int, s1[i].prev.len() - k,
{
    assert(node_wf(s1, i));
    assert(s2[i] == s1[i]);
    if k < s1[i].prev.len() {
        let p = s1[i].prev[k];
        lemma_reaches_prev(s1, root, i, k);
        lemma_dfs_node_agree(s1, s2, root, p, st);
        lemma_dfs_prevs_agree(s1, s2, root, i, k + 1, dfs_node(s1, p, st));
    }
}

/// Replaying the rules of reachable slots reads nothing outside the
/// reachable region: two runs that agree there stay in step there.
proof fn lemma_run_rules_agree(
    s0: Seq<NodeModel>,
    root: int,
    a: Seq<NodeModel>,
    b: Seq<NodeModel>,
    order: Seq<int>,
)
    requires
        graph_wf(s0),
        0 <= root < s0.len(),
        a.len() == s0.len(),
        b.len() == s0.len(),
        forall|j: int|
            0 <= j < s0.len() && #[trigger] reaches(s0, root, j) ==> a[j] == b[j] && a[j].prev
                == s0[j].prev && a[j].rule == s0[j].rule,
        forall|j: int| 0 <= j < order.len() ==> reaches(s0, root, #[trigger] order[j]),
        forall|j: int| 0 <= j < order.len() ==> 0 <= #[trigger] order[j] < s0.len(),
    ensures
        forall|j: int|
            0 <= j < s0.len() && #[trigger] reaches(s0, root, j) ==> run_rules(a, order)[j]
                == run_rules(b, order)[j] && run_rules(a, order)[j].prev == s0[j].prev && run_rules(
                a,
                order,
            )[j].rule == s0[j].rule,
    decreases order.len(),
{
    if order.len() > 0 {
        let front = order.drop_last();
        let x = order.last();
        lemma_run_rules_agree(s0, root, a, b, front);
        let ra = run_rules(a, front);
        let rb = run_rules(b, front);
        lemma_run_rules_len(a, front);
        lemma_run_rules_len(b, front);
        assert(node_wf(s0, x));
        assert(reaches(s0, root, x));
        assert(ra[x] == rb[x] && ra[x].prev == s0[x].prev && ra[x].rule == s0[x].rule);
        if rule_arity(s0[x].rule) >= 1 {
            lemma_reaches_prev(s0, root, x, 0);
        }
        if rule_arity(s0[x].rule) >= 2 {
            lemma_reaches_prev(s0, root, x, 1);
        }
        assert forall|j: int|
            0 <= j < s0.len() && #[trigger] reaches(s0, root, j) implies apply_rule(ra, x)[j]
            == apply_rule(rb, x)[j] && apply_rule(ra, x)[j].prev == s0[j].prev && apply_rule(
            ra,
            x,
        )[j].rule == s0[j].rule by {}
    }
}

/// The backward pass reads nothing outside the reachable region either: on
/// the slots the root reaches, its result is the same in any two graphs
/// that agree there, whatever the rest of either arena holds. Together with
/// the frame lemma this is what lets an expression be rebuilt over the same
/// leaves: slots left over from an earlier pass that the new root does not
/// reach can neither be touched by the new pass nor influence it.
pub proof fn lemma_backward_reads_only_reachable(
    s1: Seq<NodeModel>,
    s2: Seq<NodeModel>,
    root: int,
)
    requires
        graph_wf(s1),
        graph_wf(s2),
        0 <= root < s1.len(),
        agree_reachable(s1, s2, root),
    ensures
        forall|j: int|
            0 <= j < s1.len() && #[trigger] reaches(s1, root, j) ==> backward_spec(s1, root)[j]
                == backward_spec(s2, root)[j],
{
    assert(reaches(s1, root, root));
    lemma_dfs_node_agree(s1, s2, root, root, TopoState::init());
    let topo = topo_spec(s1, root);
    assert(topo_spec(s2, root) == topo);
    lemma_topo_exactly_once(s1, root);
    let rev = topo.reverse();
    let seed1 = s1.update(root, s1[root].with_grad(ONE_BITS));
    let seed2 = s2.update(root, s2[root].with_grad(ONE_BITS));
    assert forall|j: int|
        0 <= j < s1.len() && #[trigger] reaches(s1, root, j) implies seed1[j] == seed2[j]
        && seed1[j].prev == s1[j].prev && seed1[j].rule == s1[j].rule by {
        assert(s1[j] == s2[j]);
    }
    assert forall|j: int| 0 <= j < rev.len() implies reaches(s1, root, #[trigger] rev[j]) && 0
        <= rev[j] < s1.len() by {
        assert(rev[j] == topo[rev.len() - 1 - j]);
        assert(topo.contains(topo[rev.len() - 1 - j]));
    }
    lemma_run_rules_agree(s1, root, seed1, seed2, rev);
}

/// A pass remembers nothing once the gradients are reset: two graphs that
/// agree on everything but their gradient accumulators — say, the same
/// expression before and after an earlier backward pass — give the same
/// backward result as soon as the accumulators of both are reset to zero.
pub proof fn lemma_reset_forgets(s1: Seq<NodeModel>, s2: Seq<NodeModel>, root: int)
    requires
        grads_only(s1, s2),
    ensures
        backward_spec(zero_grads(s1), root) == backward_spec(zero_grads(s2), root),
{
    assert(zero_grads(s1) =~~= zero_grads(s2));
}

/// Whether the walk has entered `x` but not yet finished it.
pub open spec fn is_gray(st: TopoState, x: int) -> bool {
    st.visited.contains(x) && !st.order.contains(x)
}

/// What every intermediate state of the walk satisfies: the order built so
/// far repeats no slot, holds only visited, valid slots, lists every
/// operand of an entry before that entry, and is closed under
/// reachability.
pub open spec fn state_inv(s: Seq<NodeModel>, st: TopoState) -> bool {
    &&& forall|j1: int, j2: int|
        0 <= j1 < j2 < st.order.len() ==> #[trigger] st.order[j1] != #[trigger] st.order[j2]
    &&& forall|j: int| 0 <= j < st.order.len() ==> st.visited.contains(#[trigger] st.order[j])
    &&& forall|j: int| 0 <= j < st.order.len() ==> 0 <= #[trigger] st.order[j] < s.len()
    &&& forall|x: int| st.visited.contains(x) ==> 0 <= x < s.len()
    &&& forall|j: int, m: int|
        0 <= j < st.order.len() && 0 <= m < s[st.order[j]].prev.len() ==> st.order.take(j).contains(
            #[trigger] s[st.order[j]].prev[m],
        )
    &&& forall|x: int, y: int|
        st.order.contains(x) && #[trigger] reaches(s, x, y) ==> st.order.contains(y)
}

/// An element of a prefix is an element of the whole.
proof fn lemma_prefix_contains(a: Seq<int>, b: Seq<int>, x: int)
    requires
        a.is_prefix_of(b),
        a.contains(x),
    ensures
        b.contains(x),
{
    let j = choose|j: int| 0 <= j < a.len() && a[j] == x;
    assert(b[j] == x);
}

proof fn lemma_dfs_node_inv(s: Seq<NodeModel>, i: int, st: TopoState)
    requires
        graph_wf(s),
        0 <= i < s.len(),
        state_inv(s, st),
        forall|x: int| is_gray(st, x) ==> x > i,
    ensures
        state_inv(s, dfs_node(s, i, st)),
        st.order.is_prefix_of(dfs_node(s, i, st).order),
        forall|x: int| is_gray(dfs_node(s, i, st), x) == is_gray(st, x),
        forall|x: int|
            st.visited.contains(x) ==> #[trigger] dfs_node(s, i, st).visited.contains(x),
        dfs_node(s, i, st).order.contains(i),
        forall|x: int|
            #[trigger] dfs_node(s, i, st).visited.contains(x) && !st.visited.contains(x)
                ==> reaches(s, i, x),
        forall|y: int| #[trigger] reaches(s, i, y) ==> dfs_node(s, i, st).visited.contains(y),
    decreases i, 1int, 0int,
{
    assert(node_wf(s, i));
    let st_out = dfs_node(s, i, st);
    if st.visited.contains(i) {
        // `i` cannot be gray (every gray slot lies strictly above `i`), so it
        // is already in the order, and by closure so is everything it
        // reaches.
        assert(!is_gray(st, i));
        assert(st.order.contains(i));
        assert(st_out == st);
        assert forall|y: int| #[trigger] reaches(s, i, y) implies st_out.visited.contains(y) by {
            assert(st.order.contains(y));
        }
    } else {
        let entered = TopoState { visited: st.visited.insert(i), order: st.order };
        let walked = dfs_prevs(s, i, 0, entered);
        assert(state_inv(s, entered));
        assert forall|x: int| is_gray(entered, x) implies x >= i by {
            if x != i {
                assert(is_gray(st, x));
            }
        }
        lemma_dfs_prevs_inv(s, i, 0, entered);
        // Every operand of `i` is black after the walk over the operands.
        assert forall|m: int| 0 <= m < s[i].prev.len() implies walked.order.contains(
            #[trigger] s[i].prev[m],
        ) by {}
        assert(st_out.order == walked.order.push(i));
        // `i` is gray throughout the walk over its operands, so it is not in
        // the order yet.
        assert(is_gray(entered, i)) by {
            if entered.order.contains(i) {
                let j = choose|j: int| 0 <= j < st.order.len() && st.order[j] == i;
                assert(st.visited.contains(st.order[j]));
            }
        }
        assert(is_gray(walked, i));
        assert(!walked.order.contains(i));
        // The push keeps every clause of the invariant.
        assert forall|j: int, m: int|
            0 <= j < st_out.order.len() && 0 <= m < s[st_out.order[j]].prev.len()
                implies st_out.order.take(j).contains(#[trigger] s[st_out.order[j]].prev[m]) by {
            if j < walked.order.len() {
                assert(st_out.order[j] == walked.order[j]);
                assert(st_out.order.take(j) =~= walked.order.take(j));
                assert(walked.order.take(j).contains(s[walked.order[j]].prev[m]));
            } else {
                assert(st_out.order[j] == i);
                assert(st_out.order.take(j) =~= walked.order);
                assert(walked.order.contains(s[i].prev[m]));
            }
        }
        assert forall|x: int, y: int|
            st_out.order.contains(x) && #[trigger] reaches(s, x, y) implies st_out.order.contains(
            y,
        ) by {
            if walked.order.contains(x) {
                assert(walked.order.contains(y));
                lemma_prefix_contains(walked.order, st_out.order, y);
            } else {
                assert(x == i);
                if y != i {
                    let k = choose|k: int|
                        0 <= k < s[i].prev.len() && reaches(s, #[trigger] s[i].prev[k], y);
                    assert(walked.order.contains(s[i].prev[k]));
                    assert(walked.order.contains(y));
                    lemma_prefix_contains(walked.order, st_out.order, y);
                }
            }
        }
        assert(state_inv(s, st_out));
        assert(st.order.is_prefix_of(walked.order));
        assert(st.order =~= st_out.order.take(st.order.len() as int));
        // The gray set is exactly what it was: `i` went in and came out.
        assert forall|x: int| is_gray(st_out, x) == is_gray(st, x) by {
            if x == i {
                assert(st_out.order[walked.order.len() as int] == i);
                assert(st_out.order.contains(i));
                assert(!is_gray(st_out, i));
                assert(!st.visited.contains(i));
            } else {
                if is_gray(st, x) {
                    assert(is_gray(entered, x));
                    assert(is_gray(walked, x));
                    if st_out.order.contains(x) {
                        let j = choose|j: int|
                            0 <= j < st_out.order.len() && st_out.order[j] == x;
                        assert(walked.order[j] == x);
                    }
                    assert(is_gray(st_out, x));
                }
                if is_gray(st_out, x) {
                    assert(walked.order =~= st_out.order.take(walked.order.len() as int));
                    if walked.order.contains(x) {
                        lemma_prefix_contains(walked.order, st_out.order, x);
                    }
                    assert(!walked.order.contains(x));
                    assert(is_gray(walked, x));
                    assert(is_gray(entered, x));
                    assert(is_gray(st, x));
                }
            }
        }
        assert forall|x: int|
            #[trigger] st_out.visited.contains(x) && !st.visited.contains(x) implies reaches(
            s,
            i,
            x,
        ) by {
            if x != i {
                assert(walked.visited.contains(x) && !entered.visited.contains(x));
                let m = choose|m: int|
                    0 <= m < s[i].prev.len() && reaches(s, #[trigger] s[i].prev[m], x);
                assert(reaches(s, i, x));
            }
        }
        assert forall|y: int| #[trigger] reaches(s, i, y) implies st_out.visited.contains(y) by {
            if y != i {
                let k = choose|k: int|
                    0 <= k < s[i].prev.len() && reaches(s, #[trigger] s[i].prev[k], y);
                assert(walked.visited.contains(y));
            }
        }
    }
}

proof fn lemma_dfs_prevs_inv(s: Seq<NodeModel>, i: int, k: int, st: TopoState)
    requires
        graph_wf(s),
        0 <= i < s.len(),
        0 <= k,
        state_inv(s, st),
        forall|x: int| is_gray(st, x) ==> x >= i,
    ensures
        state_inv(s, dfs_prevs(s, i, k, st)),
        st.order.is_prefix_of(dfs_prevs(s, i, k, st).order),
        forall|x: int| is_gray(dfs_prevs(s, i, k, st), x) == is_gray(st, x),
        forall|x: int|
            st.visited.contains(x) ==> #[trigger] dfs_prevs(s, i, k, st).visited.contains(x),
        forall|m: int|
            k <= m < s[i].prev.len() ==> dfs_prevs(s, i, k, st).order.contains(
                #[trigger] s[i].prev[m],
            ),
        forall|x: int|
            #[trigger] dfs_prevs(s, i, k, st).visited.contains(x) && !st.visited.contains(x)
                ==> exists|m: int|
                k <= m < s[i].prev.len() && reaches(s, #[trigger] s[i].prev[m], x),
        forall|m: int, y: int|
            k <= m < s[i].prev.len() && #[trigger] reaches(s, #[trigger] s[i].prev[m], y)
                ==> dfs_prevs(s, i, k, st).visited.contains(y),
    decreases i, 0int, s[i].prev.len() - k,
{
    assert(node_wf(s, i));
    let st_out = dfs_prevs(s, i, k, st);
    if k < s[i].prev.len() {
        let p = s[i].prev[k];
        assert(0 <= p < i);
        assert forall|x: int| is_gray(st, x) implies x > p by {}
        lemma_dfs_node_inv(s, p, st);
        let st1 = dfs_node(s, p, st);
        assert forall|x: int| is_gray(st1, x) implies x >= i by {
            assert(is_gray(st1, x) == is_gray(st, x));
        }
        lemma_dfs_prevs_inv(s, i, k + 1, st1);
        assert(st_out == dfs_prevs(s, i, k + 1, st1));
        // Prefixes compose.
        assert(st.order =~= st_out.order.take(st.order.len() as int));
        // The operand at position `k` stays in the order.
        assert(st1.order.contains(p));
        lemma_prefix_contains(st1.order, st_out.order, p);
        // A slot first visited here was reached through one of the operands
        // from position `k` on.
        assert forall|x: int|
            #[trigger] st_out.visited.contains(x) && !st.visited.contains(x) implies exists|m: int|
            k <= m < s[i].prev.len() && reaches(s, #[trigger] s[i].prev[m], x) by {
            if st1.visited.contains(x) {
                assert(reaches(s, p, x));
                assert(k <= k < s[i].prev.len() && reaches(s, s[i].prev[k], x));
            } else {
                let m = choose|m: int|
                    k + 1 <= m < s[i].prev.len() && reaches(s, #[trigger] s[i].prev[m], x);
                assert(k <= m < s[i].prev.len() && reaches(s, s[i].prev[m], x));
            }
        }
        assert forall|m: int, y: int|
            k <= m < s[i].prev.len() && #[trigger] reaches(s, #[trigger] s[i].prev[m], y)
                implies st_out.visited.contains(y) by {
            if m == k {
                assert(st1.visited.contains(y));
            }
        }
    } else {
        assert(st_out == st);
    }
}

/// What spec section calls the topological order's own guarantees, proved
/// of `topo_spec`: a slot reachable over however many distinct paths
/// appears exactly once (the order repeats no slot and holds precisely the
/// slots reachable from the root), every slot in it is a valid index, and
/// every operand of an entry stands strictly before that entry.
pub proof fn lemma_topo_exactly_once(s: Seq<NodeModel>, root: int)
    requires
        graph_wf(s),
        0 <= root < s.len(),
    ensures
        forall|j1: int, j2: int|
            0 <= j1 < j2 < topo_spec(s, root).len() ==> #[trigger] topo_spec(s, root)[j1]
                != #[trigger] topo_spec(s, root)[j2],
        forall|x: int| topo_spec(s, root).contains(x) <==> reaches(s, root, x),
        forall|j: int|
            0 <= j < topo_spec(s, root).len() ==> 0 <= #[trigger] topo_spec(s, root)[j] < s.len(),
        forall|j: int, m: int|
            0 <= j < topo_spec(s, root).len() && 0 <= m < s[topo_spec(s, root)[j]].prev.len()
                ==> topo_spec(s, root).take(j).contains(
                #[trigger] s[topo_spec(s, root)[j]].prev[m],
            ),
{
    let st0 = TopoState::init();
    assert(state_inv(s, st0));
    lemma_dfs_node_inv(s, root, st0);
    let st_out = dfs_node(s, root, st0);
    let topo = topo_spec(s, root);
    assert(topo == st_out.order);
    assert forall|x: int| topo.contains(x) implies reaches(s, root, x) by {
        assert(st_out.visited.contains(x) && !st0.visited.contains(x));
    }
    assert forall|x: int| reaches(s, root, x) implies topo.contains(x) by {
        assert(st_out.visited.contains(x));
        assert(!is_gray(st_out, x));
    }
}

} // verus!
