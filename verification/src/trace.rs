//! Read-only extraction of a graph's reachable nodes and edges, for an
//! outside visualization collaborator: nodes keyed by identity, and one
//! edge from each operand to each node that consumes it, every pair listed
//! exactly once however many paths share it.

use vstd::prelude::*;

use crate::backprop::{build_topo, lemma_topo_exactly_once, topo_spec};
use crate::graph::{graph_wf, mk_value, node_wf, prev_at, prev_len_at, reaches, Graph, Value};
use crate::node::NodeModel;

verus! {

broadcast use crate::graph::lemma_value_index_nonneg;

/// Whether slot `c` consumes slot `p` through at least one operand edge.
pub open spec fn has_edge(s: Seq<NodeModel>, p: int, c: int) -> bool {
    exists|m: int| 0 <= m < s[c].prev.len() && #[trigger] s[c].prev[m] == p
}

/// An element of a prefix stays where it was.
proof fn lemma_prefix_index(a: Seq<(Value, Value)>, b: Seq<(Value, Value)>, j: int)
    requires
        a.is_prefix_of(b),
        0 <= j < a.len(),
    ensures
        b[j] == a[j],
{
}

/// What a call of [`push_edges_for`] adds behind `e1` to make `e2`: only
/// pairs that carry consumer `c` and one of its operands, one pair for each
/// distinct operand, no operand twice.
pub open spec fn extension_ok(
    s: Seq<NodeModel>,
    c: int,
    e1: Seq<(Value, Value)>,
    e2: Seq<(Value, Value)>,
) -> bool {
    &&& e1.is_prefix_of(e2)
    &&& forall|j: int| e1.len() <= j < e2.len() ==> (#[trigger] e2[j]).1@ == c
    &&& forall|j: int| e1.len() <= j < e2.len() ==> has_edge(s, (#[trigger] e2[j]).0@, c)
    &&& forall|q: int|
        0 <= q < s[c].prev.len() ==> exists|j: int|
            e1.len() <= j < e2.len() && (#[trigger] e2[j]).0@ == (#[trigger] s[c].prev[q])
    &&& forall|j1: int, j2: int|
        e1.len() <= j1 < j2 < e2.len() ==> (#[trigger] e2[j1]).0@ != (#[trigger] e2[j2]).0@
}

/// Appends the edges that end in consumer `c`: one pair per distinct
/// operand of `c`.
fn push_edges_for(g: &Graph, c: usize, edges: &mut Vec<(Value, Value)>)
    requires
        g.wf(),
        c < g@.len(),
    ensures
        extension_ok(g@, c as int, old(edges)@, final(edges)@),
{
    proof {
        assert(node_wf(g@, c as int));
    }
    let ghost base: int = edges@.len() as int;
    let plen = prev_len_at(g, c);
    // A rule has at most two operands, so the distinct operands can be
    // listed without a loop.
    if plen >= 1 {
        let p0 = prev_at(g, c, 0);
        edges.push((mk_value(p0), mk_value(c)));
        if plen == 2 {
            let p1 = prev_at(g, c, 1);
            if p1 != p0 {
                edges.push((mk_value(p1), mk_value(c)));
            }
        }
    }
    proof {
        assert(plen <= 2);
        assert forall|q: int| 0 <= q < g@[c as int].prev.len() implies exists|j: int|
            base <= j < edges@.len() && (#[trigger] edges@[j]).0@ == (#[trigger] g@[
                c as int].prev[q]) by {
            if q == 0 {
                assert(edges@[base].0@ == g@[c as int].prev[0]);
            } else {
                if g@[c as int].prev[1] == g@[c as int].prev[0] {
                    assert(edges@[base].0@ == g@[c as int].prev[q]);
                } else {
                    assert(edges@[base + 1].0@ == g@[c as int].prev[q]);
                }
            }
        }
        assert forall|j: int| base <= j < edges@.len() implies has_edge(
            g@,
            (#[trigger] edges@[j]).0@,
            c as int,
        ) by {
            if j == base {
                assert(g@[c as int].prev[0] == edges@[j].0@);
            } else {
                assert(g@[c as int].prev[1] == edges@[j].0@);
            }
        }
    }
}

/// Whether the pair `(p, c)` stands somewhere in the edge list.
pub open spec fn edge_listed(edges: Seq<(Value, Value)>, p: int, c: int) -> bool {
    exists|j: int| 0 <= j < edges.len() && (#[trigger] edges[j]).0@ == p && edges[j].1@ == c
}

/// What the edge list satisfies once the first `t` consumers of `topo` are
/// processed: every pair belongs to one of them and is a real edge, every
/// edge of theirs is listed, and no pair repeats.
pub open spec fn edges_inv(s: Seq<NodeModel>, topo: Seq<int>, t: int, edges: Seq<(Value, Value)>)
    -> bool {
    &&& forall|j: int|
        0 <= j < edges.len() ==> exists|jt: int| 0 <= jt < t && (#[trigger] edges[j]).1@ == topo[jt]
    &&& forall|j: int|
        0 <= j < edges.len() ==> has_edge(s, (#[trigger] edges[j]).0@, edges[j].1@)
    &&& forall|jt: int, p: int|
        0 <= jt < t && #[trigger] has_edge(s, p, #[trigger] topo[jt]) ==> edge_listed(
            edges,
            p,
            topo[jt],
        )
    &&& forall|j1: int, j2: int|
        0 <= j1 < j2 < edges.len() ==> !((#[trigger] edges[j1]).0@ == (#[trigger] edges[j2]).0@
            && edges[j1].1@ == edges[j2].1@)
}

/// Extending the edge list by the edges of the next consumer keeps the
/// invariant: the fresh pairs all carry the new consumer, which no earlier
/// pair does.
proof fn lemma_edges_extend(
    s: Seq<NodeModel>,
    topo: Seq<int>,
    t: int,
    e1: Seq<(Value, Value)>,
    e2: Seq<(Value, Value)>,
    c: int,
)
    requires
        0 <= t < topo.len(),
        topo[t] == c,
        forall|j1: int, j2: int|
            0 <= j1 < j2 < topo.len() ==> #[trigger] topo[j1] != #[trigger] topo[j2],
        edges_inv(s, topo, t, e1),
        extension_ok(s, c, e1, e2),
    ensures
        edges_inv(s, topo, t + 1, e2),
{
    assert forall|j: int| 0 <= j < e1.len() implies e2[j] == e1[j] by {
        lemma_prefix_index(e1, e2, j);
    }
    assert forall|jt: int, p: int|
        0 <= jt < t + 1 && #[trigger] has_edge(s, p, #[trigger] topo[jt]) implies edge_listed(
        e2,
        p,
        topo[jt],
    ) by {
        if jt < t {
            let j = choose|j: int|
                0 <= j < e1.len() && (#[trigger] e1[j]).0@ == p && e1[j].1@ == topo[jt];
            assert(e2[j].0@ == p && e2[j].1@ == topo[jt]);
        } else {
            let m0 = choose|m0: int|
                0 <= m0 < s[c].prev.len() && #[trigger] s[c].prev[m0] == p;
            let j = choose|j: int|
                e1.len() <= j < e2.len() && (#[trigger] e2[j]).0@ == (s[c].prev[m0]);
            assert(e2[j].0@ == p && e2[j].1@ == c);
        }
    }
    assert forall|j: int| 0 <= j < e2.len() implies exists|jt: int|
        0 <= jt < t + 1 && (#[trigger] e2[j]).1@ == topo[jt] by {
        if j < e1.len() {
            let jt = choose|jt: int| 0 <= jt < t && (#[trigger] e1[j]).1@ == topo[jt];
            assert(e2[j].1@ == topo[jt]);
        } else {
            assert(e2[j].1@ == topo[t]);
        }
    }
    assert forall|j1: int, j2: int|
        0 <= j1 < j2 < e2.len() implies !((#[trigger] e2[j1]).0@ == (#[trigger] e2[j2]).0@
        && e2[j1].1@ == e2[j2].1@) by {
        if j2 >= e1.len() && j1 < e1.len() {
            // An old pair's consumer came earlier in the order, so it
            // differs from `c`.
            if e2[j1].1@ == e2[j2].1@ {
                let jt = choose|jt: int| 0 <= jt < t && (#[trigger] e1[j1]).1@ == topo[jt];
                assert(topo[jt] != topo[t]);
            }
        }
    }
}

/// Once every consumer of the topological order is processed, the list
/// holds exactly the edges among the slots reachable from the root.
proof fn lemma_edges_inv_final(
    s: Seq<NodeModel>,
    root: int,
    topo: Seq<int>,
    edges: Seq<(Value, Value)>,
)
    requires
        graph_wf(s),
        0 <= root < s.len(),
        topo == topo_spec(s, root),
        edges_inv(s, topo, topo.len() as int, edges),
    ensures
        forall|j: int|
            0 <= j < edges.len() ==> reaches(s, root, (#[trigger] edges[j]).1@) && has_edge(
                s,
                edges[j].0@,
                edges[j].1@,
            ),
        forall|p: int, c: int|
            reaches(s, root, c) && 0 <= c < s.len() && #[trigger] has_edge(s, p, c)
                ==> exists|j: int|
                0 <= j < edges.len() && (#[trigger] edges[j]).0@ == p && edges[j].1@ == c,
        forall|j1: int, j2: int|
            0 <= j1 < j2 < edges.len() ==> !((#[trigger] edges[j1]).0@ == (
            #[trigger] edges[j2]).0@ && edges[j1].1@ == edges[j2].1@),
{
    lemma_topo_exactly_once(s, root);
    assert forall|j: int|
        0 <= j < edges.len() implies reaches(s, root, (#[trigger] edges[j]).1@) && has_edge(
        s,
        edges[j].0@,
        edges[j].1@,
    ) by {
        let jt = choose|jt: int| 0 <= jt < topo.len() && (#[trigger] edges[j]).1@ == topo[jt];
        assert(topo.contains(topo[jt]));
    }
    assert forall|p: int, c: int|
        reaches(s, root, c) && 0 <= c < s.len() && #[trigger] has_edge(s, p, c)
            implies exists|j: int|
        0 <= j < edges.len() && (#[trigger] edges[j]).0@ == p && edges[j].1@ == c by {
        assert(topo.contains(c));
        let jt = choose|jt: int| 0 <= jt < topo.len() && topo[jt] == c;
        assert(has_edge(s, p, topo[jt]));
        assert(edge_listed(edges, p, topo[jt]));
    }
}

impl Value {
    /// The slots reachable from this node, in topological order, and every
    /// (operand, consumer) edge among them exactly once. Reading for
    /// display only: the graph is not touched.
    #[verifier::rlimit(100)]
    pub fn trace_graph(&self, g: &Graph) -> (r: (Vec<Value>, Vec<(Value, Value)>))
        requires
            g.wf(),
            self@ < g@.len(),
        ensures
            r.0@.map_values(|v: Value| v@) == topo_spec(g@, self@),
            forall|j: int|
                0 <= j < r.1@.len() ==> reaches(g@, self@, (#[trigger] r.1@[j]).1@) && has_edge(
                    g@,
                    r.1@[j].0@,
                    r.1@[j].1@,
                ),
            forall|p: int, c: int|
                reaches(g@, self@, c) && 0 <= c < g@.len() && #[trigger] has_edge(g@, p, c)
                    ==> exists|j: int|
                    0 <= j < r.1@.len() && (#[trigger] r.1@[j]).0@ == p && r.1@[j].1@ == c,
            forall|j1: int, j2: int|
                0 <= j1 < j2 < r.1@.len() ==> !((#[trigger] r.1@[j1]).0@ == (
                #[trigger] r.1@[j2]).0@ && r.1@[j1].1@ == r.1@[j2].1@),
    {
        let ghost s = g@;
        proof {
            lemma_topo_exactly_once(s, self@);
        }
        let order = build_topo(g, *self);
        let ghost topo = topo_spec(s, self@);
        let mut nodes: Vec<Value> = Vec::new();
        let mut t: usize = 0;
        while t < order.len()
            invariant
                order@.map_values(|u: usize| u as int) == topo_spec(g@, self@),
                t <= order@.len(),
                nodes@.len() == t,
                forall|j: int| 0 <= j < t ==> (#[trigger] nodes@[j])@ == order@[j] as int,
            decreases order@.len() - t,
        {
            nodes.push(mk_value(order[t]));
            t += 1;
        }
        proof {
            assert(nodes@.map_values(|v: Value| v@) =~= topo_spec(g@, self@));
        }
        let mut edges: Vec<(Value, Value)> = Vec::new();
        let mut t: usize = 0;
        while t < order.len()
            invariant
                g.wf(),
                self@ < g@.len(),
                s == g@,
                order@.map_values(|u: usize| u as int) == topo,
                topo == topo_spec(g@, self@),
                t <= order@.len(),
                forall|j: int| 0 <= j < order@.len() ==> #[trigger] order@[j] < g@.len(),
                edges_inv(g@, topo, t as int, edges@),
            decreases order@.len() - t,
        {
            proof {
                lemma_topo_exactly_once(s, self@);
                assert(order@.map_values(|u: usize| u as int).len() == order@.len());
                assert(order@.map_values(|u: usize| u as int)[t as int] == order@[t as int] as int);
            }
            let c = order[t];
            let ghost edges_before = edges@;
            push_edges_for(g, c, &mut edges);
            proof {
                lemma_edges_extend(g@, topo, t as int, edges_before, edges@, c as int);
            }
            t += 1;
        }
        proof {
            assert(order@.map_values(|u: usize| u as int).len() == order@.len());
            lemma_edges_inv_final(g@, self@, topo, edges@);
        }
        let out = (nodes, edges);
        proof {
            assert forall|p: int, c: int|
                reaches(g@, self@, c) && 0 <= c < g@.len() && #[trigger] has_edge(g@, p, c)
                    implies exists|j: int|
                0 <= j < out.1@.len() && (#[trigger] out.1@[j]).0@ == p && out.1@[j].1@ == c by {
                let j = choose|j: int|
                    0 <= j < out.1@.len() && (#[trigger] out.1@[j]).0@ == p && out.1@[j].1@ == c;
                assert(0 <= j < out.1@.len() && out.1@[j].0@ == p && out.1@[j].1@ == c);
            }
        }
        out
    }
}

} // verus!
