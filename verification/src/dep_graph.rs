//! The dependency graph of components, held in a petgraph `StableDiGraph`.
//!
//! Nodes carry component names, edges carry a relationship code.
//! `get_invocation_order` peels the graph level by level: first every node
//! without a selected outgoing edge, then every node that only pointed at
//! those, and so on.

use vstd::prelude::*;
use vstd::multiset::Multiset;
use petgraph::stable_graph::{NodeIndex, StableGraph};
use petgraph::visit::EdgeRef;
use petgraph::Directed;

verus! {

broadcast use vstd::multiset::group_multiset_axioms;

#[verifier::external_type_specification]
#[verifier::external_body]
#[verifier::reject_recursive_types(N)]
#[verifier::reject_recursive_types(E)]
#[verifier::reject_recursive_types(Ty)]
#[verifier::reject_recursive_types(Ix)]
pub struct ExStableGraph<N, E, Ty, Ix>(StableGraph<N, E, Ty, Ix>);

#[verifier::external_type_specification]
#[verifier::external_body]
pub struct ExDirected(Directed);

/// The graph the component manager works on: component names on the nodes,
/// relationship codes on the edges, `u16` indices.
pub type DepGraph = StableGraph<String, u32, Directed, u16>;

/// The live nodes of the graph: node index to node weight.
pub uninterp spec fn graph_nodes(g: DepGraph) -> Map<u16, Seq<char>>;

/// The edges of the graph, as (source, target, weight).
pub uninterp spec fn graph_edges(g: DepGraph) -> Multiset<(u16, u16, u32)>;

/// A graph as petgraph keeps it: finitely many nodes, every edge between live nodes.
pub open spec fn graph_wf(g: DepGraph) -> bool {
    &&& graph_nodes(g).dom().finite()
    &&& forall|e: (u16, u16, u32)| #[trigger] graph_edges(g).contains(e)
        ==> graph_nodes(g).dom().contains(e.0) && graph_nodes(g).dom().contains(e.1)
}

/// The edges that do not touch any node of `s`.
pub open spec fn edges_without(edges: Multiset<(u16, u16, u32)>, s: Set<u16>) -> Multiset<(u16, u16, u32)> {
    edges.filter(|e: (u16, u16, u32)| !s.contains(e.0) && !s.contains(e.1))
}

/// `StableGraph::default`: an empty graph.
#[verifier::external_body]
pub(crate) fn graph_new() -> (g: DepGraph)
    ensures
        graph_nodes(g).is_empty(),
        graph_edges(g).len() == 0,
        graph_wf(g),
{
    StableGraph::default()
}

/// `StableGraph::add_node`: the weight goes under an index that was not live.
/// petgraph panics once `u16::MAX` nodes are live, hence the bound.
#[verifier::external_body]
pub(crate) fn graph_add_node(g: &mut DepGraph, weight: String) -> (idx: u16)
    requires
        graph_wf(*old(g)),
        graph_nodes(*old(g)).len() < 65535,
    ensures
        !graph_nodes(*old(g)).dom().contains(idx),
        graph_nodes(*final(g)) == graph_nodes(*old(g)).insert(idx, weight@),
        graph_edges(*final(g)) == graph_edges(*old(g)),
        graph_wf(*final(g)),
{
    let idx: NodeIndex<u16> = g.add_node(weight);
    idx.index() as u16
}

/// `StableGraph::add_edge`: one more edge between two live nodes.
/// petgraph panics on a missing node or once `u16::MAX` edges are live.
#[verifier::external_body]
pub(crate) fn graph_add_edge(g: &mut DepGraph, a: u16, b: u16, weight: u32)
    requires
        graph_wf(*old(g)),
        graph_nodes(*old(g)).dom().contains(a),
        graph_nodes(*old(g)).dom().contains(b),
        graph_edges(*old(g)).len() < 65535,
    ensures
        graph_nodes(*final(g)) == graph_nodes(*old(g)),
        graph_edges(*final(g)) == graph_edges(*old(g)).insert((a, b, weight)),
        graph_wf(*final(g)),
{
    g.add_edge(NodeIndex::new(a as usize), NodeIndex::new(b as usize), weight);
}

/// `StableGraph::remove_node`: the node goes, and every edge from or to it.
#[verifier::external_body]
pub(crate) fn graph_remove_node(g: &mut DepGraph, a: u16)
    requires
        graph_wf(*old(g)),
    ensures
        graph_nodes(*final(g)) == graph_nodes(*old(g)).remove(a),
        graph_edges(*final(g)) == edges_without(graph_edges(*old(g)), set![a]),
        graph_wf(*final(g)),
{
    g.remove_node(NodeIndex::new(a as usize));
}

/// `StableGraph::node_indices`: the live indices, in increasing order.
#[verifier::external_body]
pub(crate) fn graph_node_indices(g: &DepGraph) -> (r: Vec<u16>)
    requires
        graph_wf(*g),
    ensures
        forall|i: int, j: int| 0 <= i < j < r.len() ==> r[i] < r[j],
        forall|n: u16| graph_nodes(*g).dom().contains(n) <==> r@.contains(n),
{
    let mut r: Vec<u16> = Vec::new();
    for n in g.node_indices() {
        r.push(n.index() as u16);
    }
    r
}

/// `StableGraph::edges`: the outgoing edges of a live node, as (target, weight).
#[verifier::external_body]
pub(crate) fn graph_out_edges(g: &DepGraph, a: u16) -> (r: Vec<(u16, u32)>)
    requires
        graph_wf(*g),
        graph_nodes(*g).dom().contains(a),
    ensures
        forall|i: int| 0 <= i < r.len() ==> graph_edges(*g).contains((a, #[trigger] r[i].0, r[i].1)),
        forall|t: u16, w: u32| #[trigger] graph_edges(*g).contains((a, t, w)) ==> r@.contains((t, w)),
{
    let mut r: Vec<(u16, u32)> = Vec::new();
    for e in g.edges(NodeIndex::new(a as usize)) {
        r.push((e.target().index() as u16, *e.weight()));
    }
    r
}

/// `StableGraph::node_count`: the number of live nodes.
#[verifier::external_body]
pub(crate) fn graph_node_count(g: &DepGraph) -> (n: usize)
    requires
        graph_wf(*g),
    ensures
        n == graph_nodes(*g).len(),
{
    g.node_count()
}

/// `StableGraph::clone`: a graph with the same nodes and edges.
#[verifier::external_body]
pub(crate) fn graph_clone(g: &DepGraph) -> (c: DepGraph)
    ensures
        graph_nodes(c) == graph_nodes(*g),
        graph_edges(c) == graph_edges(*g),
{
    g.clone()
}



/// Whether `n` has an outgoing edge whose weight the selection accepts.
pub open spec fn has_selected_out_edge(
    edges: Multiset<(u16, u16, u32)>,
    n: u16,
    sel: spec_fn(u32) -> bool,
) -> bool {
    exists|t: u16, w: u32| #[trigger] edges.contains((n, t, w)) && sel(w)
}

/// One peeling level: the nodes without a selected outgoing edge.
pub open spec fn peel_level(
    nodes: Set<u16>,
    edges: Multiset<(u16, u16, u32)>,
    sel: spec_fn(u32) -> bool,
) -> Set<u16> {
    nodes.filter(|n: u16| !has_selected_out_edge(edges, n, sel))
}

/// `q` lists the elements of `s` in strictly increasing order.
pub open spec fn is_sorted_listing(q: Seq<u16>, s: Set<u16>) -> bool {
    &&& forall|i: int, j: int| 0 <= i < j < q.len() ==> q[i] < q[j]
    &&& forall|n: u16| s.contains(n) <==> q.contains(n)
}

/// The elements of a finite set of indices, in increasing order.
pub open spec fn sorted_listing(s: Set<u16>) -> Seq<u16> {
    choose|q: Seq<u16>| is_sorted_listing(q, s)
}

/// Removing a nonempty part of a finite set makes it smaller.
pub proof fn lemma_difference_smaller(s: Set<u16>, l: Set<u16>, x: u16)
    requires
        s.finite(),
        l.subset_of(s),
        l.contains(x),
    ensures
        s.difference(l).len() < s.len(),
{
    assert(s.difference(l).subset_of(s.remove(x)));
    vstd::set_lib::lemma_len_subset(s.difference(l), s.remove(x));
}

/// The order in which the peeling removes the nodes: each level in increasing
/// index order, levels one after the other, until a level is empty.
pub open spec fn peel_order(
    nodes: Set<u16>,
    edges: Multiset<(u16, u16, u32)>,
    sel: spec_fn(u32) -> bool,
) -> Seq<u16>
    decreases nodes.len(),
    when nodes.finite()
{
    let level = peel_level(nodes, edges, sel);
    if level.is_empty() {
        Seq::empty()
    } else {
        proof {
            let x = level.choose();
            lemma_difference_smaller(nodes, level, x);
        }
        sorted_listing(level) + peel_order(nodes.difference(level), edges_without(edges, level), sel)
    }
}

/// Two increasing listings of one set are the same sequence.
pub proof fn lemma_sorted_listing_unique(a: Seq<u16>, b: Seq<u16>, s: Set<u16>)
    requires
        is_sorted_listing(a, s),
        is_sorted_listing(b, s),
    ensures
        a == b,
    decreases a.len(),
{
    if a.len() == 0 {
        if b.len() > 0 {
            assert(b.contains(b[0]));
            assert(s.contains(b[0]));
        }
        assert(a =~= b);
    } else {
        assert(a.contains(a[0]));
        assert(b.len() > 0) by {
            assert(s.contains(a[0]));
        }
        assert(a[0] == b[0]) by {
            assert(s.contains(a[0]));
            assert(b.contains(a[0]));
            let k = choose|k: int| 0 <= k < b.len() && b[k] == a[0];
            assert(b.contains(b[0]));
            assert(s.contains(b[0]));
            let m = choose|m: int| 0 <= m < a.len() && a[m] == b[0];
            if k > 0 {
                assert(b[0] < b[k]);
                if m > 0 {
                    assert(a[0] < a[m]);
                }
            }
        }
        let s2 = s.remove(a[0]);
        let a2 = a.drop_first();
        let b2 = b.drop_first();
        assert forall|n: u16| s2.contains(n) <==> a2.contains(n) by {
            if s2.contains(n) {
                assert(a.contains(n));
                let i = choose|i: int| 0 <= i < a.len() && a[i] == n;
                assert(i > 0);
                assert(a2[i - 1] == n);
            }
            if a2.contains(n) {
                let i = choose|i: int| 0 <= i < a2.len() && a2[i] == n;
                assert(a[i + 1] == n);
                assert(a[0] < a[i + 1]);
                assert(a.contains(n));
            }
        }
        assert forall|n: u16| s2.contains(n) <==> b2.contains(n) by {
            if s2.contains(n) {
                assert(b.contains(n));
                let i = choose|i: int| 0 <= i < b.len() && b[i] == n;
                assert(i > 0);
                assert(b2[i - 1] == n);
            }
            if b2.contains(n) {
                let i = choose|i: int| 0 <= i < b2.len() && b2[i] == n;
                assert(b[i + 1] == n);
                assert(b[0] < b[i + 1]);
                assert(b.contains(n));
            }
        }
        lemma_sorted_listing_unique(a2, b2, s2);
        assert(a =~= seq![a[0]] + a2);
        assert(b =~= seq![b[0]] + b2);
    }
}

/// An increasing listing of a set is its `sorted_listing`.
pub proof fn lemma_sorted_listing_is(q: Seq<u16>, s: Set<u16>)
    requires
        is_sorted_listing(q, s),
    ensures
        sorted_listing(s) == q,
{
    let c = sorted_listing(s);
    assert(is_sorted_listing(c, s));
    lemma_sorted_listing_unique(c, q, s);
}

/// The selection an edge filter makes: the weights on which it answers `true`.
pub open spec fn selects<F: Fn(u32) -> bool>(f: F) -> spec_fn(u32) -> bool {
    |w: u32| f.ensures((w,), true)
}

/// An edge filter that can be called on every weight and answers one way on each.
pub open spec fn well_behaved_filter<F: Fn(u32) -> bool>(f: F) -> bool {
    &&& forall|w: u32| f.requires((w,))
    &&& forall|w: u32, r1: bool, r2: bool| f.ensures((w,), r1) && f.ensures((w,), r2) ==> r1 == r2
}

/// Whether node `n` has an outgoing edge that `filter` selects.
fn is_pointed<F: Fn(u32) -> bool>(graph: &DepGraph, n: u16, filter: &F) -> (r: bool)
    requires
        graph_wf(*graph),
        graph_nodes(*graph).dom().contains(n),
        well_behaved_filter(*filter),
    ensures
        r == has_selected_out_edge(graph_edges(*graph), n, selects(*filter)),
{
    let outs = graph_out_edges(graph, n);
    let mut pointed = false;
    let mut m: usize = 0;
    while m < outs.len() && !pointed
        invariant
            0 <= m <= outs.len(),
            well_behaved_filter(*filter),
            forall|i: int| 0 <= i < outs.len() ==> graph_edges(*graph).contains((n, #[trigger] outs[i].0, outs[i].1)),
            pointed ==> has_selected_out_edge(graph_edges(*graph), n, selects(*filter)),
            !pointed ==> forall|i: int| 0 <= i < m ==> !(#[trigger] filter.ensures((outs[i].1,), true)),
        decreases outs.len() - m,
    {
        let (t, w) = outs[m];
        let r = filter(w);
        if r {
            assert(graph_edges(*graph).contains((n, t, w)));
            assert(selects(*filter)(w));
            pointed = true;
        } else {
            assert(!filter.ensures((w,), true));
        }
        m = m + 1;
    }
    if !pointed {
        assert forall|t: u16, w: u32| #[trigger] graph_edges(*graph).contains((n, t, w)) implies !selects(*filter)(w) by {
            assert(outs@.contains((t, w)));
            let i = choose|i: int| 0 <= i < outs.len() && outs[i] == (t, w);
            assert(!filter.ensures((outs[i].1,), true));
        }
    }
    pointed
}

/// Peels the graph: repeatedly removes every node that has no outgoing edge
/// accepted by `filter`, listing each level in increasing index order.
/// Nodes left in the graph afterwards sit on or behind a cycle of selected edges.
pub fn get_invocation_order<F: Fn(u32) -> bool>(graph: &mut DepGraph, filter: F) -> (order: Vec<u16>)
    requires
        graph_wf(*old(graph)),
        well_behaved_filter(filter),
    ensures
        graph_wf(*final(graph)),
        order@ == peel_order(graph_nodes(*old(graph)).dom(), graph_edges(*old(graph)), selects(filter)),
        graph_nodes(*final(graph)) == graph_nodes(*old(graph)).remove_keys(order@.to_set()),
        graph_edges(*final(graph)) == edges_without(graph_edges(*old(graph)), order@.to_set()),
        forall|n: u16| #[trigger] graph_nodes(*final(graph)).dom().contains(n)
            ==> has_selected_out_edge(graph_edges(*final(graph)), n, selects(filter)),
{
    let ghost orig = *graph;
    let ghost sel = selects(filter);
    let mut invocation_order: Vec<u16> = Vec::new();
    let mut modified = true;
    proof {
        assert(graph_nodes(orig).remove_keys(invocation_order@.to_set()) =~= graph_nodes(orig));
        assert(edges_without(graph_edges(orig), invocation_order@.to_set()) =~= graph_edges(orig));
    }
    while modified
        invariant
            graph_wf(*graph),
            well_behaved_filter(filter),
            sel == selects(filter),
            graph_wf(orig),
            peel_order(graph_nodes(orig).dom(), graph_edges(orig), sel)
                == invocation_order@ + peel_order(graph_nodes(*graph).dom(), graph_edges(*graph), sel),
            graph_nodes(*graph) == graph_nodes(orig).remove_keys(invocation_order@.to_set()),
            graph_edges(*graph) == edges_without(graph_edges(orig), invocation_order@.to_set()),
            !modified ==> peel_level(graph_nodes(*graph).dom(), graph_edges(*graph), sel).is_empty(),
        decreases graph_nodes(*graph).len() + (if modified { 1int } else { 0int }),
    {
        let ghost cur = *graph;
        let ghost cur_order = invocation_order@;
        let ghost level = peel_level(graph_nodes(cur).dom(), graph_edges(cur), sel);
        let indices = graph_node_indices(graph);
        let mut to_delete: Vec<u16> = Vec::new();
        let ghost mut last_j: int = 0;
        let mut k: usize = 0;
        while k < indices.len()
            invariant
                *graph == cur,
                graph_wf(*graph),
                well_behaved_filter(filter),
                sel == selects(filter),
                level == peel_level(graph_nodes(cur).dom(), graph_edges(cur), sel),
                0 <= k <= indices.len(),
                forall|i: int, j: int| 0 <= i < j < indices.len() ==> indices[i] < indices[j],
                forall|n: u16| graph_nodes(*graph).dom().contains(n) <==> indices@.contains(n),
                forall|i: int, j: int| 0 <= i < j < to_delete.len() ==> to_delete[i] < to_delete[j],
                to_delete.len() > 0 ==> 0 <= last_j < k && to_delete[to_delete.len() - 1] == indices[last_j],
                forall|i: int| 0 <= i < to_delete.len() ==> level.contains(#[trigger] to_delete[i]),
                forall|j: int| 0 <= j < k && level.contains(#[trigger] indices[j]) ==> to_delete@.contains(indices[j]),
            decreases indices.len() - k,
        {
            let n = indices[k];
            assert(indices@.contains(n));
            let p = is_pointed(graph, n, &filter);
            if !p {
                proof {
                    if to_delete.len() > 0 {
                        assert(indices[last_j] < indices[k as int]);
                    }
                    last_j = k as int;
                }
                let ghost old_td = to_delete@;
                to_delete.push(n);
                proof {
                    assert forall|j: int| 0 <= j < k + 1 && level.contains(#[trigger] indices[j]) implies to_delete@.contains(indices[j]) by {
                        if j < k {
                            assert(old_td.contains(indices[j]));
                            let i = choose|i: int| 0 <= i < old_td.len() && old_td[i] == indices[j];
                            assert(to_delete@[i] == indices[j]);
                        } else {
                            assert(to_delete[to_delete.len() - 1] == indices[j]);
                        }
                    }
                }
            } else {
                assert(!level.contains(n));
            }
            k = k + 1;
        }
        proof {
            assert forall|n: u16| level.contains(n) <==> to_delete@.contains(n) by {
                if level.contains(n) {
                    assert(indices@.contains(n));
                    let j = choose|j: int| 0 <= j < indices.len() && indices[j] == n;
                    assert(level.contains(indices[j]));
                }
                if to_delete@.contains(n) {
                    let i = choose|i: int| 0 <= i < to_delete.len() && to_delete[i] == n;
                    assert(level.contains(to_delete[i]));
                }
            }
            assert(is_sorted_listing(to_delete@, level));
            lemma_sorted_listing_is(to_delete@, level);
        }
        let mut i: usize = 0;
        while i < to_delete.len()
            invariant
                graph_wf(*graph),
                0 <= i <= to_delete.len(),
                graph_nodes(*graph) == graph_nodes(cur).remove_keys(to_delete@.take(i as int).to_set()),
                graph_edges(*graph) == edges_without(graph_edges(cur), to_delete@.take(i as int).to_set()),
                invocation_order@ == cur_order + to_delete@.take(i as int),
            decreases to_delete.len() - i,
        {
            let x = to_delete[i];
            let ghost before = *graph;
            graph_remove_node(graph, x);
            invocation_order.push(x);
            proof {
                let s0 = to_delete@.take(i as int).to_set();
                let s1 = to_delete@.take(i + 1).to_set();
                assert(s1 =~= s0.insert(x)) by {
                    let t0 = to_delete@.take(i as int);
                    let t1 = to_delete@.take(i + 1);
                    assert(t1 =~= t0.push(x));
                    assert forall|n: u16| s1.contains(n) <==> s0.insert(x).contains(n) by {
                        if t1.contains(n) {
                            let j = choose|j: int| 0 <= j < t1.len() && t1[j] == n;
                            if j < t0.len() {
                                assert(t0[j] == n);
                            }
                        }
                        if t0.contains(n) {
                            let j = choose|j: int| 0 <= j < t0.len() && t0[j] == n;
                            assert(t1[j] == n);
                        }
                        if n == x {
                            assert(t1[i as int] == n);
                        }
                    }
                }
                assert(graph_nodes(*graph) =~= graph_nodes(cur).remove_keys(s1));
                assert(graph_edges(*graph) =~= edges_without(graph_edges(cur), s1));
                assert(invocation_order@ =~= cur_order + to_delete@.take(i + 1));
            }
            i = i + 1;
        }
        proof {
            assert(to_delete@.take(to_delete.len() as int) =~= to_delete@);
            assert(to_delete@.to_set() =~= level);
            let new_set = invocation_order@.to_set();
            assert(new_set =~= cur_order.to_set().union(level)) by {
                assert(invocation_order@ =~= cur_order + to_delete@);
                assert forall|n: u16| new_set.contains(n) <==> cur_order.to_set().union(level).contains(n) by {
                    if new_set.contains(n) {
                        let i = choose|i: int| 0 <= i < invocation_order.len() && invocation_order[i] == n;
                        if i < cur_order.len() {
                            assert(cur_order[i] == n);
                        } else {
                            assert(to_delete@[i - cur_order.len()] == n);
                        }
                    }
                    if cur_order.to_set().contains(n) {
                        let i = choose|i: int| 0 <= i < cur_order.len() && cur_order[i] == n;
                        assert(invocation_order[i] == n);
                    }
                    if level.contains(n) {
                        let i = choose|i: int| 0 <= i < to_delete.len() && to_delete[i] == n;
                        assert(invocation_order[cur_order.len() + i] == n);
                    }
                }
            }
            assert(graph_nodes(*graph) =~= graph_nodes(orig).remove_keys(new_set));
            assert(graph_edges(*graph) =~= edges_without(graph_edges(orig), new_set));
            assert(graph_nodes(*graph).dom() =~= graph_nodes(cur).dom().difference(level));
            assert(graph_edges(*graph) =~= edges_without(graph_edges(cur), level));
            if to_delete.len() > 0 {
                assert(level.contains(to_delete[0]));
                lemma_difference_smaller(graph_nodes(cur).dom(), level, to_delete[0]);
                assert(invocation_order@ =~= cur_order + to_delete@);
            } else {
                assert(level =~= Set::<u16>::empty());
                assert(graph_nodes(*graph) =~= graph_nodes(cur));
                assert(graph_edges(*graph) =~= graph_edges(cur));
                assert(invocation_order@ =~= cur_order);
            }
        }
        modified = to_delete.len() > 0;
    }
    proof {
        let rest = peel_level(graph_nodes(*graph).dom(), graph_edges(*graph), sel);
        assert forall|n: u16| #[trigger] graph_nodes(*graph).dom().contains(n)
            implies has_selected_out_edge(graph_edges(*graph), n, sel) by {
            if !has_selected_out_edge(graph_edges(*graph), n, sel) {
                assert(rest.contains(n));
            }
        }
        assert(invocation_order@ =~= invocation_order@ + Seq::<u16>::empty());
    }
    invocation_order
}

/// Law: the invocation order lists nodes of the graph, each at most once.
pub proof fn law_peel_order_lists_distinct_nodes(
    nodes: Set<u16>,
    edges: Multiset<(u16, u16, u32)>,
    sel: spec_fn(u32) -> bool,
)
    requires
        nodes.finite(),
    ensures
        forall|i: int| 0 <= i < peel_order(nodes, edges, sel).len()
            ==> nodes.contains(#[trigger] peel_order(nodes, edges, sel)[i]),
        forall|i: int, j: int| 0 <= i < j < peel_order(nodes, edges, sel).len()
            ==> peel_order(nodes, edges, sel)[i] != peel_order(nodes, edges, sel)[j],
    decreases nodes.len(),
{
    let level = peel_level(nodes, edges, sel);
    let order = peel_order(nodes, edges, sel);
    if !level.is_empty() {
        let x = level.choose();
        lemma_difference_smaller(nodes, level, x);
        let rest_nodes = nodes.difference(level);
        let rest_edges = edges_without(edges, level);
        law_peel_order_lists_distinct_nodes(rest_nodes, rest_edges, sel);
        let head = sorted_listing(level);
        let tail = peel_order(rest_nodes, rest_edges, sel);
        assert(level.finite()) by {
            vstd::set_lib::lemma_len_subset(level, nodes);
        }
        lemma_sorted_listing_exists(level);
        assert(is_sorted_listing(head, level));
        assert(order == head + tail);
        assert forall|i: int| 0 <= i < order.len() implies nodes.contains(#[trigger] order[i]) by {
            if i < head.len() {
                assert(head.contains(head[i]));
            } else {
                assert(tail[i - head.len()] == order[i]);
            }
        }
        assert forall|i: int, j: int| 0 <= i < j < order.len() implies order[i] != order[j] by {
            if j < head.len() {
            } else if i < head.len() {
                assert(head.contains(head[i]));
                assert(level.contains(order[i]));
                assert(rest_nodes.contains(tail[j - head.len()]));
            } else {
                assert(tail[i - head.len()] == order[i]);
                assert(tail[j - head.len()] == order[j]);
            }
        }
    }
}

/// Every finite set of indices has an increasing listing.
pub proof fn lemma_sorted_listing_exists(s: Set<u16>)
    requires
        s.finite(),
    ensures
        is_sorted_listing(sorted_listing(s), s),
    decreases s.len(),
{
    if s.is_empty() {
        let q = Seq::<u16>::empty();
        assert(is_sorted_listing(q, s));
    } else {
        let m = lemma_max_of(s);
        let s2 = s.remove(m);
        lemma_sorted_listing_exists(s2);
        let q2 = sorted_listing(s2);
        let q = q2.push(m);
        assert forall|i: int, j: int| 0 <= i < j < q.len() implies q[i] < q[j] by {
            if j == q.len() - 1 {
                assert(q2.contains(q2[i]));
                assert(s.contains(q[i]));
                assert(q[i] != m);
            }
        }
        assert forall|n: u16| s.contains(n) <==> q.contains(n) by {
            if s.contains(n) && n != m {
                assert(q2.contains(n));
                let i = choose|i: int| 0 <= i < q2.len() && q2[i] == n;
                assert(q[i] == n);
            }
            if n == m {
                assert(q[q.len() - 1] == n);
            }
            if q.contains(n) {
                let i = choose|i: int| 0 <= i < q.len() && q[i] == n;
                if i < q2.len() {
                    assert(q2[i] == n);
                    assert(q2.contains(n));
                }
            }
        }
        assert(is_sorted_listing(q, s));
    }
}

/// The largest element of a finite nonempty set of indices.
proof fn lemma_max_of(s: Set<u16>) -> (m: u16)
    requires
        s.finite(),
        !s.is_empty(),
    ensures
        s.contains(m),
        forall|n: u16| s.contains(n) ==> n <= m,
    decreases s.len(),
{
    let x = s.choose();
    let s2 = s.remove(x);
    if s2.is_empty() {
        assert forall|n: u16| s.contains(n) implies n <= x by {
            if n != x {
                assert(s2.contains(n));
            }
        }
        x
    } else {
        let m2 = lemma_max_of(s2);
        if m2 < x {
            assert forall|n: u16| s.contains(n) implies n <= x by {
                if n != x {
                    assert(s2.contains(n));
                }
            }
            x
        } else {
            assert forall|n: u16| s.contains(n) implies n <= m2 by {
                if n != x {
                    assert(s2.contains(n));
                }
            }
            m2
        }
    }
}

/// Law: the invocation order respects every selected edge that it covers.
/// When a node is invoked, the node each of its selected edges points to
/// was invoked before it.
pub proof fn law_peel_order_is_topological(
    nodes: Set<u16>,
    edges: Multiset<(u16, u16, u32)>,
    sel: spec_fn(u32) -> bool,
    u: u16,
    v: u16,
    w: u32,
    pos_u: int,
)
    requires
        nodes.finite(),
        edges.contains((u, v, w)),
        sel(w),
        0 <= pos_u < peel_order(nodes, edges, sel).len(),
        peel_order(nodes, edges, sel)[pos_u] == u,
    ensures
        exists|pos_v: int| 0 <= pos_v < pos_u && peel_order(nodes, edges, sel)[pos_v] == v,
    decreases nodes.len(),
{
    let level = peel_level(nodes, edges, sel);
    let order = peel_order(nodes, edges, sel);
    let x = level.choose();
    lemma_difference_smaller(nodes, level, x);
    assert(level.finite()) by {
        vstd::set_lib::lemma_len_subset(level, nodes);
    }
    lemma_sorted_listing_exists(level);
    let head = sorted_listing(level);
    let rest_nodes = nodes.difference(level);
    let rest_edges = edges_without(edges, level);
    let tail = peel_order(rest_nodes, rest_edges, sel);
    assert(order == head + tail);
    assert(has_selected_out_edge(edges, u, sel));
    if pos_u < head.len() {
        assert(head.contains(u));
        assert(level.contains(u));
        assert(false);
    }
    let pu = pos_u - head.len();
    assert(tail[pu] == u);
    law_peel_order_lists_distinct_nodes(rest_nodes, rest_edges, sel);
    assert(rest_nodes.contains(u));
    if level.contains(v) {
        assert(head.contains(v));
        let pv = choose|pv: int| 0 <= pv < head.len() && head[pv] == v;
        assert(order[pv] == v);
    } else {
        assert(rest_edges.contains((u, v, w)));
        law_peel_order_is_topological(rest_nodes, rest_edges, sel, u, v, w, pu);
        let pv = choose|pv: int| 0 <= pv < pu && tail[pv] == v;
        assert(order[pv + head.len()] == v);
    }
}

/// A node of least rank in a finite nonempty set.
proof fn lemma_min_rank(s: Set<u16>, rank: spec_fn(u16) -> int) -> (m: u16)
    requires
        s.finite(),
        !s.is_empty(),
    ensures
        s.contains(m),
        forall|n: u16| s.contains(n) ==> rank(m) <= rank(n),
    decreases s.len(),
{
    let x = s.choose();
    let s2 = s.remove(x);
    if s2.is_empty() {
        assert forall|n: u16| s.contains(n) implies rank(x) <= rank(n) by {
            if n != x {
                assert(s2.contains(n));
            }
        }
        x
    } else {
        let m2 = lemma_min_rank(s2, rank);
        if rank(x) < rank(m2) {
            assert forall|n: u16| s.contains(n) implies rank(x) <= rank(n) by {
                if n != x {
                    assert(s2.contains(n));
                }
            }
            x
        } else {
            assert forall|n: u16| s.contains(n) implies rank(m2) <= rank(n) by {
                if n != x {
                    assert(s2.contains(n));
                }
            }
            m2
        }
    }
}

/// Law: when the selected edges never climb in some ranking of the nodes
/// (so that they form no cycle), the peeling invokes every node.
pub proof fn law_peel_order_covers_acyclic_graph(
    nodes: Set<u16>,
    edges: Multiset<(u16, u16, u32)>,
    sel: spec_fn(u32) -> bool,
    rank: spec_fn(u16) -> int,
)
    requires
        nodes.finite(),
        forall|e: (u16, u16, u32)| #[trigger] edges.contains(e) ==> nodes.contains(e.0) && nodes.contains(e.1),
        forall|e: (u16, u16, u32)| #[trigger] edges.contains(e) && sel(e.2) ==> rank(e.1) < rank(e.0),
    ensures
        forall|n: u16| nodes.contains(n) ==> peel_order(nodes, edges, sel).contains(n),
    decreases nodes.len(),
{
    let level = peel_level(nodes, edges, sel);
    let order = peel_order(nodes, edges, sel);
    if nodes.is_empty() {
        return;
    }
    let m = lemma_min_rank(nodes, rank);
    assert(level.contains(m)) by {
        if has_selected_out_edge(edges, m, sel) {
            let (t, w) = choose|t: u16, w: u32| #[trigger] edges.contains((m, t, w)) && sel(w);
            assert(edges.contains((m, t, w)));
            assert(nodes.contains(t));
        }
    }
    lemma_difference_smaller(nodes, level, m);
    assert(level.finite()) by {
        vstd::set_lib::lemma_len_subset(level, nodes);
    }
    lemma_sorted_listing_exists(level);
    let head = sorted_listing(level);
    let rest_nodes = nodes.difference(level);
    let rest_edges = edges_without(edges, level);
    assert(order == head + peel_order(rest_nodes, rest_edges, sel));
    assert forall|e: (u16, u16, u32)| #[trigger] rest_edges.contains(e)
        implies rest_nodes.contains(e.0) && rest_nodes.contains(e.1) && (sel(e.2) ==> rank(e.1) < rank(e.0)) by {
        assert(edges.contains(e));
    }
    law_peel_order_covers_acyclic_graph(rest_nodes, rest_edges, sel, rank);
    let tail = peel_order(rest_nodes, rest_edges, sel);
    assert forall|n: u16| nodes.contains(n) implies order.contains(n) by {
        if level.contains(n) {
            let i = choose|i: int| 0 <= i < head.len() && head[i] == n;
            assert(order[i] == n);
        } else {
            assert(rest_nodes.contains(n));
            let i = choose|i: int| 0 <= i < tail.len() && tail[i] == n;
            assert(order[i + head.len()] == n);
        }
    }
}

/// Whether every node of `s` is a node of the graph with a selected edge to
/// another node of `s`: the nodes of a cycle of selected edges, and those
/// that reach one.
#[verifier::opaque]
pub open spec fn closed_under_selected(
    nodes: Set<u16>,
    edges: Multiset<(u16, u16, u32)>,
    sel: spec_fn(u32) -> bool,
    s: Set<u16>,
) -> bool {
    forall|x: u16| #[trigger] s.contains(x) ==> nodes.contains(x)
        && exists|y: u16, w: u32| #[trigger] edges.contains((x, y, w)) && s.contains(y) && sel(w)
}

/// A closed set that a peeling level does not touch stays closed in what is left.
proof fn lemma_closed_after_level(
    nodes: Set<u16>,
    edges: Multiset<(u16, u16, u32)>,
    sel: spec_fn(u32) -> bool,
    s: Set<u16>,
)
    requires
        closed_under_selected(nodes, edges, sel, s),
    ensures
        forall|z: u16| s.contains(z) ==> !peel_level(nodes, edges, sel).contains(z),
        closed_under_selected(
            nodes.difference(peel_level(nodes, edges, sel)),
            edges_without(edges, peel_level(nodes, edges, sel)),
            sel,
            s,
        ),
{
    reveal(closed_under_selected);
    let level = peel_level(nodes, edges, sel);
    let rest_edges = edges_without(edges, level);
    assert forall|z: u16| s.contains(z) implies !level.contains(z) by {
        let (y, w) = choose|y: u16, w: u32| #[trigger] edges.contains((z, y, w)) && s.contains(y) && sel(w);
        assert(has_selected_out_edge(edges, z, sel));
    }
    assert forall|z: u16| #[trigger] s.contains(z) implies nodes.difference(level).contains(z)
        && exists|y: u16, w: u32| #[trigger] rest_edges.contains((z, y, w)) && s.contains(y) && sel(w) by {
        let (y, w) = choose|y: u16, w: u32| #[trigger] edges.contains((z, y, w)) && s.contains(y) && sel(w);
        assert(!level.contains(y));
        assert(!level.contains(z));
        assert(rest_edges.contains((z, y, w)));
    }
}

/// Law: the peeling never invokes a node of a set closed under selected edges;
/// such nodes stay in the graph.
pub proof fn law_peel_order_spares_closed_sets(
    nodes: Set<u16>,
    edges: Multiset<(u16, u16, u32)>,
    sel: spec_fn(u32) -> bool,
    s: Set<u16>,
)
    requires
        nodes.finite(),
        closed_under_selected(nodes, edges, sel, s),
    ensures
        forall|i: int| 0 <= i < peel_order(nodes, edges, sel).len()
            ==> !s.contains(#[trigger] peel_order(nodes, edges, sel)[i]),
    decreases nodes.len(),
{
    let level = peel_level(nodes, edges, sel);
    let order = peel_order(nodes, edges, sel);
    if !level.is_empty() {
        let x = level.choose();
        lemma_difference_smaller(nodes, level, x);
        assert(level.finite()) by {
            vstd::set_lib::lemma_len_subset(level, nodes);
        }
        lemma_sorted_listing_exists(level);
        let head = sorted_listing(level);
        let rest_nodes = nodes.difference(level);
        let rest_edges = edges_without(edges, level);
        let tail = peel_order(rest_nodes, rest_edges, sel);
        assert(order == head + tail);
        lemma_closed_after_level(nodes, edges, sel, s);
        law_peel_order_spares_closed_sets(rest_nodes, rest_edges, sel, s);
        assert forall|i: int| 0 <= i < order.len() implies !s.contains(#[trigger] order[i]) by {
            if i < head.len() {
                assert(head.contains(head[i]));
                assert(level.contains(order[i]));
            } else {
                assert(tail[i - head.len()] == order[i]);
            }
        }
    }
}

} // verus!
