//! Graph algorithms of `petgraph` and `graph-cycles` on graphs whose nodes
//! are the numbers below a node count and whose edges are listed as pairs.

use petgraph::graph::{DiGraph, NodeIndex};
use petgraph::visit::EdgeRef;
use graph_cycles::Cycles;

use vstd::prelude::*;

verus! {

/// Whether all edges connect nodes below `node_count`.
pub open spec fn edges_within(node_count: nat, edges: Seq<(usize, usize)>) -> bool {
    forall|i: int| 0 <= i < edges.len() ==> (#[trigger] edges[i]).0 < node_count && edges[i].1 < node_count
}

/// Whether `path` is a nonempty sequence of nodes in which each node is
/// followed by one of its successors.
pub open spec fn is_path(edges: Seq<(usize, usize)>, path: Seq<usize>) -> bool {
    &&& path.len() >= 1
    &&& forall|i: int| 0 <= i < path.len() - 1 ==> edges.contains((#[trigger] path[i], path[i + 1]))
}

/// Whether `b` can be reached from `a` along zero or more edges.
pub open spec fn reachable(edges: Seq<(usize, usize)>, a: usize, b: usize) -> bool {
    exists|path: Seq<usize>| is_path(edges, path) && path[0] == a && path.last() == b
}

/// Whether some node can be reached from itself along one or more edges.
pub open spec fn has_cycle(edges: Seq<(usize, usize)>) -> bool {
    exists|path: Seq<usize>| is_path(edges, path) && path.len() >= 2 && path[0] == path.last()
}

/// Whether some component contains the node `a`.
pub open spec fn covered(comps: Seq<Vec<usize>>, a: usize) -> bool {
    exists|c: int, k: int| 0 <= c < comps.len() && 0 <= k < comps[c]@.len() && #[trigger] comps[c]@[k] == a
}

/// Whether `comps` lists every node below `node_count` exactly once.
pub open spec fn partitions(node_count: nat, comps: Seq<Vec<usize>>) -> bool {
    &&& forall|c: int, k: int| 0 <= c < comps.len() && 0 <= k < comps[c]@.len() ==> (#[trigger] comps[c]@[k]) < node_count
    &&& forall|a: usize| a < node_count ==> #[trigger] covered(comps, a)
    &&& forall|c1: int, k1: int, c2: int, k2: int|
        0 <= c1 < comps.len() && 0 <= k1 < comps[c1]@.len() && 0 <= c2 < comps.len() && 0 <= k2 < comps[c2]@.len()
        && #[trigger] comps[c1]@[k1] == #[trigger] comps[c2]@[k2] ==> c1 == c2 && k1 == k2
}

/// Whether the nodes `a` and `b` lie in the same component.
pub open spec fn same_component(comps: Seq<Vec<usize>>, a: usize, b: usize) -> bool {
    exists|c: int| 0 <= c < comps.len() && (#[trigger] comps[c]@).contains(a) && comps[c]@.contains(b)
}

/// The index of the component that contains `a`.
pub open spec fn component_of(comps: Seq<Vec<usize>>, a: usize) -> int {
    choose|c: int| 0 <= c < comps.len() && (#[trigger] comps[c]@).contains(a)
}

/// Whether the nodes are in strictly increasing order.
pub open spec fn sorted_nodes(nodes: Seq<usize>) -> bool {
    forall|k1: int, k2: int| 0 <= k1 < k2 < nodes.len() ==> nodes[k1] < nodes[k2]
}

/// Whether the node `a` shares a component with exactly the nodes from which
/// it can be reached and which it can reach.
pub open spec fn mutual_reachability_components(edges: Seq<(usize, usize)>, comps: Seq<Vec<usize>>, a: usize) -> bool {
    forall|b: usize| (#[trigger] same_component(comps, a, b)) <==> reachable(edges, a, b) && reachable(edges, b, a)
}

/// Whether the source of the edge comes before its target in `order`.
pub open spec fn ordered_edge(order: Seq<usize>, edge: (usize, usize)) -> bool {
    forall|i: int, j: int| 0 <= i < order.len() && 0 <= j < order.len() && #[trigger] order[i] == edge.0 && #[trigger] order[j] == edge.1 ==> i < j
}

/// The strongly connected components of a graph and the edges between them.
pub struct CondensedGraph {
    /// The components; the nodes of the condensed graph
    pub components: Vec<Vec<usize>>,
    /// The edges between components, given by their indices
    pub edges: Vec<(usize, usize)>,
}

/// Computes the strongly connected components of the graph and the edges
/// between them.
///
/// Calls `petgraph::algo::condensation` with `make_acyclic` set, on a graph
/// whose node `i` has the weight `i`, indexed by `usize` so that adding
/// nodes and edges reaches no index limit. The contract states what petgraph's
/// documentation and source show: every node lies in exactly one component,
/// two nodes share a component exactly when each is reachable from the
/// other, the weights of a component appear in the order of their nodes,
/// the condensed graph has an edge between two distinct components exactly
/// when some edge of the graph connects them, holds no self-loop and no
/// multi-edge, and has no cycle.
#[verifier::external_body]
pub(crate) fn condensation(node_count: usize, edges: &Vec<(usize, usize)>) -> (r: CondensedGraph)
    requires
        edges_within(node_count as nat, edges@),
    ensures
        partitions(node_count as nat, r.components@),
        forall|c: int| 0 <= c < r.components@.len() ==> (#[trigger] r.components@[c])@.len() > 0,
        forall|c: int| 0 <= c < r.components@.len() ==> sorted_nodes(#[trigger] r.components@[c]@),
        forall|a: usize| a < node_count ==> mutual_reachability_components(edges@, r.components@, a),
        edges_within(r.components@.len(), r.edges@),
        r.edges@.no_duplicates(),
        forall|i: int| 0 <= i < r.edges@.len() ==> (#[trigger] r.edges@[i]).0 != r.edges@[i].1,
        forall|i: int| 0 <= i < edges@.len() && component_of(r.components@, (#[trigger] edges@[i]).0) != component_of(r.components@, edges@[i].1)
            ==> r.edges@.contains((component_of(r.components@, edges@[i].0) as usize, component_of(r.components@, edges@[i].1) as usize)),
        !has_cycle(r.edges@),
{
    let mut graph = DiGraph::<usize, (), usize>::default();
    for i in 0..node_count {
        graph.add_node(i);
    }
    for (a, b) in edges.iter() {
        graph.add_edge(NodeIndex::<usize>::new(*a), NodeIndex::<usize>::new(*b), ());
    }
    let condensed = petgraph::algo::condensation(graph, true);
    let comps = condensed.node_indices().map(|n| condensed[n].clone()).collect();
    let cedges = condensed.edge_references().map(|e| (e.source().index(), e.target().index())).collect();
    CondensedGraph { components: comps, edges: cedges }
}

/// Sorts the nodes of the graph topologically.
///
/// Calls `petgraph::algo::toposort` on a graph indexed by `usize`, so that
/// adding nodes and edges reaches no index limit. Its documentation promises a list of
/// the nodes in which each node comes before its successors if the graph is
/// acyclic, and an error if it has a cycle (a self-loop counts as a cycle).
/// The error carries a node on a cycle, which is returned.
#[verifier::external_body]
pub(crate) fn toposort(node_count: usize, edges: &Vec<(usize, usize)>) -> (r: Result<Vec<usize>, usize>)
    requires
        edges_within(node_count as nat, edges@),
    ensures
        match r {
            Ok(order) => {
                &&& order@.len() == node_count
                &&& order@.no_duplicates()
                &&& forall|i: int| 0 <= i < order@.len() ==> #[trigger] order@[i] < node_count
                &&& forall|k: int| 0 <= k < edges@.len() ==> ordered_edge(order@, #[trigger] edges@[k])
            },
            Err(_) => has_cycle(edges@),
        },
{
    let mut graph = DiGraph::<usize, (), usize>::default();
    for i in 0..node_count {
        graph.add_node(i);
    }
    for (a, b) in edges.iter() {
        graph.add_edge(NodeIndex::<usize>::new(*a), NodeIndex::<usize>::new(*b), ());
    }
    match petgraph::algo::toposort(&graph, None) {
        Ok(order) => Ok(order.iter().map(|n| n.index()).collect()),
        Err(cycle) => Err(cycle.node_id().index()),
    }
}

/// The index after `i` in a cycle of `n` nodes.
pub open spec fn next_index(i: int, n: int) -> int {
    if i + 1 < n { i + 1 } else { 0 }
}

/// The index `i` shifted by `k` in a cycle of `n` nodes.
pub open spec fn shifted_index(i: int, k: int, n: int) -> int {
    if i + k < n { i + k } else { i + k - n }
}

/// Whether `cycle` is an elementary cycle of the graph: a nonempty sequence
/// of distinct nodes, each followed by a successor and the last by the first.
pub open spec fn is_elementary_cycle(edges: Seq<(usize, usize)>, cycle: Seq<usize>) -> bool {
    &&& cycle.len() >= 1
    &&& cycle.no_duplicates()
    &&& forall|i: int| 0 <= i < cycle.len() ==> edges.contains((#[trigger] cycle[i], cycle[next_index(i, cycle.len() as int)]))
}

/// Whether `b` lists the nodes of `a`, starting at one of them.
pub open spec fn is_rotation(a: Seq<usize>, b: Seq<usize>) -> bool {
    &&& a.len() == b.len()
    &&& exists|k: int| 0 <= k < a.len() && #[trigger] rotated_by(a, b, k)
}

/// Whether `b` lists the nodes of `a` starting at position `k`.
pub open spec fn rotated_by(a: Seq<usize>, b: Seq<usize>, k: int) -> bool {
    forall|i: int| 0 <= i < b.len() ==> #[trigger] b[i] == a[shifted_index(i, k, a.len() as int)]
}

/// Whether some sequence of `cycles` lists the nodes of `c` in the same cyclic order.
pub open spec fn lists_cycle(cycles: Seq<Vec<usize>>, c: Seq<usize>) -> bool {
    exists|i: int| 0 <= i < cycles.len() && is_rotation(#[trigger] cycles[i]@, c)
}

/// Whether `walk` is a closed walk of the graph: each node is followed by a
/// successor, and the last by the first.
pub open spec fn is_closed_walk(edges: Seq<(usize, usize)>, walk: Seq<usize>) -> bool {
    forall|i: int| 0 <= i < walk.len() ==> #[trigger] edges.contains((walk[i], walk[next_index(i, walk.len() as int)]))
}

/// The most nodes of a graph whose cycles are searched: the search recurses
/// once per node on the path that it follows, so the stack bounds it.
pub const CYCLE_SEARCH_LIMIT: usize = 1024;

/// Finds the elementary cycles of the graph.
///
/// Calls `Cycles::cycles` of `graph-cycles` on a petgraph graph with the
/// given nodes and edges, indexed by `usize` so that no index limit is
/// reached. Both the strongly connected components that it starts from
/// (`petgraph::algo::tarjan_scc`) and its search recurse once per node on a
/// path, so the graph is kept to at most [CYCLE_SEARCH_LIMIT] nodes. The
/// contract states what the crate documents ("find all cycles", Johnson's
/// algorithm for all elementary circuits) and what its source shows: each
/// returned sequence is a closed walk along edges of the graph, the last node
/// leading back to the first, and every elementary cycle of the graph is
/// returned, starting at one of its nodes. That the nodes of each returned
/// sequence are distinct is left open: the search keeps the blocked lists of
/// earlier starting nodes, which can unblock a node that is on the path. The
/// order of the sequences is left open too.
#[verifier::external_body]
pub(crate) fn elementary_cycles(node_count: usize, edges: &Vec<(usize, usize)>) -> (cycles: Vec<Vec<usize>>)
    requires
        node_count <= CYCLE_SEARCH_LIMIT,
        edges_within(node_count as nat, edges@),
    ensures
        forall|i: int| 0 <= i < cycles@.len() ==> is_closed_walk(edges@, #[trigger] cycles@[i]@),
        forall|c: Seq<usize>| #[trigger] is_elementary_cycle(edges@, c) ==> lists_cycle(cycles@, c),
{
    let mut graph = DiGraph::<(), (), usize>::default();
    for _ in 0..node_count {
        graph.add_node(());
    }
    for (a, b) in edges.iter() {
        graph.add_edge(NodeIndex::<usize>::new(*a), NodeIndex::<usize>::new(*b), ());
    }
    graph.cycles().iter().map(|c| c.iter().map(|n| n.index()).collect()).collect()
}

/// The step of `walk` from its node `i` to the next.
pub open spec fn walk_step(walk: Seq<usize>, i: int) -> (usize, usize) {
    (walk[i], walk[i + 1])
}

/// Whether each node of `walk` is followed by a successor.
pub open spec fn is_walk(edges: Seq<(usize, usize)>, walk: Seq<usize>) -> bool {
    forall|i: int| 0 <= i < walk.len() - 1 ==> edges.contains(#[trigger] walk_step(walk, i))
}

/// A walk gives a walk of distinct nodes between the same two nodes.
pub proof fn lemma_walk_to_path(edges: Seq<(usize, usize)>, w: Seq<usize>) -> (p: Seq<usize>)
    requires
        w.len() >= 1,
        is_walk(edges, w),
    ensures
        p.len() >= 1,
        p[0] == w[0],
        p.last() == w.last(),
        p.no_duplicates(),
        is_walk(edges, p),
    decreases w.len(),
{
    if w.no_duplicates() {
        w
    } else {
        let (i, j) = choose|i: int, j: int| 0 <= i < w.len() && 0 <= j < w.len() && i != j && w[i] == w[j];
        let (lo, hi) = if i < j { (i, j) } else { (j, i) };
        let v = w.subrange(0, lo) + w.subrange(hi, w.len() as int);
        assert(v.len() == w.len() - (hi - lo));
        assert forall|k: int| 0 <= k < v.len() implies #[trigger] v[k] == (if k < lo { w[k] } else { w[k - lo + hi] }) by {
            if k < lo {
                assert(w.subrange(0, lo)[k] == w[k]);
            } else {
                assert(w.subrange(hi, w.len() as int)[k - lo] == w[k - lo + hi]);
            }
        }
        assert forall|k: int| 0 <= k < v.len() - 1 implies edges.contains(#[trigger] walk_step(v, k)) by {
            let a = v[k];
            let b = v[k + 1];
            if k + 1 < lo {
                assert(a == w[k] && b == w[k + 1]);
                assert(edges.contains(walk_step(w, k)));
            } else if k + 1 == lo {
                assert(a == w[k] && b == w[hi]);
                assert(w[k + 1] == w[lo]);
                assert(edges.contains(walk_step(w, k)));
            } else {
                let m = k - lo + hi;
                assert(a == w[m] && b == w[m + 1]);
                assert(0 <= m < w.len() - 1);
                assert(edges.contains(walk_step(w, m)));
            }
        }
        assert(v[0] == w[0]) by {
            if lo == 0 { assert(v[0] == w[hi]); }
        }
        assert(v.last() == w.last()) by {
            assert(v[v.len() - 1] == w[v.len() - 1 - lo + hi]);
        }
        lemma_walk_to_path(edges, v)
    }
}

/// A consecutive pair of a rotation is a consecutive pair of the cycle that was rotated.
pub proof fn lemma_rotation_pair(a: Seq<usize>, b: Seq<usize>, k: int, i: int)
    requires
        a.len() == b.len(),
        0 <= k < a.len(),
        rotated_by(a, b, k),
        0 <= i < b.len(),
    ensures
        0 <= shifted_index(i, k, a.len() as int) < a.len(),
        b[i] == a[shifted_index(i, k, a.len() as int)],
        b[next_index(i, b.len() as int)] == a[next_index(shifted_index(i, k, a.len() as int), a.len() as int)],
{
    let n = a.len() as int;
    assert(b[i] == a[shifted_index(i, k, n)]);
    let j = next_index(i, n);
    assert(b[j] == a[shifted_index(j, k, n)]);
}

} // verus!
