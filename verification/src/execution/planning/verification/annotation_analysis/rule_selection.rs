//! Selection strategy for rules during static analysis

use vstd::prelude::*;

use crate::execution::planning::normalization::rule::NormalizedRule;

use super::graph_algorithms::{
    component_of, condensation, covered, edges_within, has_cycle, is_path, mutual_reachability_components,
    ordered_edge, partitions, reachable, same_component, sorted_nodes, toposort,
};

verus! {

/// Whether a head predicate of rule `i` occurs in the positive body of rule `j`.
pub open spec fn positive_dependency(rules: Seq<NormalizedRule>, i: int, j: int) -> bool {
    exists|h: int, b: int| 0 <= h < rules[i].head@.len() && 0 <= b < rules[j].positive@.len()
        && (#[trigger] rules[i].head@[h]).predicate@ == (#[trigger] rules[j].positive@[b]).predicate@
}

/// Whether `edges` holds exactly the positive dependencies between the rules.
pub open spec fn is_dependency_graph(rules: Seq<NormalizedRule>, edges: Seq<(usize, usize)>) -> bool {
    &&& edges_within(rules.len(), edges)
    &&& forall|i: usize, j: usize| i < rules.len() && j < rules.len() ==> (#[trigger] edges.contains((i, j))
        <==> positive_dependency(rules, i as int, j as int))
}

/// The rules of a sequence of references.
pub open spec fn deref_rules(rules: Seq<&NormalizedRule>) -> Seq<NormalizedRule> {
    rules.map_values(|r: &NormalizedRule| *r)
}

/// Returns true if a head predicate of `producer` occurs in the positive body of `consumer`.
pub fn depends_positively(producer: &NormalizedRule, consumer: &NormalizedRule) -> (r: bool)
    ensures
        r == exists|h: int, b: int| 0 <= h < producer.head@.len() && 0 <= b < consumer.positive@.len()
            && (#[trigger] producer.head@[h]).predicate@ == (#[trigger] consumer.positive@[b]).predicate@,
{
    let nh = producer.head.len();
    let np = consumer.positive.len();
    let mut h: usize = 0;
    while h < nh
        invariant
            nh == producer.head@.len(),
            np == consumer.positive@.len(),
            0 <= h <= nh,
            forall|x: int, y: int| 0 <= x < h && 0 <= y < np ==>
                (#[trigger] producer.head@[x]).predicate@ != (#[trigger] consumer.positive@[y]).predicate@,
        decreases nh - h,
    {
        let mut b: usize = 0;
        while b < np
            invariant
                nh == producer.head@.len(),
                np == consumer.positive@.len(),
                0 <= h < nh,
                0 <= b <= np,
                forall|y: int| 0 <= y < b ==> producer.head@[h as int].predicate@ != (#[trigger] consumer.positive@[y]).predicate@,
            decreases np - b,
        {
            if producer.head[h].predicate == consumer.positive[b].predicate {
                return true;
            }
            b = b + 1;
        }
        h = h + 1;
    }
    false
}

/// Builds the positive dependency graph of the rules: an edge from rule `i`
/// to rule `j` if a head predicate of rule `i` occurs in the positive body of
/// rule `j`.
pub fn build_dependency_graph(rules: &Vec<&NormalizedRule>) -> (edges: Vec<(usize, usize)>)
    ensures
        is_dependency_graph(deref_rules(rules@), edges@),
{
    let ghost rs = deref_rules(rules@);
    let n = rules.len();
    let mut edges: Vec<(usize, usize)> = Vec::new();
    let mut i: usize = 0;
    while i < n
        invariant
            n == rules@.len(),
            rs == deref_rules(rules@),
            0 <= i <= n,
            edges_within(n as nat, edges@),
            forall|a: usize, b: usize| a < n && b < n ==> (#[trigger] edges@.contains((a, b))
                <==> a < i && positive_dependency(rs, a as int, b as int)),
        decreases n - i,
    {
        let mut j: usize = 0;
        while j < n
            invariant
                n == rules@.len(),
                rs == deref_rules(rules@),
                0 <= i < n,
                0 <= j <= n,
                edges_within(n as nat, edges@),
                forall|a: usize, b: usize| a < n && b < n ==> (#[trigger] edges@.contains((a, b))
                    <==> (a < i && positive_dependency(rs, a as int, b as int))
                        || (a == i && b < j && positive_dependency(rs, a as int, b as int))),
            decreases n - j,
        {
            let ghost before = edges@;
            if depends_positively(rules[i], rules[j]) {
                edges.push((i, j));
            }
            proof {
                assert(rs[i as int] == *rules@[i as int]);
                assert(rs[j as int] == *rules@[j as int]);
                assert forall|a: usize, b: usize| a < n && b < n implies (#[trigger] edges@.contains((a, b))
                    <==> (a < i && positive_dependency(rs, a as int, b as int))
                        || (a == i && b < j + 1 && positive_dependency(rs, a as int, b as int))) by {
                    if edges@.contains((a, b)) && !before.contains((a, b)) {
                        assert(edges@.last() == (i, j));
                        let w = choose|w: int| 0 <= w < edges@.len() && edges@[w] == (a, b);
                        if w < before.len() { assert(before[w] == (a, b)); }
                    }
                    if before.contains((a, b)) {
                        let w = choose|w: int| 0 <= w < before.len() && before[w] == (a, b);
                        assert(edges@[w] == (a, b));
                    }
                    if a == i && b == j && positive_dependency(rs, a as int, b as int) {
                        assert(edges@[edges@.len() - 1] == (a, b));
                    }
                }
            }
            j = j + 1;
        }
        i = i + 1;
    }
    edges
}

/// Defines the order in which the strongly connected components of the
/// positive rule dependency graph are analyzed
#[derive(Debug)]
pub struct RuleAnalysisGraph {
    ordered_sccs: Vec<Vec<usize>>,
    current_scc_index: usize,
}

impl RuleAnalysisGraph {
    /// The components in the order of analysis.
    pub closed spec fn spec_sccs(&self) -> Seq<Vec<usize>> {
        self.ordered_sccs@
    }

    /// The index of the next component to return.
    pub closed spec fn spec_index(&self) -> usize {
        self.current_scc_index
    }

    /// Constructs a new [RuleAnalysisGraph]: the strongly connected components
    /// of the positive dependency graph of the rules, ordered such that a rule
    /// comes no later than each rule that depends on it.
    pub fn new(rules: Vec<&NormalizedRule>) -> (graph: Self)
        ensures
            graph.spec_index() == 0,
            exists|edges: Seq<(usize, usize)>| #[trigger] is_dependency_graph(deref_rules(rules@), edges)
                && topologically_ordered_sccs(rules@.len(), edges, graph.spec_sccs()),
            forall|c: int| 0 <= c < graph.spec_sccs().len() ==> (#[trigger] graph.spec_sccs()[c])@.len() > 0,
            graph.spec_sccs().len() <= rules@.len(),
    {
        let n = rules.len();
        let edges = build_dependency_graph(&rules);
        let condensed = condensation(n, &edges);
        let m = condensed.components.len();
        let order = match toposort(m, &condensed.edges) {
            Ok(order) => order,
            Err(_) => {
                proof { assert(false); }
                Vec::new()
            },
        };
        let mut ordered_sccs: Vec<Vec<usize>> = Vec::new();
        let mut k: usize = 0;
        while k < m
            invariant
                m == condensed.components@.len(),
                order@.len() == m,
                forall|i: int| 0 <= i < order@.len() ==> #[trigger] order@[i] < m,
                0 <= k <= m,
                ordered_sccs@.len() == k,
                forall|i: int| 0 <= i < k ==> (#[trigger] ordered_sccs@[i])@ == condensed.components@[order@[i] as int]@,
                forall|c: int| 0 <= c < condensed.components@.len() ==> (#[trigger] condensed.components@[c])@.len() > 0,
            decreases m - k,
        {
            let comp = condensed.components[order[k]].clone();
            ordered_sccs.push(comp);
            k = k + 1;
        }
        let graph = RuleAnalysisGraph { ordered_sccs, current_scc_index: 0 };
        proof {
            assert(reordered(condensed.components@, order@, graph.ordered_sccs@));
            lemma_reordered_components(n as nat, edges@, condensed.components@, condensed.edges@, order@, graph.ordered_sccs@);
            assert forall|c: int| 0 <= c < graph.spec_sccs().len() implies (#[trigger] graph.spec_sccs()[c])@.len() > 0 by {
                assert(graph.ordered_sccs@[c]@ == condensed.components@[order@[c] as int]@);
            }
            lemma_component_count(n as nat, graph.ordered_sccs@);
        }
        graph
    }

    /// Returns the next strongly connected component, if there is one left
    pub fn next_scc(&mut self) -> (scc: Option<Vec<usize>>)
        requires
            old(self).spec_index() < usize::MAX,
        ensures
            final(self).spec_index() == old(self).spec_index() + 1,
            final(self).spec_sccs() == old(self).spec_sccs(),
            scc_step(*old(self), *final(self), scc),
    {
        let index = self.current_scc_index;
        self.current_scc_index = self.current_scc_index + 1;
        if self.current_scc_index <= self.ordered_sccs.len() {
            return Some(self.ordered_sccs[index].clone());
        }
        None
    }

    /// Restarts the enumeration of the components at the first one
    pub fn reset_scc_count(&mut self)
        ensures
            final(self).spec_index() == 0,
            final(self).spec_sccs() == old(self).spec_sccs(),
    {
        self.current_scc_index = 0;
    }
}

impl Clone for RuleAnalysisGraph {
    fn clone(&self) -> (graph: Self)
        ensures
            graph.spec_index() == self.spec_index(),
            graph.spec_sccs().len() == self.spec_sccs().len(),
            forall|i: int| 0 <= i < self.spec_sccs().len() ==> (#[trigger] graph.spec_sccs()[i])@ == self.spec_sccs()[i]@,
    {
        let mut ordered_sccs: Vec<Vec<usize>> = Vec::new();
        let m = self.ordered_sccs.len();
        let mut k: usize = 0;
        while k < m
            invariant
                m == self.ordered_sccs@.len(),
                0 <= k <= m,
                ordered_sccs@.len() == k,
                forall|i: int| 0 <= i < k ==> (#[trigger] ordered_sccs@[i])@ == self.ordered_sccs@[i]@,
            decreases m - k,
        {
            ordered_sccs.push(self.ordered_sccs[k].clone());
            k = k + 1;
        }
        RuleAnalysisGraph { ordered_sccs, current_scc_index: self.current_scc_index }
    }
}

/// What a call of `next_scc` does: it moves on to the next component and
/// returns the one it was at, or `None` past the last.
pub open spec fn scc_step(before: RuleAnalysisGraph, after: RuleAnalysisGraph, scc: Option<Vec<usize>>) -> bool {
    &&& after.spec_index() == before.spec_index() + 1
    &&& after.spec_sccs() == before.spec_sccs()
    &&& match scc {
        Some(c) => before.spec_index() < before.spec_sccs().len() && c@ == before.spec_sccs()[before.spec_index() as int]@,
        None => before.spec_index() >= before.spec_sccs().len(),
    }
}

/// Whether a call of `next_scc` returned a component that holds the rule.
pub open spec fn returned_with(out: Option<Vec<usize>>, a: usize) -> bool {
    out matches Some(c) && c@.contains(a)
}

/// Whether some call of `next_scc` returned a component that holds the rule.
pub open spec fn returned_by(outs: Seq<Option<Vec<usize>>>, a: usize) -> bool {
    exists|i: int| 0 <= i < outs.len() && #[trigger] returned_with(outs[i], a)
}

/// Repeated calls of `next_scc` on a graph that `new` returned for the rules
/// (or that `reset_scc_count` restarted), whose components are thus those of
/// a dependency graph of the rules in topological order: the calls return
/// the components in that order and then `None`, and `None` again once it
/// came. Once all components came, the returned components together hold
/// each rule index below the number of rules exactly once and no other,
/// the rules of a component reach each other, and a rule that another
/// depends on comes in the same or an earlier component.
pub proof fn lemma_scc_enumeration(rules: Seq<NormalizedRule>, edges: Seq<(usize, usize)>, states: Seq<RuleAnalysisGraph>,
    outs: Seq<Option<Vec<usize>>>)
    requires
        is_dependency_graph(rules, edges),
        states.len() == outs.len() + 1,
        topologically_ordered_sccs(rules.len(), edges, states[0].spec_sccs()),
        states[0].spec_index() == 0,
        forall|i: int| 0 <= i < outs.len() ==> scc_step(#[trigger] states[i], states[i + 1], outs[i]),
    ensures
        forall|i: int| 0 <= i < outs.len() ==> ((#[trigger] outs[i]) is Some <==> i < states[0].spec_sccs().len()),
        forall|i: int| 0 <= i < outs.len() && (#[trigger] outs[i]) is Some ==> outs[i].unwrap()@ == states[0].spec_sccs()[i]@,
        forall|i: int, j: int| 0 <= i <= j < outs.len() && (#[trigger] outs[i]) is None ==> (#[trigger] outs[j]) is None,
        outs.len() >= states[0].spec_sccs().len() ==> forall|a: usize| a < rules.len() ==> #[trigger] returned_by(outs, a),
        forall|i1: int, i2: int, a: usize| 0 <= i1 < outs.len() && 0 <= i2 < outs.len() && #[trigger] returned_with(outs[i1], a)
            && #[trigger] returned_with(outs[i2], a) ==> i1 == i2,
        forall|i: int| 0 <= i < outs.len() && (#[trigger] outs[i]) is Some ==> outs[i].unwrap()@.no_duplicates()
            && forall|k: int| 0 <= k < outs[i].unwrap()@.len() ==> #[trigger] outs[i].unwrap()@[k] < rules.len(),
        forall|i: int, a: usize, b: usize| 0 <= i < outs.len() && #[trigger] returned_with(outs[i], a)
            && #[trigger] returned_with(outs[i], b) ==> reachable(edges, a, b) && reachable(edges, b, a),
        forall|k: int, i1: int, i2: int| 0 <= k < edges.len() && 0 <= i1 < outs.len() && 0 <= i2 < outs.len()
            && #[trigger] returned_with(outs[i1], (#[trigger] edges[k]).0) && #[trigger] returned_with(outs[i2], edges[k].1)
            ==> i1 <= i2,
{
    let sccs = states[0].spec_sccs();
    let n = rules.len();
    assert forall|i: int| 0 <= i < states.len() implies (#[trigger] states[i]).spec_index() == i && states[i].spec_sccs() == sccs by {
        lemma_states_advance(states, outs, i);
    }
    assert forall|i: int| 0 <= i < outs.len() implies ((#[trigger] outs[i]) is Some <==> i < sccs.len())
        && (outs[i] is Some ==> outs[i].unwrap()@ == sccs[i]@) by {
        assert(scc_step(states[i], states[i + 1], outs[i]));
        assert(states[i].spec_index() == i && states[i].spec_sccs() == sccs);
    }
    assert forall|i: int| 0 <= i < outs.len() && (#[trigger] outs[i]) is Some implies outs[i].unwrap()@.no_duplicates()
        && forall|k: int| 0 <= k < outs[i].unwrap()@.len() ==> #[trigger] outs[i].unwrap()@[k] < rules.len() by {
        let c = outs[i].unwrap()@;
        assert(c == sccs[i]@);
        assert forall|k: int| 0 <= k < c.len() implies #[trigger] c[k] < rules.len() by {
            assert(sccs[i]@[k] < n);
        }
        assert forall|k1: int, k2: int| 0 <= k1 < c.len() && 0 <= k2 < c.len() && k1 != k2 implies c[k1] != c[k2] by {
            assert(sccs[i]@[k1] == c[k1] && sccs[i]@[k2] == c[k2]);
        }
    }
    if outs.len() >= sccs.len() {
        assert forall|a: usize| a < n implies #[trigger] returned_by(outs, a) by {
            assert(covered(sccs, a));
            let (c, k) = choose|c: int, k: int| 0 <= c < sccs.len() && 0 <= k < sccs[c]@.len() && #[trigger] sccs[c]@[k] == a;
            assert(outs[c] is Some);
            assert(outs[c].unwrap()@[k] == a);
            assert(returned_with(outs[c], a));
        }
    }
    assert forall|i1: int, i2: int, a: usize| 0 <= i1 < outs.len() && 0 <= i2 < outs.len() && #[trigger] returned_with(outs[i1], a)
        && #[trigger] returned_with(outs[i2], a) implies i1 == i2 by {
        let c1 = outs[i1].unwrap();
        let c2 = outs[i2].unwrap();
        let k1 = choose|k1: int| 0 <= k1 < c1@.len() && c1@[k1] == a;
        let k2 = choose|k2: int| 0 <= k2 < c2@.len() && c2@[k2] == a;
        assert(sccs[i1]@[k1] == a && sccs[i2]@[k2] == a);
    }
    assert forall|i: int, a: usize, b: usize| 0 <= i < outs.len() && #[trigger] returned_with(outs[i], a)
        && #[trigger] returned_with(outs[i], b) implies reachable(edges, a, b) && reachable(edges, b, a) by {
        assert(sccs[i]@.contains(a) && sccs[i]@.contains(b));
        let k = choose|k: int| 0 <= k < sccs[i]@.len() && sccs[i]@[k] == a;
        assert(sccs[i]@[k] < n);
        assert(same_component(sccs, a, b));
        assert(mutual_reachability_components(edges, sccs, a));
    }
    assert forall|k: int, i1: int, i2: int| 0 <= k < edges.len() && 0 <= i1 < outs.len() && 0 <= i2 < outs.len()
        && #[trigger] returned_with(outs[i1], (#[trigger] edges[k]).0) && #[trigger] returned_with(outs[i2], edges[k].1)
        implies i1 <= i2 by {
        let a = edges[k].0;
        let b = edges[k].1;
        assert(sccs[i1]@.contains(a) && sccs[i2]@.contains(b));
        let ca = component_of(sccs, a);
        let cb = component_of(sccs, b);
        let k1 = choose|k1: int| 0 <= k1 < sccs[i1]@.len() && sccs[i1]@[k1] == a;
        let k2 = choose|k2: int| 0 <= k2 < sccs[i2]@.len() && sccs[i2]@[k2] == b;
        let ka = choose|ka: int| 0 <= ka < sccs[ca]@.len() && sccs[ca]@[ka] == a;
        let kb = choose|kb: int| 0 <= kb < sccs[cb]@.len() && sccs[cb]@[kb] == b;
        assert(ca == i1);
        assert(cb == i2);
    }
}

/// After `i` calls of `next_scc` from the first component on, the graph is at
/// the component `i` and holds the same components.
proof fn lemma_states_advance(states: Seq<RuleAnalysisGraph>, outs: Seq<Option<Vec<usize>>>, i: int)
    requires
        states.len() == outs.len() + 1,
        states[0].spec_index() == 0,
        forall|j: int| 0 <= j < outs.len() ==> scc_step(#[trigger] states[j], states[j + 1], outs[j]),
        0 <= i < states.len(),
    ensures
        states[i].spec_index() == i,
        states[i].spec_sccs() == states[0].spec_sccs(),
    decreases i,
{
    if i > 0 {
        lemma_states_advance(states, outs, i - 1);
        assert(scc_step(states[i - 1], states[i], outs[i - 1]));
    }
}

/// Whether `sccs` lists the strongly connected components of the graph on
/// the nodes below `n`, each in increasing order, such that the component of
/// the source of each edge comes no later than the component of its target.
pub open spec fn topologically_ordered_sccs(n: nat, edges: Seq<(usize, usize)>, sccs: Seq<Vec<usize>>) -> bool {
    &&& partitions(n, sccs)
    &&& forall|c: int| 0 <= c < sccs.len() ==> sorted_nodes(#[trigger] sccs[c]@)
    &&& forall|a: usize| a < n ==> mutual_reachability_components(edges, sccs, a)
    &&& forall|k: int| 0 <= k < edges.len() ==> component_of(sccs, (#[trigger] edges[k]).0) <= component_of(sccs, edges[k].1)
}

/// Whether `sccs` lists the components `comps` in the order `order`, a
/// permutation of their indices.
pub open spec fn reordered(comps: Seq<Vec<usize>>, order: Seq<usize>, sccs: Seq<Vec<usize>>) -> bool {
    &&& comps.len() <= usize::MAX
    &&& order.len() == comps.len()
    &&& order.no_duplicates()
    &&& forall|i: int| 0 <= i < order.len() ==> #[trigger] order[i] < comps.len()
    &&& sccs.len() == order.len()
    &&& forall|i: int| 0 <= i < order.len() ==> (#[trigger] sccs[i])@ == comps[order[i] as int]@
}

/// The position in `sccs` of the component with index `c` in `comps`.
proof fn lemma_position_of(comps: Seq<Vec<usize>>, order: Seq<usize>, sccs: Seq<Vec<usize>>, c: int) -> (i: int)
    requires
        reordered(comps, order, sccs),
        0 <= c < comps.len(),
    ensures
        0 <= i < sccs.len(),
        order[i] as int == c,
        sccs[i]@ == comps[c]@,
{
    lemma_permutation_covers(order, comps.len());
    assert(order.contains(c as usize));
    let i = choose|i: int| 0 <= i < order.len() && order[i] == c as usize;
    i
}

proof fn lemma_reordered_partition(n: nat, comps: Seq<Vec<usize>>, order: Seq<usize>, sccs: Seq<Vec<usize>>)
    requires
        partitions(n, comps),
        forall|c: int| 0 <= c < comps.len() ==> sorted_nodes(#[trigger] comps[c]@),
        reordered(comps, order, sccs),
    ensures
        partitions(n, sccs),
        forall|c: int| 0 <= c < sccs.len() ==> sorted_nodes(#[trigger] sccs[c]@),
{
    assert forall|a: usize| a < n implies #[trigger] covered(sccs, a) by {
        assert(covered(comps, a));
        let (c, k) = choose|c: int, k: int| 0 <= c < comps.len() && 0 <= k < comps[c]@.len() && #[trigger] comps[c]@[k] == a;
        let i = lemma_position_of(comps, order, sccs, c);
        assert(sccs[i]@[k] == a);
    }
    assert forall|c1: int, k1: int, c2: int, k2: int|
        0 <= c1 < sccs.len() && 0 <= k1 < sccs[c1]@.len() && 0 <= c2 < sccs.len() && 0 <= k2 < sccs[c2]@.len()
        && #[trigger] sccs[c1]@[k1] == #[trigger] sccs[c2]@[k2] implies c1 == c2 && k1 == k2 by {
        assert(sccs[c1]@ == comps[order[c1] as int]@);
        assert(sccs[c2]@ == comps[order[c2] as int]@);
        assert(comps[order[c1] as int]@[k1] == comps[order[c2] as int]@[k2]);
        assert(order[c1] == order[c2]);
    }
    assert forall|c: int, k: int| 0 <= c < sccs.len() && 0 <= k < sccs[c]@.len() implies (#[trigger] sccs[c]@[k]) < n by {
        assert(sccs[c]@ == comps[order[c] as int]@);
        assert(comps[order[c] as int]@[k] == sccs[c]@[k]);
    }
    assert forall|c: int| 0 <= c < sccs.len() implies sorted_nodes(#[trigger] sccs[c]@) by {
        assert(sccs[c]@ == comps[order[c] as int]@);
        assert(sorted_nodes(comps[order[c] as int]@));
    }
}

proof fn lemma_reordered_reachability(
    n: nat,
    edges: Seq<(usize, usize)>,
    comps: Seq<Vec<usize>>,
    order: Seq<usize>,
    sccs: Seq<Vec<usize>>,
)
    requires
        forall|a: usize| a < n ==> mutual_reachability_components(edges, comps, a),
        reordered(comps, order, sccs),
    ensures
        forall|a: usize| a < n ==> mutual_reachability_components(edges, sccs, a),
{
    assert forall|a: usize| a < n implies mutual_reachability_components(edges, sccs, a) by {
        assert(mutual_reachability_components(edges, comps, a));
        assert forall|b: usize| (#[trigger] same_component(sccs, a, b)) <==> reachable(edges, a, b) && reachable(edges, b, a) by {
            if same_component(sccs, a, b) {
                let c = choose|c: int| 0 <= c < sccs.len() && (#[trigger] sccs[c]@).contains(a) && sccs[c]@.contains(b);
                assert(sccs[c]@ == comps[order[c] as int]@);
                assert(comps[order[c] as int]@.contains(a));
                assert(same_component(comps, a, b));
            }
            if same_component(comps, a, b) {
                let c = choose|c: int| 0 <= c < comps.len() && (#[trigger] comps[c]@).contains(a) && comps[c]@.contains(b);
                let i = lemma_position_of(comps, order, sccs, c);
                assert(sccs[i]@.contains(a));
                assert(same_component(sccs, a, b));
            }
        }
    }
}

proof fn lemma_reordered_edges(
    n: nat,
    edges: Seq<(usize, usize)>,
    comps: Seq<Vec<usize>>,
    cedges: Seq<(usize, usize)>,
    order: Seq<usize>,
    sccs: Seq<Vec<usize>>,
)
    requires
        edges_within(n, edges),
        partitions(n, comps),
        partitions(n, sccs),
        forall|i: int| 0 <= i < edges.len() && component_of(comps, (#[trigger] edges[i]).0) != component_of(comps, edges[i].1)
            ==> cedges.contains((component_of(comps, edges[i].0) as usize, component_of(comps, edges[i].1) as usize)),
        forall|k: int| 0 <= k < cedges.len() ==> ordered_edge(order, #[trigger] cedges[k]),
        reordered(comps, order, sccs),
    ensures
        forall|k: int| 0 <= k < edges.len() ==> component_of(sccs, (#[trigger] edges[k]).0) <= component_of(sccs, edges[k].1),
{
    assert forall|k: int| 0 <= k < edges.len() implies component_of(sccs, (#[trigger] edges[k]).0) <= component_of(sccs, edges[k].1) by {
        let (a, b) = edges[k];
        let ca = component_of(comps, a);
        let cb = component_of(comps, b);
        lemma_component_of(n, comps, a);
        lemma_component_of(n, comps, b);
        let ia = lemma_position_of(comps, order, sccs, ca);
        let ib = lemma_position_of(comps, order, sccs, cb);
        lemma_unique_component(n, sccs, a, ia);
        lemma_unique_component(n, sccs, b, ib);
        if ca != cb {
            assert(cedges.contains((ca as usize, cb as usize)));
            let w = choose|w: int| 0 <= w < cedges.len() && cedges[w] == (ca as usize, cb as usize);
            assert(ordered_edge(order, cedges[w]));
            assert(order[ia] == ca as usize && order[ib] == cb as usize);
        }
    }
}

proof fn lemma_reordered_components(
    n: nat,
    edges: Seq<(usize, usize)>,
    comps: Seq<Vec<usize>>,
    cedges: Seq<(usize, usize)>,
    order: Seq<usize>,
    sccs: Seq<Vec<usize>>,
)
    requires
        edges_within(n, edges),
        partitions(n, comps),
        forall|c: int| 0 <= c < comps.len() ==> sorted_nodes(#[trigger] comps[c]@),
        forall|a: usize| a < n ==> mutual_reachability_components(edges, comps, a),
        forall|i: int| 0 <= i < edges.len() && component_of(comps, (#[trigger] edges[i]).0) != component_of(comps, edges[i].1)
            ==> cedges.contains((component_of(comps, edges[i].0) as usize, component_of(comps, edges[i].1) as usize)),
        forall|k: int| 0 <= k < cedges.len() ==> ordered_edge(order, #[trigger] cedges[k]),
        reordered(comps, order, sccs),
    ensures
        topologically_ordered_sccs(n, edges, sccs),
{
    lemma_reordered_partition(n, comps, order, sccs);
    lemma_reordered_reachability(n, edges, comps, order, sccs);
    lemma_reordered_edges(n, edges, comps, cedges, order, sccs);
}

/// The component that contains a node is the only one that contains it.
proof fn lemma_unique_component(n: nat, comps: Seq<Vec<usize>>, a: usize, c: int)
    requires
        partitions(n, comps),
        0 <= c < comps.len(),
        comps[c]@.contains(a),
    ensures
        component_of(comps, a) == c,
{
    let c2 = component_of(comps, a);
    assert(0 <= c2 < comps.len() && comps[c2]@.contains(a));
    let k1 = choose|k: int| 0 <= k < comps[c]@.len() && comps[c]@[k] == a;
    let k2 = choose|k: int| 0 <= k < comps[c2]@.len() && comps[c2]@[k] == a;
    assert(comps[c]@[k1] == comps[c2]@[k2]);
}

/// Every node below the node count lies in the component chosen for it.
proof fn lemma_component_of(n: nat, comps: Seq<Vec<usize>>, a: usize)
    requires
        partitions(n, comps),
        a < n,
    ensures
        0 <= component_of(comps, a) < comps.len(),
        comps[component_of(comps, a)]@.contains(a),
{
    assert(covered(comps, a));
    let (c, k) = choose|c: int, k: int| 0 <= c < comps.len() && 0 <= k < comps[c]@.len() && #[trigger] comps[c]@[k] == a;
    assert(comps[c]@.contains(a));
}

/// A partition into nonempty components has at most as many components as nodes.
proof fn lemma_component_count(n: nat, sccs: Seq<Vec<usize>>)
    requires
        n <= usize::MAX,
        partitions(n, sccs),
        forall|c: int| 0 <= c < sccs.len() ==> (#[trigger] sccs[c])@.len() > 0,
    ensures
        sccs.len() <= n,
{
    let firsts = Seq::new(sccs.len(), |c: int| sccs[c]@[0]);
    assert forall|i: int, j: int| 0 <= i < firsts.len() && 0 <= j < firsts.len() && i != j implies firsts[i] != firsts[j] by {
        assert(sccs[i]@.len() > 0 && sccs[j]@.len() > 0);
        if sccs[i]@[0] == sccs[j]@[0] {
            assert(i == j);
        }
    }
    firsts.unique_seq_to_set();
    lemma_below(n);
    assert forall|x: usize| firsts.to_set().contains(x) implies below(n).contains(x) by {
        let c = choose|c: int| 0 <= c < firsts.len() && firsts[c] == x;
        assert(sccs[c]@.len() > 0);
        assert(sccs[c]@[0] < n);
    }
    vstd::set_lib::lemma_len_subset(firsts.to_set(), below(n));
}

/// The numbers below `m`.
pub open spec fn below(m: nat) -> Set<usize> {
    Set::new(|x: usize| x < m)
}

/// The numbers below `m` form a finite set of `m` elements.
pub proof fn lemma_below(m: nat)
    requires
        m <= usize::MAX + 1,
    ensures
        below(m).finite(),
        below(m).len() == m,
    decreases m,
{
    if m == 0 {
        assert(below(m) =~= Set::<usize>::empty());
    } else {
        lemma_below((m - 1) as nat);
        assert(below(m) =~= below((m - 1) as nat).insert((m - 1) as usize));
    }
}

/// A sequence of `m` distinct numbers below `m` contains each of them.
pub proof fn lemma_permutation_covers(order: Seq<usize>, m: nat)
    requires
        m <= usize::MAX + 1,
        order.len() == m,
        order.no_duplicates(),
        forall|i: int| 0 <= i < order.len() ==> #[trigger] order[i] < m,
    ensures
        forall|c: usize| c < m ==> #[trigger] order.contains(c),
{
    broadcast use vstd::set::group_set_axioms;
    order.unique_seq_to_set();
    if m > 0 {
        assert(order[0] < m);
    }
    lemma_below(m);
    assert(order.to_set().subset_of(below(m))) by {
        assert forall|x: usize| order.to_set().contains(x) implies below(m).contains(x) by {
            let i = choose|i: int| 0 <= i < order.len() && order[i] == x;
        }
    }
    vstd::set_lib::lemma_subset_equality(order.to_set(), below(m));
    assert forall|c: usize| c < m implies #[trigger] order.contains(c) by {
        assert(below(m).contains(c));
        assert(order.to_set().contains(c));
    }
}

} // verus!
