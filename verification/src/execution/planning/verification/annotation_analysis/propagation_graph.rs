//! This module defines [PropagationGraph], the graph of predicate positions
//! through which rules propagate values (as in weak acyclicity).

use vstd::prelude::*;

use crate::execution::planning::normalization::atom::{BodyAtom, HeadAtom};
use crate::execution::planning::normalization::global_annotation::{
    bound_atom_variables, lower_bound_set, min_len, upper_bound_set, NormalizedGlobalAnnotation,
};
use crate::execution::planning::normalization::operation::{
    lower_bounded_variable, operation_variables, upper_bounded_variable, Operation,
};
use crate::execution::planning::normalization::program::NormalizedProgram;
use crate::execution::planning::normalization::rule::{
    add_body_predicates, add_head_predicates, body_atoms_variables, body_predicates, collect_body_atoms_variables,
    head_predicates, NormalizedRule,
};
use crate::execution::planning::verification::edb_analysis::{analyzable_rule, critical, EdbAnalyzer};
use crate::rule_model::components::tag::{tag_index_views, Tag, TagIndexSet};
use crate::rule_model::components::term::{contains_variable, variable_names};
use crate::rule_model::components::variable::{Primitive, Variable};

use super::graph_algorithms::{
    edges_within, elementary_cycles, is_closed_walk, is_elementary_cycle, is_rotation, is_walk, lemma_rotation_pair,
    lemma_walk_to_path, lists_cycle, next_index, rotated_by, shifted_index, walk_step, CYCLE_SEARCH_LIMIT,
};

verus! {

/// The pairs of source and target of labelled edges.
pub open spec fn edge_pairs(edges: Seq<(usize, usize, usize, bool)>) -> Seq<(usize, usize)> {
    edges.map_values(|e: (usize, usize, usize, bool)| (e.0, e.1))
}

/// Whether some critical edge leads from `a` to `b`.
pub open spec fn critical_between(edges: Seq<(usize, usize, usize, bool)>, a: usize, b: usize) -> bool {
    exists|k: int| 0 <= k < edges.len() && (#[trigger] edges[k]).0 == a && edges[k].1 == b && edges[k].3
}

/// Whether the cycle passes through a critical edge.
pub open spec fn cycle_has_critical_edge(edges: Seq<(usize, usize, usize, bool)>, cycle: Seq<usize>) -> bool {
    exists|i: int| 0 <= i < cycle.len() && critical_between(edges, #[trigger] cycle[i], cycle[next_index(i, cycle.len() as int)])
}

/// Whether some cycle of the graph, a closed walk along its edges, passes
/// through a critical edge.
pub open spec fn has_critical_cycle(edges: Seq<(usize, usize, usize, bool)>) -> bool {
    exists|c: Seq<usize>| #[trigger] is_closed_walk(edge_pairs(edges), c) && cycle_has_critical_edge(edges, c)
}


/// A closed walk, read from the node after `i` around to `i`, is a walk.
proof fn lemma_walk_around(pairs: Seq<(usize, usize)>, c: Seq<usize>, i: int) -> (w: Seq<usize>)
    requires
        is_closed_walk(pairs, c),
        0 <= i < c.len(),
    ensures
        w.len() == c.len(),
        w.len() >= 1,
        is_walk(pairs, w),
        w[0] == c[next_index(i, c.len() as int)],
        w.last() == c[i],
{
    let n = c.len() as int;
    let s = next_index(i, n);
    let w = Seq::new(n as nat, |k: int| c[shifted_index(k, s, n)]);
    assert forall|k: int| 0 <= k < w.len() - 1 implies pairs.contains(#[trigger] walk_step(w, k)) by {
        let j = shifted_index(k, s, n);
        assert(w[k] == c[j]);
        assert(w[k + 1] == c[shifted_index(k + 1, s, n)]);
        assert(shifted_index(k + 1, s, n) == next_index(j, n));
        assert(pairs.contains((c[j], c[next_index(j, n)])));
    }
    assert(w[0] == c[s]);
    assert(w[n - 1] == c[shifted_index(n - 1, s, n)]);
    w
}

/// A walk of distinct nodes from `b` to `a`, with an edge from `a` to `b`,
/// is an elementary cycle.
proof fn lemma_close_path(pairs: Seq<(usize, usize)>, p: Seq<usize>)
    requires
        p.len() >= 1,
        p.no_duplicates(),
        is_walk(pairs, p),
        pairs.contains((p.last(), p[0])),
    ensures
        is_elementary_cycle(pairs, p),
{
    let m = p.len() as int;
    assert forall|x: int| 0 <= x < m implies pairs.contains((#[trigger] p[x], p[next_index(x, m)])) by {
        if x < m - 1 {
            assert(pairs.contains(walk_step(p, x)));
        }
    }
}

/// A cycle through a critical edge gives an elementary cycle through one.
pub proof fn lemma_critical_elementary_cycle(edges: Seq<(usize, usize, usize, bool)>, c: Seq<usize>) -> (e: Seq<usize>)
    requires
        is_closed_walk(edge_pairs(edges), c),
        cycle_has_critical_edge(edges, c),
    ensures
        is_elementary_cycle(edge_pairs(edges), e),
        cycle_has_critical_edge(edges, e),
{
    let pairs = edge_pairs(edges);
    let i = choose|i: int| 0 <= i < c.len() && critical_between(edges, #[trigger] c[i], c[next_index(i, c.len() as int)]);
    let a = c[i];
    let b = c[next_index(i, c.len() as int)];
    let w = lemma_walk_around(pairs, c, i);
    let p = lemma_walk_to_path(pairs, w);
    let k = choose|k: int| 0 <= k < edges.len() && (#[trigger] edges[k]).0 == a && edges[k].1 == b && edges[k].3;
    assert(pairs[k] == (a, b));
    assert(pairs.contains((a, b)));
    lemma_close_path(pairs, p);
    let m = p.len() as int;
    assert(next_index(m - 1, m) == 0);
    assert(critical_between(edges, p[m - 1], p[next_index(m - 1, m)]));
    p
}

/// A rotation of a cycle through a critical edge passes through one too.
pub proof fn lemma_rotation_critical(edges: Seq<(usize, usize, usize, bool)>, l: Seq<usize>, e: Seq<usize>)
    requires
        is_rotation(l, e),
        cycle_has_critical_edge(edges, e),
    ensures
        cycle_has_critical_edge(edges, l),
{
    let k = choose|k: int| 0 <= k < l.len() && #[trigger] rotated_by(l, e, k);
    let i = choose|i: int| 0 <= i < e.len() && critical_between(edges, #[trigger] e[i], e[next_index(i, e.len() as int)]);
    lemma_rotation_pair(l, e, k, i);
    let j = shifted_index(i, k, l.len() as int);
    assert(critical_between(edges, l[j], l[next_index(j, l.len() as int)]));
}


/// The bounds that the operations give a variable, in order: an operation
/// that bounds it from below counts as a lower bound while none was found;
/// otherwise, an operation that bounds it from above counts as an upper bound.
pub open spec fn operation_bounds(ops: Seq<Operation>, v: Seq<char>) -> (bool, bool)
    decreases ops.len(),
{
    if ops.len() == 0 {
        (false, false)
    } else {
        let prev = operation_bounds(ops.drop_last(), v);
        let op = ops.last();
        if !prev.0 && lower_bounded_variable(op) == Some(v) {
            (true, prev.1)
        } else if !prev.1 && upper_bounded_variable(op) == Some(v) {
            (prev.0, true)
        } else {
            prev
        }
    }
}

/// Whether an annotation of the head predicate bounds the variable of the head from below.
pub open spec fn annotation_bounds_below(program: NormalizedProgram, head: HeadAtom, v: Seq<char>) -> bool {
    let anns = program.spec_global_annotations_for(head.predicate@);
    exists|a: int| 0 <= a < anns.len() && (#[trigger] bound_atom_variables(anns[a].head.terms@, head.terms@,
        lower_bound_set(anns[a].body@), min_len(anns[a].head.terms@.len(), head.terms@.len()))).contains(v)
}

/// Whether an annotation of the head predicate bounds the variable of the head from above.
pub open spec fn annotation_bounds_above(program: NormalizedProgram, head: HeadAtom, v: Seq<char>) -> bool {
    let anns = program.spec_global_annotations_for(head.predicate@);
    exists|a: int| 0 <= a < anns.len() && (#[trigger] bound_atom_variables(anns[a].head.terms@, head.terms@,
        upper_bound_set(anns[a].body@), min_len(anns[a].head.terms@.len(), head.terms@.len()))).contains(v)
}

/// Whether the variable is bounded from below and from above, by the
/// operations of the rule or the annotations of its head predicate.
pub open spec fn spec_is_bound(program: NormalizedProgram, rule: NormalizedRule, v: Seq<char>) -> bool {
    let bounds = operation_bounds(rule.operations@, v);
    &&& bounds.0 || annotation_bounds_below(program, rule.head@[0], v)
    &&& bounds.1 || annotation_bounds_above(program, rule.head@[0], v)
}

/// The bounds that the operations give a variable: a lower bound exactly
/// when some operation bounds it from below; an upper bound only when some
/// operation bounds it from above, and surely when some operation bounds it
/// from above but not from below.
proof fn lemma_operation_bounds(ops: Seq<Operation>, v: Seq<char>)
    ensures
        operation_bounds(ops, v).0 <==> exists|k: int| 0 <= k < ops.len() && #[trigger] lower_bounded_variable(ops[k]) == Some(v),
        operation_bounds(ops, v).1 ==> exists|k: int| 0 <= k < ops.len() && #[trigger] upper_bounded_variable(ops[k]) == Some(v),
        (exists|k: int| 0 <= k < ops.len() && #[trigger] upper_bounded_variable(ops[k]) == Some(v)
            && lower_bounded_variable(ops[k]) != Some(v)) ==> operation_bounds(ops, v).1,
    decreases ops.len(),
{
    if ops.len() > 0 {
        let prev = ops.drop_last();
        lemma_operation_bounds(prev, v);
        let n = ops.len() - 1;
        assert forall|k: int| 0 <= k < prev.len() implies #[trigger] prev[k] == ops[k] by {}
        if exists|k: int| 0 <= k < ops.len() && #[trigger] lower_bounded_variable(ops[k]) == Some(v) {
            let k = choose|k: int| 0 <= k < ops.len() && #[trigger] lower_bounded_variable(ops[k]) == Some(v);
            if k < n {
                assert(lower_bounded_variable(prev[k]) == Some(v));
            }
        }
        if operation_bounds(ops, v).0 && operation_bounds(prev, v).0 {
            let k = choose|k: int| 0 <= k < prev.len() && #[trigger] lower_bounded_variable(prev[k]) == Some(v);
            assert(lower_bounded_variable(ops[k]) == Some(v));
        }
        if operation_bounds(ops, v).1 && operation_bounds(prev, v).1 {
            let k = choose|k: int| 0 <= k < prev.len() && #[trigger] upper_bounded_variable(prev[k]) == Some(v);
            assert(upper_bounded_variable(ops[k]) == Some(v));
        }
        if exists|k: int| 0 <= k < ops.len() && #[trigger] upper_bounded_variable(ops[k]) == Some(v)
            && lower_bounded_variable(ops[k]) != Some(v) {
            let k = choose|k: int| 0 <= k < ops.len() && #[trigger] upper_bounded_variable(ops[k]) == Some(v)
                && lower_bounded_variable(ops[k]) != Some(v);
            if k < n {
                assert(upper_bounded_variable(prev[k]) == Some(v) && lower_bounded_variable(prev[k]) != Some(v));
            }
        }
    }
}

/// A variable of a rule is bound only if it is bounded both from below and
/// from above, each by an operation of the rule or by an annotation of the
/// head predicate; one side alone is not enough. It is bound when it is
/// bounded from below, and from above by an operation that is no lower bound
/// or by an annotation.
pub proof fn lemma_bound_needs_both_sides(program: NormalizedProgram, rule: NormalizedRule, v: Seq<char>)
    ensures
        spec_is_bound(program, rule, v) ==> {
            &&& (exists|k: int| 0 <= k < rule.operations@.len() && #[trigger] lower_bounded_variable(rule.operations@[k]) == Some(v))
                || annotation_bounds_below(program, rule.head@[0], v)
            &&& (exists|k: int| 0 <= k < rule.operations@.len() && #[trigger] upper_bounded_variable(rule.operations@[k]) == Some(v))
                || annotation_bounds_above(program, rule.head@[0], v)
        },
        ((exists|k: int| 0 <= k < rule.operations@.len() && #[trigger] lower_bounded_variable(rule.operations@[k]) == Some(v))
            || annotation_bounds_below(program, rule.head@[0], v))
            && ((exists|k: int| 0 <= k < rule.operations@.len() && #[trigger] upper_bounded_variable(rule.operations@[k]) == Some(v)
            && lower_bounded_variable(rule.operations@[k]) != Some(v)) || annotation_bounds_above(program, rule.head@[0], v))
            ==> spec_is_bound(program, rule, v),
{
    lemma_operation_bounds(rule.operations@, v);
}

/// Whether a critical operation of the rule holds both variables, the head
/// variable `vh` occurs in no positive body atom, and it is not bounded.
pub open spec fn critical_propagation(program: NormalizedProgram, rule: NormalizedRule, vh: Seq<char>, vb: Seq<char>) -> bool {
    &&& exists|o: int| 0 <= o < rule.operations@.len() && critical(#[trigger] rule.operations@[o])
        && operation_variables(rule.operations@[o]).contains(vh) && operation_variables(rule.operations@[o]).contains(vb)
    &&& !body_atoms_variables(rule.positive@).contains(vh)
    &&& !spec_is_bound(program, rule, vh)
}

/// Whether `e` is an edge of the graph from position `pb` of body atom `b`
/// to position `ph` of the head of the rule with index `ri`: an uncritical
/// one where both positions hold the same variable, a critical one where a
/// critical operation may derive the head variable from the body variable.
pub open spec fn position_edge(
    program: NormalizedProgram,
    ri: usize,
    nodes: Seq<(Seq<char>, usize)>,
    ph: int,
    b: int,
    pb: int,
    e: (usize, usize, usize, bool),
) -> bool {
    let rule = program.rules@[ri as int];
    let head = rule.head@[0];
    let body = rule.positive@[b];
    &&& 0 <= ph < head.terms@.len()
    &&& 0 <= b < rule.positive@.len()
    &&& 0 <= pb < body.terms@.len()
    &&& head.terms@[ph] is Variable
    &&& e.0 < nodes.len() && nodes[e.0 as int] == (body.predicate@, pb as usize)
    &&& e.1 < nodes.len() && nodes[e.1 as int] == (head.predicate@, ph as usize)
    &&& e.2 == ri
    &&& if e.3 {
        critical_propagation(program, rule, head.terms@[ph]->Variable_0@, body.terms@[pb]@)
    } else {
        body.terms@[pb]@ == head.terms@[ph]->Variable_0@
    }
}

/// The edges of body atom `b` for head position `ph`.
pub open spec fn atom_edge(program: NormalizedProgram, ri: usize, nodes: Seq<(Seq<char>, usize)>, ph: int, b: int, e: (usize, usize, usize, bool)) -> bool {
    exists|pb: int| #[trigger] position_edge(program, ri, nodes, ph, b, pb, e)
}

/// The edges to head position `ph`.
pub open spec fn head_position_edge(program: NormalizedProgram, ri: usize, nodes: Seq<(Seq<char>, usize)>, ph: int, e: (usize, usize, usize, bool)) -> bool {
    exists|b: int| #[trigger] atom_edge(program, ri, nodes, ph, b, e)
}

/// The edges of the rule with index `ri`.
pub open spec fn rule_edge(program: NormalizedProgram, ri: usize, nodes: Seq<(Seq<char>, usize)>, e: (usize, usize, usize, bool)) -> bool {
    exists|ph: int| #[trigger] head_position_edge(program, ri, nodes, ph, e)
}

/// The edges of the rules with the given indices.
pub open spec fn graph_edge(program: NormalizedProgram, indices: Seq<usize>, nodes: Seq<(Seq<char>, usize)>, e: (usize, usize, usize, bool)) -> bool {
    exists|k: int| 0 <= k < indices.len() && #[trigger] rule_edge(program, indices[k], nodes, e)
}

/// The predicates with their arities of a rule.
pub open spec fn rule_predicates_of(rule: NormalizedRule) -> Set<(Seq<char>, usize)> {
    head_predicates(rule.head@).union(body_predicates(rule.positive@)).union(body_predicates(rule.negative@))
}

/// The predicates with their arities of the rules with the given indices.
pub open spec fn scc_predicates(rules: Seq<NormalizedRule>, indices: Seq<usize>) -> Set<(Seq<char>, usize)>
    decreases indices.len(),
{
    if indices.len() == 0 {
        Set::empty()
    } else {
        scc_predicates(rules, indices.drop_last()).union(rule_predicates_of(rules[indices.last() as int]))
    }
}

/// Whether position `i` of predicate `t` lies within one of its arities.
pub open spec fn has_position(preds: Set<(Seq<char>, usize)>, t: Seq<char>, i: usize) -> bool {
    exists|a: usize| #[trigger] preds.contains((t, a)) && i < a
}

/// The positions of the predicates.
pub open spec fn predicate_positions(preds: Set<(Seq<char>, usize)>) -> Set<(Seq<char>, usize)> {
    Set::new(|p: (Seq<char>, usize)| has_position(preds, p.0, p.1))
}


/// The positions of the first entries of pairs of a predicate and an arity.
pub open spec fn entry_positions(entries: Seq<(Seq<char>, usize)>) -> Set<(Seq<char>, usize)> {
    Set::new(|p: (Seq<char>, usize)| exists|j: int| 0 <= j < entries.len() && (#[trigger] entries[j]).0 == p.0 && p.1 < entries[j].1)
}

proof fn lemma_scc_predicates(rules: Seq<NormalizedRule>, indices: Seq<usize>, k: int)
    requires
        0 <= k < indices.len(),
    ensures
        rule_predicates_of(rules[indices[k] as int]).subset_of(scc_predicates(rules, indices)),
    decreases indices.len(),
{
    broadcast use vstd::set::group_set_axioms;
    if k < indices.len() - 1 {
        lemma_scc_predicates(rules, indices.drop_last(), k);
        assert(indices.drop_last()[k] == indices[k]);
    }
}

/// Whether the graph can be built for the rules with the given indices.
pub open spec fn buildable(program: NormalizedProgram, indices: Seq<usize>) -> bool {
    forall|k: int| 0 <= k < indices.len() ==> #[trigger] indices[k] < program.rules@.len()
        && analyzable_rule(program.rules@[indices[k] as int])
}


/// Whether the graph is the propagation graph of the rules with the given
/// indices: its nodes are the distinct positions of their predicates, and
/// its edges are theirs.
pub open spec fn propagation_graph_of(program: NormalizedProgram, indices: Seq<usize>, graph: PropagationGraph) -> bool {
    &&& graph.well_formed()
    &&& graph.node_views().to_set() == predicate_positions(scc_predicates(program.rules@, indices))
    &&& forall|e: (usize, usize, usize, bool)| #[trigger] graph.edges@.contains(e) <==> graph_edge(program, indices,
        graph.node_views(), e)
}

/// Whether every rule cycle of the graph is listed, starting at one of its
/// rules.
#[verifier::opaque]
pub open spec fn lists_all_rule_cycles(edges: Seq<(usize, usize, usize, bool)>, cycles: Seq<Vec<usize>>) -> bool {
    forall|rc: Seq<usize>| #[trigger] is_rule_cycle(edges, rc) ==> lists_cycle(cycles, rc)
}

/// Whether the cycles of the graph can be searched: it has at most
/// [CYCLE_SEARCH_LIMIT] nodes, and so has its rule graph.
pub open spec fn fits_cycle_search(graph: PropagationGraph) -> bool {
    &&& graph.nodes@.len() <= CYCLE_SEARCH_LIMIT
    &&& first_appearance(rule_labels(graph.edges@)).len() <= CYCLE_SEARCH_LIMIT
}

/// The rule indices of the edges, in order.
pub open spec fn rule_labels(edges: Seq<(usize, usize, usize, bool)>) -> Seq<usize> {
    edges.map_values(|e: (usize, usize, usize, bool)| e.2)
}

/// The distinct elements of `s`, in the order of their first occurrence.
pub open spec fn first_appearance(s: Seq<usize>) -> Seq<usize>
    decreases s.len(),
{
    if s.len() == 0 {
        Seq::empty()
    } else {
        let prev = first_appearance(s.drop_last());
        if prev.contains(s.last()) { prev } else { prev.push(s.last()) }
    }
}

/// Whether edge `i` enters the node that edge `o` leaves, with the rule
/// labels `r1` and `r2`.
pub open spec fn link_pair(edges: Seq<(usize, usize, usize, bool)>, i: int, o: int, r1: usize, r2: usize) -> bool {
    &&& 0 <= i < edges.len()
    &&& 0 <= o < edges.len()
    &&& edges[i].1 == edges[o].0
    &&& edges[i].2 == r1
    &&& edges[o].2 == r2
}

/// Whether rule `r1` writes a position that rule `r2` reads.
pub open spec fn linked(edges: Seq<(usize, usize, usize, bool)>, r1: usize, r2: usize) -> bool {
    exists|i: int, o: int| #[trigger] link_pair(edges, i, o, r1, r2)
}

/// Whether rule `r1` writes a position that rule `r2` reads, where the
/// writing edge or the reading edge is critical.
pub open spec fn critically_linked(edges: Seq<(usize, usize, usize, bool)>, r1: usize, r2: usize) -> bool {
    exists|i: int, o: int| #[trigger] link_pair(edges, i, o, r1, r2) && (edges[i].3 || edges[o].3)
}

/// Whether `c` is a cycle of distinct rules, each writing a position that
/// the next one reads.
pub open spec fn is_rule_cycle(edges: Seq<(usize, usize, usize, bool)>, c: Seq<usize>) -> bool {
    &&& c.len() >= 1
    &&& c.no_duplicates()
    &&& forall|i: int| 0 <= i < c.len() ==> linked(edges, #[trigger] c[i], c[next_index(i, c.len() as int)])
}

/// The rule graph of a propagation graph: its nodes are rule indices, with
/// an edge from one rule to another if the first writes a position that the
/// second reads; the edge is critical if a critical edge writes or reads the
/// position.
#[derive(Debug)]
pub struct RuleGraph {
    /// The rule indices of the nodes
    pub nodes: Vec<usize>,
    /// The edges: source node, target node, critical
    pub edges: Vec<(usize, usize, bool)>,
}

/// The pairs of source and target of rule graph edges.
pub open spec fn rule_edge_pairs(edges: Seq<(usize, usize, bool)>) -> Seq<(usize, usize)> {
    edges.map_values(|e: (usize, usize, bool)| (e.0, e.1))
}

/// Whether no two edges connect the same pair of nodes.
pub open spec fn distinct_pairs(edges: Seq<(usize, usize, bool)>) -> bool {
    forall|k1: int, k2: int| 0 <= k1 < edges.len() && 0 <= k2 < edges.len() && k1 != k2
        ==> (#[trigger] edges[k1]).0 != (#[trigger] edges[k2]).0 || edges[k1].1 != edges[k2].1
}

/// Whether some edge connects node `a` to node `b`.
pub open spec fn has_rule_edge(edges: Seq<(usize, usize, bool)>, a: usize, b: usize) -> bool {
    exists|k: int| 0 <= k < edges.len() && (#[trigger] edges[k]).0 == a && edges[k].1 == b
}

proof fn lemma_first_appearance(s: Seq<usize>)
    ensures
        first_appearance(s).no_duplicates(),
        forall|x: usize| #[trigger] first_appearance(s).contains(x) <==> s.contains(x),
    decreases s.len(),
{
    if s.len() > 0 {
        let prev = first_appearance(s.drop_last());
        lemma_first_appearance(s.drop_last());
        assert forall|x: usize| #[trigger] first_appearance(s).contains(x) <==> s.contains(x) by {
            if s.contains(x) {
                let w = choose|w: int| 0 <= w < s.len() && s[w] == x;
                if w < s.len() - 1 {
                    assert(s.drop_last()[w] == x);
                    assert(s.drop_last().contains(x));
                    assert(prev.contains(x));
                    let v = choose|v: int| 0 <= v < prev.len() && prev[v] == x;
                    assert(first_appearance(s)[v] == x);
                } else if prev.contains(x) {
                    let v = choose|v: int| 0 <= v < prev.len() && prev[v] == x;
                    assert(first_appearance(s)[v] == x);
                } else {
                    assert(first_appearance(s)[prev.len() as int] == x);
                }
            }
            if first_appearance(s).contains(x) {
                let w = choose|w: int| 0 <= w < first_appearance(s).len() && first_appearance(s)[w] == x;
                if w < prev.len() {
                    assert(prev[w] == x);
                    assert(prev.contains(x));
                    let v = choose|v: int| 0 <= v < s.drop_last().len() && s.drop_last()[v] == x;
                    assert(s[v] == x);
                } else {
                    assert(x == s.last());
                }
            }
        }
    }
}

/// Propagation Graph (like weak acyclicity): its nodes are predicate
/// positions, its edges lead from a body position to a head position of a
/// rule, labelled with the index of the rule and whether a new value may be
/// created on the way (the edge is critical).
#[derive(Debug)]
pub struct PropagationGraph {
    /// The predicate positions
    pub nodes: Vec<(Tag, usize)>,
    /// The edges: source node, target node, rule index, critical
    pub edges: Vec<(usize, usize, usize, bool)>,
}

impl PropagationGraph {
    /// The predicate positions of the nodes.
    pub open spec fn node_views(&self) -> Seq<(Seq<char>, usize)> {
        tag_index_views(self.nodes@)
    }

    /// Whether each node is a distinct position and the edges connect nodes.
    pub open spec fn well_formed(&self) -> bool {
        &&& self.node_views().no_duplicates()
        &&& edges_within(self.nodes@.len() as nat, edge_pairs(self.edges@))
    }

    /// Returns the predicate position of the given node
    pub fn node_predicate_pos(&self, node: usize) -> (pos: (Tag, usize))
        requires
            node < self.nodes@.len(),
        ensures
            (pos.0@, pos.1) == self.node_views()[node as int],
    {
        (self.nodes[node].0.clone(), self.nodes[node].1)
    }

    /// Gets the set of all nodes that are positions of the same predicate
    pub fn same_predicate(&self, node: usize) -> (same: Vec<usize>)
        requires
            node < self.nodes@.len(),
        ensures
            same@.no_duplicates(),
            forall|n: usize| #[trigger] same@.contains(n) <==> n < self.nodes@.len()
                && self.node_views()[n as int].0 == self.node_views()[node as int].0,
    {
        let tag = &self.nodes[node].0;
        let mut same: Vec<usize> = Vec::new();
        let count = self.nodes.len();
        let mut i: usize = 0;
        while i < count
            invariant
                count == self.nodes@.len(),
                node < count,
                tag@ == self.node_views()[node as int].0,
                0 <= i <= count,
                same@.no_duplicates(),
                forall|k: int| 0 <= k < same@.len() ==> #[trigger] same@[k] < i,
                forall|n: usize| #[trigger] same@.contains(n) <==> n < i && self.node_views()[n as int].0 == tag@,
            decreases count - i,
        {
            let ghost before = same@;
            assert(self.node_views()[i as int].0 == self.nodes@[i as int].0@);
            if self.nodes[i].0 == *tag {
                same.push(i);
                assert(same@ == before.push(i));
                assert forall|n: usize| #[trigger] same@.contains(n) <==> n < i + 1 && self.node_views()[n as int].0 == tag@ by {
                    if same@.contains(n) && n != i {
                        let k = choose|k: int| 0 <= k < same@.len() && same@[k] == n;
                        assert(k < before.len());
                        assert(before[k] == n);
                        assert(before.contains(n));
                    }
                    if n < i && self.node_views()[n as int].0 == tag@ {
                        assert(before.contains(n));
                        let k = choose|k: int| 0 <= k < before.len() && before[k] == n;
                        assert(same@[k] == n);
                    }
                    if n == i {
                        assert(same@[same@.len() - 1] == n);
                    }
                }
            }
            i = i + 1;
        }
        same
    }

    /// Provides the predicates that are contained in a cycle
    pub fn nodes_to_predicates(&self, cycle: &Vec<usize>) -> (predicates: Vec<Tag>)
        requires
            forall|i: int| 0 <= i < cycle@.len() ==> #[trigger] cycle@[i] < self.nodes@.len(),
        ensures
            predicates@.len() == cycle@.len(),
            forall|i: int| 0 <= i < cycle@.len() ==> (#[trigger] predicates@[i])@ == self.node_views()[cycle@[i] as int].0,
    {
        let mut predicates: Vec<Tag> = Vec::new();
        let n = cycle.len();
        let mut i: usize = 0;
        while i < n
            invariant
                n == cycle@.len(),
                forall|k: int| 0 <= k < cycle@.len() ==> #[trigger] cycle@[k] < self.nodes@.len(),
                0 <= i <= n,
                predicates@.len() == i,
                forall|k: int| 0 <= k < i ==> (#[trigger] predicates@[k])@ == self.node_views()[cycle@[k] as int].0,
            decreases n - i,
        {
            assert(cycle@[i as int] < self.nodes@.len());
            predicates.push(self.nodes[cycle[i]].0.clone());
            i = i + 1;
        }
        predicates
    }

    /// Returns true if some critical edge connects `a` to `b`.
    fn critical_edge_between(&self, a: usize, b: usize) -> (r: bool)
        ensures
            r == critical_between(self.edges@, a, b),
    {
        let m = self.edges.len();
        let mut k: usize = 0;
        while k < m
            invariant
                m == self.edges@.len(),
                0 <= k <= m,
                forall|j: int| 0 <= j < k ==> !((#[trigger] self.edges@[j]).0 == a && self.edges@[j].1 == b && self.edges@[j].3),
            decreases m - k,
        {
            let e = self.edges[k];
            if e.0 == a && e.1 == b && e.3 {
                return true;
            }
            k = k + 1;
        }
        false
    }

    /// Returns true if the cycle passes through a critical edge.
    fn cycle_is_critical(&self, cycle: &Vec<usize>) -> (r: bool)
        ensures
            r == cycle_has_critical_edge(self.edges@, cycle@),
    {
        let size = cycle.len();
        let mut i: usize = 0;
        while i < size
            invariant
                size == cycle@.len(),
                0 <= i <= size,
                forall|y: int| 0 <= y < i ==> !critical_between(self.edges@, #[trigger] cycle@[y], cycle@[next_index(y, size as int)]),
            decreases size - i,
        {
            let j: usize = if i + 1 < size { i + 1 } else { 0 };
            if self.critical_edge_between(cycle[i], cycle[j]) {
                assert(critical_between(self.edges@, cycle@[i as int], cycle@[next_index(i as int, size as int)]));
                return true;
            }
            i = i + 1;
        }
        false
    }

    /// Returns true if the graph is weakly acyclic: no cycle of the graph
    /// passes through a critical edge
    #[verifier::rlimit(40)]
    pub fn is_weakly_acyclic(&self) -> (r: bool)
        requires
            self.well_formed(),
            self.nodes@.len() <= CYCLE_SEARCH_LIMIT,
        ensures
            r == !has_critical_cycle(self.edges@),
    {
        let pairs = self.edge_pair_list();
        let cycles = elementary_cycles(self.nodes.len(), &pairs);
        let count = cycles.len();
        let mut ci: usize = 0;
        while ci < count
            invariant
                pairs@ == edge_pairs(self.edges@),
                count == cycles@.len(),
                forall|i: int| 0 <= i < cycles@.len() ==> is_closed_walk(pairs@, #[trigger] cycles@[i]@),
                0 <= ci <= count,
                forall|j: int| 0 <= j < ci ==> !cycle_has_critical_edge(self.edges@, #[trigger] cycles@[j]@),
            decreases count - ci,
        {
            if self.cycle_is_critical(&cycles[ci]) {
                proof {
                    let c = cycles@[ci as int]@;
                    assert(is_closed_walk(edge_pairs(self.edges@), c));
                }
                return false;
            }
            ci = ci + 1;
        }
        proof {
            if has_critical_cycle(self.edges@) {
                let c = choose|c: Seq<usize>| #[trigger] is_closed_walk(edge_pairs(self.edges@), c)
                    && cycle_has_critical_edge(self.edges@, c);
                let e = lemma_critical_elementary_cycle(self.edges@, c);
                assert(lists_cycle(cycles@, e));
                let i = choose|i: int| 0 <= i < cycles@.len() && is_rotation(#[trigger] cycles@[i]@, e);
                lemma_rotation_critical(self.edges@, cycles@[i]@, e);
            }
        }
        true
    }

    /// The source and target of each edge, in order.
    fn edge_pair_list(&self) -> (pairs: Vec<(usize, usize)>)
        requires
            self.well_formed(),
        ensures
            pairs@ == edge_pairs(self.edges@),
            edges_within(self.nodes@.len() as nat, pairs@),
    {
        let mut pairs: Vec<(usize, usize)> = Vec::new();
        let m = self.edges.len();
        let mut k: usize = 0;
        while k < m
            invariant
                m == self.edges@.len(),
                0 <= k <= m,
                pairs@ == edge_pairs(self.edges@).take(k as int),
            decreases m - k,
        {
            let e = self.edges[k];
            pairs.push((e.0, e.1));
            assert(pairs@ =~= edge_pairs(self.edges@).take(k + 1));
            k = k + 1;
        }
        assert(edge_pairs(self.edges@).take(m as int) =~= edge_pairs(self.edges@));
        pairs
    }
}

impl PropagationGraph {
    /// Returns true if the operation creates a new value for the variable
    pub fn critical_operation(op: &Operation) -> (r: bool)
        requires
            crate::execution::planning::verification::edb_analysis::well_formed_equality(*op),
        ensures
            r == critical(*op),
    {
        EdbAnalyzer::critical_operation(op)
    }

    /// Returns true if the variable is bounded from below and from above, by
    /// the operations of the rule or the annotations of its head predicate
    pub fn is_bound(program: &NormalizedProgram, rule: &NormalizedRule, var: &Variable) -> (r: bool)
        requires
            rule.head@.len() > 0,
        ensures
            r == spec_is_bound(*program, *rule, var@),
    {
        let mut lower_bound = false;
        let mut upper_bound = false;
        let ops = &rule.operations;
        let n = ops.len();
        let mut k: usize = 0;
        while k < n
            invariant
                ops == &rule.operations,
                n == ops@.len(),
                0 <= k <= n,
                (lower_bound, upper_bound) == operation_bounds(ops@.take(k as int), var@),
            decreases n - k,
        {
            let op = &ops[k];
            let is_lower = if !lower_bound {
                match op.is_lower_bound() {
                    Some(v) => *var == *v,
                    None => false,
                }
            } else {
                false
            };
            if is_lower {
                lower_bound = true;
            } else {
                let is_upper = if !upper_bound {
                    match op.is_upper_bound() {
                        Some(v) => *var == *v,
                        None => false,
                    }
                } else {
                    false
                };
                if is_upper {
                    upper_bound = true;
                }
            }
            assert(ops@.take(k + 1).drop_last() =~= ops@.take(k as int));
            k = k + 1;
        }
        assert(ops@.take(n as int) =~= ops@);
        let head_atom = &rule.head[0];
        let annotations = program.predicate_to_global_annotation(&head_atom.predicate());
        let ghost anns = program.spec_global_annotations_for(head_atom.predicate@);
        let ghost lo0 = lower_bound;
        let ghost up0 = upper_bound;
        let m = annotations.len();
        let mut j: usize = 0;
        while j < m
            invariant
                head_atom == &rule.head@[0],
                annotations@.map_values(|a: &NormalizedGlobalAnnotation| *a) == anns,
                anns == program.spec_global_annotations_for(head_atom.predicate@),
                m == annotations@.len(),
                0 <= j <= m,
                lower_bound == (lo0 || exists|a: int| 0 <= a < j && (#[trigger] bound_atom_variables(anns[a].head.terms@,
                    head_atom.terms@, lower_bound_set(anns[a].body@), min_len(anns[a].head.terms@.len(), head_atom.terms@.len()))).contains(var@)),
                upper_bound == (up0 || exists|a: int| 0 <= a < j && (#[trigger] bound_atom_variables(anns[a].head.terms@,
                    head_atom.terms@, upper_bound_set(anns[a].body@), min_len(anns[a].head.terms@.len(), head_atom.terms@.len()))).contains(var@)),
            decreases m - j,
        {
            let annotation = annotations[j];
            assert(*annotation == anns[j as int]);
            assert(anns[j as int].head.predicate@ == head_atom.predicate@) by {
                program.global_annotations@.lemma_filter_pred(
                    |a: NormalizedGlobalAnnotation| a.head.predicate@ == head_atom.predicate@, j as int);
            }
            if !lower_bound {
                let below = annotation.bound_below_vars(head_atom);
                if contains_variable(&below, var) {
                    lower_bound = true;
                }
            }
            if !upper_bound {
                let above = annotation.bound_above_vars(head_atom);
                if contains_variable(&above, var) {
                    upper_bound = true;
                }
            }
            j = j + 1;
        }
        lower_bound && upper_bound
    }
}

/// Returns the index of the node of the position, if there is one.
fn find_node(nodes: &Vec<(Tag, usize)>, tag: &Tag, pos: usize) -> (r: Option<usize>)
    ensures
        match r {
            Some(k) => k < nodes@.len() && tag_index_views(nodes@)[k as int] == (tag@, pos),
            None => !tag_index_views(nodes@).contains((tag@, pos)),
        },
{
    let n = nodes.len();
    let mut k: usize = 0;
    while k < n
        invariant
            n == nodes@.len(),
            0 <= k <= n,
            forall|j: int| 0 <= j < k ==> tag_index_views(nodes@)[j] != (tag@, pos),
        decreases n - k,
    {
        if nodes[k].1 == pos && nodes[k].0 == *tag {
            return Some(k);
        }
        k = k + 1;
    }
    None
}

/// Whether the positions of the rule's predicates are nodes.
pub open spec fn rule_positions_present(rule: NormalizedRule, nodes: Seq<(Seq<char>, usize)>) -> bool {
    forall|p: (Seq<char>, usize)| #[trigger] predicate_positions(rule_predicates_of(rule)).contains(p) ==> nodes.contains(p)
}

proof fn lemma_body_predicate(atoms: Seq<BodyAtom>, b: int)
    requires
        0 <= b < atoms.len(),
    ensures
        body_predicates(atoms).contains((atoms[b].predicate@, atoms[b].terms@.len() as usize)),
    decreases atoms.len(),
{
    if b < atoms.len() - 1 {
        lemma_body_predicate(atoms.drop_last(), b);
        assert(atoms.drop_last()[b] == atoms[b]);
    }
}

proof fn lemma_head_predicate(atoms: Seq<HeadAtom>, h: int)
    requires
        0 <= h < atoms.len(),
    ensures
        head_predicates(atoms).contains((atoms[h].predicate@, atoms[h].terms@.len() as usize)),
    decreases atoms.len(),
{
    if h < atoms.len() - 1 {
        lemma_head_predicate(atoms.drop_last(), h);
        assert(atoms.drop_last()[h] == atoms[h]);
    }
}

/// The positions of the atoms of a rule are positions of its predicates.
proof fn lemma_rule_positions(rule: NormalizedRule, ph: int, b: int, pb: int)
    requires
        rule.head@.len() > 0,
        0 <= ph < rule.head@[0].terms@.len(),
        0 <= b < rule.positive@.len(),
        0 <= pb < rule.positive@[b].terms@.len(),
    ensures
        predicate_positions(rule_predicates_of(rule)).contains((rule.head@[0].predicate@, ph as usize)),
        predicate_positions(rule_predicates_of(rule)).contains((rule.positive@[b].predicate@, pb as usize)),
{
    broadcast use vstd::std_specs::vec::axiom_spec_len;
    assert(rule.head@[0].terms.len() == rule.head@[0].terms@.len());
    assert(rule.positive@[b].terms.len() == rule.positive@[b].terms@.len());
    lemma_head_predicate(rule.head@, 0);
    lemma_body_predicate(rule.positive@, b);
    broadcast use vstd::set::group_set_axioms;
    let preds = rule_predicates_of(rule);
    let hp = rule.head@[0].predicate@;
    let bp = rule.positive@[b].predicate@;
    let ha = rule.head@[0].terms@.len() as usize;
    let ba = rule.positive@[b].terms@.len() as usize;
    assert(preds.contains((hp, ha)));
    assert(preds.contains((bp, ba)));
    assert((ph as usize) < ha);
    assert((pb as usize) < ba);
    assert(has_position(preds, hp, ph as usize));
    assert(has_position(preds, bp, pb as usize));
}

/// Pushing an edge between nodes keeps the edges within the nodes and adds
/// exactly that edge.
proof fn lemma_push_edge(edges: Seq<(usize, usize, usize, bool)>, e: (usize, usize, usize, bool), n: nat)
    requires
        edges_within(n, edge_pairs(edges)),
        e.0 < n,
        e.1 < n,
    ensures
        edges_within(n, edge_pairs(edges.push(e))),
        forall|x: (usize, usize, usize, bool)| #[trigger] edges.push(e).contains(x) <==> edges.contains(x) || x == e,
{
    assert(edge_pairs(edges.push(e)) =~= edge_pairs(edges).push((e.0, e.1)));
    assert forall|x: (usize, usize, usize, bool)| #[trigger] edges.push(e).contains(x) <==> edges.contains(x) || x == e by {
        if edges.push(e).contains(x) && x != e {
            let w = choose|w: int| 0 <= w < edges.push(e).len() && edges.push(e)[w] == x;
            assert(edges[w] == x);
        }
        if edges.contains(x) {
            let w = choose|w: int| 0 <= w < edges.len() && edges[w] == x;
            assert(edges.push(e)[w] == x);
        }
        if x == e {
            assert(edges.push(e)[edges.len() as int] == x);
        }
    }
}

/// Adds the edges from position `pb` of body atom `b` to position `ph` of
/// the head of the rule with index `ri`.
fn add_position_edges(
    program: &NormalizedProgram,
    ri: usize,
    nodes: &Vec<(Tag, usize)>,
    ph: usize,
    b: usize,
    pb: usize,
    body_vars: &Vec<Variable>,
    edges: &mut Vec<(usize, usize, usize, bool)>,
)
    requires
        ri < program.rules@.len(),
        analyzable_rule(program.rules@[ri as int]),
        ph < program.rules@[ri as int].head@[0].terms@.len(),
        program.rules@[ri as int].head@[0].terms@[ph as int] is Variable,
        b < program.rules@[ri as int].positive@.len(),
        pb < program.rules@[ri as int].positive@[b as int].terms@.len(),
        tag_index_views(nodes@).no_duplicates(),
        rule_positions_present(program.rules@[ri as int], tag_index_views(nodes@)),
        variable_names(body_vars@).to_set() == body_atoms_variables(program.rules@[ri as int].positive@),
        edges_within(nodes@.len() as nat, edge_pairs(old(edges)@)),
    ensures
        edges_within(nodes@.len() as nat, edge_pairs(final(edges)@)),
        forall|e: (usize, usize, usize, bool)| #[trigger] final(edges)@.contains(e) <==> old(edges)@.contains(e)
            || position_edge(*program, ri, tag_index_views(nodes@), ph as int, b as int, pb as int, e),
{
    let ghost views = tag_index_views(nodes@);
    let rule = &program.rules[ri];
    let head_atom = &rule.head[0];
    let body_atom = &rule.positive[b];
    proof {
        lemma_rule_positions(*rule, ph as int, b as int, pb as int);
    }
    let var_h = match &head_atom.terms[ph] {
        Primitive::Variable(v) => v,
        Primitive::Ground(_) => { proof { assert(false); } return; },
    };
    let var_b = &body_atom.terms[pb];
    let node_body = match find_node(nodes, &body_atom.predicate, pb) {
        Some(k) => k,
        None => { proof { assert(views.contains((body_atom.predicate@, pb))); } return; },
    };
    let node_head = match find_node(nodes, &head_atom.predicate, ph) {
        Some(k) => k,
        None => { proof { assert(views.contains((head_atom.predicate@, ph))); } return; },
    };
    let ghost old_edges = edges@;
    let ghost eq_edge = (node_body, node_head, ri, false);
    let ghost crit_edge = (node_body, node_head, ri, true);
    if *var_b == *var_h {
        edges.push((node_body, node_head, ri, false));
        proof { lemma_push_edge(old_edges, eq_edge, nodes@.len() as nat); }
    }
    let ghost after_eq = edges@;
    assert forall|e: (usize, usize, usize, bool)| #[trigger] after_eq.contains(e) <==> old_edges.contains(e)
        || (e == eq_edge && var_b@ == var_h@) by {
        if var_b@ == var_h@ {
            assert(after_eq == old_edges.push(eq_edge));
        }
    }
    let ops = &rule.operations;
    let n = ops.len();
    let mut o: usize = 0;
    while o < n
        invariant
            rule == &program.rules@[ri as int],
            analyzable_rule(*rule),
            ops == &rule.operations,
            n == ops@.len(),
            0 <= o <= n,
            node_body < nodes@.len(),
            node_head < nodes@.len(),
            crit_edge == (node_body, node_head, ri, true),
            edges_within(nodes@.len() as nat, edge_pairs(edges@)),
            variable_names(body_vars@).to_set() == body_atoms_variables(rule.positive@),
            forall|e: (usize, usize, usize, bool)| #[trigger] edges@.contains(e) <==> after_eq.contains(e)
                || (e == crit_edge && exists|x: int| 0 <= x < o && critical(#[trigger] ops@[x])
                    && operation_variables(ops@[x]).contains(var_h@) && operation_variables(ops@[x]).contains(var_b@)
                    && !body_atoms_variables(rule.positive@).contains(var_h@) && !spec_is_bound(*program, *rule, var_h@)),
        decreases n - o,
    {
        let ghost before = edges@;
        let op = &ops[o];
        assert(crate::execution::planning::verification::edb_analysis::well_formed_equality(ops@[o as int]));
        let mut add = false;
        if PropagationGraph::critical_operation(op) {
            let vars = op.variables();
            add = contains_variable(&vars, var_h) && contains_variable(&vars, var_b) && !contains_variable(body_vars, var_h)
                && !PropagationGraph::is_bound(program, rule, var_h);
            proof {
                assert(variable_names(vars@).contains(var_h@) == variable_names(vars@).to_set().contains(var_h@));
                assert(variable_names(vars@).contains(var_b@) == variable_names(vars@).to_set().contains(var_b@));
                assert(variable_names(body_vars@).contains(var_h@) == variable_names(body_vars@).to_set().contains(var_h@));
            }
        }
        assert(add == (critical(ops@[o as int])
            && operation_variables(ops@[o as int]).contains(var_h@) && operation_variables(ops@[o as int]).contains(var_b@)
            && !body_atoms_variables(rule.positive@).contains(var_h@) && !spec_is_bound(*program, *rule, var_h@)));
        if add {
            edges.push((node_body, node_head, ri, true));
            proof { lemma_push_edge(before, crit_edge, nodes@.len() as nat); }
        }
        proof {
            assert forall|e: (usize, usize, usize, bool)| #[trigger] edges@.contains(e) <==> after_eq.contains(e)
                || (e == crit_edge && exists|x: int| 0 <= x < o + 1 && critical(#[trigger] ops@[x])
                    && operation_variables(ops@[x]).contains(var_h@) && operation_variables(ops@[x]).contains(var_b@)
                    && !body_atoms_variables(rule.positive@).contains(var_h@) && !spec_is_bound(*program, *rule, var_h@)) by {
                if add {
                    assert(edges@ == before.push(crit_edge));
                }
            }
        }
        o = o + 1;
    }
    proof {
        assert forall|e: (usize, usize, usize, bool)| #[trigger] edges@.contains(e) <==> old_edges.contains(e)
            || position_edge(*program, ri, views, ph as int, b as int, pb as int, e) by {
            if position_edge(*program, ri, views, ph as int, b as int, pb as int, e) {
                assert(views[e.0 as int] == views[node_body as int]);
                assert(views[e.1 as int] == views[node_head as int]);
            }
        }
    }
}

/// Adds the edges from body atom `b` to position `ph` of the head of the
/// rule with index `ri`.
fn add_atom_edges(
    program: &NormalizedProgram,
    ri: usize,
    nodes: &Vec<(Tag, usize)>,
    ph: usize,
    b: usize,
    body_vars: &Vec<Variable>,
    edges: &mut Vec<(usize, usize, usize, bool)>,
)
    requires
        ri < program.rules@.len(),
        analyzable_rule(program.rules@[ri as int]),
        ph < program.rules@[ri as int].head@[0].terms@.len(),
        program.rules@[ri as int].head@[0].terms@[ph as int] is Variable,
        b < program.rules@[ri as int].positive@.len(),
        tag_index_views(nodes@).no_duplicates(),
        rule_positions_present(program.rules@[ri as int], tag_index_views(nodes@)),
        variable_names(body_vars@).to_set() == body_atoms_variables(program.rules@[ri as int].positive@),
        edges_within(nodes@.len() as nat, edge_pairs(old(edges)@)),
    ensures
        edges_within(nodes@.len() as nat, edge_pairs(final(edges)@)),
        forall|e: (usize, usize, usize, bool)| #[trigger] final(edges)@.contains(e) <==> old(edges)@.contains(e)
            || atom_edge(*program, ri, tag_index_views(nodes@), ph as int, b as int, e),
{
    let ghost views = tag_index_views(nodes@);
    let ghost start = edges@;
    let n = program.rules[ri].positive[b].terms.len();
    let mut pb: usize = 0;
    while pb < n
        invariant
            ri < program.rules@.len(),
            analyzable_rule(program.rules@[ri as int]),
            ph < program.rules@[ri as int].head@[0].terms@.len(),
            program.rules@[ri as int].head@[0].terms@[ph as int] is Variable,
            b < program.rules@[ri as int].positive@.len(),
            n == program.rules@[ri as int].positive@[b as int].terms@.len(),
            views == tag_index_views(nodes@),
            views.no_duplicates(),
            rule_positions_present(program.rules@[ri as int], views),
            variable_names(body_vars@).to_set() == body_atoms_variables(program.rules@[ri as int].positive@),
            0 <= pb <= n,
            edges_within(nodes@.len() as nat, edge_pairs(edges@)),
            forall|e: (usize, usize, usize, bool)| #[trigger] edges@.contains(e) <==> start.contains(e)
                || exists|x: int| 0 <= x < pb && #[trigger] position_edge(*program, ri, views, ph as int, b as int, x, e),
        decreases n - pb,
    {
        let ghost before = edges@;
        add_position_edges(program, ri, nodes, ph, b, pb, body_vars, edges);
        assert forall|e: (usize, usize, usize, bool)| #[trigger] edges@.contains(e) <==> start.contains(e)
            || exists|x: int| 0 <= x < pb + 1 && #[trigger] position_edge(*program, ri, views, ph as int, b as int, x, e) by {
            if edges@.contains(e) && !before.contains(e) {
                assert(position_edge(*program, ri, views, ph as int, b as int, pb as int, e));
            }
        }
        pb = pb + 1;
    }
    assert forall|e: (usize, usize, usize, bool)| #[trigger] edges@.contains(e) <==> start.contains(e)
        || atom_edge(*program, ri, views, ph as int, b as int, e) by {
        if atom_edge(*program, ri, views, ph as int, b as int, e) {
            let x = choose|x: int| #[trigger] position_edge(*program, ri, views, ph as int, b as int, x, e);
            assert(0 <= x < n);
        }
    }
}

/// Adds the edges to position `ph` of the head of the rule with index `ri`.
fn add_head_position_edges(
    program: &NormalizedProgram,
    ri: usize,
    nodes: &Vec<(Tag, usize)>,
    ph: usize,
    edges: &mut Vec<(usize, usize, usize, bool)>,
)
    requires
        ri < program.rules@.len(),
        analyzable_rule(program.rules@[ri as int]),
        ph < program.rules@[ri as int].head@[0].terms@.len(),
        tag_index_views(nodes@).no_duplicates(),
        rule_positions_present(program.rules@[ri as int], tag_index_views(nodes@)),
        edges_within(nodes@.len() as nat, edge_pairs(old(edges)@)),
    ensures
        edges_within(nodes@.len() as nat, edge_pairs(final(edges)@)),
        forall|e: (usize, usize, usize, bool)| #[trigger] final(edges)@.contains(e) <==> old(edges)@.contains(e)
            || head_position_edge(*program, ri, tag_index_views(nodes@), ph as int, e),
{
    let ghost views = tag_index_views(nodes@);
    let rule = &program.rules[ri];
    match &rule.head[0].terms[ph] {
        Primitive::Variable(_) => {
            let mut body_vars: Vec<Variable> = Vec::new();
            assert(variable_names(body_vars@).to_set() =~= Set::<Seq<char>>::empty());
            collect_body_atoms_variables(&rule.positive, &mut body_vars);
            assert(variable_names(body_vars@).to_set() =~= body_atoms_variables(rule.positive@));
            let ghost start = edges@;
            let n = rule.positive.len();
            let mut b: usize = 0;
            while b < n
                invariant
                    rule == &program.rules@[ri as int],
                    ri < program.rules@.len(),
                    analyzable_rule(*rule),
                    ph < rule.head@[0].terms@.len(),
                    rule.head@[0].terms@[ph as int] is Variable,
                    n == rule.positive@.len(),
                    views == tag_index_views(nodes@),
                    views.no_duplicates(),
                    rule_positions_present(*rule, views),
                    variable_names(body_vars@).to_set() == body_atoms_variables(rule.positive@),
                    0 <= b <= n,
                    edges_within(nodes@.len() as nat, edge_pairs(edges@)),
                    forall|e: (usize, usize, usize, bool)| #[trigger] edges@.contains(e) <==> start.contains(e)
                        || exists|x: int| 0 <= x < b && #[trigger] atom_edge(*program, ri, views, ph as int, x, e),
                decreases n - b,
            {
                let ghost before = edges@;
                add_atom_edges(program, ri, nodes, ph, b, &body_vars, edges);
                assert forall|e: (usize, usize, usize, bool)| #[trigger] edges@.contains(e) <==> start.contains(e)
                    || exists|x: int| 0 <= x < b + 1 && #[trigger] atom_edge(*program, ri, views, ph as int, x, e) by {
                    if edges@.contains(e) && !before.contains(e) {
                        assert(atom_edge(*program, ri, views, ph as int, b as int, e));
                    }
                }
                b = b + 1;
            }
            assert forall|e: (usize, usize, usize, bool)| #[trigger] edges@.contains(e) <==> start.contains(e)
                || head_position_edge(*program, ri, views, ph as int, e) by {
                if head_position_edge(*program, ri, views, ph as int, e) {
                    let x = choose|x: int| #[trigger] atom_edge(*program, ri, views, ph as int, x, e);
                    let y = choose|y: int| #[trigger] position_edge(*program, ri, views, ph as int, x, y, e);
                    assert(0 <= x < n);
                }
            }
        },
        Primitive::Ground(_) => {
            assert forall|e: (usize, usize, usize, bool)| !#[trigger] head_position_edge(*program, ri, views, ph as int, e) by {
                if head_position_edge(*program, ri, views, ph as int, e) {
                    let x = choose|x: int| #[trigger] atom_edge(*program, ri, views, ph as int, x, e);
                    let y = choose|y: int| #[trigger] position_edge(*program, ri, views, ph as int, x, y, e);
                }
            }
        },
    }
}

/// Adds the edges of the rule with index `ri`.
fn add_rule_edges(
    program: &NormalizedProgram,
    ri: usize,
    nodes: &Vec<(Tag, usize)>,
    edges: &mut Vec<(usize, usize, usize, bool)>,
)
    requires
        ri < program.rules@.len(),
        analyzable_rule(program.rules@[ri as int]),
        tag_index_views(nodes@).no_duplicates(),
        rule_positions_present(program.rules@[ri as int], tag_index_views(nodes@)),
        edges_within(nodes@.len() as nat, edge_pairs(old(edges)@)),
    ensures
        edges_within(nodes@.len() as nat, edge_pairs(final(edges)@)),
        forall|e: (usize, usize, usize, bool)| #[trigger] final(edges)@.contains(e) <==> old(edges)@.contains(e)
            || rule_edge(*program, ri, tag_index_views(nodes@), e),
{
    let ghost views = tag_index_views(nodes@);
    let ghost start = edges@;
    let n = program.rules[ri].head[0].terms.len();
    let mut ph: usize = 0;
    while ph < n
        invariant
            ri < program.rules@.len(),
            analyzable_rule(program.rules@[ri as int]),
            n == program.rules@[ri as int].head@[0].terms@.len(),
            views == tag_index_views(nodes@),
            views.no_duplicates(),
            rule_positions_present(program.rules@[ri as int], views),
            0 <= ph <= n,
            edges_within(nodes@.len() as nat, edge_pairs(edges@)),
            forall|e: (usize, usize, usize, bool)| #[trigger] edges@.contains(e) <==> start.contains(e)
                || exists|x: int| 0 <= x < ph && #[trigger] head_position_edge(*program, ri, views, x, e),
        decreases n - ph,
    {
        let ghost before = edges@;
        add_head_position_edges(program, ri, nodes, ph, edges);
        assert forall|e: (usize, usize, usize, bool)| #[trigger] edges@.contains(e) <==> start.contains(e)
            || exists|x: int| 0 <= x < ph + 1 && #[trigger] head_position_edge(*program, ri, views, x, e) by {
            if edges@.contains(e) && !before.contains(e) {
                assert(head_position_edge(*program, ri, views, ph as int, e));
            }
        }
        ph = ph + 1;
    }
    assert forall|e: (usize, usize, usize, bool)| #[trigger] edges@.contains(e) <==> start.contains(e)
        || rule_edge(*program, ri, views, e) by {
        if rule_edge(*program, ri, views, e) {
            let x = choose|x: int| #[trigger] head_position_edge(*program, ri, views, x, e);
            let b = choose|b: int| #[trigger] atom_edge(*program, ri, views, x, b, e);
            let y = choose|y: int| #[trigger] position_edge(*program, ri, views, x, b, y, e);
            assert(0 <= x < n);
        }
    }
}

impl PropagationGraph {
    /// Builds the propagation graph of the rules with the given indices:
    /// one node per position of their predicates, and the edges that lead
    /// from body positions to head positions, uncritical ones where both
    /// hold the same variable, critical ones where a critical operation may
    /// derive a new value of the head variable.
    pub fn build_graph(program: &NormalizedProgram, rule_indices: &Vec<usize>) -> (graph: Self)
        requires
            buildable(*program, rule_indices@),
        ensures
            propagation_graph_of(*program, rule_indices@, graph),
            graph.well_formed(),
            graph.node_views().to_set() == predicate_positions(scc_predicates(program.rules@, rule_indices@)),
            forall|e: (usize, usize, usize, bool)| #[trigger] graph.edges@.contains(e)
                <==> graph_edge(*program, rule_indices@, graph.node_views(), e),
    {
        let ghost rules = program.rules@;
        let ghost idx = rule_indices@;
        let n = rule_indices.len();
        let mut preds = TagIndexSet::new();
        let mut k: usize = 0;
        assert(preds@ =~= scc_predicates(rules, idx.take(0)));
        while k < n
            invariant
                rules == program.rules@,
                idx == rule_indices@,
                n == idx.len(),
                buildable(*program, idx),
                0 <= k <= n,
                preds@ == scc_predicates(rules, idx.take(k as int)),
            decreases n - k,
        {
            assert(idx[k as int] < rules.len());
            let rule = &program.rules[rule_indices[k]];
            add_head_predicates(&rule.head, &mut preds);
            add_body_predicates(&rule.positive, &mut preds);
            add_body_predicates(&rule.negative, &mut preds);
            assert(idx.take(k + 1).drop_last() =~= idx.take(k as int));
            k = k + 1;
            assert(preds@ =~= scc_predicates(rules, idx.take(k as int)));
        }
        assert(idx.take(n as int) =~= idx);
        let ghost all_preds = preds@;
        let count = preds.entry_count();
        let ghost entries = preds.spec_entries();
        let mut nodes: Vec<(Tag, usize)> = Vec::new();
        let mut j: usize = 0;
        assert(tag_index_views(nodes@).to_set() =~= entry_positions(entries.take(0)));
        while j < count
            invariant
                count == entries.len(),
                entries == preds.spec_entries(),
                0 <= j <= count,
                tag_index_views(nodes@).no_duplicates(),
                tag_index_views(nodes@).to_set() == entry_positions(entries.take(j as int)),
            decreases count - j,
        {
            let (tag, arity) = preds.get(j);
            let ghost start = tag_index_views(nodes@).to_set();
            let mut pos: usize = 0;
            assert(start =~= start.union(Set::new(|p: (Seq<char>, usize)| p.0 == tag@ && p.1 < 0)));
            while pos < arity
                invariant
                    0 <= pos <= arity,
                    tag_index_views(nodes@).no_duplicates(),
                    tag_index_views(nodes@).to_set() == start.union(Set::new(|p: (Seq<char>, usize)| p.0 == tag@ && p.1 < pos)),
                decreases arity - pos,
            {
                let ghost before = tag_index_views(nodes@);
                if find_node(&nodes, tag, pos).is_none() {
                    nodes.push((tag.clone(), pos));
                    proof {
                        assert(tag_index_views(nodes@) =~= before.push((tag@, pos)));
                        broadcast use vstd::seq_lib::group_seq_properties;
                    }
                } else {
                    assert(before.contains((tag@, pos)));
                }
                proof {
                    let now = tag_index_views(nodes@);
                    assert forall|p: (Seq<char>, usize)| #[trigger] now.to_set().contains(p)
                        <==> start.union(Set::new(|q: (Seq<char>, usize)| q.0 == tag@ && q.1 < pos + 1)).contains(p) by {
                        assert(before.to_set().contains(p) == start.union(Set::new(|q: (Seq<char>, usize)| q.0 == tag@ && q.1 < pos)).contains(p));
                        if now.contains(p) && !before.contains(p) {
                            let w = choose|w: int| 0 <= w < now.len() && now[w] == p;
                            if w < before.len() { assert(before[w] == now[w]); }
                            assert(p == (tag@, pos));
                        }
                        if before.contains(p) {
                            let w = choose|w: int| 0 <= w < before.len() && before[w] == p;
                            assert(now[w] == p);
                        }
                        if p == (tag@, pos) {
                            if !before.contains(p) {
                                assert(now[now.len() - 1] == p);
                            }
                        }
                    }
                    assert(now.to_set() =~= start.union(Set::new(|q: (Seq<char>, usize)| q.0 == tag@ && q.1 < pos + 1)));
                }
                pos = pos + 1;
            }
            proof {
                assert(entries.take(j + 1).drop_last() =~= entries.take(j as int));
                assert(entries[j as int] == (tag@, arity));
                assert forall|p: (Seq<char>, usize)| #[trigger] tag_index_views(nodes@).to_set().contains(p)
                    <==> entry_positions(entries.take(j + 1)).contains(p) by {
                    if entry_positions(entries.take(j + 1)).contains(p) {
                        let x = choose|x: int| 0 <= x < j + 1 && (#[trigger] entries.take(j + 1)[x]).0 == p.0 && p.1 < entries.take(j + 1)[x].1;
                        if x < j {
                            assert(entries.take(j as int)[x] == entries.take(j + 1)[x]);
                        }
                    }
                    if start.contains(p) {
                        let x = choose|x: int| 0 <= x < j && (#[trigger] entries.take(j as int)[x]).0 == p.0 && p.1 < entries.take(j as int)[x].1;
                        assert(entries.take(j + 1)[x] == entries.take(j as int)[x]);
                    }
                    if tag_index_views(nodes@).to_set().contains(p) && !start.contains(p) {
                        assert(entries.take(j + 1)[j as int] == (tag@, arity));
                    }
                }
                assert(tag_index_views(nodes@).to_set() =~= entry_positions(entries.take(j + 1)));
            }
            j = j + 1;
        }
        proof {
            assert(entries.take(count as int) =~= entries);
            assert forall|p: (Seq<char>, usize)| #[trigger] entry_positions(entries).contains(p)
                <==> predicate_positions(all_preds).contains(p) by {
                if entry_positions(entries).contains(p) {
                    let x = choose|x: int| 0 <= x < entries.len() && (#[trigger] entries[x]).0 == p.0 && p.1 < entries[x].1;
                    assert(entries.to_set().contains(entries[x]));
                    assert(all_preds.contains((p.0, entries[x].1)));
                    assert(has_position(all_preds, p.0, p.1));
                }
                if predicate_positions(all_preds).contains(p) {
                    let a = choose|a: usize| #[trigger] all_preds.contains((p.0, a)) && p.1 < a;
                    assert(entries.to_set().contains((p.0, a)));
                    let x = choose|x: int| 0 <= x < entries.len() && entries[x] == (p.0, a);
                    assert(entries[x].0 == p.0);
                }
            }
            assert(tag_index_views(nodes@).to_set() =~= predicate_positions(all_preds));
        }
        let ghost views = tag_index_views(nodes@);
        let mut edges: Vec<(usize, usize, usize, bool)> = Vec::new();
        let mut k: usize = 0;
        assert(edge_pairs(edges@) =~= Seq::<(usize, usize)>::empty());
        while k < n
            invariant
                rules == program.rules@,
                idx == rule_indices@,
                n == idx.len(),
                buildable(*program, idx),
                views == tag_index_views(nodes@),
                views.no_duplicates(),
                views.to_set() == predicate_positions(scc_predicates(rules, idx)),
                0 <= k <= n,
                edges_within(nodes@.len() as nat, edge_pairs(edges@)),
                forall|e: (usize, usize, usize, bool)| #[trigger] edges@.contains(e)
                    <==> exists|x: int| 0 <= x < k && #[trigger] rule_edge(*program, idx[x], views, e),
            decreases n - k,
        {
            let ghost before = edges@;
            let ri = rule_indices[k];
            proof {
                assert(ri < rules.len() && analyzable_rule(rules[ri as int]));
                lemma_scc_predicates(rules, idx, k as int);
                assert forall|p: (Seq<char>, usize)| #[trigger] predicate_positions(rule_predicates_of(rules[ri as int])).contains(p)
                    implies views.contains(p) by {
                    let a = choose|a: usize| #[trigger] rule_predicates_of(rules[ri as int]).contains((p.0, a)) && p.1 < a;
                    assert(scc_predicates(rules, idx).contains((p.0, a)));
                    assert(has_position(scc_predicates(rules, idx), p.0, p.1));
                    assert(views.to_set().contains(p));
                }
            }
            add_rule_edges(program, ri, &nodes, &mut edges);
            assert forall|e: (usize, usize, usize, bool)| #[trigger] edges@.contains(e)
                <==> exists|x: int| 0 <= x < k + 1 && #[trigger] rule_edge(*program, idx[x], views, e) by {
                if edges@.contains(e) && !before.contains(e) {
                    assert(rule_edge(*program, idx[k as int], views, e));
                }
            }
            k = k + 1;
        }
        PropagationGraph { nodes, edges }
    }
}

/// Returns the position of `x` in `s`, if it is there.
fn position_of(s: &Vec<usize>, x: usize) -> (r: Option<usize>)
    ensures
        match r {
            Some(k) => k < s@.len() && s@[k as int] == x,
            None => !s@.contains(x),
        },
{
    let n = s.len();
    let mut k: usize = 0;
    while k < n
        invariant
            n == s@.len(),
            0 <= k <= n,
            forall|j: int| 0 <= j < k ==> s@[j] != x,
        decreases n - k,
    {
        if s[k] == x {
            return Some(k);
        }
        k = k + 1;
    }
    None
}

/// Returns the position of the rule graph edge from `a` to `b`, if there is one.
fn find_rule_edge(edges: &Vec<(usize, usize, bool)>, a: usize, b: usize) -> (r: Option<usize>)
    ensures
        match r {
            Some(k) => k < edges@.len() && edges@[k as int].0 == a && edges@[k as int].1 == b,
            None => !has_rule_edge(edges@, a, b),
        },
{
    let n = edges.len();
    let mut k: usize = 0;
    while k < n
        invariant
            n == edges@.len(),
            0 <= k <= n,
            forall|j: int| 0 <= j < k ==> !((#[trigger] edges@[j]).0 == a && edges@[j].1 == b),
        decreases n - k,
    {
        if edges[k].0 == a && edges[k].1 == b {
            return Some(k);
        }
        k = k + 1;
    }
    None
}

/// Whether a link through edge `i` and some edge `o` connects the rules.
pub open spec fn linked_through(edges: Seq<(usize, usize, usize, bool)>, i: int, r1: usize, r2: usize) -> bool {
    exists|o: int| #[trigger] link_pair(edges, i, o, r1, r2)
}

/// Whether a link through some edge below `i` connects the rules.
pub open spec fn linked_below(edges: Seq<(usize, usize, usize, bool)>, i: int, r1: usize, r2: usize) -> bool {
    exists|x: int| 0 <= x < i && #[trigger] linked_through(edges, x, r1, r2)
}

/// Whether a link through edge `i` and some edge `o`, one of them critical,
/// connects the rules.
pub open spec fn critically_linked_through(edges: Seq<(usize, usize, usize, bool)>, i: int, r1: usize, r2: usize) -> bool {
    exists|o: int| #[trigger] link_pair(edges, i, o, r1, r2) && (edges[i].3 || edges[o].3)
}

/// Whether a link with a critical edge, through an edge below `i`, connects
/// the rules.
pub open spec fn critically_linked_below(edges: Seq<(usize, usize, usize, bool)>, i: int, r1: usize, r2: usize) -> bool {
    exists|x: int| 0 <= x < i && #[trigger] critically_linked_through(edges, x, r1, r2)
}

/// Adds, for edge `i` of the propagation graph, the rule graph edges to the
/// rules of the edges that leave the node that edge `i` enters.
fn add_links(
    pedges: &Vec<(usize, usize, usize, bool)>,
    i: usize,
    nodes: &Vec<usize>,
    redges: &mut Vec<(usize, usize, bool)>,
)
    requires
        i < pedges@.len(),
        forall|x: int| 0 <= x < pedges@.len() ==> nodes@.contains(#[trigger] pedges@[x].2),
        nodes@.no_duplicates(),
        distinct_pairs(old(redges)@),
        edges_within(nodes@.len() as nat, rule_edge_pairs(old(redges)@)),
    ensures
        distinct_pairs(final(redges)@),
        edges_within(nodes@.len() as nat, rule_edge_pairs(final(redges)@)),
        final(redges)@.len() >= old(redges)@.len(),
        forall|k: int| 0 <= k < old(redges)@.len() ==> (#[trigger] final(redges)@[k]).0 == old(redges)@[k].0
            && final(redges)@[k].1 == old(redges)@[k].1,
        forall|k: int| 0 <= k < final(redges)@.len() ==> (#[trigger] final(redges)@[k]).2 == ((k < old(redges)@.len() && old(redges)@[k].2)
            || critically_linked_through(pedges@, i as int, nodes@[final(redges)@[k].0 as int], nodes@[final(redges)@[k].1 as int])),
        forall|a: usize, b: usize| #[trigger] has_rule_edge(final(redges)@, a, b) <==> has_rule_edge(old(redges)@, a, b)
            || (a < nodes@.len() && b < nodes@.len() && linked_through(pedges@, i as int, nodes@[a as int], nodes@[b as int])),
{
    let ghost start = redges@;
    let m = pedges.len();
    let e_in = pedges[i];
    let mut o: usize = 0;
    while o < m
        invariant
            m == pedges@.len(),
            i < m,
            e_in == pedges@[i as int],
            forall|x: int| 0 <= x < pedges@.len() ==> nodes@.contains(#[trigger] pedges@[x].2),
            nodes@.no_duplicates(),
            0 <= o <= m,
            distinct_pairs(redges@),
            edges_within(nodes@.len() as nat, rule_edge_pairs(redges@)),
            redges@.len() >= start.len(),
            forall|k: int| 0 <= k < start.len() ==> (#[trigger] redges@[k]).0 == start[k].0 && redges@[k].1 == start[k].1,
            forall|k: int| 0 <= k < redges@.len() ==> (#[trigger] redges@[k]).2 == ((k < start.len() && start[k].2)
                || (exists|y: int| 0 <= y < o && #[trigger] link_pair(pedges@, i as int, y, nodes@[redges@[k].0 as int], nodes@[redges@[k].1 as int])
                    && (e_in.3 || pedges@[y].3))),
            forall|a: usize, b: usize| #[trigger] has_rule_edge(redges@, a, b) <==> has_rule_edge(start, a, b)
                || (a < nodes@.len() && b < nodes@.len() && exists|y: int| 0 <= y < o && #[trigger] link_pair(pedges@, i as int, y, nodes@[a as int], nodes@[b as int])),
        decreases m - o,
    {
        let ghost before = redges@;
        let e_out = pedges[o];
        if e_in.1 == e_out.0 {
            assert(nodes@.contains(pedges@[i as int].2));
            assert(nodes@.contains(pedges@[o as int].2));
            let n1 = match position_of(nodes, e_in.2) { Some(k) => k, None => { return; } };
            let n2 = match position_of(nodes, e_out.2) { Some(k) => k, None => { return; } };
            assert(link_pair(pedges@, i as int, o as int, nodes@[n1 as int], nodes@[n2 as int]));
            let critical = e_in.3 || e_out.3;
            let ghost touched: int;
            match find_rule_edge(redges, n1, n2) {
                Some(k) => {
                    if critical {
                        redges.set(k, (n1, n2, true));
                    }
                    proof {
                        touched = k as int;
                        assert(rule_edge_pairs(redges@) =~= rule_edge_pairs(before));
                        assert forall|x: int| 0 <= x < redges@.len() && x != k implies redges@[x] == before[x] by {}
                        assert(redges@[k as int].2 == (before[k as int].2 || critical));
                    }
                },
                None => {
                    redges.push((n1, n2, critical));
                    proof {
                        touched = before.len() as int;
                        assert(rule_edge_pairs(redges@) =~= rule_edge_pairs(before).push((n1, n2)));
                    }
                },
            }
            proof {
                assert(0 <= touched < redges@.len());
                assert(redges@[touched].0 == n1 && redges@[touched].1 == n2);
                assert forall|k: int| 0 <= k < redges@.len() implies (#[trigger] redges@[k]).2 == ((k < start.len() && start[k].2)
                    || (exists|y: int| 0 <= y < o + 1 && #[trigger] link_pair(pedges@, i as int, y, nodes@[redges@[k].0 as int], nodes@[redges@[k].1 as int])
                        && (e_in.3 || pedges@[y].3))) by {
                    if k == touched {
                        assert(link_pair(pedges@, i as int, o as int, nodes@[redges@[k].0 as int], nodes@[redges@[k].1 as int]));
                        if k < before.len() {
                            assert(before[k].0 == n1 && before[k].1 == n2);
                        }
                    } else {
                        assert(k < before.len());
                        assert(redges@[k] == before[k]);
                        if link_pair(pedges@, i as int, o as int, nodes@[redges@[k].0 as int], nodes@[redges@[k].1 as int]) {
                            assert(rule_edge_pairs(before)[k] == (before[k].0, before[k].1));
                            assert(before[k].0 < nodes@.len() && before[k].1 < nodes@.len());
                            assert(nodes@[redges@[k].0 as int] == nodes@[n1 as int]);
                            assert(nodes@[redges@[k].1 as int] == nodes@[n2 as int]);
                            assert(redges@[k].0 == n1 && redges@[k].1 == n2);
                            assert(false);
                        }
                    }
                }
                assert forall|a: usize, b: usize| #[trigger] has_rule_edge(redges@, a, b) <==> has_rule_edge(start, a, b)
                    || (a < nodes@.len() && b < nodes@.len() && exists|y: int| 0 <= y < o + 1 && #[trigger] link_pair(pedges@, i as int, y, nodes@[a as int], nodes@[b as int])) by {
                    if has_rule_edge(redges@, a, b) {
                        let k = choose|k: int| 0 <= k < redges@.len() && (#[trigger] redges@[k]).0 == a && redges@[k].1 == b;
                        if k < before.len() {
                            assert(before[k].0 == a && before[k].1 == b);
                            assert(has_rule_edge(before, a, b));
                        } else {
                            assert(a == n1 && b == n2);
                        }
                    }
                    if has_rule_edge(before, a, b) {
                        let k = choose|k: int| 0 <= k < before.len() && (#[trigger] before[k]).0 == a && before[k].1 == b;
                        assert(redges@[k].0 == a && redges@[k].1 == b);
                    }
                    if a < nodes@.len() && b < nodes@.len() && link_pair(pedges@, i as int, o as int, nodes@[a as int], nodes@[b as int]) {
                        assert(nodes@[a as int] == nodes@[n1 as int]);
                        assert(nodes@[b as int] == nodes@[n2 as int]);
                        assert(a == n1 && b == n2);
                        if has_rule_edge(before, n1, n2) {
                            let k = choose|k: int| 0 <= k < before.len() && (#[trigger] before[k]).0 == n1 && before[k].1 == n2;
                            assert(redges@[k].0 == n1 && redges@[k].1 == n2);
                        } else {
                            assert(redges@[redges@.len() - 1].0 == n1 && redges@[redges@.len() - 1].1 == n2);
                        }
                    }
                }
            }
        }
        o = o + 1;
    }
    proof {
        assert forall|k: int| 0 <= k < redges@.len() implies (#[trigger] redges@[k]).2 == ((k < start.len() && start[k].2)
            || critically_linked_through(pedges@, i as int, nodes@[redges@[k].0 as int], nodes@[redges@[k].1 as int])) by {
            if critically_linked_through(pedges@, i as int, nodes@[redges@[k].0 as int], nodes@[redges@[k].1 as int]) {
                let y = choose|y: int| #[trigger] link_pair(pedges@, i as int, y, nodes@[redges@[k].0 as int], nodes@[redges@[k].1 as int])
                    && (pedges@[i as int].3 || pedges@[y].3);
                assert(0 <= y < m);
            }
        }
        assert forall|a: usize, b: usize| #[trigger] has_rule_edge(redges@, a, b) <==> has_rule_edge(start, a, b)
            || (a < nodes@.len() && b < nodes@.len() && linked_through(pedges@, i as int, nodes@[a as int], nodes@[b as int])) by {
            if a < nodes@.len() && b < nodes@.len() && linked_through(pedges@, i as int, nodes@[a as int], nodes@[b as int]) {
                let y = choose|y: int| #[trigger] link_pair(pedges@, i as int, y, nodes@[a as int], nodes@[b as int]);
                assert(0 <= y < m);
            }
        }
    }
}

impl PropagationGraph {
    /// Builds a rule dependency graph from the propagation graph.
    /// Nodes are rule indices, in the order in which they first label an edge.
    /// There is an edge r1 -> r2 if some predicate position has an incoming
    /// edge labeled r1 (r1 writes to it, as a head) and an outgoing edge
    /// labeled r2 (r2 reads from it, as a body atom). Edge weight is true if
    /// either contributing edge of some such pair was critical.
    pub fn rule_graph_from_propagation_graph(&self) -> (graph: RuleGraph)
        ensures
            graph.nodes@ == first_appearance(rule_labels(self.edges@)),
            distinct_pairs(graph.edges@),
            edges_within(graph.nodes@.len() as nat, rule_edge_pairs(graph.edges@)),
            forall|a: usize, b: usize| a < graph.nodes@.len() && b < graph.nodes@.len() ==> (#[trigger] has_rule_edge(graph.edges@, a, b)
                <==> linked(self.edges@, graph.nodes@[a as int], graph.nodes@[b as int])),
            forall|k: int| 0 <= k < graph.edges@.len() ==> (#[trigger] graph.edges@[k]).2
                == critically_linked(self.edges@, graph.nodes@[graph.edges@[k].0 as int], graph.nodes@[graph.edges@[k].1 as int]),
    {
        let ghost labels = rule_labels(self.edges@);
        let m = self.edges.len();
        let mut nodes: Vec<usize> = Vec::new();
        let mut k: usize = 0;
        assert(nodes@ =~= first_appearance(labels.take(0)));
        while k < m
            invariant
                m == self.edges@.len(),
                labels == rule_labels(self.edges@),
                0 <= k <= m,
                nodes@ == first_appearance(labels.take(k as int)),
            decreases m - k,
        {
            let r = self.edges[k].2;
            assert(labels.take(k + 1).drop_last() =~= labels.take(k as int));
            assert(labels.take(k + 1).last() == r);
            if position_of(&nodes, r).is_none() {
                nodes.push(r);
            }
            k = k + 1;
        }
        assert(labels.take(m as int) =~= labels);
        proof {
            lemma_first_appearance(labels);
            assert forall|x: int| 0 <= x < self.edges@.len() implies nodes@.contains(#[trigger] self.edges@[x].2) by {
                assert(labels[x] == self.edges@[x].2);
                assert(labels.contains(labels[x]));
            }
        }
        let mut redges: Vec<(usize, usize, bool)> = Vec::new();
        let mut i: usize = 0;
        assert(rule_edge_pairs(redges@) =~= Seq::<(usize, usize)>::empty());
        while i < m
            invariant
                m == self.edges@.len(),
                forall|x: int| 0 <= x < self.edges@.len() ==> nodes@.contains(#[trigger] self.edges@[x].2),
                nodes@.no_duplicates(),
                0 <= i <= m,
                distinct_pairs(redges@),
                edges_within(nodes@.len() as nat, rule_edge_pairs(redges@)),
                forall|a: usize, b: usize| #[trigger] has_rule_edge(redges@, a, b) <==> (a < nodes@.len() && b < nodes@.len()
                    && linked_below(self.edges@, i as int, nodes@[a as int], nodes@[b as int])),
                forall|k: int| 0 <= k < redges@.len() ==> (#[trigger] redges@[k]).2
                    == critically_linked_below(self.edges@, i as int, nodes@[redges@[k].0 as int], nodes@[redges@[k].1 as int]),
            decreases m - i,
        {
            let ghost before = redges@;
            add_links(&self.edges, i, &nodes, &mut redges);
            proof {
                assert forall|a: usize, b: usize| #[trigger] has_rule_edge(redges@, a, b) <==> (a < nodes@.len() && b < nodes@.len()
                    && linked_below(self.edges@, i + 1, nodes@[a as int], nodes@[b as int])) by {
                    if a < nodes@.len() && b < nodes@.len() && linked_below(self.edges@, i + 1, nodes@[a as int], nodes@[b as int]) {
                        let x = choose|x: int| 0 <= x < i + 1 && #[trigger] linked_through(self.edges@, x, nodes@[a as int], nodes@[b as int]);
                        if x < i {
                            assert(linked_below(self.edges@, i as int, nodes@[a as int], nodes@[b as int]));
                        }
                    }
                    if has_rule_edge(before, a, b) {
                        let x = choose|x: int| 0 <= x < i && #[trigger] linked_through(self.edges@, x, nodes@[a as int], nodes@[b as int]);
                        assert(linked_below(self.edges@, i + 1, nodes@[a as int], nodes@[b as int]));
                    }
                    if a < nodes@.len() && b < nodes@.len() && linked_through(self.edges@, i as int, nodes@[a as int], nodes@[b as int]) {
                        assert(linked_below(self.edges@, i + 1, nodes@[a as int], nodes@[b as int]));
                    }
                }
                assert forall|k: int| 0 <= k < redges@.len() implies (#[trigger] redges@[k]).2
                    == critically_linked_below(self.edges@, i + 1, nodes@[redges@[k].0 as int], nodes@[redges@[k].1 as int]) by {
                    let a = redges@[k].0;
                    let b = redges@[k].1;
                    assert(rule_edge_pairs(redges@)[k] == (a, b));
                    if k < before.len() {
                        assert(before[k].0 == a && before[k].1 == b);
                    } else {
                        if has_rule_edge(before, a, b) {
                            let k2 = choose|k2: int| 0 <= k2 < before.len() && (#[trigger] before[k2]).0 == a && before[k2].1 == b;
                            assert(redges@[k2].0 == a && redges@[k2].1 == b);
                            assert(false);
                        }
                        if critically_linked_below(self.edges@, i as int, nodes@[a as int], nodes@[b as int]) {
                            let x = choose|x: int| 0 <= x < i && #[trigger] critically_linked_through(self.edges@, x, nodes@[a as int], nodes@[b as int]);
                            let y = choose|y: int| #[trigger] link_pair(self.edges@, x, y, nodes@[a as int], nodes@[b as int])
                                && (self.edges@[x].3 || self.edges@[y].3);
                            assert(linked_through(self.edges@, x, nodes@[a as int], nodes@[b as int]));
                            assert(linked_below(self.edges@, i as int, nodes@[a as int], nodes@[b as int]));
                        }
                    }
                    if critically_linked_below(self.edges@, i + 1, nodes@[a as int], nodes@[b as int]) {
                        let x = choose|x: int| 0 <= x < i + 1 && #[trigger] critically_linked_through(self.edges@, x, nodes@[a as int], nodes@[b as int]);
                        if x < i {
                            assert(critically_linked_below(self.edges@, i as int, nodes@[a as int], nodes@[b as int]));
                        }
                    }
                    if critically_linked_through(self.edges@, i as int, nodes@[a as int], nodes@[b as int]) {
                        assert(critically_linked_below(self.edges@, i + 1, nodes@[a as int], nodes@[b as int]));
                    }
                    if critically_linked_below(self.edges@, i as int, nodes@[a as int], nodes@[b as int]) {
                        let x = choose|x: int| 0 <= x < i && #[trigger] critically_linked_through(self.edges@, x, nodes@[a as int], nodes@[b as int]);
                        assert(critically_linked_below(self.edges@, i + 1, nodes@[a as int], nodes@[b as int]));
                    }
                }
            }
            i = i + 1;
        }
        proof {
            assert forall|a: usize, b: usize| a < nodes@.len() && b < nodes@.len() implies (#[trigger] has_rule_edge(redges@, a, b)
                <==> linked(self.edges@, nodes@[a as int], nodes@[b as int])) by {
                if linked(self.edges@, nodes@[a as int], nodes@[b as int]) {
                    let (x, y) = choose|x: int, y: int| #[trigger] link_pair(self.edges@, x, y, nodes@[a as int], nodes@[b as int]);
                    assert(linked_through(self.edges@, x, nodes@[a as int], nodes@[b as int]));
                }
                if linked_below(self.edges@, m as int, nodes@[a as int], nodes@[b as int]) {
                    let x = choose|x: int| 0 <= x < m && #[trigger] linked_through(self.edges@, x, nodes@[a as int], nodes@[b as int]);
                    let y = choose|y: int| #[trigger] link_pair(self.edges@, x, y, nodes@[a as int], nodes@[b as int]);
                }
            }
            assert forall|k: int| 0 <= k < redges@.len() implies (#[trigger] redges@[k]).2
                == critically_linked(self.edges@, nodes@[redges@[k].0 as int], nodes@[redges@[k].1 as int]) by {
                let r1 = nodes@[redges@[k].0 as int];
                let r2 = nodes@[redges@[k].1 as int];
                if critically_linked(self.edges@, r1, r2) {
                    let (x, y) = choose|x: int, y: int| #[trigger] link_pair(self.edges@, x, y, r1, r2)
                        && (self.edges@[x].3 || self.edges@[y].3);
                    assert(critically_linked_through(self.edges@, x, r1, r2));
                }
                if critically_linked_below(self.edges@, m as int, r1, r2) {
                    let x = choose|x: int| 0 <= x < m && #[trigger] critically_linked_through(self.edges@, x, r1, r2);
                    let y = choose|y: int| #[trigger] link_pair(self.edges@, x, y, r1, r2) && (self.edges@[x].3 || self.edges@[y].3);
                }
            }
        }
        RuleGraph { nodes, edges: redges }
    }
}

/// The rule indices of a cycle of nodes of the rule graph.
pub open spec fn cycle_rules(nodes: Seq<usize>, c: Seq<usize>) -> Seq<usize> {
    c.map_values(|x: usize| nodes[x as int])
}

/// The nodes of a cycle lie within the nodes of its graph.
proof fn lemma_cycle_nodes_within(pairs: Seq<(usize, usize)>, c: Seq<usize>, n: nat)
    requires
        edges_within(n, pairs),
        is_elementary_cycle(pairs, c),
    ensures
        forall|i: int| 0 <= i < c.len() ==> #[trigger] c[i] < n,
{
    assert forall|i: int| 0 <= i < c.len() implies #[trigger] c[i] < n by {
        assert(pairs.contains((c[i], c[next_index(i, c.len() as int)])));
        let w = choose|w: int| 0 <= w < pairs.len() && pairs[w] == (c[i], c[next_index(i, c.len() as int)]);
        assert(pairs[w].0 < n);
    }
}

/// The rule indices of a cycle of nodes.
fn map_cycle(nodes: &Vec<usize>, c: &Vec<usize>) -> (rc: Vec<usize>)
    requires
        forall|i: int| 0 <= i < c@.len() ==> #[trigger] c@[i] < nodes@.len(),
    ensures
        rc@ == cycle_rules(nodes@, c@),
{
    let mut rc: Vec<usize> = Vec::new();
    let len = c.len();
    let mut j: usize = 0;
    while j < len
        invariant
            len == c@.len(),
            forall|i: int| 0 <= i < c@.len() ==> #[trigger] c@[i] < nodes@.len(),
            0 <= j <= len,
            rc@ == cycle_rules(nodes@, c@).take(j as int),
        decreases len - j,
    {
        assert(c@[j as int] < nodes@.len());
        rc.push(nodes[c[j]]);
        assert(rc@ =~= cycle_rules(nodes@, c@).take(j + 1));
        j = j + 1;
    }
    assert(cycle_rules(nodes@, c@).take(len as int) =~= cycle_rules(nodes@, c@));
    rc
}

/// The position of each rule of the cycle among the nodes.
proof fn lemma_rule_positions_in_nodes(pedges: Seq<(usize, usize, usize, bool)>, nodes: Seq<usize>, rc: Seq<usize>) -> (c: Seq<usize>)
    requires
        nodes == first_appearance(rule_labels(pedges)),
        nodes.len() <= usize::MAX,
        is_rule_cycle(pedges, rc),
    ensures
        c.len() == rc.len(),
        forall|i: int| 0 <= i < rc.len() ==> (#[trigger] c[i]) < nodes.len() && nodes[c[i] as int] == rc[i],
{
    let labels = rule_labels(pedges);
    lemma_first_appearance(labels);
    let n = rc.len() as int;
    assert forall|i: int| 0 <= i < n implies nodes.contains(#[trigger] rc[i]) by {
        assert(linked(pedges, rc[i], rc[next_index(i, n)]));
        let (x, y) = choose|x: int, y: int| #[trigger] link_pair(pedges, x, y, rc[i], rc[next_index(i, n)]);
        assert(labels[x] == rc[i]);
        assert(labels.contains(rc[i]));
    }
    let c = rc.map_values(|r: usize| choose|j: usize| j < nodes.len() && nodes[j as int] == r);
    assert forall|i: int| 0 <= i < n implies (#[trigger] c[i]) < nodes.len() && nodes[c[i] as int] == rc[i] by {
        assert(nodes.contains(rc[i]));
        let w = choose|w: int| 0 <= w < nodes.len() && nodes[w] == rc[i];
        assert(nodes[(w as usize) as int] == rc[i]);
    }
    c
}

/// Distinct nodes of a cycle name distinct rules.
proof fn lemma_cycle_rules_distinct(nodes: Seq<usize>, c: Seq<usize>)
    requires
        nodes.no_duplicates(),
        c.no_duplicates(),
        forall|i: int| 0 <= i < c.len() ==> #[trigger] c[i] < nodes.len(),
    ensures
        cycle_rules(nodes, c).no_duplicates(),
{
    let rc = cycle_rules(nodes, c);
    assert forall|i: int, j: int| 0 <= i < c.len() && 0 <= j < c.len() && i != j implies rc[i] != rc[j] by {
        assert(c[i] != c[j]);
        assert(c[i] < nodes.len() && c[j] < nodes.len());
    }
}

/// A cycle of the rule graph gives a cycle of rules.
#[verifier::rlimit(80)]
proof fn lemma_node_cycle_to_rule_cycle(pedges: Seq<(usize, usize, usize, bool)>, graph: RuleGraph, pairs: Seq<(usize, usize)>, c: Seq<usize>)
    requires
        pairs == rule_edge_pairs(graph.edges@),
        graph.nodes@.no_duplicates(),
        edges_within(graph.nodes@.len() as nat, pairs),
        forall|a: usize, b: usize| a < graph.nodes@.len() && b < graph.nodes@.len() ==> (#[trigger] has_rule_edge(graph.edges@, a, b)
            <==> linked(pedges, graph.nodes@[a as int], graph.nodes@[b as int])),
        is_elementary_cycle(pairs, c),
    ensures
        is_rule_cycle(pedges, cycle_rules(graph.nodes@, c)),
{
    let nodes = graph.nodes@;
    let rc = cycle_rules(nodes, c);
    let n = c.len() as int;
    lemma_cycle_nodes_within(pairs, c, graph.nodes@.len() as nat);
    lemma_cycle_rules_distinct(nodes, c);
    assert forall|i: int| 0 <= i < n implies linked(pedges, #[trigger] rc[i], rc[next_index(i, n)]) by {
        let j = next_index(i, n);
        assert(pairs.contains((c[i], c[j])));
        lemma_pair_linked(pedges, graph, pairs, c[i], c[j]);
    }
}

/// An edge of the rule graph links the rules of its two nodes.
proof fn lemma_pair_linked(pedges: Seq<(usize, usize, usize, bool)>, graph: RuleGraph, pairs: Seq<(usize, usize)>, a: usize, b: usize)
    requires
        pairs == rule_edge_pairs(graph.edges@),
        edges_within(graph.nodes@.len() as nat, pairs),
        forall|a: usize, b: usize| a < graph.nodes@.len() && b < graph.nodes@.len() ==> (#[trigger] has_rule_edge(graph.edges@, a, b)
            <==> linked(pedges, graph.nodes@[a as int], graph.nodes@[b as int])),
        pairs.contains((a, b)),
    ensures
        linked(pedges, graph.nodes@[a as int], graph.nodes@[b as int]),
{
    let w = choose|w: int| 0 <= w < pairs.len() && pairs[w] == (a, b);
    assert(graph.edges@[w].0 == a && graph.edges@[w].1 == b);
    assert(has_rule_edge(graph.edges@, a, b));
    assert(a < graph.nodes@.len() && b < graph.nodes@.len());
}

/// A rotation of a sequence of distinct nodes has distinct nodes.
proof fn lemma_rotation_distinct(l: Seq<usize>, c: Seq<usize>)
    requires
        is_rotation(l, c),
        c.no_duplicates(),
    ensures
        l.no_duplicates(),
{
    let n = c.len() as int;
    let k = choose|k: int| 0 <= k < l.len() && #[trigger] rotated_by(l, c, k);
    assert forall|t1: int, t2: int| 0 <= t1 < n && 0 <= t2 < n && t1 != t2 implies l[t1] != l[t2] by {
        let i1 = if t1 >= k { t1 - k } else { t1 - k + n };
        let i2 = if t2 >= k { t2 - k } else { t2 - k + n };
        assert(shifted_index(i1, k, n) == t1);
        assert(shifted_index(i2, k, n) == t2);
        assert(c[i1] == l[t1] && c[i2] == l[t2]);
    }
}

/// Mapping both cycles keeps one a rotation of the other.
proof fn lemma_rotation_rules(nodes: Seq<usize>, l: Seq<usize>, c: Seq<usize>)
    requires
        is_rotation(l, c),
    ensures
        is_rotation(cycle_rules(nodes, l), cycle_rules(nodes, c)),
{
    let k = choose|k: int| 0 <= k < l.len() && #[trigger] rotated_by(l, c, k);
    let (ml, mc) = (cycle_rules(nodes, l), cycle_rules(nodes, c));
    assert forall|i: int| 0 <= i < mc.len() implies #[trigger] mc[i] == ml[shifted_index(i, k, ml.len() as int)] by {
        assert(c[i] == l[shifted_index(i, k, l.len() as int)]);
    }
    assert(rotated_by(ml, mc, k));
}

/// A cycle of rules gives a cycle of the rule graph whose nodes hold them.
proof fn lemma_rule_cycle_to_node_cycle(pedges: Seq<(usize, usize, usize, bool)>, graph: RuleGraph, pairs: Seq<(usize, usize)>,
    rc: Seq<usize>) -> (nc: Seq<usize>)
    requires
        graph.nodes@ == first_appearance(rule_labels(pedges)),
        pairs == rule_edge_pairs(graph.edges@),
        forall|a: usize, b: usize| a < graph.nodes@.len() && b < graph.nodes@.len() ==> (#[trigger] has_rule_edge(graph.edges@, a, b)
            <==> linked(pedges, graph.nodes@[a as int], graph.nodes@[b as int])),
        is_rule_cycle(pedges, rc),
        graph.nodes@.len() <= usize::MAX,
    ensures
        is_elementary_cycle(pairs, nc),
        cycle_rules(graph.nodes@, nc) == rc,
{
    let nodes = graph.nodes@;
    let n = rc.len() as int;
    lemma_first_appearance(rule_labels(pedges));
    assert forall|i: int| 0 <= i < n implies #[trigger] nodes.contains(rc[i]) by {
        assert(linked(pedges, rc[i], rc[next_index(i, n)]));
        let (x, o) = choose|x: int, o: int| #[trigger] link_pair(pedges, x, o, rc[i], rc[next_index(i, n)]);
        assert(rule_labels(pedges)[x] == rc[i]);
        assert(rule_labels(pedges).contains(rc[i]));
    }
    let nc = Seq::new(n as nat, |i: int| (choose|j: int| 0 <= j < nodes.len() && nodes[j] == rc[i]) as usize);
    assert forall|i: int| 0 <= i < n implies (#[trigger] nc[i]) < nodes.len() && nodes[nc[i] as int] == rc[i] by {
        assert(nodes.contains(rc[i]));
        let j = choose|j: int| 0 <= j < nodes.len() && nodes[j] == rc[i];
        assert(nc[i] == j as usize);
    }
    assert(cycle_rules(nodes, nc) =~= rc);
    assert forall|i: int, j: int| 0 <= i < n && 0 <= j < n && i != j implies nc[i] != nc[j] by {
        assert(rc[i] != rc[j]);
        assert(nodes[nc[i] as int] == rc[i] && nodes[nc[j] as int] == rc[j]);
    }
    assert forall|i: int| 0 <= i < n implies #[trigger] pairs.contains((nc[i], nc[next_index(i, n)])) by {
        let j = next_index(i, n);
        assert(nodes[nc[i] as int] == rc[i] && nodes[nc[j] as int] == rc[j]);
        assert(nc[i] < nodes.len() && nc[j] < nodes.len());
        assert(linked(pedges, rc[i], rc[j]));
        assert(has_rule_edge(graph.edges@, nc[i], nc[j]));
        let k = choose|k: int| 0 <= k < graph.edges@.len() && (#[trigger] graph.edges@[k]).0 == nc[i] && graph.edges@[k].1 == nc[j];
        assert(pairs[k] == (nc[i], nc[j]));
    }
    nc
}

impl PropagationGraph {
    /// Returns the cycles of the rule graph of the propagation graph, as
    /// sequences of rule indices: each is a cycle of distinct rules, each
    /// writing a position that the next one reads, and each such cycle is
    /// returned, starting at one of its rules (a sequence of the cycle
    /// enumeration that is empty or repeats a node is left out)
    #[verifier::rlimit(80)]
    pub fn all_rule_cycles(&self) -> (cycles: Vec<Vec<usize>>)
        requires
            first_appearance(rule_labels(self.edges@)).len() <= CYCLE_SEARCH_LIMIT,
        ensures
            forall|i: int| 0 <= i < cycles@.len() ==> is_rule_cycle(self.edges@, #[trigger] cycles@[i]@),
            lists_all_rule_cycles(self.edges@, cycles@),
    {
        let graph = self.rule_graph_from_propagation_graph();
        proof { lemma_first_appearance(rule_labels(self.edges@)); }
        let mut pairs: Vec<(usize, usize)> = Vec::new();
        let m = graph.edges.len();
        let mut k: usize = 0;
        while k < m
            invariant
                m == graph.edges@.len(),
                0 <= k <= m,
                pairs@ == rule_edge_pairs(graph.edges@).take(k as int),
            decreases m - k,
        {
            pairs.push((graph.edges[k].0, graph.edges[k].1));
            assert(pairs@ =~= rule_edge_pairs(graph.edges@).take(k + 1));
            k = k + 1;
        }
        assert(rule_edge_pairs(graph.edges@).take(m as int) =~= rule_edge_pairs(graph.edges@));
        let node_cycles = elementary_cycles(graph.nodes.len(), &pairs);
        let mut cycles: Vec<Vec<usize>> = Vec::new();
        let ghost kept: Seq<Seq<usize>> = Seq::empty();
        let count = node_cycles.len();
        let mut x: usize = 0;
        while x < count
            invariant
                count == node_cycles@.len(),
                pairs@ == rule_edge_pairs(graph.edges@),
                edges_within(graph.nodes@.len() as nat, pairs@),
                forall|i: int| 0 <= i < node_cycles@.len() ==> is_closed_walk(pairs@, #[trigger] node_cycles@[i]@),
                0 <= x <= count,
                cycles@.len() == kept.len(),
                forall|i: int| 0 <= i < kept.len() ==> is_elementary_cycle(pairs@, #[trigger] kept[i]),
                forall|i: int| 0 <= i < kept.len() ==> (#[trigger] cycles@[i])@ == cycle_rules(graph.nodes@, kept[i]),
                forall|j: int| 0 <= j < x && node_cycles@[j]@.len() >= 1 && (#[trigger] node_cycles@[j])@.no_duplicates()
                    ==> kept.contains(node_cycles@[j]@),
            decreases count - x,
        {
            let nc = &node_cycles[x];
            if distinct_nodes(nc) {
                proof {
                    assert(is_closed_walk(pairs@, nc@));
                    assert(is_elementary_cycle(pairs@, nc@));
                    lemma_cycle_nodes_within(pairs@, nc@, graph.nodes@.len() as nat);
                }
                let rc = map_cycle(&graph.nodes, nc);
                cycles.push(rc);
                proof {
                    let before = kept;
                    kept = kept.push(nc@);
                    assert forall|j: int| 0 <= j < x + 1 && node_cycles@[j]@.len() >= 1 && (#[trigger] node_cycles@[j])@.no_duplicates()
                        implies kept.contains(node_cycles@[j]@) by {
                        if j < x {
                            let i = choose|i: int| 0 <= i < before.len() && before[i] == node_cycles@[j]@;
                            assert(kept[i] == before[i]);
                        } else {
                            assert(kept[before.len() as int] == nc@);
                        }
                    }
                }
            }
            x = x + 1;
        }
        proof {
            assert forall|i: int| 0 <= i < cycles@.len() implies is_rule_cycle(self.edges@, #[trigger] cycles@[i]@) by {
                lemma_node_cycle_to_rule_cycle(self.edges@, graph, pairs@, kept[i]);
            }
            reveal(lists_all_rule_cycles);
            assert forall|rc: Seq<usize>| #[trigger] is_rule_cycle(self.edges@, rc) implies lists_cycle(cycles@, rc) by {
                let nc = lemma_rule_cycle_to_node_cycle(self.edges@, graph, pairs@, rc);
                assert(lists_cycle(node_cycles@, nc));
                let j = choose|j: int| 0 <= j < node_cycles@.len() && is_rotation(#[trigger] node_cycles@[j]@, nc);
                let l = node_cycles@[j]@;
                lemma_rotation_distinct(l, nc);
                assert(kept.contains(l));
                let i = choose|i: int| 0 <= i < kept.len() && kept[i] == l;
                lemma_rotation_rules(graph.nodes@, l, nc);
                assert(is_rotation(cycles@[i]@, rc));
            }
        }
        cycles
    }
}

/// Returns whether the sequence is nonempty and its nodes are distinct.
fn distinct_nodes(c: &Vec<usize>) -> (r: bool)
    ensures
        r == (c@.len() >= 1 && c@.no_duplicates()),
{
    let n = c.len();
    if n == 0 {
        return false;
    }
    let mut i: usize = 0;
    while i < n
        invariant
            n == c@.len(),
            0 <= i <= n,
            forall|a: int, b: int| 0 <= a < i && 0 <= b < n && a != b ==> c@[a] != c@[b],
        decreases n - i,
    {
        let mut j: usize = 0;
        while j < n
            invariant
                n == c@.len(),
                0 <= i < n,
                0 <= j <= n,
                forall|a: int, b: int| 0 <= a < i && 0 <= b < n && a != b ==> c@[a] != c@[b],
                forall|b: int| 0 <= b < j && b != i ==> c@[i as int] != c@[b],
            decreases n - j,
        {
            if j != i && c[i] == c[j] {
                return false;
            }
            j = j + 1;
        }
        i = i + 1;
    }
    true
}

} // verus!
