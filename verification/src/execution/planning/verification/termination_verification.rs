//! This module defines [TerminationVerifier], which checks whether the
//! cycles of rules of a program terminate by their termination annotations

use vstd::prelude::*;

pub mod composition;

use self::composition::{
    atoms_of, cache_start, chain_end, chain_substitution, composable, composed_as, composition, cycle_caches, edb_terms,
    in_chain, lemma_body_measure, lemma_cache_start_monotone, lemma_chain_end, lemma_composition_frame,
    end_measure, lemma_concat_set, lemma_edb_variables, lemma_head_measure, lemma_substituted_set, linear_cycle, measure_fits,
    rules_of, start_measures, step_substitution,
};

use crate::execution::planning::normalization::atom::{BodyAtom, HeadAtom};
use crate::execution::planning::normalization::program::NormalizedProgram;
use crate::execution::planning::normalization::rule::NormalizedRule;
use crate::execution::planning::normalization::termination_annotation::{
    NormalizedTerminationAnnotation, TerminationDirection,
};
use crate::execution::planning::verification::edb_analysis::{variables_at, EdbAnalyzer, Positions};
use crate::execution::planning::verification::rule_verification::z3_restriction::Restriction;
use crate::execution::planning::verification::rule_verification::z3_translation::{
    cache_lookup, cache_view, lookup, CacheEntry,
};
use crate::execution::planning::verification::rule_verification::{
    create_var_cache, lemma_body_atom_variable, lemma_head_atom_variable, lemma_translatable_rule, rule_cache,
};
use crate::execution::planning::verification::rule_verification::z3_goal::{substitute_all, substituted_all};
use crate::execution::planning::verification::rule_verification::z3_translation::{
    int_cache, min_length, registered, termination_body_term, RuleTranslator,
};
use crate::execution::planning::verification::rule_verification::z3_restriction::var_id;
use crate::execution::planning::verification::smt::{
    bound_is_finite, check_sat, lower_bound, mentions_infinity, optimization_text, satisfiable, upper_bound,
    z3_lower_bound, z3_upper_bound, SatOutcome, SmtOp, SmtTerm,
};
use crate::execution::planning::verification::annotation_analysis::graph_algorithms::{
    is_rotation, lists_cycle, next_index, shifted_index,
};
use crate::execution::planning::verification::annotation_analysis::propagation_graph::lists_all_rule_cycles;
use crate::execution::planning::verification::annotation_analysis::propagation_graph::{
    atom_edge, buildable, fits_cycle_search, has_critical_cycle, head_position_edge, is_rule_cycle, link_pair, linked, position_edge,
    propagation_graph_of, rule_edge, PropagationGraph,
};
use crate::rule_model::components::tag::Tag;
use crate::rule_model::components::term::variable_names;
use crate::rule_model::components::variable::{Primitive, PrimitiveView, Variable};

verus! {

/// The comparison that a strict change of the measure asserts between its
/// value at the start and at the end of a cycle.
pub open spec fn change_term(direction: TerminationDirection, start: SmtTerm, end: SmtTerm) -> SmtTerm {
    match direction {
        TerminationDirection::Decreasing => SmtTerm::Apply(SmtOp::Gt, Box::new(start), Box::new(end)),
        TerminationDirection::Increasing => SmtTerm::Apply(SmtOp::Lt, Box::new(start), Box::new(end)),
    }
}

/// The query whose unsatisfiability shows that the measure strictly changes
/// from the given start value to the end value of the cycle.
pub open spec fn change_query(composed: Seq<SmtTerm>, direction: TerminationDirection, start: SmtTerm, end: SmtTerm) -> Seq<SmtTerm> {
    composed + seq![SmtTerm::Not(Box::new(change_term(direction, start, end)))]
}

/// The assertions that keep each edb constant strictly between the least and
/// the greatest 64-bit integer.
pub open spec fn edb_bounds(edb_vars: Seq<SmtTerm>) -> Seq<SmtTerm>
    decreases edb_vars.len(),
{
    if edb_vars.len() == 0 {
        Seq::empty()
    } else {
        edb_bounds(edb_vars.drop_last())
            + seq![
                SmtTerm::Apply(SmtOp::Lt, Box::new(edb_vars.last()), Box::new(SmtTerm::Int(i64::MAX))),
                SmtTerm::Apply(SmtOp::Gt, Box::new(edb_vars.last()), Box::new(SmtTerm::Int(i64::MIN))),
            ]
    }
}

/// Whether the cycle's measure has a finite bound, as the solver's optimizer
/// finds it: an upper bound for an increasing, a lower one for a decreasing
/// measure.
pub open spec fn bound_found(direction: TerminationDirection, composed: Seq<SmtTerm>, norm: SmtTerm, edb_vars: Seq<SmtTerm>) -> bool {
    match direction {
        TerminationDirection::Decreasing => z3_lower_bound(optimization_text(edb_bounds(edb_vars) + composed, norm, false))
            matches Some(s) && !mentions_infinity(s),
        TerminationDirection::Increasing => z3_upper_bound(optimization_text(edb_bounds(edb_vars) + composed, norm, true))
            matches Some(s) && !mentions_infinity(s),
    }
}

/// The cycle turned to start after its rule at `start`, so that it ends
/// with that rule.
pub open spec fn rotation(cycle: Seq<NormalizedRule>, start: int) -> Seq<NormalizedRule> {
    Seq::new(cycle.len(), |j: int| if start + 1 + j < cycle.len() { cycle[start + 1 + j] } else { cycle[start + 1 + j - cycle.len()] })
}

/// A turned cycle is as long as the cycle, ends with the rule it was turned
/// at, and holds each rule of the cycle, in the cycle's order from there.
pub proof fn lemma_rotation(cycle: Seq<NormalizedRule>, start: int)
    requires
        0 <= start < cycle.len(),
    ensures
        rotation(cycle, start).len() == cycle.len(),
        rotation(cycle, start).last() == cycle[start],
        forall|k: int| 0 <= k < cycle.len() ==> rotation(cycle, start)[shifted_index(k, cycle.len() - start - 1,
            cycle.len() as int)] == #[trigger] cycle[k],
{
    let n = cycle.len() as int;
    assert(rotation(cycle, start)[n - 1] == cycle[start]);
    assert forall|k: int| 0 <= k < n implies rotation(cycle, start)[shifted_index(k, n - start - 1, n)] == #[trigger] cycle[k] by {
        let j = shifted_index(k, n - start - 1, n);
        assert(0 <= j < n);
    }
}

/// The termination annotation that is used for a predicate: its first one.
pub open spec fn first_termination_annotation(program: NormalizedProgram, p: Seq<char>) -> NormalizedTerminationAnnotation {
    program.spec_termination_annotations_for(p)[0]
}

/// Whether the composition of the cycle over the caches shows that it
/// terminates by the annotation: the chain took in every rule; the solver
/// found that the measure strictly changes from each start measure to the end
/// measure; and its optimizer found a finite bound of the end measure in the
/// direction of the change, over terms of the edb variables.
pub open spec fn shown_terminating(program: NormalizedProgram, cycle: Seq<NormalizedRule>,
    annotation: NormalizedTerminationAnnotation, predicate: Seq<char>, positions: Positions,
    caches: Seq<Seq<(Seq<char>, SmtTerm)>>) -> bool
{
    let c = composition(program, cycle, annotation, predicate, positions, caches, cycle.len() as int);
    let end = end_measure(cycle, annotation, caches);
    &&& c.3
    &&& forall|i: int| 0 <= i < c.1.len() ==> !satisfiable(change_query(c.0, annotation.direction, #[trigger] c.1[i], end))
    &&& exists|edb: Seq<SmtTerm>| #[trigger] edb.to_set() == c.2 && bound_found(annotation.direction, c.0, end, edb)
}

/// Whether the composition of the cycle over some fresh caches shows that it
/// terminates by the annotation.
pub open spec fn terminates_by(program: NormalizedProgram, cycle: Seq<NormalizedRule>,
    annotation: NormalizedTerminationAnnotation, predicate: Seq<char>, positions: Positions) -> bool
{
    exists|caches: Seq<Seq<(Seq<char>, SmtTerm)>>| #[trigger] cycle_caches(cycle, caches) && shown_terminating(program, cycle,
        annotation, predicate, positions, caches)
}

/// The predicate of the first head atom of the rule at `k`.
pub open spec fn head_predicate_at(cycle: Seq<NormalizedRule>, k: int) -> Seq<char> {
    cycle[k].head@[0].predicate@
}

/// Whether each rule of the cycle has a head.
pub open spec fn cycle_has_heads(cycle: Seq<NormalizedRule>) -> bool {
    forall|k: int| 0 <= k < cycle.len() ==> (#[trigger] cycle[k]).head@.len() > 0
}

/// Whether the predicate has a termination annotation in the program.
pub open spec fn has_termination_annotation(program: NormalizedProgram, p: Seq<char>) -> bool {
    program.spec_termination_annotations_for(p).len() > 0
}

/// The references of the cycle turned to start after its rule at `start`.
fn rotate<'a>(cycle: &Vec<&'a NormalizedRule>, start: usize) -> (r: Vec<&'a NormalizedRule>)
    requires
        start < cycle@.len(),
    ensures
        rules_of(r@) == rotation(rules_of(cycle@), start as int),
{
    let n = cycle.len();
    let mut r: Vec<&'a NormalizedRule> = Vec::new();
    let mut idx: usize = if start + 1 == n { 0 } else { start + 1 };
    let mut j: usize = 0;
    while j < n
        invariant
            n == cycle@.len(),
            start < n,
            0 <= j <= n,
            idx < n,
            j < n ==> idx == (if start + 1 + j < n { start + 1 + j } else { start + 1 + j - n }),
            rules_of(r@) == rotation(rules_of(cycle@), start as int).take(j as int),
        decreases n - j,
    {
        let ghost before = r@;
        r.push(cycle[idx]);
        assert(rules_of(r@) =~= rules_of(before).push(*cycle@[idx as int]));
        assert(rules_of(r@) =~= rotation(rules_of(cycle@), start as int).take(j + 1));
        idx = if idx + 1 == n { 0 } else { idx + 1 };
        j = j + 1;
    }
    assert(rotation(rules_of(cycle@), start as int).take(n as int) =~= rotation(rules_of(cycle@), start as int));
    r
}

/// The index sequences of the cycles.
pub open spec fn cycle_views(cycles: Seq<Vec<usize>>) -> Seq<Seq<usize>> {
    cycles.map_values(|c: Vec<usize>| c@)
}

/// How often `x` occurs in the sequence.
pub open spec fn occurrences(s: Seq<usize>, x: usize) -> nat {
    s.filter(|y: usize| y == x).len()
}

/// How often the rule index occurs in the cycles.
pub open spec fn index_count(cycles: Seq<Seq<usize>>, x: usize) -> nat
    decreases cycles.len(),
{
    if cycles.len() == 0 {
        0
    } else {
        index_count(cycles.drop_last(), x) + occurrences(cycles.last(), x)
    }
}

/// Whether `y` stands in a cycle before cycle `c`, or in cycle `c` before place `j`.
pub open spec fn entry_before(cycles: Seq<Seq<usize>>, c: int, j: int, y: usize) -> bool {
    exists|c2: int, j2: int| ((0 <= c2 < c && 0 <= j2 < cycles[c2].len()) || (c2 == c && 0 <= j2 < j))
        && #[trigger] cycles[c2][j2] == y
}

/// Whether exactly one rule index occurs at least twice in the cycles.
pub open spec fn single_shared_rule(cycles: Seq<Seq<usize>>) -> bool {
    exists|x: usize| index_count(cycles, x) >= 2 && forall|y: usize| #[trigger] index_count(cycles, y) >= 2 ==> y == x
}

/// A rule index that occurs in the cycles stands in one of them.
proof fn lemma_counted_entry(cycles: Seq<Seq<usize>>, x: usize)
    requires
        index_count(cycles, x) > 0,
    ensures
        entry_before(cycles, cycles.len() as int, 0, x),
    decreases cycles.len(),
{
    let last = cycles.last();
    if occurrences(last, x) > 0 {
        lemma_occurs(last, x);
        let j = choose|j: int| 0 <= j < last.len() && last[j] == x;
        assert(cycles[cycles.len() - 1][j] == x);
    } else {
        lemma_counted_entry(cycles.drop_last(), x);
        let (c2, j2) = choose|c2: int, j2: int| ((0 <= c2 < cycles.drop_last().len() && 0 <= j2 < cycles.drop_last()[c2].len())
            || (c2 == cycles.drop_last().len() && 0 <= j2 < 0)) && #[trigger] cycles.drop_last()[c2][j2] == x;
        assert(cycles[c2][j2] == x);
    }
}

/// An element that the sequence counts stands in it.
proof fn lemma_occurs(s: Seq<usize>, x: usize)
    requires
        occurrences(s, x) > 0,
    ensures
        exists|j: int| 0 <= j < s.len() && s[j] == x,
    decreases s.len(),
{
    reveal_with_fuel(Seq::<_>::filter, 1);
    if s.last() != x {
        lemma_occurs(s.drop_last(), x);
        let j = choose|j: int| 0 <= j < s.drop_last().len() && s.drop_last()[j] == x;
        assert(s[j] == x);
    } else {
        assert(s[s.len() - 1] == x);
    }
}

/// How often `x` occurs in the sequence, up to two.
fn occurrences_up_to_two(s: &Vec<usize>, x: usize) -> (r: usize)
    ensures
        r == if occurrences(s@, x) >= 2 { 2 } else { occurrences(s@, x) },
{
    let n = s.len();
    let mut count: usize = 0;
    let mut j: usize = 0;
    assert(s@.take(0).filter(|y: usize| y == x) =~= Seq::<usize>::empty());
    while j < n
        invariant
            n == s@.len(),
            0 <= j <= n,
            count == if occurrences(s@.take(j as int), x) >= 2 { 2 } else { occurrences(s@.take(j as int), x) },
        decreases n - j,
    {
        proof {
            reveal_with_fuel(Seq::<_>::filter, 1);
            assert(s@.take(j + 1).drop_last() =~= s@.take(j as int));
        }
        if s[j] == x && count < 2 {
            count = count + 1;
        }
        j = j + 1;
    }
    assert(s@.take(n as int) =~= s@);
    count
}

/// How often the rule index occurs in the cycles, up to two.
fn index_count_up_to_two(cycles: &Vec<Vec<usize>>, x: usize) -> (r: usize)
    ensures
        r == if index_count(cycle_views(cycles@), x) >= 2 { 2 } else { index_count(cycle_views(cycles@), x) },
{
    let ghost views = cycle_views(cycles@);
    let n = cycles.len();
    let mut count: usize = 0;
    let mut i: usize = 0;
    while i < n
        invariant
            n == cycles@.len(),
            views == cycle_views(cycles@),
            0 <= i <= n,
            count == if index_count(views.take(i as int), x) >= 2 { 2 } else { index_count(views.take(i as int), x) },
        decreases n - i,
    {
        assert(views.take(i + 1).drop_last() =~= views.take(i as int));
        assert(views.take(i + 1).last() == cycles@[i as int]@);
        let c = occurrences_up_to_two(&cycles[i], x);
        count = if count + c >= 2 { 2 } else { count + c };
        i = i + 1;
    }
    assert(views.take(n as int) =~= views);
    count
}

/// Whether the first head atom of rule `r1` has the predicate of a positive
/// body atom of rule `r2`.
pub open spec fn feeds(program: NormalizedProgram, r1: usize, r2: usize) -> bool {
    exists|b: int| 0 <= b < program.rules@[r2 as int].positive@.len()
        && (#[trigger] program.rules@[r2 as int].positive@[b]).predicate@ == program.rules@[r1 as int].head@[0].predicate@
}

/// Whether `c` is a cycle of distinct rules of the component, each feeding the next.
pub open spec fn feeding_cycle(program: NormalizedProgram, scc: Seq<usize>, c: Seq<usize>) -> bool {
    &&& c.len() >= 1
    &&& c.no_duplicates()
    &&& forall|i: int| 0 <= i < c.len() ==> scc.contains(#[trigger] c[i]) && feeds(program, c[i], c[next_index(i, c.len() as int)])
}

/// The rules with the indices of `c`.
pub open spec fn indexed_rules(program: NormalizedProgram, c: Seq<usize>) -> Seq<NormalizedRule> {
    c.map_values(|i: usize| program.rules@[i as int])
}

/// Whether every turn of every rule cycle of the component's propagation
/// graph that ends with a rule whose head predicate has a termination
/// annotation composes under that annotation: the cycles that the
/// termination check may examine.
pub open spec fn scc_composable(program: NormalizedProgram, scc: Seq<usize>) -> bool {
    forall|graph: PropagationGraph, c: Seq<usize>, start: int|
        #![trigger is_rule_cycle(graph.edges@, c), rotation(indexed_rules(program, c), start)]
        propagation_graph_of(program, scc, graph) && is_rule_cycle(graph.edges@, c) && 0 <= start < c.len()
        && has_termination_annotation(program, head_predicate_at(indexed_rules(program, c), start))
        ==> composable(program, rotation(indexed_rules(program, c), start),
        first_termination_annotation(program, head_predicate_at(indexed_rules(program, c), start)),
        head_predicate_at(indexed_rules(program, c), start))
}

/// A cycle of the rule graph of a component's propagation graph is a
/// feeding cycle of the component.
proof fn lemma_feeding_cycle(program: NormalizedProgram, scc: Seq<usize>, graph: PropagationGraph, c: Seq<usize>)
    requires
        propagation_graph_of(program, scc, graph),
        is_rule_cycle(graph.edges@, c),
    ensures
        feeding_cycle(program, scc, c),
{
    let edges = graph.edges@;
    let nodes = graph.node_views();
    assert forall|i: int| 0 <= i < c.len() implies scc.contains(#[trigger] c[i]) && feeds(program, c[i],
        c[next_index(i, c.len() as int)]) by {
        let r1 = c[i];
        let r2 = c[next_index(i, c.len() as int)];
        assert(linked(edges, r1, r2));
        let (i1, o1) = choose|i1: int, o1: int| #[trigger] link_pair(edges, i1, o1, r1, r2);
        let e1 = edges[i1];
        let e2 = edges[o1];
        assert(edges.contains(e1));
        assert(edges.contains(e2));
        let k1 = choose|k: int| 0 <= k < scc.len() && #[trigger] rule_edge(program, scc[k], nodes, e1);
        let ph1 = choose|ph: int| #[trigger] head_position_edge(program, scc[k1], nodes, ph, e1);
        let b1 = choose|b: int| #[trigger] atom_edge(program, scc[k1], nodes, ph1, b, e1);
        let pb1 = choose|pb: int| #[trigger] position_edge(program, scc[k1], nodes, ph1, b1, pb, e1);
        let k2 = choose|k: int| 0 <= k < scc.len() && #[trigger] rule_edge(program, scc[k], nodes, e2);
        let ph2 = choose|ph: int| #[trigger] head_position_edge(program, scc[k2], nodes, ph, e2);
        let b2 = choose|b: int| #[trigger] atom_edge(program, scc[k2], nodes, ph2, b, e2);
        let pb2 = choose|pb: int| #[trigger] position_edge(program, scc[k2], nodes, ph2, b2, pb, e2);
        assert(scc[k1] == r1);
        assert(scc[k2] == r2);
        assert(nodes[e1.1 as int] == nodes[e2.0 as int]);
        assert(program.rules@[r2 as int].positive@[b2].predicate@ == program.rules@[r1 as int].head@[0].predicate@);
    }
}

/// Whether the cycle, turned to end with a rule whose head has the
/// predicate `t`, terminates by the first termination annotation of `t`.
pub open spec fn cycle_annotated(program: NormalizedProgram, cycle: Seq<usize>, t: Seq<char>, positions: Positions) -> bool {
    exists|start: int| 0 <= start < cycle.len() && head_predicate_at(indexed_rules(program, cycle), start) == t
        && has_termination_annotation(program, t) && #[trigger] terminates_by(program,
        rotation(indexed_rules(program, cycle), start), first_termination_annotation(program, t), t, positions)
}

/// The rule cycles of a component's propagation graph are feeding cycles,
/// and the rules that occur in two of them have heads.
proof fn lemma_cycles_feeding(program: NormalizedProgram, scc: Seq<usize>, graph: PropagationGraph, cycles: Seq<Vec<usize>>)
    requires
        propagation_graph_of(program, scc, graph),
        buildable(program, scc),
        forall|i: int| 0 <= i < cycles.len() ==> is_rule_cycle(graph.edges@, #[trigger] cycles[i]@),
    ensures
        forall|i: int| 0 <= i < cycles.len() ==> feeding_cycle(program, scc, #[trigger] cycles[i]@),
        forall|x: usize| #[trigger] index_count(cycle_views(cycles), x) >= 2 ==> x < program.rules@.len()
            && program.rules@[x as int].head@.len() > 0,
{
    assert forall|i: int| 0 <= i < cycles.len() implies feeding_cycle(program, scc, #[trigger] cycles[i]@) by {
        lemma_feeding_cycle(program, scc, graph, cycles[i]@);
    }
    assert forall|x: usize| #[trigger] index_count(cycle_views(cycles), x) >= 2 implies x < program.rules@.len()
        && program.rules@[x as int].head@.len() > 0 by {
        lemma_counted_entry(cycle_views(cycles), x);
        let (c2, j2) = choose|c2: int, j2: int| ((0 <= c2 < cycles.len() && 0 <= j2 < cycle_views(cycles)[c2].len())
            || (c2 == cycles.len() && 0 <= j2 < 0)) && #[trigger] cycle_views(cycles)[c2][j2] == x;
        assert(feeding_cycle(program, scc, cycles[c2]@));
        assert(cycles[c2]@[j2] == x);
        assert(scc.contains(x));
    }
}

/// Each turn of a rule cycle of the propagation graph of a composable
/// component that ends with a rule whose head predicate has a termination
/// annotation composes.
proof fn lemma_turns_compose(program: NormalizedProgram, scc: Seq<usize>, graph: PropagationGraph, c: Seq<usize>)
    requires
        scc_composable(program, scc),
        propagation_graph_of(program, scc, graph),
        is_rule_cycle(graph.edges@, c),
    ensures
        forall|start: int| 0 <= start < c.len() && has_termination_annotation(program,
            head_predicate_at(indexed_rules(program, c), start)) ==> composable(program,
            #[trigger] rotation(indexed_rules(program, c), start), first_termination_annotation(program,
            head_predicate_at(indexed_rules(program, c), start)), head_predicate_at(indexed_rules(program, c), start)),
{
}

/// What the termination check of a strongly connected component found.
#[derive(Debug)]
pub enum SccTermination {
    /// The propagation graph of the component has no cycle through a critical edge
    WeaklyAcyclic,
    /// The rule cycles were checked: each with the predicate whose first
    /// termination annotation shows that it terminates, if one does
    CyclesChecked { cycles: Vec<(Vec<usize>, Option<Tag>)> },
    /// The cycles of the component are not of a kind that the analysis supports
    Unsupported,
}

/// Whether the cycles of the propagation graph of the component can be
/// searched.
pub open spec fn scc_searchable(program: NormalizedProgram, scc: Seq<usize>) -> bool {
    forall|graph: PropagationGraph| #[trigger] propagation_graph_of(program, scc, graph) ==> fits_cycle_search(graph)
}

/// Whether every rule cycle of the graph is among the checked cycles,
/// starting at one of its rules.
#[verifier::opaque]
pub open spec fn checks_all_rule_cycles(edges: Seq<(usize, usize, usize, bool)>, cycles: Seq<(Vec<usize>, Option<Tag>)>) -> bool {
    forall|c: Seq<usize>| #[trigger] is_rule_cycle(edges, c) ==> checked_cycle(cycles, c)
}

/// Whether some checked cycle lists the rules of `c` in the same cyclic order.
pub open spec fn checked_cycle(cycles: Seq<(Vec<usize>, Option<Tag>)>, c: Seq<usize>) -> bool {
    exists|i: int| 0 <= i < cycles.len() && is_rotation(#[trigger] cycles[i].0@, c)
}

/// Checking each listed cycle checks every rule cycle of the graph.
proof fn lemma_checked_all(edges: Seq<(usize, usize, usize, bool)>, cycles: Seq<Vec<usize>>,
    checked: Seq<(Vec<usize>, Option<Tag>)>)
    requires
        lists_all_rule_cycles(edges, cycles),
        checked.len() == cycles.len(),
        forall|j: int| 0 <= j < checked.len() ==> (#[trigger] checked[j]).0@ == cycles[j]@,
    ensures
        checks_all_rule_cycles(edges, checked),
{
    reveal(lists_all_rule_cycles);
    reveal(checks_all_rule_cycles);
    assert forall|c: Seq<usize>| #[trigger] is_rule_cycle(edges, c) implies checked_cycle(checked, c) by {
        assert(lists_cycle(cycles, c));
        let k = choose|k: int| 0 <= k < cycles.len() && is_rotation(#[trigger] cycles[k]@, c);
        assert(checked[k].0@ == cycles[k]@);
    }
}

/// Whether the outcome is that of the termination check of the component:
/// weakly acyclic exactly when its propagation graph has no cycle through a
/// critical edge; the checked cycles are rule cycles of that graph, at
/// least one, every rule cycle of the graph is checked (starting at one of
/// its rules), and a predicate given for a cycle names an annotation by
/// which it terminates.
pub open spec fn scc_outcome(program: NormalizedProgram, scc: Seq<usize>, positions: Positions, outcome: SccTermination) -> bool {
    exists|graph: PropagationGraph| #[trigger] propagation_graph_of(program, scc, graph) && {
        &&& (outcome is WeaklyAcyclic <==> !has_critical_cycle(graph.edges@))
        &&& outcome matches SccTermination::CyclesChecked { cycles } ==> {
            &&& cycles@.len() > 0
            &&& forall|i: int| 0 <= i < cycles@.len() ==> is_rule_cycle(graph.edges@, (#[trigger] cycles@[i]).0@)
                && (cycles@[i].1 matches Some(t) ==> cycle_annotated(program, cycles@[i].0@, t@, positions))
            &&& checks_all_rule_cycles(graph.edges@, cycles@)
        }
    }
}

/// Whether the outcome shows that the component terminates: it is weakly
/// acyclic, or each of its checked cycles terminates by an annotation.
pub open spec fn shows_termination(outcome: SccTermination) -> bool {
    ||| outcome is WeaklyAcyclic
    ||| outcome matches SccTermination::CyclesChecked { cycles } && forall|i: int| 0 <= i < cycles@.len()
        ==> (#[trigger] cycles@[i]).1 is Some
}

/// Returns whether each checked cycle has a predicate by whose annotation
/// it terminates.
fn all_cycles_annotated(cycles: &Vec<(Vec<usize>, Option<Tag>)>) -> (r: bool)
    ensures
        r == forall|i: int| 0 <= i < cycles@.len() ==> (#[trigger] cycles@[i]).1 is Some,
{
    let n = cycles.len();
    let mut i: usize = 0;
    while i < n
        invariant
            n == cycles@.len(),
            0 <= i <= n,
            forall|j: int| 0 <= j < i ==> (#[trigger] cycles@[j]).1 is Some,
        decreases n - i,
    {
        if cycles[i].1.is_none() {
            assert(!(cycles@[i as int].1 is Some));
            return false;
        }
        i = i + 1;
    }
    true
}

/// Returns whether the outcome shows that the component terminates.
pub fn outcome_shows_termination(outcome: &SccTermination) -> (r: bool)
    ensures
        r == shows_termination(*outcome),
{
    match outcome {
        SccTermination::WeaklyAcyclic => true,
        SccTermination::CyclesChecked { cycles } => all_cycles_annotated(cycles),
        SccTermination::Unsupported => false,
    }
}

/// Checks whether the program terminates
#[derive(Debug)]
pub struct TerminationVerifier {
    /// The positions that only hold values of the extensional database
    pub edb_predicates: EdbAnalyzer,
    /// The restrictions propagated to the predicates
    pub predicate_restrictions: Vec<(Tag, Restriction)>,
    /// The program
    pub program: NormalizedProgram,
}

/// Appends the assertions that keep each constant strictly between the least
/// and the greatest 64-bit integer.
fn append_edb_bounds(edb_vars: &Vec<SmtTerm>, out: &mut Vec<SmtTerm>)
    ensures
        final(out)@ == old(out)@ + edb_bounds(edb_vars@),
{
    let ghost start = out@;
    let n = edb_vars.len();
    let mut k: usize = 0;
    assert(start =~= start + edb_bounds(edb_vars@.take(0)));
    while k < n
        invariant
            n == edb_vars@.len(),
            0 <= k <= n,
            out@ == start + edb_bounds(edb_vars@.take(k as int)),
        decreases n - k,
    {
        out.push(SmtTerm::Apply(SmtOp::Lt, Box::new(edb_vars[k].clone()), Box::new(SmtTerm::Int(i64::MAX))));
        out.push(SmtTerm::Apply(SmtOp::Gt, Box::new(edb_vars[k].clone()), Box::new(SmtTerm::Int(i64::MIN))));
        assert(edb_vars@.take(k + 1).drop_last() =~= edb_vars@.take(k as int));
        assert(edb_vars@.take(k + 1).last() == edb_vars@[k as int]);
        k = k + 1;
        assert(out@ =~= start + edb_bounds(edb_vars@.take(k as int)));
    }
    assert(edb_vars@.take(n as int) =~= edb_vars@);
}

/// Returns how many atoms have the predicate `p`, and the place of the first.
fn count_occurrences(atoms: &Vec<BodyAtom>, p: &Tag) -> (r: (usize, usize))
    ensures
        r.0 == atoms_of(atoms@, p@).len(),
        r.0 > 0 ==> r.1 < atoms@.len() && atoms@[r.1 as int] == atoms_of(atoms@, p@)[0],
{
    let n = atoms.len();
    let mut count: usize = 0;
    let mut first: usize = 0;
    let mut i: usize = 0;
    assert(atoms_of(atoms@.take(0), p@) =~= Seq::<BodyAtom>::empty());
    while i < n
        invariant
            n == atoms@.len(),
            0 <= i <= n,
            count == atoms_of(atoms@.take(i as int), p@).len(),
            count <= i,
            count > 0 ==> first < i && atoms@[first as int] == atoms_of(atoms@.take(i as int), p@)[0],
        decreases n - i,
    {
        proof {
            reveal_with_fuel(Seq::<_>::filter, 1);
            assert(atoms@.take(i + 1).drop_last() =~= atoms@.take(i as int));
        }
        if atoms[i].predicate == *p {
            assert(atoms_of(atoms@.take(i + 1), p@) =~= atoms_of(atoms@.take(i as int), p@).push(atoms@[i as int]));
            if count == 0 {
                first = i;
            }
            count = count + 1;
        } else {
            assert(atoms_of(atoms@.take(i + 1), p@) =~= atoms_of(atoms@.take(i as int), p@));
        }
        i = i + 1;
    }
    assert(atoms@.take(n as int) =~= atoms@);
    (count, first)
}

/// The number of a fresh constant.
fn constant_number(t: &SmtTerm) -> (n: usize)
    ensures
        n == var_id(*t),
{
    match t {
        SmtTerm::Var(v) => *v,
        _ => 0,
    }
}

/// For the positions that the head and its occurrence share, the constants of
/// the head's variables replaced by the terms of the occurrence's variables.
fn build_substitution(head: &HeadAtom, occurrence: &BodyAtom, prev: &Vec<CacheEntry>, cache: &Vec<CacheEntry>)
    -> (sub: Vec<(usize, SmtTerm)>)
    requires
        forall|i: int| 0 <= i < min_length(head.terms@.len(), occurrence.terms@.len()) ==> ((#[trigger] head.terms@[i])@
            matches PrimitiveView::Variable(v) ==> cache_lookup(cache_view(prev@), v) is Some),
        forall|i: int| 0 <= i < min_length(head.terms@.len(), occurrence.terms@.len()) ==> cache_lookup(
            cache_view(cache@), (#[trigger] occurrence.terms@[i])@) is Some,
    ensures
        sub@ == chain_substitution(*head, *occurrence, cache_view(prev@), cache_view(cache@),
            min_length(head.terms@.len(), occurrence.terms@.len()) as int),
{
    let n = if head.terms.len() <= occurrence.terms.len() { head.terms.len() } else { occurrence.terms.len() };
    let mut sub: Vec<(usize, SmtTerm)> = Vec::new();
    let mut i: usize = 0;
    while i < n
        invariant
            n == min_length(head.terms@.len(), occurrence.terms@.len()),
            forall|i: int| 0 <= i < n ==> ((#[trigger] head.terms@[i])@ matches PrimitiveView::Variable(v)
                ==> cache_lookup(cache_view(prev@), v) is Some),
            forall|i: int| 0 <= i < n ==> cache_lookup(cache_view(cache@), (#[trigger] occurrence.terms@[i])@) is Some,
            0 <= i <= n,
            sub@ == chain_substitution(*head, *occurrence, cache_view(prev@), cache_view(cache@), i as int),
        decreases n - i,
    {
        let ghost before = sub@;
        match &head.terms[i] {
            Primitive::Variable(v) => {
                assert(head.terms@[i as int]@ == PrimitiveView::Variable(v@));
                let from = match lookup(prev, v) {
                    Some(t) => constant_number(&t),
                    None => 0,
                };
                let to = match lookup(cache, &occurrence.terms[i]) {
                    Some(t) => t,
                    None => SmtTerm::Int(0),
                };
                sub.push((from, to));
                assert(sub@ =~= before.push((from, to)));
            },
            Primitive::Ground(_) => {},
        }
        assert(sub@ == chain_substitution(*head, *occurrence, cache_view(prev@), cache_view(cache@), i + 1));
        i = i + 1;
    }
    sub
}

/// The measures of the atoms of the predicate in the rule's positive body.
fn start_norms(translator: &RuleTranslator, annotation: &NormalizedTerminationAnnotation, rule: &NormalizedRule,
    predicate: &Tag, cache: &Vec<CacheEntry>) -> (norms: Vec<SmtTerm>)
    requires
        registered(cache_view(cache@), rule.spec_variables()),
        int_cache(cache_view(cache@)),
        forall|j: int| 0 <= j < rule.positive@.len() && (#[trigger] rule.positive@[j]).predicate@ == predicate@
            ==> measure_fits(*annotation, rule.positive@[j].terms@.len()),
    ensures
        norms@ == start_measures(*annotation, *rule, predicate@, cache_view(cache@)),
{
    let ghost c = cache_view(cache@);
    let ghost f = |b: BodyAtom| termination_body_term(*annotation, b, c);
    let atoms = &rule.positive;
    let n = atoms.len();
    let mut norms: Vec<SmtTerm> = Vec::new();
    let mut j: usize = 0;
    assert(atoms_of(atoms@.take(0), predicate@) =~= Seq::<BodyAtom>::empty());
    while j < n
        invariant
            n == atoms@.len(),
            atoms == &rule.positive,
            c == cache_view(cache@),
            registered(c, rule.spec_variables()),
            int_cache(c),
            forall|j: int| 0 <= j < rule.positive@.len() && (#[trigger] rule.positive@[j]).predicate@ == predicate@
                ==> measure_fits(*annotation, rule.positive@[j].terms@.len()),
            f == (|b: BodyAtom| termination_body_term(*annotation, b, c)),
            0 <= j <= n,
            norms@ == atoms_of(atoms@.take(j as int), predicate@).map_values(f),
        decreases n - j,
    {
        proof {
            reveal_with_fuel(Seq::<_>::filter, 1);
            assert(atoms@.take(j + 1).drop_last() =~= atoms@.take(j as int));
        }
        if atoms[j].predicate == *predicate {
            proof {
                assert forall|k: int| 0 <= k < atoms@[j as int].terms@.len() implies cache_lookup(c,
                    (#[trigger] atoms@[j as int].terms@[k])@) is Some by {
                    lemma_body_atom_variable(atoms@, j as int, k);
                    assert(rule.spec_variables().contains(atoms@[j as int].terms@[k]@));
                }
                lemma_body_measure(*annotation, atoms@[j as int], c);
            }
            let t = translator.translate_termination_annotation_body(annotation, &atoms[j], cache);
            norms.push(t);
            assert(atoms_of(atoms@.take(j + 1), predicate@) =~= atoms_of(atoms@.take(j as int), predicate@).push(atoms@[j as int]));
            assert(norms@ =~= atoms_of(atoms@.take(j + 1), predicate@).map_values(f));
        } else {
            assert(atoms_of(atoms@.take(j + 1), predicate@) =~= atoms_of(atoms@.take(j as int), predicate@));
        }
        j = j + 1;
    }
    assert(atoms@.take(n as int) =~= atoms@);
    norms
}

impl TerminationVerifier {
    /// Create a new [TerminationVerifier]
    pub fn new(edb_predicates: EdbAnalyzer, predicate_restrictions: Vec<(Tag, Restriction)>, program: NormalizedProgram)
        -> (verifier: Self)
        ensures
            verifier.edb_predicates == edb_predicates,
            verifier.predicate_restrictions == predicate_restrictions,
            verifier.program == program,
    {
        TerminationVerifier { edb_predicates, predicate_restrictions, program }
    }

    /// Constructs a map from the variables of the rule to fresh constants,
    /// for the rule at place `index` of a cycle; the constants are numbered
    /// from the counter, so that they are fresh whatever the place
    pub fn build_var_cache(&self, rule: &NormalizedRule, index: usize, next_var: &mut usize) -> (cache: Vec<CacheEntry>)
        requires
            old(next_var) + rule.spec_variables().len() <= usize::MAX,
        ensures
            rule_cache(*rule, cache_view(cache@), *old(next_var) as nat),
            *final(next_var) == *old(next_var) + cache@.len(),
            cache@.len() == rule.spec_variables().len(),
    {
        create_var_cache(rule, next_var)
    }

    /// Constructs a map from the variables of the rule to fresh constants,
    /// for an occurrence of the rule in an iteration of a cycle
    pub fn build_joint_var_cache(&self, rule: &NormalizedRule, iteration: usize, occurence_in_rule: usize,
        next_var: &mut usize) -> (cache: Vec<CacheEntry>)
        requires
            old(next_var) + rule.spec_variables().len() <= usize::MAX,
        ensures
            rule_cache(*rule, cache_view(cache@), *old(next_var) as nat),
            *final(next_var) == *old(next_var) + cache@.len(),
            cache@.len() == rule.spec_variables().len(),
    {
        create_var_cache(rule, next_var)
    }

    /// Unfolds the cycle into one query. The chain starts at the first rule and
    /// takes in each next rule whose positive body has exactly one atom of the
    /// predicate of the head of the last rule it took in; the variables of
    /// each such rule get fresh constants, and those of the earlier head are
    /// replaced, in all terms so far, by the terms of the variables at the
    /// same positions of that atom. Returns, in order:
    /// * the terms of the rules that the chain took in
    /// * the measures of the incremental predicate's atoms in the first rule's body
    /// * the measure of the last rule's head
    /// * the terms of the variables at edb positions
    /// * whether the chain took in every rule
    pub fn compose_cycle(&self, cycle: &Vec<&NormalizedRule>, annotation: &NormalizedTerminationAnnotation,
        incremental_predicate: &Tag) -> (r: (Vec<SmtTerm>, Vec<SmtTerm>, SmtTerm, Vec<SmtTerm>, bool))
        requires
            composable(self.program, rules_of(cycle@), *annotation, incremental_predicate@),
        ensures
            exists|caches: Seq<Seq<(Seq<char>, SmtTerm)>>| #[trigger] cycle_caches(rules_of(cycle@), caches)
                && composed_as(self.program, rules_of(cycle@), *annotation, incremental_predicate@,
                self.edb_predicates.edb_positions@, caches, r),
            r.4 == linear_cycle(rules_of(cycle@)),
    {
        let ghost rules = rules_of(cycle@);
        let ghost positions = self.edb_predicates.edb_positions@;
        let ghost program = self.program;
        let ghost pred = incremental_predicate@;
        let translator = RuleTranslator::new();
        let size = cycle.len();
        let mut next_var: usize = 0;
        let mut linear = true;
        let first = cycle[0];
        assert(rules[0] == *first);
        assert(in_chain(rules, 0));
        proof {
            lemma_cache_start_monotone(rules, 1, size as int);
        }
        let mut cache_prev = create_var_cache(first, &mut next_var);
        let ghost mut caches: Seq<Seq<(Seq<char>, SmtTerm)>> = seq![cache_view(cache_prev@)];
        proof {
            lemma_translatable_rule(program, rules[0], caches[0], 0);
            lemma_edb_variables(rules[0], positions);
        }
        let mut edb_vars = self.edb_vars_in_rule(first, &cache_prev);
        let mut cycle_start_norm = start_norms(&translator, annotation, first, incremental_predicate, &cache_prev);
        let (ops, anns) = translator.translate_rule(first, &cache_prev, &self.program);
        let mut composed = ops;
        let mut rest = anns;
        composed.append(&mut rest);
        let mut prev_index: usize = 0;
        let mut c_i: usize = 1;
        assert(cache_start(rules, 0) == 0);
        assert(cache_start(rules, 1) == rules[0].spec_variables().len());
        while c_i < size
            invariant
                size == cycle@.len(),
                rules == rules_of(cycle@),
                program == self.program,
                pred == incremental_predicate@,
                positions == self.edb_predicates.edb_positions@,
                composable(program, rules, *annotation, pred),
                1 <= c_i <= size,
                caches.len() == c_i,
                forall|k: int| 0 <= k < c_i && in_chain(rules, k) ==> rule_cache(rules[k], #[trigger] caches[k],
                    cache_start(rules, k)),
                next_var == cache_start(rules, c_i as int),
                prev_index == chain_end(rules, c_i as int),
                cache_view(cache_prev@) == caches[prev_index as int],
                composed@ == composition(program, rules, *annotation, pred, positions, caches, c_i as int).0,
                cycle_start_norm@ == composition(program, rules, *annotation, pred, positions, caches, c_i as int).1,
                edb_vars@.to_set() == composition(program, rules, *annotation, pred, positions, caches, c_i as int).2,
                linear == composition(program, rules, *annotation, pred, positions, caches, c_i as int).3,
                linear == (forall|k: int| 0 <= k < c_i ==> #[trigger] in_chain(rules, k)),
            decreases size - c_i,
        {
            proof {
                lemma_chain_end(rules, c_i as int);
                lemma_translatable_rule(program, rules[prev_index as int], caches[prev_index as int],
                    cache_start(rules, prev_index as int));
            }
            let current_rule = cycle[c_i];
            let previous_rule = cycle[prev_index];
            assert(rules[c_i as int] == *current_rule);
            assert(rules[prev_index as int] == *previous_rule);
            let (count, first_idx) = count_occurrences(&current_rule.positive, &previous_rule.head[0].predicate);
            if count == 1 {
                assert(in_chain(rules, c_i as int));
                proof {
                    lemma_cache_start_monotone(rules, c_i + 1, size as int);
                }
                let cache_cur = create_var_cache(current_rule, &mut next_var);
                let ghost new_caches = caches.push(cache_view(cache_cur@));
                proof {
                    lemma_translatable_rule(program, rules[c_i as int], cache_view(cache_cur@), cache_start(rules, c_i as int));
                    lemma_composition_frame(program, rules, *annotation, pred, positions, caches, new_caches, c_i as int);
                    lemma_edb_variables(rules[c_i as int], positions);
                }
                let (body, body_anns) = translator.translate_rule(current_rule, &cache_cur, &self.program);
                let head = &previous_rule.head[0];
                let occ = &current_rule.positive[first_idx];
                proof {
                    let n = min_length(head.terms@.len(), occ.terms@.len());
                    assert forall|i: int| 0 <= i < n implies ((#[trigger] head.terms@[i])@ matches PrimitiveView::Variable(v)
                        ==> cache_lookup(cache_view(cache_prev@), v) is Some) by {
                        lemma_head_atom_variable(previous_rule.head@, 0, i);
                        match head.terms@[i]@ {
                            PrimitiveView::Variable(v) => {
                                assert(rules[prev_index as int].spec_variables().contains(v));
                            },
                            PrimitiveView::Ground(_) => {},
                        }
                    }
                    assert forall|i: int| 0 <= i < n implies cache_lookup(cache_view(cache_cur@),
                        (#[trigger] occ.terms@[i])@) is Some by {
                        lemma_body_atom_variable(current_rule.positive@, first_idx as int, i);
                        assert(rules[c_i as int].spec_variables().contains(occ.terms@[i]@));
                    }
                }
                let substitution = build_substitution(head, occ, &cache_prev, &cache_cur);
                assert(substitution@ == step_substitution(rules, new_caches, prev_index as int, c_i as int));
                cycle_start_norm = substitute_all(&cycle_start_norm, &substitution);
                let mut next_composed = substitute_all(&composed, &substitution);
                let mut b = body;
                let mut ba = body_anns;
                next_composed.append(&mut b);
                next_composed.append(&mut ba);
                composed = next_composed;
                let mut next_edb = substitute_all(&edb_vars, &substitution);
                let mut rule_edb = self.edb_vars_in_rule(current_rule, &cache_cur);
                proof {
                    lemma_substituted_set(edb_vars@, substitution@);
                    lemma_concat_set(substituted_all(edb_vars@, substitution@), rule_edb@);
                }
                next_edb.append(&mut rule_edb);
                edb_vars = next_edb;
                cache_prev = cache_cur;
                prev_index = c_i;
                proof {
                    caches = new_caches;
                }
            } else {
                linear = false;
                let ghost new_caches = caches.push(Seq::empty());
                proof {
                    lemma_composition_frame(program, rules, *annotation, pred, positions, caches, new_caches, c_i as int);
                    caches = new_caches;
                }
            }
            c_i = c_i + 1;
        }
        let last = cycle[size - 1];
        assert(rules[size - 1] == *last);
        proof {
            lemma_chain_end(rules, size as int);
            lemma_translatable_rule(program, rules[prev_index as int], caches[prev_index as int],
                cache_start(rules, prev_index as int));
            let h = last.head@[0];
            assert forall|k: int| 0 <= k < min_length(annotation.head.terms@.len(), h.terms@.len()) implies
                ((#[trigger] h.terms@[k])@ matches PrimitiveView::Variable(v) ==> cache_lookup(cache_view(cache_prev@), v) is Some) by {}
            lemma_head_measure(*annotation, h, cache_view(cache_prev@));
        }
        let cycle_end_norm = translator.translate_termination_annotation_head(annotation, &last.head[0], &cache_prev);
        assert(cycle_caches(rules, caches));
        (composed, cycle_start_norm, cycle_end_norm, edb_vars, linear)
    }

    /// Returns the terms of the variables of the rule at positions that only
    /// hold values of the extensional database
    pub fn edb_vars_in_rule(&self, rule: &NormalizedRule, var_cache: &Vec<CacheEntry>) -> (terms: Vec<SmtTerm>)
        requires
            forall|v: Seq<char>| #[trigger] variables_at(rule.positive@, self.edb_predicates.edb_positions@).contains(v)
                ==> cache_lookup(cache_view(var_cache@), v) is Some,
        ensures
            terms@.len() == variables_at(rule.positive@, self.edb_predicates.edb_positions@).len(),
            forall|v: Seq<char>| #[trigger] variables_at(rule.positive@, self.edb_predicates.edb_positions@).contains(v)
                ==> terms@.contains(cache_lookup(cache_view(var_cache@), v).unwrap()),
            terms@.to_set() == edb_terms(*rule, self.edb_predicates.edb_positions@, cache_view(var_cache@)),
    {
        let ghost cache = cache_view(var_cache@);
        let ghost edb = variables_at(rule.positive@, self.edb_predicates.edb_positions@);
        let edb_variables = self.edb_predicates.edb_vars_in_rule(rule);
        proof { variable_names(edb_variables@).unique_seq_to_set(); }
        let mut terms: Vec<SmtTerm> = Vec::new();
        let n = edb_variables.len();
        let mut k: usize = 0;
        while k < n
            invariant
                n == edb_variables@.len(),
                variable_names(edb_variables@).to_set() == edb,
                cache == cache_view(var_cache@),
                forall|v: Seq<char>| #[trigger] edb.contains(v) ==> cache_lookup(cache, v) is Some,
                0 <= k <= n,
                terms@.len() == k,
                forall|i: int| 0 <= i < k ==> #[trigger] terms@[i] == cache_lookup(cache, edb_variables@[i]@).unwrap(),
            decreases n - k,
        {
            assert(variable_names(edb_variables@)[k as int] == edb_variables@[k as int]@);
            assert(edb.contains(edb_variables@[k as int]@));
            let t = match lookup(var_cache, &edb_variables[k]) {
                Some(t) => t,
                None => SmtTerm::Int(0),
            };
            terms.push(t);
            k = k + 1;
        }
        proof {
            assert forall|v: Seq<char>| #[trigger] edb.contains(v) implies terms@.contains(cache_lookup(cache, v).unwrap()) by {
                assert(variable_names(edb_variables@).to_set().contains(v));
                let i = choose|i: int| 0 <= i < variable_names(edb_variables@).len() && variable_names(edb_variables@)[i] == v;
                assert(terms@[i] == cache_lookup(cache, v).unwrap());
            }
            let f = |v: Seq<char>| cache_lookup(cache, v).unwrap();
            assert forall|x: SmtTerm| terms@.to_set().contains(x) implies edb.map(f).contains(x) by {
                let i = choose|i: int| 0 <= i < terms@.len() && terms@[i] == x;
                assert(variable_names(edb_variables@)[i] == edb_variables@[i]@);
                assert(edb.contains(edb_variables@[i]@));
            }
            assert forall|x: SmtTerm| edb.map(f).contains(x) implies terms@.to_set().contains(x) by {
                let v = choose|v: Seq<char>| edb.contains(v) && x == f(v);
                assert(terms@.contains(cache_lookup(cache, v).unwrap()));
            }
            assert(terms@.to_set() =~= edb.map(f));
        }
        terms
    }

    /// Checks if the measure strictly changes over the cycle: for each start
    /// value, the solver must find the composed cycle together with the
    /// negated change unsatisfiable; an unknown answer ends the check
    pub fn strictly_changes_argument(&self, composed_cycle: &Vec<SmtTerm>, cycle_start_norm: &Vec<SmtTerm>,
        cycle_end_norm: &SmtTerm, annotation: &NormalizedTerminationAnnotation) -> (r: bool)
        ensures
            r ==> forall|i: int| 0 <= i < cycle_start_norm@.len() ==> !satisfiable(change_query(composed_cycle@,
                annotation.direction, #[trigger] cycle_start_norm@[i], *cycle_end_norm)),
    {
        let direction = annotation.direction;
        let mut valid = true;
        let n = cycle_start_norm.len();
        let mut i: usize = 0;
        while i < n
            invariant
                n == cycle_start_norm@.len(),
                direction == annotation.direction,
                0 <= i <= n,
                valid ==> forall|j: int| 0 <= j < i ==> !satisfiable(change_query(composed_cycle@, direction,
                    #[trigger] cycle_start_norm@[j], *cycle_end_norm)),
            decreases n - i,
        {
            let starting_norm = cycle_start_norm[i].clone();
            let change = match direction {
                TerminationDirection::Decreasing => SmtTerm::Apply(SmtOp::Gt, Box::new(starting_norm), Box::new(cycle_end_norm.clone())),
                TerminationDirection::Increasing => SmtTerm::Apply(SmtOp::Lt, Box::new(starting_norm), Box::new(cycle_end_norm.clone())),
            };
            let mut query = composed_cycle.clone();
            query.push(SmtTerm::Not(Box::new(change)));
            assert(query@ =~= change_query(composed_cycle@, direction, cycle_start_norm@[i as int], *cycle_end_norm));
            match check_sat(&query) {
                SatOutcome::Unsat => {},
                SatOutcome::Unknown => {
                    return false;
                },
                SatOutcome::Sat => {
                    valid = false;
                },
            }
            i = i + 1;
        }
        valid
    }

    /// Checks if the cycle terminates by the given termination annotation: its
    /// chain takes in every rule, its measure strictly changes, and the end
    /// measure has a bound in the direction of the change
    pub fn cycle_terminates_by_annotation(&self, cycle: &Vec<&NormalizedRule>, annotation: &NormalizedTerminationAnnotation,
        cycle_predicate: &Tag) -> (r: bool)
        requires
            composable(self.program, rules_of(cycle@), *annotation, cycle_predicate@),
        ensures
            r ==> terminates_by(self.program, rules_of(cycle@), *annotation, cycle_predicate@,
                self.edb_predicates.edb_positions@),
            !linear_cycle(rules_of(cycle@)) ==> !r,
    {
        let ghost rules = rules_of(cycle@);
        let ghost positions = self.edb_predicates.edb_positions@;
        let composed = self.compose_cycle(cycle, annotation, cycle_predicate);
        let ghost caches = choose|caches: Seq<Seq<(Seq<char>, SmtTerm)>>| #[trigger] cycle_caches(rules, caches)
            && composed_as(self.program, rules, *annotation, cycle_predicate@, positions, caches, composed);
        if !composed.4 {
            return false;
        }
        if self.strictly_changes_argument(&composed.0, &composed.1, &composed.2, annotation) {
            let has_bound = match annotation.direction() {
                TerminationDirection::Decreasing => self.expression_has_lower_bound(&composed.0, &composed.2, &composed.3),
                TerminationDirection::Increasing => self.expression_has_upper_bound(&composed.0, &composed.2, &composed.3),
            };
            proof {
                if has_bound {
                    assert(composed.3@.to_set() == composition(self.program, rules, *annotation, cycle_predicate@, positions,
                        caches, rules.len() as int).2);
                    assert(shown_terminating(self.program, rules, *annotation, cycle_predicate@, positions, caches));
                }
            }
            has_bound
        } else {
            false
        }
    }

    /// Checks whether the analyzed cycles depend on a single rule: exactly one
    /// rule index occurs at least twice in them; returns the predicate of the
    /// first head atom of that rule
    pub fn single_predicate_dependent(&self, cycles: &Vec<Vec<usize>>) -> (r: Option<Tag>)
        requires
            forall|x: usize| #[trigger] index_count(cycle_views(cycles@), x) >= 2 ==> x < self.program.rules@.len()
                && self.program.rules@[x as int].head@.len() > 0,
        ensures
            r is Some <==> single_shared_rule(cycle_views(cycles@)),
            r matches Some(t) ==> exists|x: usize| #[trigger] index_count(cycle_views(cycles@), x) >= 2
                && t@ == self.program.rules@[x as int].head@[0].predicate@,
    {
        let ghost views = cycle_views(cycles@);
        let mut found: Option<usize> = None;
        let mut multiple = false;
        let n = cycles.len();
        let mut c: usize = 0;
        while c < n
            invariant
                n == cycles@.len(),
                views == cycle_views(cycles@),
                0 <= c <= n,
                forall|y: usize| entry_before(views, c as int, 0, y) && index_count(views, y) >= 2 ==> found is Some,
                found matches Some(x0) ==> index_count(views, x0) >= 2,
                !multiple ==> forall|y: usize| entry_before(views, c as int, 0, y) && index_count(views, y) >= 2
                    ==> found == Some(y),
                multiple ==> exists|y: usize| #[trigger] index_count(views, y) >= 2 && found is Some && found != Some(y),
            decreases n - c,
        {
            let cycle = &cycles[c];
            assert(views[c as int] == cycle@);
            let m = cycle.len();
            let mut j: usize = 0;
            while j < m
                invariant
                    n == cycles@.len(),
                    views == cycle_views(cycles@),
                    0 <= c < n,
                    cycle == &cycles@[c as int],
                    m == cycle@.len(),
                    0 <= j <= m,
                    forall|y: usize| entry_before(views, c as int, j as int, y) && index_count(views, y) >= 2 ==> found is Some,
                    found matches Some(x0) ==> index_count(views, x0) >= 2,
                    !multiple ==> forall|y: usize| entry_before(views, c as int, j as int, y) && index_count(views, y) >= 2
                        ==> found == Some(y),
                    multiple ==> exists|y: usize| #[trigger] index_count(views, y) >= 2 && found is Some && found != Some(y),
                decreases m - j,
            {
                let x = cycle[j];
                assert(views[c as int][j as int] == x);
                let ghost old_found = found;
                let ghost old_multiple = multiple;
                if index_count_up_to_two(cycles, x) == 2 {
                    match found {
                        None => {
                            found = Some(x);
                        },
                        Some(x0) => {
                            if x0 != x {
                                multiple = true;
                            }
                        },
                    }
                }
                proof {
                    assert forall|y: usize| entry_before(views, c as int, j + 1, y) implies entry_before(views, c as int, j as int, y)
                        || y == x by {
                        let (c2, j2) = choose|c2: int, j2: int| ((0 <= c2 < c && 0 <= j2 < views[c2].len())
                            || (c2 == c && 0 <= j2 < j + 1)) && #[trigger] views[c2][j2] == y;
                        if !(c2 == c && j2 == j) {
                            assert(entry_before(views, c as int, j as int, y));
                        }
                    }
                    assert forall|y: usize| entry_before(views, c as int, j + 1, y) && index_count(views, y) >= 2
                        implies found is Some by {
                        if y != x {
                            assert(entry_before(views, c as int, j as int, y));
                            assert(old_found is Some);
                        }
                    }
                    if !multiple {
                        assert forall|y: usize| entry_before(views, c as int, j + 1, y) && index_count(views, y) >= 2
                            implies found == Some(y) by {
                            if y != x {
                                assert(entry_before(views, c as int, j as int, y));
                                assert(old_found == Some(y));
                            }
                        }
                    }
                }
                j = j + 1;
            }
            proof {
                assert forall|y: usize| entry_before(views, c + 1, 0, y) implies entry_before(views, c as int, m as int, y) by {
                    let (c2, j2) = choose|c2: int, j2: int| ((0 <= c2 < c + 1 && 0 <= j2 < views[c2].len())
                        || (c2 == c + 1 && 0 <= j2 < 0)) && #[trigger] views[c2][j2] == y;
                    assert(views[c2][j2] == y);
                }
                assert forall|y: usize| entry_before(views, c + 1, 0, y) && index_count(views, y) >= 2 implies found is Some by {
                    assert(entry_before(views, c as int, m as int, y));
                }
                if !multiple {
                    assert forall|y: usize| entry_before(views, c + 1, 0, y) && index_count(views, y) >= 2
                        implies found == Some(y) by {
                        assert(entry_before(views, c as int, m as int, y));
                    }
                }
            }
            c = c + 1;
        }
        proof {
            assert forall|y: usize| #[trigger] index_count(views, y) >= 2 implies entry_before(views, n as int, 0, y) by {
                lemma_counted_entry(views, y);
            }
        }
        match found {
            Some(x0) => {
                if multiple {
                    None
                } else {
                    let t = self.program.rules[x0].head[0].predicate.clone();
                    Some(t)
                }
            },
            None => None,
        }
    }

    /// Checks whether termination of the cycle can be verified with the given
    /// cycle predicate: for each rule of the cycle whose head has the
    /// predicate, the cycle turned to end with that rule is checked against
    /// the predicate's first termination annotation, which is returned for the
    /// first turn that terminates by it; a predicate without a termination
    /// annotation gives `None`
    pub fn check_cycle_termination_with_predicate<'a>(&'a self, rule_cycle: &Vec<&NormalizedRule>, cycle_predicate: &Tag)
        -> (r: Option<&'a NormalizedTerminationAnnotation>)
        requires
            cycle_has_heads(rules_of(rule_cycle@)),
            forall|start: int| 0 <= start < rule_cycle@.len() && head_predicate_at(rules_of(rule_cycle@), start)
                == cycle_predicate@ && has_termination_annotation(self.program, cycle_predicate@) ==> composable(
                self.program, #[trigger] rotation(rules_of(rule_cycle@), start),
                first_termination_annotation(self.program, cycle_predicate@), cycle_predicate@),
        ensures
            !has_termination_annotation(self.program, cycle_predicate@) ==> r is None,
            r matches Some(a) ==> {
                &&& has_termination_annotation(self.program, cycle_predicate@)
                &&& *a == first_termination_annotation(self.program, cycle_predicate@)
                &&& exists|start: int| 0 <= start < rule_cycle@.len() && head_predicate_at(rules_of(rule_cycle@), start)
                    == cycle_predicate@ && #[trigger] terminates_by(self.program, rotation(rules_of(rule_cycle@), start),
                    *a, cycle_predicate@, self.edb_predicates.edb_positions@)
            },
    {
        let ghost rules = rules_of(rule_cycle@);
        let annotations = self.program.predicate_to_termination_annotation(cycle_predicate);
        assert(annotations@.map_values(|a: &NormalizedTerminationAnnotation| *a).len() == annotations@.len());
        if annotations.len() == 0 {
            return None;
        }
        assert(*annotations@[0] == first_termination_annotation(self.program, cycle_predicate@));
        let annotation = annotations[0];
        let cycle_len = rule_cycle.len();
        let mut start: usize = 0;
        while start < cycle_len
            invariant
                cycle_len == rule_cycle@.len(),
                rules == rules_of(rule_cycle@),
                cycle_has_heads(rules),
                has_termination_annotation(self.program, cycle_predicate@),
                *annotation == first_termination_annotation(self.program, cycle_predicate@),
                forall|start: int| 0 <= start < rule_cycle@.len() && head_predicate_at(rules, start) == cycle_predicate@
                    ==> composable(self.program, #[trigger] rotation(rules, start), *annotation, cycle_predicate@),
                0 <= start <= cycle_len,
            decreases cycle_len - start,
        {
            assert(rules[start as int] == *rule_cycle@[start as int]);
            assert(rule_cycle@[start as int].head@.len() > 0);
            if rule_cycle[start].head[0].predicate == *cycle_predicate {
                let permutated_cycle = rotate(rule_cycle, start);
                assert(composable(self.program, rotation(rules, start as int), *annotation, cycle_predicate@));
                if self.cycle_terminates_by_annotation(&permutated_cycle, annotation, cycle_predicate) {
                    assert(terminates_by(self.program, rotation(rules, start as int), *annotation, cycle_predicate@,
                        self.edb_predicates.edb_positions@));
                    return Some(annotation);
                }
            }
            start = start + 1;
        }
        None
    }

    /// Checks whether, for some rule of the cycle whose head predicate has a
    /// termination annotation, the cycle turned to end with that rule
    /// terminates by the predicate's first annotation; returns it for the
    /// first such rule
    pub fn check_all_cycle_permutations<'a>(&'a self, rule_cycle: &Vec<&NormalizedRule>)
        -> (r: Option<&'a NormalizedTerminationAnnotation>)
        requires
            cycle_has_heads(rules_of(rule_cycle@)),
            forall|start: int| 0 <= start < rule_cycle@.len() && has_termination_annotation(self.program,
                head_predicate_at(rules_of(rule_cycle@), start)) ==> composable(self.program,
                #[trigger] rotation(rules_of(rule_cycle@), start), first_termination_annotation(self.program,
                head_predicate_at(rules_of(rule_cycle@), start)), head_predicate_at(rules_of(rule_cycle@), start)),
        ensures
            r matches Some(a) ==> exists|start: int| 0 <= start < rule_cycle@.len()
                && has_termination_annotation(self.program, head_predicate_at(rules_of(rule_cycle@), start))
                && *a == first_termination_annotation(self.program, head_predicate_at(rules_of(rule_cycle@), start))
                && a.head.predicate@ == head_predicate_at(rules_of(rule_cycle@), start)
                && #[trigger] terminates_by(self.program, rotation(rules_of(rule_cycle@), start), *a,
                head_predicate_at(rules_of(rule_cycle@), start), self.edb_predicates.edb_positions@),
    {
        let ghost rules = rules_of(rule_cycle@);
        let cycle_len = rule_cycle.len();
        let mut start: usize = 0;
        while start < cycle_len
            invariant
                cycle_len == rule_cycle@.len(),
                rules == rules_of(rule_cycle@),
                cycle_has_heads(rules),
                forall|start: int| 0 <= start < rule_cycle@.len() && has_termination_annotation(self.program,
                    head_predicate_at(rules, start)) ==> composable(self.program, #[trigger] rotation(rules, start),
                    first_termination_annotation(self.program, head_predicate_at(rules, start)),
                    head_predicate_at(rules, start)),
                0 <= start <= cycle_len,
            decreases cycle_len - start,
        {
            assert(rules[start as int] == *rule_cycle@[start as int]);
            assert(rule_cycle@[start as int].head@.len() > 0);
            let cycle_predicate = &rule_cycle[start].head[0].predicate;
            let annotations = self.program.predicate_to_termination_annotation(cycle_predicate);
            assert(annotations@.map_values(|a: &NormalizedTerminationAnnotation| *a).len() == annotations@.len());
            if annotations.len() > 0 {
                assert(*annotations@[0] == first_termination_annotation(self.program, cycle_predicate@));
                let annotation = annotations[0];
                let permutated_cycle = rotate(rule_cycle, start);
                assert(composable(self.program, rotation(rules, start as int), *annotation, cycle_predicate@));
                if self.cycle_terminates_by_annotation(&permutated_cycle, annotation, cycle_predicate) {
                    assert(terminates_by(self.program, rotation(rules, start as int), *annotation, cycle_predicate@,
                        self.edb_predicates.edb_positions@));
                    return Some(annotation);
                }
            }
            start = start + 1;
        }
        None
    }

    /// The references to the rules with the indices of the cycle.
    fn rules_of_cycle<'a>(&'a self, cycle: &Vec<usize>) -> (rules: Vec<&'a NormalizedRule>)
        requires
            forall|i: int| 0 <= i < cycle@.len() ==> #[trigger] cycle@[i] < self.program.rules@.len(),
        ensures
            rules_of(rules@) == indexed_rules(self.program, cycle@),
    {
        let mut rules: Vec<&'a NormalizedRule> = Vec::new();
        let n = cycle.len();
        let mut i: usize = 0;
        while i < n
            invariant
                n == cycle@.len(),
                forall|i: int| 0 <= i < cycle@.len() ==> #[trigger] cycle@[i] < self.program.rules@.len(),
                0 <= i <= n,
                rules_of(rules@) == indexed_rules(self.program, cycle@).take(i as int),
            decreases n - i,
        {
            let ghost before = rules@;
            rules.push(&self.program.rules[cycle[i]]);
            assert(rules_of(rules@) =~= rules_of(before).push(self.program.rules@[cycle@[i as int] as int]));
            assert(rules_of(rules@) =~= indexed_rules(self.program, cycle@).take(i + 1));
            i = i + 1;
        }
        assert(indexed_rules(self.program, cycle@).take(n as int) =~= indexed_rules(self.program, cycle@));
        rules
    }

    /// Checks the cycle with the given predicate; returns the predicate when
    /// its first termination annotation shows that the cycle terminates
    fn cycle_with_predicate(&self, scc: &Vec<usize>, Ghost(graph): Ghost<PropagationGraph>, cycle: &Vec<usize>, t_pred: Tag) -> (r: Option<Tag>)
        requires
            scc_composable(self.program, scc@),
            propagation_graph_of(self.program, scc@, graph),
            is_rule_cycle(graph.edges@, cycle@),
            feeding_cycle(self.program, scc@, cycle@),
            buildable(self.program, scc@),
        ensures
            r matches Some(t) ==> cycle_annotated(self.program, cycle@, t@, self.edb_predicates.edb_positions@),
    {
        let ghost c = cycle@;
        proof {
            assert forall|i: int| 0 <= i < c.len() implies #[trigger] c[i] < self.program.rules@.len() by {
                assert(scc@.contains(c[i]));
            }
        }
        let rule_cycle = self.rules_of_cycle(cycle);
        proof {
            assert forall|k: int| 0 <= k < rules_of(rule_cycle@).len() implies (#[trigger] rules_of(rule_cycle@)[k]).head@.len() > 0 by {
                assert(scc@.contains(c[k]));
            }
            lemma_turns_compose(self.program, scc@, graph, c);
        }
        match self.check_cycle_termination_with_predicate(&rule_cycle, &t_pred) {
            Some(_) => Some(t_pred),
            None => None,
        }
    }

    /// Checks all turns of the cycle; returns the predicate whose first
    /// termination annotation shows that the cycle terminates, if one does
    fn cycle_in_all_turns(&self, scc: &Vec<usize>, Ghost(graph): Ghost<PropagationGraph>, cycle: &Vec<usize>) -> (r: Option<Tag>)
        requires
            scc_composable(self.program, scc@),
            propagation_graph_of(self.program, scc@, graph),
            is_rule_cycle(graph.edges@, cycle@),
            feeding_cycle(self.program, scc@, cycle@),
            buildable(self.program, scc@),
        ensures
            r matches Some(t) ==> cycle_annotated(self.program, cycle@, t@, self.edb_predicates.edb_positions@),
    {
        let ghost c = cycle@;
        proof {
            assert forall|i: int| 0 <= i < c.len() implies #[trigger] c[i] < self.program.rules@.len() by {
                assert(scc@.contains(c[i]));
            }
        }
        let rule_cycle = self.rules_of_cycle(cycle);
        proof {
            assert forall|k: int| 0 <= k < rules_of(rule_cycle@).len() implies (#[trigger] rules_of(rule_cycle@)[k]).head@.len() > 0 by {
                assert(scc@.contains(c[k]));
            }
            lemma_turns_compose(self.program, scc@, graph, c);
        }
        match self.check_all_cycle_permutations(&rule_cycle) {
            Some(a) => {
                proof {
                    let start = choose|start: int| 0 <= start < rule_cycle@.len()
                        && has_termination_annotation(self.program, head_predicate_at(rules_of(rule_cycle@), start))
                        && *a == first_termination_annotation(self.program, head_predicate_at(rules_of(rule_cycle@), start))
                        && a.head.predicate@ == head_predicate_at(rules_of(rule_cycle@), start)
                        && #[trigger] terminates_by(self.program, rotation(rules_of(rule_cycle@), start), *a,
                        head_predicate_at(rules_of(rule_cycle@), start), self.edb_predicates.edb_positions@);

                }
                Some(a.head.predicate.clone())
            },
            None => None,
        }
    }

    /// Checks each cycle with the predicate, in order.
    fn cycles_with_predicate(&self, scc: &Vec<usize>, Ghost(graph): Ghost<PropagationGraph>, cycles: &Vec<Vec<usize>>,
        t_pred: &Tag) -> (checked: Vec<(Vec<usize>, Option<Tag>)>)
        requires
            buildable(self.program, scc@),
            scc_composable(self.program, scc@),
            propagation_graph_of(self.program, scc@, graph),
            forall|i: int| 0 <= i < cycles@.len() ==> is_rule_cycle(graph.edges@, #[trigger] cycles@[i]@),
            forall|i: int| 0 <= i < cycles@.len() ==> feeding_cycle(self.program, scc@, #[trigger] cycles@[i]@),
        ensures
            checked@.len() == cycles@.len(),
            forall|j: int| 0 <= j < checked@.len() ==> (#[trigger] checked@[j]).0@ == cycles@[j]@
                && (checked@[j].1 matches Some(t) ==> cycle_annotated(self.program, cycles@[j]@, t@,
                self.edb_predicates.edb_positions@)),
    {
        let mut checked: Vec<(Vec<usize>, Option<Tag>)> = Vec::new();
        let n = cycles.len();
        let mut i: usize = 0;
        while i < n
            invariant
                n == cycles@.len(),
                buildable(self.program, scc@),
                scc_composable(self.program, scc@),
                propagation_graph_of(self.program, scc@, graph),
                forall|i: int| 0 <= i < cycles@.len() ==> is_rule_cycle(graph.edges@, #[trigger] cycles@[i]@),
                forall|i: int| 0 <= i < cycles@.len() ==> feeding_cycle(self.program, scc@, #[trigger] cycles@[i]@),
                0 <= i <= n,
                checked@.len() == i,
                forall|j: int| 0 <= j < i ==> (#[trigger] checked@[j]).0@ == cycles@[j]@
                    && (checked@[j].1 matches Some(t) ==> cycle_annotated(self.program, cycles@[j]@, t@,
                    self.edb_predicates.edb_positions@)),
            decreases n - i,
        {
            let cycle = &cycles[i];
            assert(is_rule_cycle(graph.edges@, cycle@));
            assert(feeding_cycle(self.program, scc@, cycle@));
            let annotated = self.cycle_with_predicate(scc, Ghost(graph), cycle, t_pred.clone());
            let copy = cycle.clone();
            assert(copy@ == cycle@);
            checked.push((copy, annotated));
            i = i + 1;
        }
        checked
    }

    /// Checks the cycles of the strongly connected component: weakly acyclic
    /// when its propagation graph has no cycle through a critical edge;
    /// otherwise, with several rule cycles that depend on a single rule, every
    /// cycle is checked with the predicate of that rule; a single rule cycle
    /// is checked in all its turns; other cycles are not supported
    #[verifier::rlimit(60)]
    pub fn scc_termination(&self, scc: &Vec<usize>) -> (r: SccTermination)
        requires
            buildable(self.program, scc@),
            scc_composable(self.program, scc@),
            scc_searchable(self.program, scc@),
        ensures
            scc_outcome(self.program, scc@, self.edb_predicates.edb_positions@, r),
    {
        let propagation_graph = PropagationGraph::build_graph(&self.program, scc);
        let ghost graph = propagation_graph;
        assert(fits_cycle_search(graph));
        if propagation_graph.is_weakly_acyclic() {
            return SccTermination::WeaklyAcyclic;
        }
        let cycles = propagation_graph.all_rule_cycles();
        proof {
            lemma_cycles_feeding(self.program, scc@, graph, cycles@);
        }
        if cycles.len() > 1 {
            if let Some(t_pred) = self.single_predicate_dependent(&cycles) {
                let checked = self.cycles_with_predicate(scc, Ghost(graph), &cycles, &t_pred);
                proof { lemma_checked_all(graph.edges@, cycles@, checked@); }
                let r = SccTermination::CyclesChecked { cycles: checked };
                assert(has_critical_cycle(graph.edges@));
                return r;
            }
            SccTermination::Unsupported
        } else if cycles.len() == 1 {
            let cycle = &cycles[0];
            assert(is_rule_cycle(graph.edges@, cycle@));
            assert(feeding_cycle(self.program, scc@, cycle@));
            let annotated = self.cycle_in_all_turns(scc, Ghost(graph), cycle);
            let copy = cycle.clone();
            assert(copy@ == cycle@);
            let mut checked: Vec<(Vec<usize>, Option<Tag>)> = Vec::new();
            checked.push((copy, annotated));
            proof {
                assert(checked@[0].0@ == cycles@[0]@);
                lemma_checked_all(graph.edges@, cycles@, checked@);
            }
            SccTermination::CyclesChecked { cycles: checked }
        } else {
            SccTermination::Unsupported
        }
    }

    /// Checks all cycles of the strongly connected component; the component
    /// counts as terminating when its propagation graph is weakly acyclic or
    /// every checked cycle is shown to terminate by an annotation
    pub fn check_scc_termination(&self, scc: &Vec<usize>) -> (r: bool)
        requires
            buildable(self.program, scc@),
            scc_composable(self.program, scc@),
            scc_searchable(self.program, scc@),
        ensures
            exists|outcome: SccTermination| #[trigger] scc_outcome(self.program, scc@, self.edb_predicates.edb_positions@, outcome)
                && r == shows_termination(outcome),
    {
        let outcome = self.scc_termination(scc);
        outcome_shows_termination(&outcome)
    }

    /// Checks whether the measure of the cycle has an upper bound, with the
    /// edb constants kept within 64-bit integers, as the solver's optimizer finds it
    pub fn expression_has_upper_bound(&self, composed_cycle: &Vec<SmtTerm>, norm: &SmtTerm, edb_vars: &Vec<SmtTerm>) -> (r: bool)
        ensures
            r == bound_found(TerminationDirection::Increasing, composed_cycle@, *norm, edb_vars@),
    {
        let mut assertions: Vec<SmtTerm> = Vec::new();
        append_edb_bounds(edb_vars, &mut assertions);
        let mut rest = composed_cycle.clone();
        assertions.append(&mut rest);
        let bound = upper_bound(&assertions, norm);
        bound_is_finite(&bound)
    }

    /// Checks whether the measure of the cycle has a lower bound, with the
    /// edb constants kept within 64-bit integers, as the solver's optimizer finds it
    pub fn expression_has_lower_bound(&self, composed_cycle: &Vec<SmtTerm>, norm: &SmtTerm, edb_vars: &Vec<SmtTerm>) -> (r: bool)
        ensures
            r == bound_found(TerminationDirection::Decreasing, composed_cycle@, *norm, edb_vars@),
    {
        let mut assertions: Vec<SmtTerm> = Vec::new();
        append_edb_bounds(edb_vars, &mut assertions);
        let mut rest = composed_cycle.clone();
        assertions.append(&mut rest);
        let bound = lower_bound(&assertions, norm);
        bound_is_finite(&bound)
    }
}

} // verus!
