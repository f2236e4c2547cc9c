//! How a cycle of rules composes into one query: which rules the chain of a
//! cycle takes in, the fresh constants of their variables, and the terms
//! that the composition yields.

use vstd::prelude::*;

use crate::execution::planning::normalization::atom::{BodyAtom, HeadAtom};
use crate::execution::planning::normalization::program::NormalizedProgram;
use crate::execution::planning::normalization::rule::NormalizedRule;
use crate::execution::planning::normalization::termination_annotation::NormalizedTerminationAnnotation;
use crate::execution::planning::verification::edb_analysis::{variables_at, Positions};
use crate::execution::planning::verification::rule_verification::z3_goal::substituted_all;
use crate::execution::planning::verification::rule_verification::z3_restriction::var_id;
use crate::execution::planning::verification::rule_verification::z3_translation::{
    atoms_annotation_terms, cache_lookup, int_cache, int_operation, lemma_int_operation, lemma_lookup_int, min_length,
    operation_terms, primitive_substitution, primitives_registered, termination_body_term, termination_head_term,
    translatable, variable_substitution, variables_registered,
};
use crate::execution::planning::verification::rule_verification::{
    lemma_body_atom_variable, lemma_full_substitution, rule_cache, translatable_rule,
};
use crate::execution::planning::verification::smt::{int_term, substituted, SmtTerm};
use crate::rule_model::components::term::variable_names;
use crate::rule_model::components::variable::PrimitiveView;

verus! {

/// The rules that the references point to.
pub open spec fn rules_of(cycle: Seq<&NormalizedRule>) -> Seq<NormalizedRule> {
    cycle.map_values(|r: &NormalizedRule| *r)
}

/// The atoms with the predicate named `p`, in their order.
pub open spec fn atoms_of(atoms: Seq<BodyAtom>, p: Seq<char>) -> Seq<BodyAtom> {
    atoms.filter(|b: BodyAtom| b.predicate@ == p)
}

/// Whether the rule at `k` continues the chain from the rule at `prev`: the
/// predicate of the first head atom of `prev` occurs exactly once in the
/// positive body of the rule at `k`.
pub open spec fn continues(cycle: Seq<NormalizedRule>, prev: int, k: int) -> bool {
    atoms_of(cycle[k].positive@, cycle[prev].head@[0].predicate@).len() == 1
}

/// The place of the last rule among the first `k` that the chain took in.
pub open spec fn chain_end(cycle: Seq<NormalizedRule>, k: int) -> int
    decreases k,
{
    if k <= 1 {
        0
    } else if continues(cycle, chain_end(cycle, k - 1), k - 1) {
        k - 1
    } else {
        chain_end(cycle, k - 1)
    }
}

/// Whether the chain takes in the rule at `k`.
pub open spec fn in_chain(cycle: Seq<NormalizedRule>, k: int) -> bool {
    k == 0 || continues(cycle, chain_end(cycle, k), k)
}

/// Whether the chain takes in every rule of the cycle.
pub open spec fn linear_cycle(cycle: Seq<NormalizedRule>) -> bool {
    forall|k: int| 0 <= k < cycle.len() ==> #[trigger] in_chain(cycle, k)
}

/// The first fresh constant of the cache of the rule at `k`: the constants
/// before it go to the rules before it that the chain took in.
pub open spec fn cache_start(cycle: Seq<NormalizedRule>, k: int) -> nat
    decreases k,
{
    if k <= 0 {
        0
    } else {
        cache_start(cycle, k - 1) + if in_chain(cycle, k - 1) { cycle[k - 1].spec_variables().len() } else { 0 }
    }
}

/// Whether each rule that the chain takes in has a cache of fresh
/// constants of its own, numbered on from the caches before it.
pub open spec fn cycle_caches(cycle: Seq<NormalizedRule>, caches: Seq<Seq<(Seq<char>, SmtTerm)>>) -> bool {
    &&& caches.len() == cycle.len()
    &&& forall|k: int| 0 <= k < cycle.len() && in_chain(cycle, k) ==> rule_cache(cycle[k], #[trigger] caches[k],
        cache_start(cycle, k))
}

/// For the first `n` positions, the constants of the variables of the head
/// replaced by the terms of the variables at the same positions of their
/// occurrence in the next rule.
pub open spec fn chain_substitution(head: HeadAtom, occurrence: BodyAtom, prev: Seq<(Seq<char>, SmtTerm)>,
    cache: Seq<(Seq<char>, SmtTerm)>, n: int) -> Seq<(usize, SmtTerm)>
    decreases n,
{
    if n <= 0 {
        Seq::empty()
    } else {
        let rest = chain_substitution(head, occurrence, prev, cache, n - 1);
        match head.terms@[n - 1]@ {
            PrimitiveView::Variable(v) => rest.push(
                (var_id(cache_lookup(prev, v).unwrap()), cache_lookup(cache, occurrence.terms@[n - 1]@).unwrap()),
            ),
            PrimitiveView::Ground(_) => rest,
        }
    }
}

/// The occurrence, in the positive body of the rule at `k`, of the first head
/// atom of the rule at `prev`.
pub open spec fn occurrence(cycle: Seq<NormalizedRule>, prev: int, k: int) -> BodyAtom {
    atoms_of(cycle[k].positive@, cycle[prev].head@[0].predicate@)[0]
}

/// The substitution of the step of the chain from the rule at `prev` to the
/// rule at `k`.
pub open spec fn step_substitution(cycle: Seq<NormalizedRule>, caches: Seq<Seq<(Seq<char>, SmtTerm)>>, prev: int, k: int)
    -> Seq<(usize, SmtTerm)>
{
    let head = cycle[prev].head@[0];
    let occ = occurrence(cycle, prev, k);
    chain_substitution(head, occ, caches[prev], caches[k], min_length(head.terms@.len(), occ.terms@.len()) as int)
}

/// The terms of a rule: those of its operations, then those of the
/// annotations of its positive body atoms.
pub open spec fn rule_terms(program: NormalizedProgram, rule: NormalizedRule, cache: Seq<(Seq<char>, SmtTerm)>) -> Seq<SmtTerm> {
    operation_terms(rule.operations@, cache) + atoms_annotation_terms(program, rule.positive@, cache)
}

/// The terms of the variables of the rule at positions of `positions`.
pub open spec fn edb_terms(rule: NormalizedRule, positions: Positions, cache: Seq<(Seq<char>, SmtTerm)>) -> Set<SmtTerm> {
    variables_at(rule.positive@, positions).map(|v: Seq<char>| cache_lookup(cache, v).unwrap())
}

/// The measures of the atoms of the incremental predicate in a rule's body.
pub open spec fn start_measures(annotation: NormalizedTerminationAnnotation, rule: NormalizedRule, predicate: Seq<char>,
    cache: Seq<(Seq<char>, SmtTerm)>) -> Seq<SmtTerm>
{
    atoms_of(rule.positive@, predicate).map_values(|b: BodyAtom| termination_body_term(annotation, b, cache))
}

/// The composition of the first `k` rules of the cycle: the terms of the
/// rules that the chain took in, each step substituting into the terms
/// before it; the measures of the atoms of the incremental predicate in the
/// first rule's body; the terms of the edb variables; and whether the chain
/// took in every rule.
pub open spec fn composition(program: NormalizedProgram, cycle: Seq<NormalizedRule>,
    annotation: NormalizedTerminationAnnotation, predicate: Seq<char>, positions: Positions,
    caches: Seq<Seq<(Seq<char>, SmtTerm)>>, k: int) -> (Seq<SmtTerm>, Seq<SmtTerm>, Set<SmtTerm>, bool)
    decreases k,
{
    if k <= 1 {
        (rule_terms(program, cycle[0], caches[0]), start_measures(annotation, cycle[0], predicate, caches[0]),
            edb_terms(cycle[0], positions, caches[0]), true)
    } else {
        let s = composition(program, cycle, annotation, predicate, positions, caches, k - 1);
        if in_chain(cycle, k - 1) {
            let sub = step_substitution(cycle, caches, chain_end(cycle, k - 1), k - 1);
            (substituted_all(s.0, sub) + rule_terms(program, cycle[k - 1], caches[k - 1]), substituted_all(s.1, sub),
                s.2.map(|t: SmtTerm| substituted(t, sub)).union(edb_terms(cycle[k - 1], positions, caches[k - 1])), s.3)
        } else {
            (s.0, s.1, s.2, false)
        }
    }
}

/// The measure of the head of the last rule of the cycle, over the cache of
/// the last rule that the chain took in.
pub open spec fn end_measure(cycle: Seq<NormalizedRule>, annotation: NormalizedTerminationAnnotation,
    caches: Seq<Seq<(Seq<char>, SmtTerm)>>) -> SmtTerm
{
    termination_head_term(annotation, cycle.last().head@[0], caches[chain_end(cycle, cycle.len() as int)])
}

/// Whether the measure is an integer expression over the variables of the
/// annotation that an atom of the given arity fills.
pub open spec fn measure_fits(a: NormalizedTerminationAnnotation, arity: nat) -> bool {
    int_operation(a.body, variable_names(a.head.terms@.take(min_length(a.head.terms@.len(), arity) as int)).to_set())
}

/// Whether the cycle composes: it has a rule; each rule that the chain takes
/// in translates; the measure fits the atoms of the incremental predicate in
/// the first rule's body and the head of the last rule, whose variables that
/// the measure reads belong to the last rule of the chain; and the fresh
/// constants are numbered within machine integers.
pub open spec fn composable(program: NormalizedProgram, cycle: Seq<NormalizedRule>,
    annotation: NormalizedTerminationAnnotation, predicate: Seq<char>) -> bool
{
    &&& cycle.len() > 0
    &&& forall|k: int| 0 <= k < cycle.len() && #[trigger] in_chain(cycle, k) ==> translatable_rule(program, cycle[k])
    &&& cycle.last().head@.len() > 0
    &&& forall|j: int| 0 <= j < cycle[0].positive@.len() && (#[trigger] cycle[0].positive@[j]).predicate@ == predicate
        ==> measure_fits(annotation, cycle[0].positive@[j].terms@.len())
    &&& measure_fits(annotation, cycle.last().head@[0].terms@.len())
    &&& forall|i: int| 0 <= i < min_length(annotation.head.terms@.len(), cycle.last().head@[0].terms@.len())
        ==> ((#[trigger] cycle.last().head@[0].terms@[i])@ matches PrimitiveView::Variable(v)
        ==> cycle[chain_end(cycle, cycle.len() as int)].spec_variables().contains(v))
    &&& cache_start(cycle, cycle.len() as int) <= usize::MAX
}

/// Whether the results are the composition of the cycle over the caches:
/// the composed terms, the start measures, the end measure, terms whose set
/// is that of the edb variables, and whether the chain took in every rule.
pub open spec fn composed_as(program: NormalizedProgram, cycle: Seq<NormalizedRule>,
    annotation: NormalizedTerminationAnnotation, predicate: Seq<char>, positions: Positions,
    caches: Seq<Seq<(Seq<char>, SmtTerm)>>, r: (Vec<SmtTerm>, Vec<SmtTerm>, SmtTerm, Vec<SmtTerm>, bool)) -> bool
{
    let c = composition(program, cycle, annotation, predicate, positions, caches, cycle.len() as int);
    &&& r.0@ == c.0
    &&& r.1@ == c.1
    &&& r.2 == end_measure(cycle, annotation, caches)
    &&& r.3@.to_set() == c.2
    &&& r.4 == c.3
}

/// The measure translates for a body atom whose variables are registered
/// with integer terms.
pub proof fn lemma_body_measure(a: NormalizedTerminationAnnotation, b: BodyAtom, cache: Seq<(Seq<char>, SmtTerm)>)
    requires
        measure_fits(a, b.terms@.len()),
        int_cache(cache),
        forall|k: int| 0 <= k < b.terms@.len() ==> cache_lookup(cache, (#[trigger] b.terms@[k])@) is Some,
    ensures
        variables_registered(b.terms@, a.head.terms@.len(), cache),
        translatable(a.body, variable_substitution(a.head.terms@, b.terms@, cache)),
{
    let n = min_length(a.head.terms@.len(), b.terms@.len());
    let vars = a.head.terms@.take(n as int);
    let sub = variable_substitution(a.head.terms@, b.terms@, cache);
    assert forall|i: int| 0 <= i < sub.len() implies (#[trigger] sub[i]).0 == vars[i]@ && int_term(sub[i].1) by {
        lemma_lookup_int(cache, b.terms@[i]@);
    }
    lemma_full_substitution(vars, sub);
    lemma_int_operation(a.body, variable_names(vars).to_set(), sub);
}

/// The measure translates for a head atom whose variables that it reads are
/// registered with integer terms.
pub proof fn lemma_head_measure(a: NormalizedTerminationAnnotation, h: HeadAtom, cache: Seq<(Seq<char>, SmtTerm)>)
    requires
        measure_fits(a, h.terms@.len()),
        int_cache(cache),
        forall|k: int| 0 <= k < min_length(a.head.terms@.len(), h.terms@.len()) ==> ((#[trigger] h.terms@[k])@
            matches PrimitiveView::Variable(v) ==> cache_lookup(cache, v) is Some),
    ensures
        primitives_registered(h.terms@, a.head.terms@.len(), cache),
        translatable(a.body, primitive_substitution(a.head.terms@, h.terms@, cache)),
{
    let n = min_length(a.head.terms@.len(), h.terms@.len());
    let vars = a.head.terms@.take(n as int);
    let sub = primitive_substitution(a.head.terms@, h.terms@, cache);
    assert forall|i: int| 0 <= i < sub.len() implies (#[trigger] sub[i]).0 == vars[i]@ && int_term(sub[i].1) by {
        match h.terms@[i]@ {
            PrimitiveView::Variable(v) => {
                lemma_lookup_int(cache, v);
            },
            PrimitiveView::Ground(_) => {},
        }
    }
    lemma_full_substitution(vars, sub);
    lemma_int_operation(a.body, variable_names(vars).to_set(), sub);
}

/// The variables at the edb positions of a rule's body are variables of the rule.
pub proof fn lemma_edb_variables(rule: NormalizedRule, positions: Positions)
    ensures
        forall|v: Seq<char>| #[trigger] variables_at(rule.positive@, positions).contains(v) ==> rule.spec_variables().contains(v),
{
    assert forall|v: Seq<char>| #[trigger] variables_at(rule.positive@, positions).contains(v) implies rule.spec_variables().contains(v) by {
        let (b, j) = choose|b: int, j: int| 0 <= b < rule.positive@.len() && 0 <= j < rule.positive@[b].terms@.len()
            && (#[trigger] rule.positive@[b].terms@[j])@ == v && positions.contains((rule.positive@[b].predicate@, j as usize));
        lemma_body_atom_variable(rule.positive@, b, j);
    }
}

/// The chain ends before `k`, at a rule that it took in.
pub proof fn lemma_chain_end(cycle: Seq<NormalizedRule>, k: int)
    requires
        1 <= k,
    ensures
        0 <= chain_end(cycle, k) < k,
        in_chain(cycle, chain_end(cycle, k)),
        chain_end(cycle, k + 1) == if in_chain(cycle, k) { k } else { chain_end(cycle, k) },
    decreases k,
{
    if k > 1 {
        lemma_chain_end(cycle, k - 1);
    }
}

/// The caches are numbered upwards.
pub proof fn lemma_cache_start_monotone(cycle: Seq<NormalizedRule>, j: int, k: int)
    requires
        0 <= j <= k,
    ensures
        cache_start(cycle, j) <= cache_start(cycle, k),
    decreases k - j,
{
    if j < k {
        lemma_cache_start_monotone(cycle, j, k - 1);
    }
}

/// The composition of the first `k` rules reads only the caches of these.
pub proof fn lemma_composition_frame(program: NormalizedProgram, cycle: Seq<NormalizedRule>,
    annotation: NormalizedTerminationAnnotation, predicate: Seq<char>, positions: Positions,
    c1: Seq<Seq<(Seq<char>, SmtTerm)>>, c2: Seq<Seq<(Seq<char>, SmtTerm)>>, k: int)
    requires
        1 <= k,
        forall|j: int| 0 <= j < k ==> c1[j] == c2[j],
    ensures
        composition(program, cycle, annotation, predicate, positions, c1, k) == composition(program, cycle, annotation,
            predicate, positions, c2, k),
    decreases k,
{
    if k > 1 {
        lemma_composition_frame(program, cycle, annotation, predicate, positions, c1, c2, k - 1);
        lemma_chain_end(cycle, k - 1);
        let prev = chain_end(cycle, k - 1);
        assert(c1[prev] == c2[prev]);
        assert(c1[k - 1] == c2[k - 1]);
    }
}

/// The substitutions of the terms of a sequence are the substitutions of
/// the terms of its set.
pub proof fn lemma_substituted_set(ts: Seq<SmtTerm>, sub: Seq<(usize, SmtTerm)>)
    ensures
        substituted_all(ts, sub).to_set() == ts.to_set().map(|t: SmtTerm| substituted(t, sub)),
{
    let f = |t: SmtTerm| substituted(t, sub);
    assert forall|x: SmtTerm| substituted_all(ts, sub).to_set().contains(x) implies ts.to_set().map(f).contains(x) by {
        let i = choose|i: int| 0 <= i < substituted_all(ts, sub).len() && substituted_all(ts, sub)[i] == x;
        assert(ts.to_set().contains(ts[i]));
    }
    assert forall|x: SmtTerm| ts.to_set().map(f).contains(x) implies substituted_all(ts, sub).to_set().contains(x) by {
        let y = choose|y: SmtTerm| ts.to_set().contains(y) && x == f(y);
        let i = choose|i: int| 0 <= i < ts.len() && ts[i] == y;
        assert(substituted_all(ts, sub)[i] == x);
    }
    assert(substituted_all(ts, sub).to_set() =~= ts.to_set().map(f));
}

/// The set of a concatenation is the union of the sets.
pub proof fn lemma_concat_set(a: Seq<SmtTerm>, b: Seq<SmtTerm>)
    ensures
        (a + b).to_set() == a.to_set().union(b.to_set()),
{
    assert forall|x: SmtTerm| (a + b).to_set().contains(x) implies a.to_set().union(b.to_set()).contains(x) by {
        let i = choose|i: int| 0 <= i < (a + b).len() && (a + b)[i] == x;
        if i < a.len() {
            assert(a[i] == x);
        } else {
            assert(b[i - a.len()] == x);
        }
    }
    assert forall|x: SmtTerm| a.to_set().union(b.to_set()).contains(x) implies (a + b).to_set().contains(x) by {
        if a.to_set().contains(x) {
            let i = choose|i: int| 0 <= i < a.len() && a[i] == x;
            assert((a + b)[i] == x);
        } else {
            let i = choose|i: int| 0 <= i < b.len() && b[i] == x;
            assert((a + b)[a.len() + i] == x);
        }
    }
    assert((a + b).to_set() =~= a.to_set().union(b.to_set()));
}

} // verus!
