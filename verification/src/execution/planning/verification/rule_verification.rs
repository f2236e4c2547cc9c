//! Verification of rules against their annotations with the solver, by
//! [RuleVerifier]

use vstd::prelude::*;

use crate::execution::planning::normalization::atom::{BodyAtom, HeadAtom};
use crate::execution::planning::normalization::global_annotation::NormalizedGlobalAnnotation;
use crate::execution::planning::normalization::program::NormalizedProgram;
use crate::execution::planning::normalization::rule::{
    body_atoms_variables, head_atoms_variables, primitives_variables, NormalizedRule,
};
use crate::execution::planning::normalization::atom::GroundAtom;
use crate::execution::planning::normalization::generator::{decimal, numbered_name};
use crate::execution::planning::normalization::operation::operation_variables;
use crate::execution::planning::verification::smt::{
    check_sat, conjunction, disjunction, int_term, satisfiable, substituted, SatOutcome, SmtOp, SmtTerm,
};
use crate::rule_model::components::tag::Tag;
use crate::rule_model::components::term::variable_names;
use crate::rule_model::components::variable::{Primitive, PrimitiveView, Variable};

pub mod filters;
pub mod z3_goal;
pub mod z3_restriction;
pub mod z3_translation;

use filters::{filter_term, filter_variable, Filter};
use z3_restriction::{body_substitution, fresh_vars, head_constants, head_substitution, Restriction};
use z3_translation::{
    atoms_annotation_terms, body_assertion_term, bool_operation, conjoin, ground_assertion_term, ground_substitution,
    head_assertion_term, lemma_bool_operation, operation_terms, translatable, RuleTranslator,
    bool_operations, body_assertion_translatable, cache_lookup, cache_view, head_assertion_translatable, int_cache,
    lemma_bool_operations, lemma_lookup_int, lemma_lookup_present, primitive_substitution, primitive_term,
    primitives_registered, registered, translatable_conditions, min_length, variable_substitution, variables_registered,
    atoms_annotations_translatable, CacheEntry,
};

verus! {

/// The names of the entries of a cache.
pub open spec fn cache_names(cache: Seq<(Seq<char>, SmtTerm)>) -> Seq<Seq<char>> {
    cache.map_values(|e: (Seq<char>, SmtTerm)| e.0)
}

/// Whether the cache maps each variable of the rule, once, to one of the
/// consecutive constants from `start`.
pub open spec fn rule_cache(rule: NormalizedRule, cache: Seq<(Seq<char>, SmtTerm)>, start: nat) -> bool {
    &&& cache_names(cache).no_duplicates()
    &&& cache_names(cache).to_set() == rule.spec_variables()
    &&& forall|i: int| 0 <= i < cache.len() ==> (#[trigger] cache[i]).1 == SmtTerm::Var((start + i) as usize)
}

/// Whether the annotation has the given arity and compares integer
/// expressions over its variables.
pub open spec fn annotation_fits(a: NormalizedGlobalAnnotation, arity: nat) -> bool {
    &&& a.head.terms@.len() == arity
    &&& bool_operations(a.body@, variable_names(a.head.terms@).to_set())
}

/// Whether the annotations of the predicate fit the arity.
pub open spec fn annotations_fit(program: NormalizedProgram, predicate: Seq<char>, arity: nat) -> bool {
    forall|j: int| 0 <= j < program.spec_global_annotations_for(predicate).len()
        ==> annotation_fits(#[trigger] program.spec_global_annotations_for(predicate)[j], arity)
}

/// Whether the rule translates: it has a head, its operations compare
/// integer expressions over its variables, and the annotations of its
/// positive body atoms fit them.
pub open spec fn translatable_rule(program: NormalizedProgram, rule: NormalizedRule) -> bool {
    &&& rule.head@.len() > 0
    &&& bool_operations(rule.operations@, rule.spec_variables())
    &&& forall|i: int| 0 <= i < rule.positive@.len() ==> annotations_fit(program, (#[trigger] rule.positive@[i]).predicate@,
        rule.positive@[i].terms@.len())
}

/// Whether the rule can be verified against the annotations: it translates,
/// and the annotations of its first head atom fit it.
pub open spec fn verifiable_rule(program: NormalizedProgram, rule: NormalizedRule) -> bool {
    &&& translatable_rule(program, rule)
    &&& annotations_fit(program, rule.head@[0].predicate@, rule.head@[0].terms@.len())
}

pub proof fn lemma_body_atom_variable(atoms: Seq<BodyAtom>, b: int, k: int)
    requires
        0 <= b < atoms.len(),
        0 <= k < atoms[b].terms@.len(),
    ensures
        body_atoms_variables(atoms).contains(atoms[b].terms@[k]@),
    decreases atoms.len(),
{
    if b < atoms.len() - 1 {
        lemma_body_atom_variable(atoms.drop_last(), b, k);
        assert(atoms.drop_last()[b] == atoms[b]);
    } else {
        assert(variable_names(atoms.last().terms@)[k] == atoms[b].terms@[k]@);
        assert(variable_names(atoms.last().terms@).to_set().contains(atoms[b].terms@[k]@));
    }
}

proof fn lemma_primitive_variable(terms: Seq<Primitive>, k: int)
    requires
        0 <= k < terms.len(),
    ensures
        terms[k]@ matches PrimitiveView::Variable(v) ==> primitives_variables(terms).contains(v),
    decreases terms.len(),
{
    if k < terms.len() - 1 {
        lemma_primitive_variable(terms.drop_last(), k);
        assert(terms.drop_last()[k] == terms[k]);
    }
}

pub proof fn lemma_head_atom_variable(atoms: Seq<HeadAtom>, h: int, k: int)
    requires
        0 <= h < atoms.len(),
        0 <= k < atoms[h].terms@.len(),
    ensures
        atoms[h].terms@[k]@ matches PrimitiveView::Variable(v) ==> head_atoms_variables(atoms).contains(v),
    decreases atoms.len(),
{
    if h < atoms.len() - 1 {
        lemma_head_atom_variable(atoms.drop_last(), h, k);
        assert(atoms.drop_last()[h] == atoms[h]);
    } else {
        lemma_primitive_variable(atoms[h].terms@, k);
    }
}

/// The cache of a rule registers its variables with integer terms.
pub(crate) proof fn lemma_rule_cache(rule: NormalizedRule, cache: Seq<(Seq<char>, SmtTerm)>, start: nat)
    requires
        rule_cache(rule, cache, start),
    ensures
        registered(cache, rule.spec_variables()),
        int_cache(cache),
{
    assert forall|n: Seq<char>| #[trigger] rule.spec_variables().contains(n) implies cache_lookup(cache, n) is Some by {
        assert(cache_names(cache).to_set().contains(n));
        let i = choose|i: int| 0 <= i < cache_names(cache).len() && cache_names(cache)[i] == n;
        lemma_lookup_present(cache, i);
    }
    assert forall|i: int| 0 <= i < cache.len() implies int_term(#[trigger] cache[i].1) by {
        assert(cache[i].1 == SmtTerm::Var((start + i) as usize));
    }
}

/// A substitution that maps each annotation variable registers them with
/// integer terms, given integer terms.
pub proof fn lemma_full_substitution(ann_vars: Seq<Variable>, sub: Seq<(Seq<char>, SmtTerm)>)
    requires
        sub.len() == ann_vars.len(),
        forall|i: int| 0 <= i < sub.len() ==> (#[trigger] sub[i]).0 == ann_vars[i]@ && int_term(sub[i].1),
    ensures
        registered(sub, variable_names(ann_vars).to_set()),
        int_cache(sub),
{
    assert forall|n: Seq<char>| #[trigger] variable_names(ann_vars).to_set().contains(n) implies cache_lookup(sub, n) is Some by {
        let i = choose|i: int| 0 <= i < variable_names(ann_vars).len() && variable_names(ann_vars)[i] == n;
        assert(sub[i].0 == n);
        lemma_lookup_present(sub, i);
    }
}

/// The translation preconditions for the operations and body annotations of
/// a translatable rule.
pub proof fn lemma_translatable_rule(program: NormalizedProgram, rule: NormalizedRule, cache: Seq<(Seq<char>, SmtTerm)>, start: nat)
    requires
        translatable_rule(program, rule),
        rule_cache(rule, cache, start),
    ensures
        translatable_conditions(rule.operations@, cache),
        atoms_annotations_translatable(program, rule.positive@, cache),
        registered(cache, rule.spec_variables()),
        int_cache(cache),
{
    lemma_rule_cache(rule, cache, start);
    lemma_bool_operations(rule.operations@, rule.spec_variables(), cache);
    assert forall|i: int, j: int| 0 <= i < rule.positive@.len() && 0 <= j < program.spec_global_annotations_for(rule.positive@[i].predicate@).len()
        implies body_assertion_translatable(#[trigger] program.spec_global_annotations_for(rule.positive@[i].predicate@)[j], rule.positive@[i], cache) by {
        let atom = rule.positive@[i];
        let a = program.spec_global_annotations_for(atom.predicate@)[j];
        assert(annotations_fit(program, atom.predicate@, atom.terms@.len()));
        assert(annotation_fits(a, atom.terms@.len()));
        assert forall|k: int| 0 <= k < a.head.terms@.len() && k < atom.terms@.len() implies
            cache_lookup(cache, (#[trigger] atom.terms@[k])@) is Some by {
            lemma_body_atom_variable(rule.positive@, i, k);
            assert(rule.spec_variables().contains(atom.terms@[k]@));
        }
        let sub = variable_substitution(a.head.terms@, atom.terms@, cache);
        assert forall|k: int| 0 <= k < sub.len() implies (#[trigger] sub[k]).0 == a.head.terms@[k]@ && int_term(sub[k].1) by {
            lemma_body_atom_variable(rule.positive@, i, k);
            assert(rule.spec_variables().contains(atom.terms@[k]@));
            lemma_lookup_int(cache, atom.terms@[k]@);
        }
        lemma_full_substitution(a.head.terms@, sub);
        lemma_bool_operations(a.body@, variable_names(a.head.terms@).to_set(), sub);
    }
}

/// The translation preconditions for the annotations of a verifiable rule.
proof fn lemma_verifiable_rule(program: NormalizedProgram, rule: NormalizedRule, cache: Seq<(Seq<char>, SmtTerm)>, start: nat)
    requires
        verifiable_rule(program, rule),
        rule_cache(rule, cache, start),
    ensures
        translatable_conditions(rule.operations@, cache),
        atoms_annotations_translatable(program, rule.positive@, cache),
        forall|j: int| 0 <= j < program.spec_global_annotations_for(rule.head@[0].predicate@).len() ==> head_assertion_translatable(
            #[trigger] program.spec_global_annotations_for(rule.head@[0].predicate@)[j], rule.head@[0], cache),
{
    lemma_translatable_rule(program, rule, cache, start);
    let head = rule.head@[0];
    assert forall|j: int| 0 <= j < program.spec_global_annotations_for(head.predicate@).len() implies head_assertion_translatable(
        #[trigger] program.spec_global_annotations_for(head.predicate@)[j], head, cache) by {
        let a = program.spec_global_annotations_for(head.predicate@)[j];
        assert(annotation_fits(a, head.terms@.len()));
        assert forall|k: int| 0 <= k < a.head.terms@.len() && k < head.terms@.len() implies
            ((#[trigger] head.terms@[k])@ matches PrimitiveView::Variable(v) ==> cache_lookup(cache, v) is Some) by {
            lemma_head_atom_variable(rule.head@, 0, k);
            match head.terms@[k]@ {
                PrimitiveView::Variable(v) => { assert(rule.spec_variables().contains(v)); },
                PrimitiveView::Ground(_) => {},
            }
        }
        let sub = primitive_substitution(a.head.terms@, head.terms@, cache);
        assert forall|k: int| 0 <= k < sub.len() implies (#[trigger] sub[k]).0 == a.head.terms@[k]@ && int_term(sub[k].1) by {
            lemma_head_atom_variable(rule.head@, 0, k);
            match head.terms@[k]@ {
                PrimitiveView::Variable(v) => {
                    assert(rule.spec_variables().contains(v));
                    lemma_lookup_int(cache, v);
                },
                PrimitiveView::Ground(_) => {},
            }
        }
        lemma_full_substitution(a.head.terms@, sub);
        lemma_bool_operations(a.body@, variable_names(a.head.terms@).to_set(), sub);
    }
}

/// Creates a cache that maps each variable of the rule to a fresh constant.
pub fn create_var_cache(rule: &NormalizedRule, next_var: &mut usize) -> (cache: Vec<CacheEntry>)
    requires
        old(next_var) + rule.spec_variables().len() <= usize::MAX,
    ensures
        rule_cache(*rule, cache_view(cache@), *old(next_var) as nat),
        *final(next_var) == *old(next_var) + cache@.len(),
        cache@.len() == rule.spec_variables().len(),
{
    let vars = rule.variables();
    proof {
        variable_names(vars@).unique_seq_to_set();
    }
    let start = *next_var;
    let n = vars.len();
    let mut cache: Vec<CacheEntry> = Vec::new();
    let mut i: usize = 0;
    while i < n
        invariant
            n == vars@.len(),
            start + n <= usize::MAX,
            0 <= i <= n,
            *next_var == start + i,
            cache@.len() == i,
            cache_names(cache_view(cache@)) == variable_names(vars@).take(i as int),
            forall|k: int| 0 <= k < i ==> (#[trigger] cache_view(cache@)[k]).1 == SmtTerm::Var((start + k) as usize),
        decreases n - i,
    {
        let ghost before = cache@;
        let v = vars[i].clone();
        cache.push((v, SmtTerm::Var(*next_var)));
        assert(cache_view(cache@) =~= cache_view(before).push((v@, SmtTerm::Var((start + i) as usize))));
        *next_var = *next_var + 1;
        i = i + 1;
        assert(cache_names(cache_view(cache@)) =~= variable_names(vars@).take(i as int));
    }
    assert(variable_names(vars@).take(n as int) =~= variable_names(vars@));
    proof {
        cache_names(cache_view(cache@)).unique_seq_to_set();
    }
    cache
}

/// The restriction of the predicate: that of the first entry for it.
pub open spec fn restriction_of(entries: Seq<(Tag, Restriction)>, tag: Seq<char>) -> Option<Restriction>
    decreases entries.len(),
{
    if entries.len() == 0 {
        None
    } else if entries[0].0@ == tag {
        Some(entries[0].1)
    } else {
        restriction_of(entries.subrange(1, entries.len() as int), tag)
    }
}

/// The term that a restriction asserts of a body atom.
pub open spec fn restriction_body_term(r: Restriction, atom: BodyAtom, cache: Seq<(Seq<char>, SmtTerm)>) -> SmtTerm {
    disjunction(r.restrictions@.map_values(|t: SmtTerm| substituted(t,
        body_substitution(r.restriction_head_vars@, atom.terms@, cache))))
}

/// The terms that the restrictions of the predicates assert of the atoms.
pub open spec fn body_restriction_terms(entries: Seq<(Tag, Restriction)>, atoms: Seq<BodyAtom>, cache: Seq<(Seq<char>, SmtTerm)>)
    -> Seq<SmtTerm>
    decreases atoms.len(),
{
    if atoms.len() == 0 {
        Seq::empty()
    } else {
        let prev = body_restriction_terms(entries, atoms.drop_last(), cache);
        match restriction_of(entries, atoms.last().predicate@) {
            Some(r) => prev.push(restriction_body_term(r, atoms.last(), cache)),
            None => prev,
        }
    }
}

/// The query whose unsatisfiability shows that the rule keeps the
/// annotation: the rule's operations, the annotations of its body atoms, the
/// extra assertions, and the negation of the annotation of its head.
pub open spec fn violation_query(program: NormalizedProgram, rule: NormalizedRule, cache: Seq<(Seq<char>, SmtTerm)>,
    extra: Seq<SmtTerm>, a: NormalizedGlobalAnnotation) -> Seq<SmtTerm>
{
    operation_terms(rule.operations@, cache) + atoms_annotation_terms(program, rule.positive@, cache) + extra
        + seq![SmtTerm::Not(Box::new(head_assertion_term(a, rule.head@[0], cache)))]
}

/// The assertions of the body of the rule: its operations, the annotations
/// of its body atoms, and the extra assertions.
pub open spec fn body_query(program: NormalizedProgram, rule: NormalizedRule, cache: Seq<(Seq<char>, SmtTerm)>,
    extra: Seq<SmtTerm>) -> Seq<SmtTerm>
{
    operation_terms(rule.operations@, cache) + atoms_annotation_terms(program, rule.positive@, cache) + extra
}

/// The filter applied to each of the terms, in order.
pub open spec fn filter_candidates(f: Filter, terms: Seq<Primitive>, cache: Seq<(Seq<char>, SmtTerm)>) -> Seq<SmtTerm> {
    terms.map_values(|p: Primitive| filter_term(f.filter_operation, primitive_term(p@, cache)))
}

/// Each filter applied to each of the terms: filter by filter, and for each
/// filter term by term.
pub open spec fn head_filter_candidates(filters: Seq<Filter>, terms: Seq<Primitive>, cache: Seq<(Seq<char>, SmtTerm)>)
    -> Seq<SmtTerm>
    decreases filters.len(),
{
    if filters.len() == 0 {
        Seq::empty()
    } else {
        head_filter_candidates(filters.drop_last(), terms, cache) + filter_candidates(filters.last(), terms, cache)
    }
}

/// The candidates whose outcome is `Unsat`, in order.
pub open spec fn kept_candidates(candidates: Seq<SmtTerm>, outcomes: Seq<SatOutcome>) -> Seq<SmtTerm>
    decreases candidates.len(),
{
    if candidates.len() == 0 || outcomes.len() == 0 {
        Seq::empty()
    } else {
        let prev = kept_candidates(candidates.drop_last(), outcomes.drop_last());
        if outcomes.last() == SatOutcome::Unsat { prev.push(candidates.last()) } else { prev }
    }
}

/// Whether each outcome answers the query of the body with the negation of
/// its candidate: `Unsat` only where the body entails the candidate.
pub open spec fn entailment_outcomes(body: Seq<SmtTerm>, candidates: Seq<SmtTerm>, outcomes: Seq<SatOutcome>) -> bool {
    &&& outcomes.len() == candidates.len()
    &&& forall|k: int| 0 <= k < outcomes.len() && #[trigger] outcomes[k] == SatOutcome::Unsat
        ==> !satisfiable(body.push(SmtTerm::Not(Box::new(candidates[k]))))
}

/// Whether the restriction of the head predicate went from `before` to
/// `after` by the propagated formula `t`, and `delta` says whether it
/// changed: with no restriction before, a new one over fresh constants from
/// `next` on asserts `t` of the head terms; otherwise `t` of the head terms is
/// added to the present restriction or not at all.
pub open spec fn propagated(before: Option<Restriction>, after: Option<Restriction>, head: HeadAtom,
    cache: Seq<(Seq<char>, SmtTerm)>, next: nat, t: SmtTerm, delta: bool) -> bool
{
    match before {
        None => {
            &&& delta
            &&& after matches Some(r) && r.restriction_head_vars@ == fresh_vars(next, head.terms@.len())
                && r.restrictions@ == seq![substituted(t, head_substitution(head.terms@, r.restriction_head_vars@, cache,
                head.terms@.len()))]
        },
        Some(b) => {
            &&& after matches Some(r) && r.restriction_head_vars@ == b.restriction_head_vars@
                && (r.restrictions@ == b.restrictions@ || r.restrictions@ == b.restrictions@.push(substituted(t,
                head_substitution(head.terms@, b.restriction_head_vars@, cache, min_length(head.terms@.len(),
                b.restriction_head_vars@.len())))))
                && delta == (r.restrictions@ != b.restrictions@)
        },
    }
}

/// Whether the filter compares an integer expression over its one variable.
pub open spec fn well_formed_filter(f: Filter) -> bool {
    &&& exists|v: Seq<char>| operation_variables(f.filter_operation) == set![v]
    &&& bool_operation(f.filter_operation, set![filter_variable(f.filter_operation)])
}

/// The result of checking a rule against the annotations of its head predicate.
#[derive(Debug)]
pub struct RuleCheck {
    /// Whether every check showed that the annotation holds
    pub valid: bool,
    /// The outcome for each annotation of the head predicate, in order
    pub outcomes: Vec<SatOutcome>,
    /// The assertions handed to the solver for each annotation, in order
    pub queries: Vec<Vec<SmtTerm>>,
}

/// Whether the check holds a query for each outcome, each outcome `Unsat`
/// only for an unsatisfiable query, and is valid exactly when every outcome
/// is `Unsat`.
pub open spec fn check_answered(check: RuleCheck) -> bool {
    &&& check.queries@.len() == check.outcomes@.len()
    &&& forall|i: int| 0 <= i < check.outcomes@.len() && #[trigger] check.outcomes@[i] == SatOutcome::Unsat
        ==> !satisfiable(check.queries@[i]@)
    &&& check.valid == forall|i: int| 0 <= i < check.outcomes@.len() ==> #[trigger] check.outcomes@[i] == SatOutcome::Unsat
}

/// Struct for converting and verifying rules with the solver
#[derive(Debug)]
pub struct RuleVerifier {
    /// The number of the next fresh constant
    pub fresh_var_counter: usize,
    /// The restrictions propagated to the predicates, at most one per predicate
    pub predicate_restrictions: Vec<(Tag, Restriction)>,
    /// The filters of the program
    pub filter_predicates: Vec<Filter>,
}

/// Returns the position of the first entry for the predicate.
fn find_restriction(entries: &Vec<(Tag, Restriction)>, tag: &Tag) -> (r: Option<usize>)
    ensures
        match r {
            Some(k) => k < entries@.len() && entries@[k as int].0@ == tag@
                && restriction_of(entries@, tag@) == Some(entries@[k as int].1)
                && forall|j: int| 0 <= j < k ==> (#[trigger] entries@[j]).0@ != tag@,
            None => restriction_of(entries@, tag@) is None,
        },
{
    let n = entries.len();
    let mut k: usize = 0;
    assert(entries@.subrange(0, n as int) =~= entries@);
    while k < n
        invariant
            n == entries@.len(),
            0 <= k <= n,
            restriction_of(entries@, tag@) == restriction_of(entries@.subrange(k as int, n as int), tag@),
            forall|j: int| 0 <= j < k ==> (#[trigger] entries@[j]).0@ != tag@,
        decreases n - k,
    {
        let ghost rest = entries@.subrange(k as int, n as int);
        assert(rest[0] == entries@[k as int]);
        if entries[k].0 == *tag {
            return Some(k);
        }
        assert(rest.subrange(1, rest.len() as int) =~= entries@.subrange(k + 1, n as int));
        k = k + 1;
    }
    None
}

/// The answer to a check of an annotation: only an unsatisfiable query
/// shows that the annotation holds.
pub fn keeps_valid(valid: bool, outcome: SatOutcome) -> (r: bool)
    ensures
        r == (valid && outcome == SatOutcome::Unsat),
{
    match outcome {
        SatOutcome::Unsat => valid,
        _ => false,
    }
}

impl RuleVerifier {
    /// Creates a new [RuleVerifier]
    pub fn new() -> (verifier: Self)
        ensures
            verifier.fresh_var_counter == 0,
            verifier.predicate_restrictions@.len() == 0,
            verifier.filter_predicates@.len() == 0,
    {
        RuleVerifier { fresh_var_counter: 0, predicate_restrictions: Vec::new(), filter_predicates: Vec::new() }
    }

    /// Generates a new var for the program
    pub fn get_fresh_var(&mut self) -> (name: String)
        requires
            old(self).fresh_var_counter < usize::MAX,
        ensures
            final(self).fresh_var_counter == old(self).fresh_var_counter + 1,
            final(self).predicate_restrictions == old(self).predicate_restrictions,
            final(self).filter_predicates == old(self).filter_predicates,
            name@ == seq!['V'] + decimal(final(self).fresh_var_counter as nat),
    {
        self.fresh_var_counter = self.fresh_var_counter + 1;
        proof { reveal_strlit("V"); }
        numbered_name("V", self.fresh_var_counter)
    }

    /// Returns the predicate restrictions
    pub fn predicate_restriction(&self) -> (restrictions: &Vec<(Tag, Restriction)>)
        ensures
            restrictions == &self.predicate_restrictions,
    {
        &self.predicate_restrictions
    }

    /// Returns the restrictions placed on the body predicates
    pub fn get_body_predicate_restrictions(&self, rule: &NormalizedRule, var_cache: &Vec<CacheEntry>) -> (terms: Vec<SmtTerm>)
        requires
            forall|b: int, k: int| 0 <= b < rule.positive@.len() && 0 <= k < rule.positive@[b].terms@.len()
                ==> cache_lookup(cache_view(var_cache@), (#[trigger] rule.positive@[b].terms@[k])@) is Some,
        ensures
            terms@ == body_restriction_terms(self.predicate_restrictions@, rule.positive@, cache_view(var_cache@)),
    {
        let ghost cache = cache_view(var_cache@);
        let atoms = &rule.positive;
        let mut terms: Vec<SmtTerm> = Vec::new();
        let n = atoms.len();
        let mut i: usize = 0;
        while i < n
            invariant
                atoms == &rule.positive,
                n == atoms@.len(),
                cache == cache_view(var_cache@),
                forall|b: int, k: int| 0 <= b < atoms@.len() && 0 <= k < atoms@[b].terms@.len()
                    ==> cache_lookup(cache, (#[trigger] atoms@[b].terms@[k])@) is Some,
                0 <= i <= n,
                terms@ == body_restriction_terms(self.predicate_restrictions@, atoms@.take(i as int), cache),
            decreases n - i,
        {
            let atom = &atoms[i];
            assert(atoms@.take(i + 1).drop_last() =~= atoms@.take(i as int));
            assert(atoms@.take(i + 1).last() == atoms@[i as int]);
            match find_restriction(&self.predicate_restrictions, &atom.predicate) {
                Some(k) => {
                    let res = &self.predicate_restrictions[k].1;
                    assert forall|j: int| 0 <= j < atom.terms@.len() && j < res.restriction_head_vars@.len()
                        implies cache_lookup(cache, (#[trigger] atom.terms@[j])@) is Some by {
                        assert(atoms@[i as int].terms@[j] == atom.terms@[j]);
                    }
                    let t = res.get_restrictions_for_body(atom, var_cache);
                    terms.push(t);
                },
                None => {},
            }
            i = i + 1;
        }
        assert(atoms@.take(n as int) =~= atoms@);
        terms
    }

    /// Checks each annotation of the head predicate of the rule: the query
    /// of the rule's body, the extra assertions and the negated annotation
    /// is handed to the solver; a satisfiable query may violate it.
    fn check_head_annotations(&self, program: &NormalizedProgram, rule: &NormalizedRule, var_cache: &Vec<CacheEntry>,
        body: &Vec<SmtTerm>) -> (check: RuleCheck)
        requires
            rule.head@.len() > 0,
            forall|j: int| 0 <= j < program.spec_global_annotations_for(rule.head@[0].predicate@).len() ==> head_assertion_translatable(
                #[trigger] program.spec_global_annotations_for(rule.head@[0].predicate@)[j], rule.head@[0], cache_view(var_cache@)),
        ensures
            check.outcomes@.len() == program.spec_global_annotations_for(rule.head@[0].predicate@).len(),
            check_answered(check),
            forall|i: int| 0 <= i < check.queries@.len() ==> (#[trigger] check.queries@[i])@ == body@ + seq![SmtTerm::Not(
                Box::new(head_assertion_term(program.spec_global_annotations_for(rule.head@[0].predicate@)[i],
                rule.head@[0], cache_view(var_cache@))))],
    {
        let ghost anns = program.spec_global_annotations_for(rule.head@[0].predicate@);
        let translator = RuleTranslator::new();
        let head = &rule.head[0];
        let annotations = program.predicate_to_global_annotation(&head.predicate());
        let mut valid = true;
        let mut outcomes: Vec<SatOutcome> = Vec::new();
        let mut queries: Vec<Vec<SmtTerm>> = Vec::new();
        let m = annotations.len();
        let mut j: usize = 0;
        while j < m
            invariant
                head == &rule.head@[0],
                annotations@.map_values(|a: &NormalizedGlobalAnnotation| *a) == anns,
                anns == program.spec_global_annotations_for(rule.head@[0].predicate@),
                m == annotations@.len(),
                forall|x: int| 0 <= x < anns.len() ==> head_assertion_translatable(#[trigger] anns[x], *head, cache_view(var_cache@)),
                0 <= j <= m,
                outcomes@.len() == j,
                queries@.len() == j,
                valid == forall|i: int| 0 <= i < j ==> #[trigger] outcomes@[i] == SatOutcome::Unsat,
                forall|i: int| 0 <= i < j && #[trigger] outcomes@[i] == SatOutcome::Unsat ==> !satisfiable(queries@[i]@),
                forall|i: int| 0 <= i < j ==> (#[trigger] queries@[i])@ == body@ + seq![SmtTerm::Not(Box::new(
                    head_assertion_term(anns[i], *head, cache_view(var_cache@))))],
            decreases m - j,
        {
            assert(*annotations@[j as int] == anns[j as int]);
            let head_assertion = translator.translate_head_assertion(annotations[j], head, var_cache);
            let mut query = body.clone();
            query.push(SmtTerm::Not(Box::new(head_assertion)));
            assert(query@ =~= body@ + seq![SmtTerm::Not(Box::new(head_assertion_term(anns[j as int], *head, cache_view(var_cache@))))]);
            let outcome = check_sat(&query);
            let ghost before = outcomes@;
            let ghost qbefore = queries@;
            let ghost was_valid = valid;
            valid = keeps_valid(valid, outcome);
            outcomes.push(outcome);
            queries.push(query);
            assert(outcomes@ == before.push(outcome));
            assert(queries@ == qbefore.push(query));
            assert forall|i: int| 0 <= i < j + 1 implies (#[trigger] outcomes@[i]) == (if i < j { before[i] } else { outcome }) by {}
            assert(valid == forall|i: int| 0 <= i < j + 1 ==> #[trigger] outcomes@[i] == SatOutcome::Unsat) by {
                if valid {
                    assert forall|i: int| 0 <= i < j + 1 implies #[trigger] outcomes@[i] == SatOutcome::Unsat by {
                        if i < j { assert(before[i] == SatOutcome::Unsat); }
                    }
                } else if was_valid {
                    assert(outcomes@[j as int] != SatOutcome::Unsat);
                } else {
                    let i = choose|i: int| 0 <= i < j && #[trigger] before[i] != SatOutcome::Unsat;
                    assert(outcomes@[i] != SatOutcome::Unsat);
                }
            }
            j = j + 1;
        }
        RuleCheck { valid, outcomes, queries }
    }

    /// Verifies whether a rule satisfies it's annotations: for each
    /// annotation of its head predicate, the solver decides whether the rule's
    /// operations and the annotations of its body atoms admit an assignment
    /// that violates the annotation of its head
    pub fn verify_rule(&mut self, program: &NormalizedProgram, rule: &NormalizedRule) -> (check: RuleCheck)
        requires
            verifiable_rule(*program, *rule),
            old(self).fresh_var_counter + rule.spec_variables().len() <= usize::MAX,
        ensures
            final(self).fresh_var_counter == old(self).fresh_var_counter + rule.spec_variables().len(),
            final(self).predicate_restrictions == old(self).predicate_restrictions,
            final(self).filter_predicates == old(self).filter_predicates,
            check.outcomes@.len() == program.spec_global_annotations_for(rule.head@[0].predicate@).len(),
            check_answered(check),
            exists|cache: Seq<(Seq<char>, SmtTerm)>| #[trigger] rule_cache(*rule, cache, old(self).fresh_var_counter as nat)
                && forall|i: int| 0 <= i < check.queries@.len() ==> (#[trigger] check.queries@[i])@ == violation_query(
                    *program, *rule, cache, Seq::empty(), program.spec_global_annotations_for(rule.head@[0].predicate@)[i]),
    {
        let ghost start = self.fresh_var_counter;
        let var_cache = create_var_cache(rule, &mut self.fresh_var_counter);
        let ghost cache = cache_view(var_cache@);
        proof { lemma_verifiable_rule(*program, *rule, cache, start as nat); }
        let translator = RuleTranslator::new();
        let (body_operations, body_annotations) = translator.translate_rule(rule, &var_cache, program);
        let mut body = body_operations;
        let mut extra = body_annotations;
        body.append(&mut extra);
        let check = self.check_head_annotations(program, rule, &var_cache, &body);
        proof {
            assert forall|i: int| 0 <= i < check.queries@.len() implies (#[trigger] check.queries@[i])@ == violation_query(
                *program, *rule, cache, Seq::empty(), program.spec_global_annotations_for(rule.head@[0].predicate@)[i]) by {
                let a = program.spec_global_annotations_for(rule.head@[0].predicate@)[i];
                assert(violation_query(*program, *rule, cache, Seq::empty(), a)
                    =~= body@ + seq![SmtTerm::Not(Box::new(head_assertion_term(a, rule.head@[0], cache)))]);
            }
            assert(rule_cache(*rule, cache, start as nat));
        }
        check
    }

    /// Verifies a rule like the function verify_rule, but includes the
    /// restrictions propagated to its body predicates
    pub fn verify_with_restrictions(&mut self, program: &NormalizedProgram, rule: &NormalizedRule) -> (check: RuleCheck)
        requires
            verifiable_rule(*program, *rule),
            old(self).fresh_var_counter + rule.spec_variables().len() <= usize::MAX,
        ensures
            final(self).fresh_var_counter == old(self).fresh_var_counter + rule.spec_variables().len(),
            final(self).predicate_restrictions == old(self).predicate_restrictions,
            final(self).filter_predicates == old(self).filter_predicates,
            check.outcomes@.len() == program.spec_global_annotations_for(rule.head@[0].predicate@).len(),
            check_answered(check),
            exists|cache: Seq<(Seq<char>, SmtTerm)>| #[trigger] rule_cache(*rule, cache, old(self).fresh_var_counter as nat)
                && forall|i: int| 0 <= i < check.queries@.len() ==> (#[trigger] check.queries@[i])@ == violation_query(
                    *program, *rule, cache, body_restriction_terms(old(self).predicate_restrictions@, rule.positive@, cache),
                    program.spec_global_annotations_for(rule.head@[0].predicate@)[i]),
    {
        let ghost start = self.fresh_var_counter;
        let var_cache = create_var_cache(rule, &mut self.fresh_var_counter);
        let ghost cache = cache_view(var_cache@);
        proof {
            lemma_verifiable_rule(*program, *rule, cache, start as nat);
            lemma_rule_cache(*rule, cache, start as nat);
            assert forall|b: int, k: int| 0 <= b < rule.positive@.len() && 0 <= k < rule.positive@[b].terms@.len()
                implies cache_lookup(cache, (#[trigger] rule.positive@[b].terms@[k])@) is Some by {
                lemma_body_atom_variable(rule.positive@, b, k);
                assert(rule.spec_variables().contains(rule.positive@[b].terms@[k]@));
            }
        }
        let translator = RuleTranslator::new();
        let (body_operations, body_annotations) = translator.translate_rule(rule, &var_cache, program);
        let mut body_restrictions = self.get_body_predicate_restrictions(rule, &var_cache);
        let mut body = body_operations;
        let mut extra = body_annotations;
        body.append(&mut extra);
        body.append(&mut body_restrictions);
        let check = self.check_head_annotations(program, rule, &var_cache, &body);
        proof {
            assert forall|i: int| 0 <= i < check.queries@.len() implies (#[trigger] check.queries@[i])@ == violation_query(
                *program, *rule, cache, body_restriction_terms(self.predicate_restrictions@, rule.positive@, cache),
                program.spec_global_annotations_for(rule.head@[0].predicate@)[i]) by {
                let a = program.spec_global_annotations_for(rule.head@[0].predicate@)[i];
                assert(violation_query(*program, *rule, cache, body_restriction_terms(self.predicate_restrictions@, rule.positive@, cache), a)
                    =~= body@ + seq![SmtTerm::Not(Box::new(head_assertion_term(a, rule.head@[0], cache)))]);
            }
            assert(rule_cache(*rule, cache, start as nat));
        }
        check
    }

    /// Verifies whether a fact satisfies the annotations of its predicate:
    /// the outcome of the check of each annotation, in order; an
    /// unsatisfiable check means that the fact violates the annotation
    pub fn verify_facts(&self, fact: &GroundAtom, program: &NormalizedProgram) -> (outcomes: Vec<SatOutcome>)
        requires
            annotations_fit(*program, fact.predicate@, fact.terms@.len()),
        ensures
            outcomes@.len() == program.spec_global_annotations_for(fact.predicate@).len(),
            forall|i: int| 0 <= i < outcomes@.len() && #[trigger] outcomes@[i] == SatOutcome::Unsat ==> !satisfiable(
                seq![ground_assertion_term(program.spec_global_annotations_for(fact.predicate@)[i], *fact)]),
    {
        let ghost anns = program.spec_global_annotations_for(fact.predicate@);
        let translator = RuleTranslator::new();
        let annotations = program.predicate_to_global_annotation(&fact.predicate());
        let mut outcomes: Vec<SatOutcome> = Vec::new();
        let m = annotations.len();
        let mut j: usize = 0;
        while j < m
            invariant
                annotations@.map_values(|a: &NormalizedGlobalAnnotation| *a) == anns,
                anns == program.spec_global_annotations_for(fact.predicate@),
                annotations_fit(*program, fact.predicate@, fact.terms@.len()),
                m == annotations@.len(),
                0 <= j <= m,
                outcomes@.len() == j,
                forall|i: int| 0 <= i < j && #[trigger] outcomes@[i] == SatOutcome::Unsat ==> !satisfiable(
                    seq![ground_assertion_term(anns[i], *fact)]),
            decreases m - j,
        {
            let annotation = annotations[j];
            assert(*annotation == anns[j as int]);
            proof {
                assert(annotation_fits(anns[j as int], fact.terms@.len()));
                let sub = ground_substitution(annotation.head.terms@, *fact);
                assert forall|k: int| 0 <= k < sub.len() implies (#[trigger] sub[k]).0 == annotation.head.terms@[k]@ && int_term(sub[k].1) by {}
                lemma_full_substitution(annotation.head.terms@, sub);
                lemma_bool_operations(annotation.body@, variable_names(annotation.head.terms@).to_set(), sub);
            }
            let assertion = translator.translate_ground_assertion(annotation, fact);
            let mut query: Vec<SmtTerm> = Vec::new();
            query.push(assertion);
            assert(query@ =~= seq![ground_assertion_term(anns[j as int], *fact)]);
            let outcome = check_sat(&query);
            outcomes.push(outcome);
            j = j + 1;
        }
        outcomes
    }
}

/// Replacing the restriction of an entry keeps the restrictions of the other
/// predicates, and gives its predicate the new one if the entry was its first.
proof fn lemma_restriction_update(entries: Seq<(Tag, Restriction)>, k: int, r: Restriction, t: Seq<char>)
    requires
        0 <= k < entries.len(),
    ensures
        t != entries[k].0@ ==> restriction_of(entries.update(k, (entries[k].0, r)), t) == restriction_of(entries, t),
        t == entries[k].0@ && restriction_of(entries, t) == Some(entries[k].1) && (forall|j: int| 0 <= j < k ==> (#[trigger] entries[j]).0@ != t)
            ==> restriction_of(entries.update(k, (entries[k].0, r)), t) == Some(r),
    decreases entries.len(),
{
    let updated = entries.update(k, (entries[k].0, r));
    assert(updated.len() == entries.len());
    if k == 0 {
        assert(updated.subrange(1, updated.len() as int) =~= entries.subrange(1, entries.len() as int));
    } else {
        let tail = entries.subrange(1, entries.len() as int);
        assert(updated.subrange(1, updated.len() as int) =~= tail.update(k - 1, (tail[k - 1].0, r)));
        assert(updated[0] == entries[0]);
        lemma_restriction_update(tail, k - 1, r, t);
        if t == entries[k].0@ && (forall|j: int| 0 <= j < k ==> (#[trigger] entries[j]).0@ != t) {
            assert(entries[0].0@ != t);
            assert forall|j: int| 0 <= j < k - 1 implies (#[trigger] tail[j]).0@ != t by {
                assert(tail[j] == entries[j + 1]);
            }
        }
    }
}

/// Appending an entry keeps the restrictions of the predicates that have
/// one, and gives its predicate the new one if it had none.
proof fn lemma_restriction_push(entries: Seq<(Tag, Restriction)>, tag: Tag, r: Restriction, t: Seq<char>)
    ensures
        restriction_of(entries, t) is Some ==> restriction_of(entries.push((tag, r)), t) == restriction_of(entries, t),
        restriction_of(entries, t) is None && t != tag@ ==> restriction_of(entries.push((tag, r)), t) is None,
        restriction_of(entries, t) is None && t == tag@ ==> restriction_of(entries.push((tag, r)), t) == Some(r),
    decreases entries.len(),
{
    let pushed = entries.push((tag, r));
    if entries.len() > 0 {
        let tail = entries.subrange(1, entries.len() as int);
        assert(pushed.subrange(1, pushed.len() as int) =~= tail.push((tag, r)));
        assert(pushed[0] == entries[0]);
        lemma_restriction_push(tail, tag, r, t);
    } else {
        assert(pushed.subrange(1, pushed.len() as int) =~= Seq::<(Tag, Restriction)>::empty());
        assert(restriction_of(Seq::<(Tag, Restriction)>::empty(), t) is None);
    }
}

impl RuleVerifier {
    /// Propagates filter expressions through the program: each filter of the
    /// verifier applied to a head term is kept if the solver finds that the
    /// rule's body entails it, and the conjunction of the kept ones is added
    /// to the restriction of the head predicate (a new restriction if it has
    /// none). Returns true if the restrictions changed.
    pub fn forward_propagation(&mut self, program: &NormalizedProgram, rule: &NormalizedRule) -> (delta: bool)
        requires
            verifiable_rule(*program, *rule),
            old(self).fresh_var_counter + rule.spec_variables().len() + rule.head@[0].terms@.len() <= usize::MAX,
            forall|i: int| 0 <= i < old(self).filter_predicates@.len() ==> well_formed_filter(#[trigger] old(self).filter_predicates@[i]),
        ensures
            final(self).fresh_var_counter == old(self).fresh_var_counter + rule.spec_variables().len() + (if restriction_of(
                old(self).predicate_restrictions@, rule.head@[0].predicate@) is None { rule.head@[0].terms@.len() } else { 0 }),
            final(self).filter_predicates == old(self).filter_predicates,
            forall|t: Seq<char>| t != rule.head@[0].predicate@ ==> #[trigger] restriction_of(final(self).predicate_restrictions@, t)
                == restriction_of(old(self).predicate_restrictions@, t),
            exists|cache: Seq<(Seq<char>, SmtTerm)>, outcomes: Seq<SatOutcome>| {
                &&& #[trigger] rule_cache(*rule, cache, old(self).fresh_var_counter as nat)
                &&& #[trigger] entailment_outcomes(body_query(*program, *rule, cache, body_restriction_terms(old(self).predicate_restrictions@,
                    rule.positive@, cache)), head_filter_candidates(old(self).filter_predicates@, rule.head@[0].terms@, cache), outcomes)
                &&& propagated(restriction_of(old(self).predicate_restrictions@, rule.head@[0].predicate@),
                    restriction_of(final(self).predicate_restrictions@, rule.head@[0].predicate@), rule.head@[0], cache,
                    (old(self).fresh_var_counter + rule.spec_variables().len()) as nat,
                    conjunction(kept_candidates(head_filter_candidates(old(self).filter_predicates@, rule.head@[0].terms@, cache),
                    outcomes)), delta)
            },
    {
        let ghost start = self.fresh_var_counter;
        let ghost old_entries = self.predicate_restrictions@;
        let var_cache = create_var_cache(rule, &mut self.fresh_var_counter);
        let ghost cache = cache_view(var_cache@);
        proof {
            lemma_verifiable_rule(*program, *rule, cache, start as nat);
            lemma_rule_cache(*rule, cache, start as nat);
            assert forall|b: int, k: int| 0 <= b < rule.positive@.len() && 0 <= k < rule.positive@[b].terms@.len()
                implies cache_lookup(cache, (#[trigger] rule.positive@[b].terms@[k])@) is Some by {
                lemma_body_atom_variable(rule.positive@, b, k);
                assert(rule.spec_variables().contains(rule.positive@[b].terms@[k]@));
            }
        }
        let translator = RuleTranslator::new();
        let (body_operations, body_annotations) = translator.translate_rule(rule, &var_cache, program);
        let mut body_restrictions = self.get_body_predicate_restrictions(rule, &var_cache);
        let mut body = body_operations;
        let mut extra = body_annotations;
        body.append(&mut extra);
        body.append(&mut body_restrictions);
        let head = &rule.head[0];
        proof {
            assert forall|k: int| 0 <= k < head.terms@.len() implies ((#[trigger] head.terms@[k])@ matches PrimitiveView::Variable(v)
                ==> (cache_lookup(cache, v) matches Some(t) && t is Var)) by {
                lemma_head_atom_variable(rule.head@, 0, k);
                match head.terms@[k]@ {
                    PrimitiveView::Variable(v) => {
                        assert(rule.spec_variables().contains(v));
                        z3_translation::lemma_lookup_entry(cache, v);
                        let i = choose|i: int| 0 <= i < cache.len() && #[trigger] cache[i] == (v, cache_lookup(cache, v).unwrap());
                        assert(cache[i].1 == SmtTerm::Var((start + i) as usize));
                    },
                    PrimitiveView::Ground(_) => {},
                }
            }
        }
        let ghost query_body = body_query(*program, *rule, cache, body_restriction_terms(old_entries, rule.positive@, cache));
        assert(body@ =~= query_body);
        let ghost filters = self.filter_predicates@;
        let mut head_filters: Vec<SmtTerm> = Vec::new();
        let ghost mut outcomes: Seq<SatOutcome> = Seq::empty();
        let nf = self.filter_predicates.len();
        let mut fi: usize = 0;
        assert(filters.take(0) =~= Seq::<Filter>::empty());
        while fi < nf
            invariant
                nf == self.filter_predicates@.len(),
                filters == self.filter_predicates@,
                forall|i: int| 0 <= i < self.filter_predicates@.len() ==> well_formed_filter(#[trigger] self.filter_predicates@[i]),
                head == &rule.head@[0],
                cache == cache_view(var_cache@),
                head_constants(head.terms@, cache),
                int_cache(cache),
                body@ == query_body,
                0 <= fi <= nf,
                entailment_outcomes(query_body, head_filter_candidates(filters.take(fi as int), head.terms@, cache), outcomes),
                head_filters@ == kept_candidates(head_filter_candidates(filters.take(fi as int), head.terms@, cache), outcomes),
            decreases nf - fi,
        {
            let filter = &self.filter_predicates[fi];
            let ghost done = head_filter_candidates(filters.take(fi as int), head.terms@, cache);
            let nt = head.terms.len();
            let mut ti: usize = 0;
            assert(done + filter_candidates(*filter, head.terms@.take(0), cache) =~= done);
            while ti < nt
                invariant
                    nt == head.terms@.len(),
                    filter == &self.filter_predicates@[fi as int],
                    well_formed_filter(*filter),
                    head == &rule.head@[0],
                    cache == cache_view(var_cache@),
                    head_constants(head.terms@, cache),
                    int_cache(cache),
                    body@ == query_body,
                    0 <= ti <= nt,
                    entailment_outcomes(query_body, done + filter_candidates(*filter, head.terms@.take(ti as int), cache), outcomes),
                    head_filters@ == kept_candidates(done + filter_candidates(*filter, head.terms@.take(ti as int), cache), outcomes),
                decreases nt - ti,
            {
                let term = &head.terms[ti];
                proof {
                    let v = filter_variable(filter.filter_operation);
                    let value = primitive_term(term@, cache);
                    assert(head.terms@[ti as int]@ matches PrimitiveView::Variable(w) ==> (cache_lookup(cache, w) matches Some(t) && t is Var));
                    assert(int_term(value)) by {
                        match term@ {
                            PrimitiveView::Variable(w) => { lemma_lookup_int(cache, w); },
                            PrimitiveView::Ground(_) => {},
                        }
                    }
                    let single = seq![(v, value)];
                    assert(registered(single, set![v])) by {
                        assert forall|n: Seq<char>| #[trigger] set![v].contains(n) implies cache_lookup(single, n) is Some by {
                            lemma_lookup_present(single, 0);
                        }
                    }
                    lemma_bool_operation(filter.filter_operation, set![v], single);
                }
                let filter_head = filter.get_filter(term, &var_cache);
                let ghost before = done + filter_candidates(*filter, head.terms@.take(ti as int), cache);
                let ghost after = done + filter_candidates(*filter, head.terms@.take(ti + 1), cache);
                assert(after =~= before.push(filter_head));
                let mut query = body.clone();
                query.push(SmtTerm::Not(Box::new(filter_head.clone())));
                let outcome = check_sat(&query);
                let ghost prev_outcomes = outcomes;
                match outcome {
                    SatOutcome::Unsat => head_filters.push(filter_head),
                    _ => {},
                }
                proof {
                    outcomes = outcomes.push(outcome);
                    assert(outcomes.drop_last() =~= prev_outcomes);
                    assert(after.drop_last() =~= before);
                    assert(query@ =~= query_body.push(SmtTerm::Not(Box::new(after[after.len() - 1]))));
                    assert forall|k: int| 0 <= k < outcomes.len() && #[trigger] outcomes[k] == SatOutcome::Unsat
                        implies !satisfiable(query_body.push(SmtTerm::Not(Box::new(after[k])))) by {
                        if k < prev_outcomes.len() {
                            assert(outcomes[k] == prev_outcomes[k]);
                            assert(after[k] == before[k]);
                        }
                    }
                }
                ti = ti + 1;
            }
            proof {
                assert(head.terms@.take(nt as int) =~= head.terms@);
                assert(filters.take(fi + 1).drop_last() =~= filters.take(fi as int));
                assert(filters.take(fi + 1).last() == *filter);
            }
            fi = fi + 1;
        }
        assert(filters.take(nf as int) =~= filters);
        let head_res = conjoin(&head_filters);
        let delta;
        match find_restriction(&self.predicate_restrictions, &head.predicate) {
            Some(k) => {
                let ghost before = self.predicate_restrictions@;
                let (tag, mut res) = self.predicate_restrictions.remove(k);
                let changed = res.add_restriction_from_propagation(head, &var_cache, &head_res);
                self.predicate_restrictions.insert(k, (tag, res));
                proof {
                    assert(self.predicate_restrictions@ =~= before.update(k as int, (before[k as int].0, res)));
                    assert forall|t: Seq<char>| t != rule.head@[0].predicate@ implies #[trigger] restriction_of(self.predicate_restrictions@, t)
                        == restriction_of(old_entries, t) by {
                        lemma_restriction_update(before, k as int, res, t);
                    }
                    lemma_restriction_update(before, k as int, res, head.predicate@);
                    assert(restriction_of(old_entries, head.predicate@) == Some(before[k as int].1));
                    assert(restriction_of(self.predicate_restrictions@, head.predicate@) == Some(res));
                    if changed {
                        assert(res.restrictions@.len() != before[k as int].1.restrictions@.len());
                    }
                    assert(propagated(restriction_of(old_entries, head.predicate@), restriction_of(self.predicate_restrictions@,
                        head.predicate@), *head, cache, (start + rule.spec_variables().len()) as nat, head_res, changed));
                }
                delta = changed;
            },
            None => {
                let ghost before = self.predicate_restrictions@;
                let res = Restriction::new_from_propagation(head, &var_cache, &head_res, &mut self.fresh_var_counter);
                let tag = head.predicate();
                self.predicate_restrictions.push((tag, res));
                proof {
                    assert forall|t: Seq<char>| t != rule.head@[0].predicate@ implies #[trigger] restriction_of(self.predicate_restrictions@, t)
                        == restriction_of(old_entries, t) by {
                        lemma_restriction_push(before, tag, res, t);
                    }
                    lemma_restriction_push(before, tag, res, head.predicate@);
                    assert(propagated(restriction_of(old_entries, head.predicate@), restriction_of(self.predicate_restrictions@,
                        head.predicate@), *head, cache, (start + rule.spec_variables().len()) as nat, head_res, true));
                }
                delta = true;
            },
        }
        proof {
            assert(rule_cache(*rule, cache, start as nat));
            assert(entailment_outcomes(query_body, head_filter_candidates(filters, head.terms@, cache), outcomes));
        }
        delta
    }
}


} // verus!
