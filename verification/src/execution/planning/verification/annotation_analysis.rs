//! This module defines [AnnotationAnalyzer]

use vstd::prelude::*;

pub mod analysis_report;
pub mod graph_algorithms;
pub mod propagation_graph;
pub mod rule_selection;

use crate::execution::planning::normalization::atom::GroundAtom;
use crate::execution::planning::normalization::global_annotation::NormalizedGlobalAnnotation;
use crate::execution::planning::normalization::program::{contains_tag, rules_head_predicates, tag_views, NormalizedProgram};
use crate::execution::planning::normalization::rule::NormalizedRule;
use crate::execution::planning::verification::rule_verification::z3_translation::ground_assertion_term;
use crate::execution::planning::verification::edb_analysis::{
    analyzable_program, edb_analysis, lemma_sccs_closure_views, EdbAnalyzer,
};
use crate::execution::planning::verification::rule_verification::z3_restriction::Restriction;
use crate::execution::planning::verification::rule_verification::{
    annotations_fit, body_restriction_terms, check_answered, rule_cache, verifiable_rule, violation_query, RuleCheck, RuleVerifier,
};
use crate::execution::planning::verification::termination_verification::{
    scc_composable, scc_outcome, scc_searchable, outcome_shows_termination, shows_termination, SccTermination, TerminationVerifier,
};
use crate::rule_model::components::tag::Tag;
use crate::execution::planning::verification::smt::{satisfiable, SatOutcome, SmtTerm};

use self::graph_algorithms::partitions;
use self::rule_selection::{deref_rules, is_dependency_graph, topologically_ordered_sccs, RuleAnalysisGraph};

verus! {

/// The rule indices of the components, component after component.
pub open spec fn scc_order(sccs: Seq<Vec<usize>>) -> Seq<usize>
    decreases sccs.len(),
{
    if sccs.len() == 0 {
        Seq::empty()
    } else {
        scc_order(sccs.drop_last()) + sccs.last()@
    }
}

/// The fresh constants that the checks of a rule may take: twice its
/// variables and the positions of its first head atom.
pub open spec fn rule_budget(rule: NormalizedRule) -> nat {
    2 * rule.spec_variables().len() + if rule.head@.len() > 0 { rule.head@[0].terms@.len() } else { 0 }
}

/// The fresh constants that the checks of the rules with the given indices may take.
pub open spec fn indices_budget(rules: Seq<NormalizedRule>, indices: Seq<usize>) -> nat
    decreases indices.len(),
{
    if indices.len() == 0 {
        0
    } else {
        indices_budget(rules, indices.drop_last()) + rule_budget(rules[indices.last() as int])
    }
}

/// The fresh constants that the checks of the rules of the components may take.
pub open spec fn sccs_budget(rules: Seq<NormalizedRule>, sccs: Seq<Vec<usize>>) -> nat
    decreases sccs.len(),
{
    if sccs.len() == 0 {
        0
    } else {
        sccs_budget(rules, sccs.drop_last()) + indices_budget(rules, sccs.last()@)
    }
}

/// The rule indices of the checks.
pub open spec fn checked_indices(checks: Seq<(usize, RuleCheck)>) -> Seq<usize> {
    checks.map_values(|c: (usize, RuleCheck)| c.0)
}

/// Whether the outcomes are those of the checks of the fact against the
/// annotations of its predicate: an unsatisfiable check means that the fact
/// violates the annotation.
pub open spec fn fact_outcomes(program: NormalizedProgram, fact: GroundAtom, outcomes: Seq<SatOutcome>) -> bool {
    &&& outcomes.len() == program.spec_global_annotations_for(fact.predicate@).len()
    &&& forall|i: int| 0 <= i < outcomes.len() && #[trigger] outcomes[i] == SatOutcome::Unsat ==> !satisfiable(
        seq![ground_assertion_term(program.spec_global_annotations_for(fact.predicate@)[i], fact)])
}

/// Whether the check of the rule holds an outcome for each annotation of its
/// head predicate, is valid when all of them are unsatisfiable, and the
/// query of each annotation is the violation query of the rule over some
/// fresh constants for its variables.
pub open spec fn rule_checked(program: NormalizedProgram, rule: NormalizedRule, check: RuleCheck) -> bool {
    &&& check.outcomes@.len() == program.spec_global_annotations_for(rule.head@[0].predicate@).len()
    &&& check_answered(check)
    &&& exists|cache: Seq<(Seq<char>, SmtTerm)>, start: nat| #[trigger] rule_cache(rule, cache, start)
        && forall|i: int| 0 <= i < check.queries@.len() ==> (#[trigger] check.queries@[i])@ == violation_query(program,
        rule, cache, Seq::empty(), program.spec_global_annotations_for(rule.head@[0].predicate@)[i])
}

/// A valid check of a rule shows that, over some fresh constants for its
/// variables, no assignment satisfies the rule and violates an annotation of
/// its head predicate.
pub proof fn lemma_valid_check_holds(program: NormalizedProgram, rule: NormalizedRule, check: RuleCheck)
    requires
        rule_checked(program, rule, check),
        check.valid,
    ensures
        exists|cache: Seq<(Seq<char>, SmtTerm)>, start: nat| #[trigger] rule_cache(rule, cache, start)
            && forall|i: int| 0 <= i < program.spec_global_annotations_for(rule.head@[0].predicate@).len()
            ==> !satisfiable(violation_query(program, rule, cache, Seq::empty(),
            #[trigger] program.spec_global_annotations_for(rule.head@[0].predicate@)[i])),
{
    let anns = program.spec_global_annotations_for(rule.head@[0].predicate@);
    let (cache, start) = choose|cache: Seq<(Seq<char>, SmtTerm)>, start: nat| #[trigger] rule_cache(rule, cache, start)
        && forall|i: int| 0 <= i < check.queries@.len() ==> (#[trigger] check.queries@[i])@ == violation_query(program,
        rule, cache, Seq::empty(), anns[i]);
    assert forall|i: int| 0 <= i < anns.len() implies !satisfiable(violation_query(program, rule, cache, Seq::empty(),
        #[trigger] anns[i])) by {
        assert(check.outcomes@[i] == SatOutcome::Unsat);
        assert(check.queries@[i]@ == violation_query(program, rule, cache, Seq::empty(), anns[i]));
    }
}

/// Whether the check of the rule holds an outcome for each annotation of its
/// head predicate, is valid when all of them are unsatisfiable, and the
/// query of each annotation is the violation query of the rule over some
/// fresh constants for its variables and under some restrictions of its
/// body predicates.
pub open spec fn rule_checked_with_restrictions(program: NormalizedProgram, rule: NormalizedRule, check: RuleCheck) -> bool {
    &&& check.outcomes@.len() == program.spec_global_annotations_for(rule.head@[0].predicate@).len()
    &&& check_answered(check)
    &&& exists|cache: Seq<(Seq<char>, SmtTerm)>, start: nat, entries: Seq<(Tag, Restriction)>|
        #![trigger rule_cache(rule, cache, start), body_restriction_terms(entries, rule.positive@, cache)]
        rule_cache(rule, cache, start) && forall|i: int| 0 <= i < check.queries@.len()
        ==> (#[trigger] check.queries@[i])@ == violation_query(program, rule, cache,
        body_restriction_terms(entries, rule.positive@, cache), program.spec_global_annotations_for(rule.head@[0].predicate@)[i])
}

/// The index sequences of the components that the termination check
/// examines: all but those of a single rule that is not recursive.
pub open spec fn examined_sccs(rules: Seq<NormalizedRule>, sccs: Seq<Vec<usize>>) -> Seq<Seq<usize>>
    decreases sccs.len(),
{
    if sccs.len() == 0 {
        Seq::empty()
    } else {
        let rest = examined_sccs(rules, sccs.drop_last());
        let c = sccs.last()@;
        if c.len() == 1 && !rules[c[0] as int].spec_is_recursive() {
            rest
        } else {
            rest.push(c)
        }
    }
}

/// The checks of a program's annotations.
#[derive(Debug)]
pub struct AnnotationCheck {
    /// The outcomes of the checks of each fact against the annotations of its predicate
    pub facts: Vec<Vec<SatOutcome>>,
    /// The checked rules by index, in the order of their components
    pub rules: Vec<(usize, RuleCheck)>,
    /// Whether no check of a rule found a possible violation
    pub valid: bool,
}

/// The budget of a prefix of the indices stays within that of all of them.
proof fn lemma_indices_budget_prefix(rules: Seq<NormalizedRule>, indices: Seq<usize>, j: int)
    requires
        0 <= j <= indices.len(),
    ensures
        indices_budget(rules, indices.take(j)) <= indices_budget(rules, indices),
    decreases indices.len() - j,
{
    if j < indices.len() {
        lemma_indices_budget_prefix(rules, indices, j + 1);
        assert(indices.take(j + 1).drop_last() =~= indices.take(j));
    } else {
        assert(indices.take(j) =~= indices);
    }
}

/// The budget of a prefix of the components stays within that of all of them.
proof fn lemma_sccs_budget_prefix(rules: Seq<NormalizedRule>, sccs: Seq<Vec<usize>>, i: int)
    requires
        0 <= i <= sccs.len(),
    ensures
        sccs_budget(rules, sccs.take(i)) <= sccs_budget(rules, sccs),
    decreases sccs.len() - i,
{
    if i < sccs.len() {
        lemma_sccs_budget_prefix(rules, sccs, i + 1);
        assert(sccs.take(i + 1).drop_last() =~= sccs.take(i));
    } else {
        assert(sccs.take(i) =~= sccs);
    }
}

/// The checks from `lo` of a sequence that extends another are all valid
/// exactly when those from `lo` of the other and the added ones are.
proof fn lemma_valid_ranges(before: Seq<(usize, RuleCheck)>, after: Seq<(usize, RuleCheck)>, lo: int)
    requires
        0 <= lo <= before.len() <= after.len(),
        forall|k: int| 0 <= k < before.len() ==> #[trigger] after[k] == before[k],
    ensures
        (forall|k: int| lo <= k < after.len() ==> (#[trigger] after[k]).1.valid) == ((forall|k: int| lo <= k < before.len()
            ==> (#[trigger] before[k]).1.valid) && (forall|k: int| before.len() <= k < after.len() ==> (#[trigger] after[k]).1.valid)),
{
    if forall|k: int| lo <= k < after.len() ==> (#[trigger] after[k]).1.valid {
        assert forall|k: int| lo <= k < before.len() implies (#[trigger] before[k]).1.valid by {
            assert(after[k] == before[k]);
        }
    }
    if (forall|k: int| lo <= k < before.len() ==> (#[trigger] before[k]).1.valid) && (forall|k: int| before.len() <= k
        < after.len() ==> (#[trigger] after[k]).1.valid) {
        assert forall|k: int| lo <= k < after.len() implies (#[trigger] after[k]).1.valid by {
            if k < before.len() {
                assert(after[k] == before[k]);
            }
        }
    }
}

/// Analyzes the given annotations
#[derive(Debug)]
pub struct AnnotationAnalyzer {
    /// The program to be analyzed
    pub program: NormalizedProgram,
    /// The rule graph of the program
    pub rule_graph: RuleAnalysisGraph,
}

impl AnnotationAnalyzer {
    /// Whether the rule graph lists the strongly connected components of the
    /// positive dependency graph of the program's rules, in topological order,
    /// and there are no more of them than rules.
    pub open spec fn well_formed(&self) -> bool {
        &&& exists|edges: Seq<(usize, usize)>| #[trigger] is_dependency_graph(self.program.rules@, edges)
            && topologically_ordered_sccs(self.program.rules@.len(), edges, self.rule_graph.spec_sccs())
        &&& self.rule_graph.spec_sccs().len() <= self.program.rules@.len()
    }

    /// The components list rule indices.
    proof fn lemma_sccs_within(&self)
        requires
            self.well_formed(),
        ensures
            forall|c: int, k: int| 0 <= c < self.rule_graph.spec_sccs().len() && 0 <= k < self.rule_graph.spec_sccs()[c]@.len()
                ==> #[trigger] self.rule_graph.spec_sccs()[c]@[k] < self.program.rules@.len(),
    {
        let edges = choose|edges: Seq<(usize, usize)>| #[trigger] is_dependency_graph(self.program.rules@, edges)
            && topologically_ordered_sccs(self.program.rules@.len(), edges, self.rule_graph.spec_sccs());
        assert(partitions(self.program.rules@.len(), self.rule_graph.spec_sccs()));
    }

    /// Create a new [AnnotationAnalyzer]
    pub fn new(program: NormalizedProgram) -> (analyzer: Self)
        ensures
            analyzer.program == program,
            analyzer.well_formed(),
            analyzer.rule_graph.spec_index() == 0,
    {
        let mut refs: Vec<&NormalizedRule> = Vec::new();
        let n = program.rules.len();
        let mut i: usize = 0;
        while i < n
            invariant
                n == program.rules@.len(),
                0 <= i <= n,
                deref_rules(refs@) == program.rules@.take(i as int),
            decreases n - i,
        {
            let ghost before = refs@;
            refs.push(&program.rules[i]);
            assert(deref_rules(refs@) =~= deref_rules(before).push(program.rules@[i as int]));
            assert(deref_rules(refs@) =~= program.rules@.take(i + 1));
            i = i + 1;
        }
        assert(program.rules@.take(n as int) =~= program.rules@);
        let rule_graph = RuleAnalysisGraph::new(refs);
        AnnotationAnalyzer { program, rule_graph }
    }

    /// Return the underlying program
    pub fn program(&self) -> (program: &NormalizedProgram)
        ensures
            program == &self.program,
    {
        &self.program
    }

    /// Gets the annotations for all edb predicates in the program: those
    /// whose predicate is in no rule head
    pub fn edb_annotations(program: &NormalizedProgram) -> (annotations: Vec<&NormalizedGlobalAnnotation>)
        ensures
            annotations@.map_values(|a: &NormalizedGlobalAnnotation| *a) == program.global_annotations@.filter(
                |a: NormalizedGlobalAnnotation| !rules_head_predicates(program.rules@).contains(a.head.predicate@)),
    {
        let derived = program.derived_predicates();
        let ghost heads = rules_head_predicates(program.rules@);
        let mut result: Vec<&NormalizedGlobalAnnotation> = Vec::new();
        let n = program.global_annotations.len();
        let mut i: usize = 0;
        while i < n
            invariant
                n == program.global_annotations@.len(),
                tag_views(derived@).to_set() == heads,
                heads == rules_head_predicates(program.rules@),
                0 <= i <= n,
                result@.map_values(|a: &NormalizedGlobalAnnotation| *a) == program.global_annotations@.take(i as int).filter(
                    |a: NormalizedGlobalAnnotation| !rules_head_predicates(program.rules@).contains(a.head.predicate@)),
            decreases n - i,
        {
            proof {
                reveal_with_fuel(Seq::<_>::filter, 1);
            }
            assert(program.global_annotations@.take(i + 1).drop_last() =~= program.global_annotations@.take(i as int));
            let ghost before = result@;
            let annotation = &program.global_annotations[i];
            let derived_head = contains_tag(&derived, &annotation.head.predicate);
            assert(derived_head == heads.contains(annotation.head.predicate@));
            if !derived_head {
                result.push(annotation);
                assert(result@.map_values(|a: &NormalizedGlobalAnnotation| *a) =~= before.map_values(
                    |a: &NormalizedGlobalAnnotation| *a).push(program.global_annotations@[i as int]));
            }
            i = i + 1;
        }
        assert(program.global_annotations@.take(n as int) =~= program.global_annotations@);
        result
    }
}

/// Checks each fact of the program against the annotations of its predicate.
fn check_facts(verifier: &RuleVerifier, program: &NormalizedProgram) -> (outcomes: Vec<Vec<SatOutcome>>)
    requires
        forall|i: int| 0 <= i < program.facts@.len() ==> annotations_fit(*program, (#[trigger] program.facts@[i]).predicate@,
            program.facts@[i].terms@.len()),
    ensures
        outcomes@.len() == program.facts@.len(),
        forall|i: int| 0 <= i < outcomes@.len() ==> fact_outcomes(*program, program.facts@[i], #[trigger] outcomes@[i]@),
{
    let mut outcomes: Vec<Vec<SatOutcome>> = Vec::new();
    let n = program.facts.len();
    let mut i: usize = 0;
    while i < n
        invariant
            n == program.facts@.len(),
            forall|i: int| 0 <= i < program.facts@.len() ==> annotations_fit(*program, (#[trigger] program.facts@[i]).predicate@,
                program.facts@[i].terms@.len()),
            0 <= i <= n,
            outcomes@.len() == i,
            forall|k: int| 0 <= k < i ==> fact_outcomes(*program, program.facts@[k], #[trigger] outcomes@[k]@),
        decreases n - i,
    {
        let fact_outcome = verifier.verify_facts(&program.facts[i], program);
        outcomes.push(fact_outcome);
        i = i + 1;
    }
    outcomes
}

/// Verifies the rules with the given indices, in order, against the
/// annotations of their head predicates.
fn verify_scc_rules(program: &NormalizedProgram, verifier: &mut RuleVerifier, scc: &Vec<usize>,
    checks: &mut Vec<(usize, RuleCheck)>, valid: &mut bool)
    requires
        forall|k: int| 0 <= k < scc@.len() ==> #[trigger] scc@[k] < program.rules@.len()
            && verifiable_rule(*program, program.rules@[scc@[k] as int]),
        old(verifier).fresh_var_counter + indices_budget(program.rules@, scc@) <= usize::MAX,
    ensures
        final(verifier).fresh_var_counter <= old(verifier).fresh_var_counter + indices_budget(program.rules@, scc@),
        final(checks)@.len() == old(checks)@.len() + scc@.len(),
        checked_indices(final(checks)@) == checked_indices(old(checks)@) + scc@,
        forall|k: int| 0 <= k < old(checks)@.len() ==> #[trigger] final(checks)@[k] == old(checks)@[k],
        forall|k: int| old(checks)@.len() <= k < final(checks)@.len() ==> rule_checked(*program,
            program.rules@[(#[trigger] final(checks)@[k]).0 as int], final(checks)@[k].1),
        *final(valid) == (*old(valid) && forall|k: int| old(checks)@.len() <= k < final(checks)@.len()
            ==> (#[trigger] final(checks)@[k]).1.valid),
{
    let ghost start = verifier.fresh_var_counter;
    let ghost checks0 = checks@;
    let ghost valid0 = *valid;
    let ghost rules = program.rules@;
    let n = scc.len();
    let mut j: usize = 0;
    while j < n
        invariant
            n == scc@.len(),
            rules == program.rules@,
            forall|k: int| 0 <= k < scc@.len() ==> #[trigger] scc@[k] < rules.len() && verifiable_rule(*program,
                rules[scc@[k] as int]),
            start + indices_budget(rules, scc@) <= usize::MAX,
            0 <= j <= n,
            verifier.fresh_var_counter <= start + indices_budget(rules, scc@.take(j as int)),
            checks@.len() == checks0.len() + j,
            checked_indices(checks@) == checked_indices(checks0) + scc@.take(j as int),
            forall|k: int| 0 <= k < checks0.len() ==> #[trigger] checks@[k] == checks0[k],
            forall|k: int| checks0.len() <= k < checks@.len() ==> rule_checked(*program, rules[(#[trigger] checks@[k]).0 as int],
                checks@[k].1),
            *valid == (valid0 && forall|k: int| checks0.len() <= k < checks@.len() ==> (#[trigger] checks@[k]).1.valid),
        decreases n - j,
    {
        let idx = scc[j];
        proof {
            assert(scc@.take(j + 1).drop_last() =~= scc@.take(j as int));
            lemma_indices_budget_prefix(rules, scc@, j + 1);
        }
        let rule = &program.rules[idx];
        let ghost counter = verifier.fresh_var_counter;
        let check = verifier.verify_rule(program, rule);
        proof {
            assert(rule_checked(*program, *rule, check)) by {
                let cache = choose|cache: Seq<(Seq<char>, SmtTerm)>| #[trigger] rule_cache(*rule, cache, counter as nat)
                    && forall|i: int| 0 <= i < check.outcomes@.len() && #[trigger] check.outcomes@[i] == SatOutcome::Unsat
                    ==> !satisfiable(violation_query(*program, *rule, cache, Seq::empty(),
                    program.spec_global_annotations_for(rule.head@[0].predicate@)[i]));
                assert(rule_cache(*rule, cache, counter as nat));
            }
        }
        let ghost before = checks@;
        let check_valid = check.valid;
        let ghost entry = (idx, check);
        *valid = check_valid && *valid;
        checks.push((idx, check));
        proof {
            assert(checks@ == before.push(entry));
            assert(checks@[before.len() as int].1.valid == check_valid);
            lemma_valid_ranges(before, checks@, checks0.len() as int);
            assert(checked_indices(checks@) =~= checked_indices(before).push(idx));
            assert(checked_indices(checks@) =~= checked_indices(checks0) + scc@.take(j + 1));
        }
        j = j + 1;
    }
    assert(scc@.take(n as int) =~= scc@);
}

/// Verifies the rules with the given indices, in order, against the
/// annotations of their head predicates, with the restrictions of their body
/// predicates.
fn verify_scc_with_restrictions(program: &NormalizedProgram, verifier: &mut RuleVerifier, scc: &Vec<usize>,
    checks: &mut Vec<(usize, RuleCheck)>, valid: &mut bool)
    requires
        forall|k: int| 0 <= k < scc@.len() ==> #[trigger] scc@[k] < program.rules@.len()
            && verifiable_rule(*program, program.rules@[scc@[k] as int]),
        old(verifier).fresh_var_counter + indices_budget(program.rules@, scc@) <= usize::MAX,
    ensures
        final(verifier).fresh_var_counter <= old(verifier).fresh_var_counter + indices_budget(program.rules@, scc@),
        final(verifier).filter_predicates == old(verifier).filter_predicates,
        final(checks)@.len() == old(checks)@.len() + scc@.len(),
        checked_indices(final(checks)@) == checked_indices(old(checks)@) + scc@,
        forall|k: int| 0 <= k < old(checks)@.len() ==> #[trigger] final(checks)@[k] == old(checks)@[k],
        forall|k: int| old(checks)@.len() <= k < final(checks)@.len() ==> rule_checked_with_restrictions(*program,
            program.rules@[(#[trigger] final(checks)@[k]).0 as int], final(checks)@[k].1),
        *final(valid) == (*old(valid) && forall|k: int| old(checks)@.len() <= k < final(checks)@.len()
            ==> (#[trigger] final(checks)@[k]).1.valid),
{
    let ghost start = verifier.fresh_var_counter;
    let ghost checks0 = checks@;
    let ghost valid0 = *valid;
    let ghost rules = program.rules@;
    let ghost filters = verifier.filter_predicates;
    let n = scc.len();
    let mut j: usize = 0;
    while j < n
        invariant
            n == scc@.len(),
            rules == program.rules@,
            forall|k: int| 0 <= k < scc@.len() ==> #[trigger] scc@[k] < rules.len() && verifiable_rule(*program,
                rules[scc@[k] as int]),
            start + indices_budget(rules, scc@) <= usize::MAX,
            0 <= j <= n,
            verifier.fresh_var_counter <= start + indices_budget(rules, scc@.take(j as int)),
            verifier.filter_predicates == filters,
            checks@.len() == checks0.len() + j,
            checked_indices(checks@) == checked_indices(checks0) + scc@.take(j as int),
            forall|k: int| 0 <= k < checks0.len() ==> #[trigger] checks@[k] == checks0[k],
            forall|k: int| checks0.len() <= k < checks@.len() ==> rule_checked_with_restrictions(*program,
                rules[(#[trigger] checks@[k]).0 as int], checks@[k].1),
            *valid == (valid0 && forall|k: int| checks0.len() <= k < checks@.len() ==> (#[trigger] checks@[k]).1.valid),
        decreases n - j,
    {
        let idx = scc[j];
        proof {
            assert(scc@.take(j + 1).drop_last() =~= scc@.take(j as int));
            lemma_indices_budget_prefix(rules, scc@, j + 1);
        }
        let rule = &program.rules[idx];
        let ghost counter = verifier.fresh_var_counter;
        let ghost entries = verifier.predicate_restrictions@;
        let check = verifier.verify_with_restrictions(program, rule);
        proof {
            assert(rule_checked_with_restrictions(*program, *rule, check)) by {
                let cache = choose|cache: Seq<(Seq<char>, SmtTerm)>| #[trigger] rule_cache(*rule, cache, counter as nat)
                    && forall|i: int| 0 <= i < check.outcomes@.len() && #[trigger] check.outcomes@[i] == SatOutcome::Unsat
                    ==> !satisfiable(violation_query(*program, *rule, cache, body_restriction_terms(entries, rule.positive@, cache),
                    program.spec_global_annotations_for(rule.head@[0].predicate@)[i]));
                assert(rule_cache(*rule, cache, counter as nat));
                assert(body_restriction_terms(entries, rule.positive@, cache) == body_restriction_terms(entries, rule.positive@, cache));
            }
        }
        let ghost before = checks@;
        let check_valid = check.valid;
        let ghost entry = (idx, check);
        *valid = check_valid && *valid;
        checks.push((idx, check));
        proof {
            assert(checks@ == before.push(entry));
            assert(checks@[before.len() as int].1.valid == check_valid);
            lemma_valid_ranges(before, checks@, checks0.len() as int);
            assert(checked_indices(checks@) =~= checked_indices(before).push(idx));
            assert(checked_indices(checks@) =~= checked_indices(checks0) + scc@.take(j + 1));
        }
        j = j + 1;
    }
    assert(scc@.take(n as int) =~= scc@);
}

/// Propagates the restrictions through the rules of a component and
/// verifies them: a single rule that is not recursive first propagates its
/// restriction forward, then is verified; the rules of another component are
/// verified in a round that repeats while one reports a change, which none does.
fn propagate_scc_rules(program: &NormalizedProgram, verifier: &mut RuleVerifier, scc: &Vec<usize>,
    checks: &mut Vec<(usize, RuleCheck)>, valid: &mut bool)
    requires
        forall|k: int| 0 <= k < scc@.len() ==> #[trigger] scc@[k] < program.rules@.len()
            && verifiable_rule(*program, program.rules@[scc@[k] as int]),
        old(verifier).fresh_var_counter + indices_budget(program.rules@, scc@) <= usize::MAX,
        old(verifier).filter_predicates@.len() == 0,
    ensures
        final(verifier).fresh_var_counter <= old(verifier).fresh_var_counter + indices_budget(program.rules@, scc@),
        final(verifier).filter_predicates@.len() == 0,
        final(checks)@.len() == old(checks)@.len() + scc@.len(),
        checked_indices(final(checks)@) == checked_indices(old(checks)@) + scc@,
        forall|k: int| 0 <= k < old(checks)@.len() ==> #[trigger] final(checks)@[k] == old(checks)@[k],
        forall|k: int| old(checks)@.len() <= k < final(checks)@.len() ==> rule_checked_with_restrictions(*program,
            program.rules@[(#[trigger] final(checks)@[k]).0 as int], final(checks)@[k].1),
        *final(valid) == (*old(valid) && forall|k: int| old(checks)@.len() <= k < final(checks)@.len()
            ==> (#[trigger] final(checks)@[k]).1.valid),
{
    if scc.len() == 1 {
        let idx = scc[0];
        let rule = &program.rules[idx];
        if !rule.is_recursive() {
            let ghost rules = program.rules@;
            proof {
                assert(scc@.drop_last() =~= Seq::<usize>::empty());
                assert(indices_budget(rules, Seq::<usize>::empty()) == 0);
                assert(scc@.last() == idx);
                assert(indices_budget(rules, scc@) == rule_budget(rules[idx as int]));
            }
            let ghost counter = verifier.fresh_var_counter;
            verifier.forward_propagation(program, rule);
            let ghost entries = verifier.predicate_restrictions@;
            let ghost counter2 = verifier.fresh_var_counter;
            let check = verifier.verify_with_restrictions(program, rule);
            proof {
                assert(rule_checked_with_restrictions(*program, *rule, check)) by {
                    let cache = choose|cache: Seq<(Seq<char>, SmtTerm)>| #[trigger] rule_cache(*rule, cache, counter2 as nat)
                        && forall|i: int| 0 <= i < check.outcomes@.len() && #[trigger] check.outcomes@[i] == SatOutcome::Unsat
                        ==> !satisfiable(violation_query(*program, *rule, cache, body_restriction_terms(entries, rule.positive@, cache),
                        program.spec_global_annotations_for(rule.head@[0].predicate@)[i]));
                    assert(rule_cache(*rule, cache, counter2 as nat));
                    assert(body_restriction_terms(entries, rule.positive@, cache) == body_restriction_terms(entries, rule.positive@, cache));
                }
            }
            let ghost before = checks@;
            let check_valid = check.valid;
            let ghost entry = (idx, check);
            *valid = check_valid && *valid;
            checks.push((idx, check));
            proof {
                assert(checks@ == before.push(entry));
                assert(checks@[before.len() as int].1.valid == check_valid);
                lemma_valid_ranges(before, checks@, before.len() as int);
                assert(checked_indices(checks@) =~= checked_indices(before).push(idx));
                assert(checked_indices(checks@) =~= checked_indices(before) + scc@);
            }
            return;
        }
    }
    let ghost start = verifier.fresh_var_counter;
    let ghost checks0 = checks@;
    let ghost valid0 = *valid;
    let mut delta = true;
    while delta
        invariant
            delta ==> verifier.fresh_var_counter == start && checks@ == checks0 && *valid == valid0
                && verifier.filter_predicates@.len() == 0,
            forall|k: int| 0 <= k < scc@.len() ==> #[trigger] scc@[k] < program.rules@.len()
                && verifiable_rule(*program, program.rules@[scc@[k] as int]),
            start + indices_budget(program.rules@, scc@) <= usize::MAX,
            !delta ==> {
                &&& verifier.fresh_var_counter <= start + indices_budget(program.rules@, scc@)
                &&& verifier.filter_predicates@.len() == 0
                &&& checks@.len() == checks0.len() + scc@.len()
                &&& checked_indices(checks@) == checked_indices(checks0) + scc@
                &&& forall|k: int| 0 <= k < checks0.len() ==> #[trigger] checks@[k] == checks0[k]
                &&& forall|k: int| checks0.len() <= k < checks@.len() ==> rule_checked_with_restrictions(*program,
                    program.rules@[(#[trigger] checks@[k]).0 as int], checks@[k].1)
                &&& *valid == (valid0 && forall|k: int| checks0.len() <= k < checks@.len() ==> (#[trigger] checks@[k]).1.valid)
            },
        decreases (if delta { 1int } else { 0int }),
    {
        delta = false;
        verify_scc_with_restrictions(program, verifier, scc, checks, valid);
    }
}

/// A copy of the restrictions of the predicates.
fn clone_restrictions(entries: &Vec<(Tag, Restriction)>) -> (copy: Vec<(Tag, Restriction)>)
    ensures
        copy@.len() == entries@.len(),
        forall|i: int| 0 <= i < copy@.len() ==> (#[trigger] copy@[i]).0@ == entries@[i].0@
            && copy@[i].1.restriction_head_vars@ == entries@[i].1.restriction_head_vars@
            && copy@[i].1.restrictions@ == entries@[i].1.restrictions@,
{
    let mut copy: Vec<(Tag, Restriction)> = Vec::new();
    let n = entries.len();
    let mut i: usize = 0;
    while i < n
        invariant
            n == entries@.len(),
            0 <= i <= n,
            copy@.len() == i,
            forall|k: int| 0 <= k < i ==> (#[trigger] copy@[k]).0@ == entries@[k].0@
                && copy@[k].1.restriction_head_vars@ == entries@[k].1.restriction_head_vars@
                && copy@[k].1.restrictions@ == entries@[k].1.restrictions@,
        decreases n - i,
    {
        let tag = entries[i].0.clone();
        let restriction = entries[i].1.clone();
        copy.push((tag, restriction));
        i = i + 1;
    }
    copy
}

/// The components of a report.
pub open spec fn report_sccs(report: Seq<(Vec<usize>, SccTermination)>) -> Seq<Seq<usize>> {
    report.map_values(|e: (Vec<usize>, SccTermination)| e.0@)
}

/// Whether every outcome of the report shows that its component terminates.
pub open spec fn report_shows_termination(report: Seq<(Vec<usize>, SccTermination)>) -> bool {
    forall|k: int| 0 <= k < report.len() ==> shows_termination((#[trigger] report[k]).1)
}

/// Returns whether every outcome of the report shows that its component
/// terminates.
pub fn reports_termination(report: &Vec<(Vec<usize>, SccTermination)>) -> (r: bool)
    ensures
        r == report_shows_termination(report@),
{
    let n = report.len();
    let mut k: usize = 0;
    while k < n
        invariant
            n == report@.len(),
            0 <= k <= n,
            forall|j: int| 0 <= j < k ==> shows_termination((#[trigger] report@[j]).1),
        decreases n - k,
    {
        if !outcome_shows_termination(&report[k].1) {
            assert(!shows_termination(report@[k as int].1));
            return false;
        }
        k = k + 1;
    }
    true
}

impl AnnotationAnalyzer {
    /// Checks the termination of the components of the program, in their
    /// order, leaving out single rules that are not recursive; returns each
    /// examined component with the outcome of its check
    pub fn termination_report(&mut self, rule_verifier: &RuleVerifier) -> (report: Vec<(Vec<usize>, SccTermination)>)
        requires
            old(self).well_formed(),
            old(self).program.rules@.len() < usize::MAX,
            analyzable_program(old(self).program),
            forall|c: int| 0 <= c < old(self).rule_graph.spec_sccs().len() ==> scc_composable(old(self).program,
                (#[trigger] old(self).rule_graph.spec_sccs()[c])@) && scc_searchable(old(self).program,
                old(self).rule_graph.spec_sccs()[c]@),
        ensures
            final(self).program == old(self).program,
            final(self).rule_graph.spec_sccs() == old(self).rule_graph.spec_sccs(),
            final(self).well_formed(),
            report@.map_values(|e: (Vec<usize>, SccTermination)| e.0@) == examined_sccs(old(self).program.rules@,
                old(self).rule_graph.spec_sccs()),
            forall|k: int| 0 <= k < report@.len() ==> scc_outcome(old(self).program, (#[trigger] report@[k]).0@,
                edb_analysis(old(self).program, old(self).rule_graph.spec_sccs()), report@[k].1),
    {
        let ghost sccs = self.rule_graph.spec_sccs();
        let ghost program0 = self.program;
        let ghost rules = self.program.rules@;
        proof {
            self.lemma_sccs_within();
        }
        let graph_copy = self.rule_graph.clone();
        proof {
            assert forall|c: int, k: int| 0 <= c < graph_copy.spec_sccs().len() && 0 <= k < graph_copy.spec_sccs()[c]@.len()
                implies #[trigger] graph_copy.spec_sccs()[c]@[k] < rules.len() by {
                assert(graph_copy.spec_sccs()[c]@ == sccs[c]@);
            }
        }
        let edb_analyser = EdbAnalyzer::new(&self.program, graph_copy);
        proof {
            lemma_sccs_closure_views(rules, graph_copy.spec_sccs(), sccs,
                crate::execution::planning::verification::edb_analysis::initial_edb_positions(program0), Set::empty());
        }
        let ghost positions = edb_analyser.edb_positions@;
        assert(positions == edb_analysis(program0, sccs));
        let restrictions = clone_restrictions(rule_verifier.predicate_restriction());
        let mut program = NormalizedProgram::new(Vec::new(), Vec::new(), Vec::new(), Vec::new(), Vec::new());
        std::mem::swap(&mut program, &mut self.program);
        let verifier = TerminationVerifier::new(edb_analyser, restrictions, program);
        self.rule_graph.reset_scc_count();
        let mut report: Vec<(Vec<usize>, SccTermination)> = Vec::new();
        assert(report@.map_values(|e: (Vec<usize>, SccTermination)| e.0@) =~= examined_sccs(rules, sccs.take(0)));
        loop
            invariant_except_break
                self.rule_graph.spec_index() <= sccs.len(),
                report@.map_values(|e: (Vec<usize>, SccTermination)| e.0@) == examined_sccs(rules,
                    sccs.take(self.rule_graph.spec_index() as int)),
            invariant
                verifier.program == program0,
                verifier.edb_predicates.edb_positions@ == positions,
                self.rule_graph.spec_sccs() == sccs,
                rules == program0.rules@,
                sccs.len() <= rules.len(),
                rules.len() < usize::MAX,
                analyzable_program(program0),
                forall|c: int, k: int| 0 <= c < sccs.len() && 0 <= k < sccs[c]@.len() ==> #[trigger] sccs[c]@[k] < rules.len(),
                forall|c: int| 0 <= c < sccs.len() ==> scc_composable(program0, (#[trigger] sccs[c])@)
                    && scc_searchable(program0, sccs[c]@),
                forall|k: int| 0 <= k < report@.len() ==> scc_outcome(program0, (#[trigger] report@[k]).0@, positions,
                    report@[k].1),
            ensures
                report@.map_values(|e: (Vec<usize>, SccTermination)| e.0@) == examined_sccs(rules, sccs),
            decreases sccs.len() - self.rule_graph.spec_index(),
        {
            let ghost index = self.rule_graph.spec_index();
            match self.rule_graph.next_scc() {
                Some(scc) => {
                    assert(sccs.take(index + 1).drop_last() =~= sccs.take(index as int));
                    assert(scc@ == sccs[index as int]@);
                    let ghost before = report@;
                    if scc.len() == 1 && !verifier.program.rules[scc[0]].is_recursive() {
                        assert(examined_sccs(rules, sccs.take(index + 1)) == examined_sccs(rules, sccs.take(index as int)));
                    } else {
                        proof {
                            assert forall|k: int| 0 <= k < scc@.len() implies #[trigger] scc@[k] < verifier.program.rules@.len()
                                && crate::execution::planning::verification::edb_analysis::analyzable_rule(
                                verifier.program.rules@[scc@[k] as int]) by {
                                assert(sccs[index as int]@[k] < rules.len());
                            }
                            assert(scc_composable(program0, sccs[index as int]@));
                            assert(scc_searchable(program0, sccs[index as int]@));
                        }
                        let outcome = verifier.scc_termination(&scc);
                        let ghost entry = (scc, outcome);
                        report.push((scc, outcome));
                        proof {
                            assert(report@ == before.push(entry));
                            assert(report@.map_values(|e: (Vec<usize>, SccTermination)| e.0@) =~= before.map_values(
                                |e: (Vec<usize>, SccTermination)| e.0@).push(entry.0@));
                        }
                    }
                },
                None => {
                    assert(sccs.take(index as int) =~= sccs);
                    break;
                },
            }
        }
        self.program = verifier.program;
        report
    }

    /// Checks whether termination of the program can be verified: checks
    /// the termination of its components; the program is shown to terminate
    /// when each examined component is
    pub fn check_termination(&mut self, rule_verifier: &RuleVerifier) -> (r: bool)
        requires
            old(self).well_formed(),
            old(self).program.rules@.len() < usize::MAX,
            analyzable_program(old(self).program),
            forall|c: int| 0 <= c < old(self).rule_graph.spec_sccs().len() ==> scc_composable(old(self).program,
                (#[trigger] old(self).rule_graph.spec_sccs()[c])@) && scc_searchable(old(self).program,
                old(self).rule_graph.spec_sccs()[c]@),
        ensures
            exists|report: Seq<(Vec<usize>, SccTermination)>| {
                &&& #[trigger] report_sccs(report) == examined_sccs(
                    old(self).program.rules@, old(self).rule_graph.spec_sccs())
                &&& forall|k: int| 0 <= k < report.len() ==> scc_outcome(old(self).program, (#[trigger] report[k]).0@,
                    edb_analysis(old(self).program, old(self).rule_graph.spec_sccs()), report[k].1)
                &&& r == report_shows_termination(report)
            },
            final(self).program == old(self).program,
            final(self).rule_graph.spec_sccs() == old(self).rule_graph.spec_sccs(),
            final(self).well_formed(),
    {
        let ghost program = self.program;
        let ghost sccs = self.rule_graph.spec_sccs();
        let report = self.termination_report(rule_verifier);
        let r = reports_termination(&report);
        assert(report_sccs(report@) == examined_sccs(program.rules@, sccs));
        r
    }

    /// Verifies annotations of a program whether they all "support" each
    /// other without contradiction: each fact against the annotations of its
    /// predicate, then each rule, component by component, against the
    /// annotations of its head predicate. No propagation is done, so most
    /// annotations have to be written by the user
    pub fn verify_annotations(&mut self) -> (report: AnnotationCheck)
        requires
            old(self).well_formed(),
            old(self).program.rules@.len() < usize::MAX,
            forall|i: int| 0 <= i < old(self).program.facts@.len() ==> annotations_fit(old(self).program,
                (#[trigger] old(self).program.facts@[i]).predicate@, old(self).program.facts@[i].terms@.len()),
            forall|i: int| 0 <= i < old(self).program.rules@.len() ==> verifiable_rule(old(self).program,
                #[trigger] old(self).program.rules@[i]),
            sccs_budget(old(self).program.rules@, old(self).rule_graph.spec_sccs()) <= usize::MAX,
        ensures
            final(self).program == old(self).program,
            final(self).rule_graph.spec_sccs() == old(self).rule_graph.spec_sccs(),
            final(self).well_formed(),
            report.facts@.len() == old(self).program.facts@.len(),
            forall|i: int| 0 <= i < report.facts@.len() ==> fact_outcomes(old(self).program, old(self).program.facts@[i],
                #[trigger] report.facts@[i]@),
            checked_indices(report.rules@) == scc_order(old(self).rule_graph.spec_sccs()),
            forall|k: int| 0 <= k < report.rules@.len() ==> rule_checked(old(self).program,
                old(self).program.rules@[(#[trigger] report.rules@[k]).0 as int], report.rules@[k].1),
            report.valid == forall|k: int| 0 <= k < report.rules@.len() ==> (#[trigger] report.rules@[k]).1.valid,
    {
        let ghost sccs = self.rule_graph.spec_sccs();
        let ghost rules = self.program.rules@;
        let ghost program0 = self.program;
        proof {
            self.lemma_sccs_within();
        }
        let mut verifier = RuleVerifier::new();
        let facts = check_facts(&verifier, &self.program);
        self.rule_graph.reset_scc_count();
        assert(self.program == program0);
        assert(self.rule_graph.spec_sccs() == sccs);
        let mut valid = true;
        let mut checks: Vec<(usize, RuleCheck)> = Vec::new();
        assert(checked_indices(checks@) =~= scc_order(sccs.take(0)));
        loop
            invariant_except_break
                self.rule_graph.spec_index() <= sccs.len(),
                checked_indices(checks@) == scc_order(sccs.take(self.rule_graph.spec_index() as int)),
                verifier.fresh_var_counter <= sccs_budget(rules, sccs.take(self.rule_graph.spec_index() as int)),
            invariant
                self.well_formed(),
                self.rule_graph.spec_sccs() == sccs,
                self.program == program0,
                self.program.rules@ == rules,
                sccs.len() <= rules.len(),
                rules.len() < usize::MAX,
                forall|c: int, k: int| 0 <= c < sccs.len() && 0 <= k < sccs[c]@.len() ==> #[trigger] sccs[c]@[k] < rules.len(),
                forall|i: int| 0 <= i < rules.len() ==> verifiable_rule(self.program, #[trigger] rules[i]),
                sccs_budget(rules, sccs) <= usize::MAX,
                forall|k: int| 0 <= k < checks@.len() ==> rule_checked(self.program, rules[(#[trigger] checks@[k]).0 as int],
                    checks@[k].1),
                valid == forall|k: int| 0 <= k < checks@.len() ==> (#[trigger] checks@[k]).1.valid,
            ensures
                checked_indices(checks@) == scc_order(sccs),
            decreases sccs.len() - self.rule_graph.spec_index(),
        {
            let ghost index = self.rule_graph.spec_index();
            match self.rule_graph.next_scc() {
                Some(scc) => {
                    proof {
                        assert(sccs.take(index + 1).drop_last() =~= sccs.take(index as int));
                        lemma_sccs_budget_prefix(rules, sccs, index + 1);
                        assert forall|k: int| 0 <= k < scc@.len() implies #[trigger] scc@[k] < self.program.rules@.len()
                            && verifiable_rule(self.program, self.program.rules@[scc@[k] as int]) by {
                            assert(sccs[index as int]@[k] < rules.len());
                        }
                    }
                    let ghost before = checks@;
                    verify_scc_rules(&self.program, &mut verifier, &scc, &mut checks, &mut valid);
                    proof {
                        lemma_valid_ranges(before, checks@, 0);
                    }
                },
                None => {
                    assert(sccs.take(index as int) =~= sccs);
                    break;
                },
            }
        }
        AnnotationCheck { facts, rules: checks, valid }
    }
}

impl AnnotationAnalyzer {
    /// Verifies and propagates forward any known annotations: checks the
    /// facts, then, component by component, propagates the restrictions
    /// through the rules and verifies them; finally checks termination.
    /// Returns the checks and the termination report
    pub fn verify_with_forward_propagation(&mut self) -> (report: (AnnotationCheck, Vec<(Vec<usize>, SccTermination)>))
        requires
            old(self).well_formed(),
            old(self).program.rules@.len() < usize::MAX,
            forall|i: int| 0 <= i < old(self).program.facts@.len() ==> annotations_fit(old(self).program,
                (#[trigger] old(self).program.facts@[i]).predicate@, old(self).program.facts@[i].terms@.len()),
            forall|i: int| 0 <= i < old(self).program.rules@.len() ==> verifiable_rule(old(self).program,
                #[trigger] old(self).program.rules@[i]),
            sccs_budget(old(self).program.rules@, old(self).rule_graph.spec_sccs()) <= usize::MAX,
            analyzable_program(old(self).program),
            forall|c: int| 0 <= c < old(self).rule_graph.spec_sccs().len() ==> scc_composable(old(self).program,
                (#[trigger] old(self).rule_graph.spec_sccs()[c])@) && scc_searchable(old(self).program,
                old(self).rule_graph.spec_sccs()[c]@),
        ensures
            final(self).program == old(self).program,
            final(self).rule_graph.spec_sccs() == old(self).rule_graph.spec_sccs(),
            final(self).well_formed(),
            report.0.facts@.len() == old(self).program.facts@.len(),
            forall|i: int| 0 <= i < report.0.facts@.len() ==> fact_outcomes(old(self).program, old(self).program.facts@[i],
                #[trigger] report.0.facts@[i]@),
            checked_indices(report.0.rules@) == scc_order(old(self).rule_graph.spec_sccs()),
            forall|k: int| 0 <= k < report.0.rules@.len() ==> rule_checked_with_restrictions(old(self).program,
                old(self).program.rules@[(#[trigger] report.0.rules@[k]).0 as int], report.0.rules@[k].1),
            report.0.valid == forall|k: int| 0 <= k < report.0.rules@.len() ==> (#[trigger] report.0.rules@[k]).1.valid,
            report.1@.map_values(|e: (Vec<usize>, SccTermination)| e.0@) == examined_sccs(old(self).program.rules@,
                old(self).rule_graph.spec_sccs()),
            forall|k: int| 0 <= k < report.1@.len() ==> scc_outcome(old(self).program, (#[trigger] report.1@[k]).0@,
                edb_analysis(old(self).program, old(self).rule_graph.spec_sccs()), report.1@[k].1),
    {
        let ghost sccs = self.rule_graph.spec_sccs();
        let ghost rules = self.program.rules@;
        let ghost program0 = self.program;
        proof {
            self.lemma_sccs_within();
        }
        let mut verifier = RuleVerifier::new();
        let facts = check_facts(&verifier, &self.program);
        self.rule_graph.reset_scc_count();
        assert(self.program == program0);
        assert(self.rule_graph.spec_sccs() == sccs);
        let mut valid = true;
        let mut checks: Vec<(usize, RuleCheck)> = Vec::new();
        assert(checked_indices(checks@) =~= scc_order(sccs.take(0)));
        loop
            invariant_except_break
                self.rule_graph.spec_index() <= sccs.len(),
                checked_indices(checks@) == scc_order(sccs.take(self.rule_graph.spec_index() as int)),
                verifier.fresh_var_counter <= sccs_budget(rules, sccs.take(self.rule_graph.spec_index() as int)),
            invariant
                self.well_formed(),
                self.rule_graph.spec_sccs() == sccs,
                self.program == program0,
                self.program.rules@ == rules,
                sccs.len() <= rules.len(),
                rules.len() < usize::MAX,
                verifier.filter_predicates@.len() == 0,
                forall|c: int, k: int| 0 <= c < sccs.len() && 0 <= k < sccs[c]@.len() ==> #[trigger] sccs[c]@[k] < rules.len(),
                forall|i: int| 0 <= i < rules.len() ==> verifiable_rule(self.program, #[trigger] rules[i]),
                sccs_budget(rules, sccs) <= usize::MAX,
                forall|k: int| 0 <= k < checks@.len() ==> rule_checked_with_restrictions(self.program,
                    rules[(#[trigger] checks@[k]).0 as int], checks@[k].1),
                valid == forall|k: int| 0 <= k < checks@.len() ==> (#[trigger] checks@[k]).1.valid,
            ensures
                checked_indices(checks@) == scc_order(sccs),
            decreases sccs.len() - self.rule_graph.spec_index(),
        {
            let ghost index = self.rule_graph.spec_index();
            match self.rule_graph.next_scc() {
                Some(scc) => {
                    proof {
                        assert(sccs.take(index + 1).drop_last() =~= sccs.take(index as int));
                        lemma_sccs_budget_prefix(rules, sccs, index + 1);
                        assert forall|k: int| 0 <= k < scc@.len() implies #[trigger] scc@[k] < self.program.rules@.len()
                            && verifiable_rule(self.program, self.program.rules@[scc@[k] as int]) by {
                            assert(sccs[index as int]@[k] < rules.len());
                        }
                    }
                    let ghost before = checks@;
                    propagate_scc_rules(&self.program, &mut verifier, &scc, &mut checks, &mut valid);
                    proof {
                        lemma_valid_ranges(before, checks@, 0);
                    }
                },
                None => {
                    assert(sccs.take(index as int) =~= sccs);
                    break;
                },
            }
        }
        let termination = self.termination_report(&verifier);
        (AnnotationCheck { facts, rules: checks, valid }, termination)
    }
}

} // verus!
