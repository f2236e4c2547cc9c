use nemo::execution::planning::normalization::atom::{BodyAtom, GroundAtom, HeadAtom};
use nemo::execution::planning::normalization::global_annotation::NormalizedGlobalAnnotation;
use nemo::execution::planning::normalization::operation::Operation;
use nemo::execution::planning::normalization::program::NormalizedProgram;
use nemo::execution::planning::normalization::rule::NormalizedRule;
use nemo::execution::planning::verification::annotation_analysis::rule_selection::RuleAnalysisGraph;
use nemo::execution::planning::verification::annotation_analysis::AnnotationAnalyzer;
use nemo::execution::planning::verification::edb_analysis::EdbAnalyzer;
use nemo::execution::planning::verification::rule_verification::filters::Filter;
use nemo::execution::planning::verification::rule_verification::{keeps_valid, RuleVerifier};
use nemo::execution::planning::verification::smt::{render_terms, SatOutcome};
use nemo::execution::planning::verification::termination_verification::SccTermination;
use nemo::rule_model::components::operation_kind::OperationKind;
use nemo::rule_model::components::tag::{Tag, TagIndexSet};
use nemo::rule_model::components::variable::{GroundTerm, Primitive, Variable};

fn var(name: &str) -> Operation {
    Operation::Primitive(Primitive::Variable(Variable::universal(name)))
}

fn lit(value: i64) -> Operation {
    Operation::Primitive(Primitive::Ground(GroundTerm::new(value)))
}

fn op(kind: OperationKind, a: Operation, b: Operation) -> Operation {
    Operation::Operation { kind, subterms: vec![a, b] }
}

/// #assert pred(?A): ?A > bound.
fn above(pred: &str, bound: i64) -> NormalizedGlobalAnnotation {
    NormalizedGlobalAnnotation {
        head: BodyAtom::new(Tag::new(pred), vec![Variable::universal("A")]),
        body: vec![op(OperationKind::NumericGreaterthan, var("A"), lit(bound))],
    }
}

/// to(?Y) :- from(?X), ?Y = ?X + step.
fn shift_rule(id: usize, from: &str, to: &str, step: i64) -> NormalizedRule {
    NormalizedRule::new(
        id,
        vec![HeadAtom::new(Tag::new(to), vec![Primitive::Variable(Variable::universal("Y"))])],
        vec![BodyAtom::new(Tag::new(from), vec![Variable::universal("X")])],
        vec![],
        vec![op(OperationKind::Equal, var("Y"), op(OperationKind::NumericSum, var("X"), lit(step)))],
        vec![],
    )
}

fn fact(pred: &str, value: i64) -> GroundAtom {
    GroundAtom::new(Tag::new(pred), vec![GroundTerm::new(value)])
}

#[test]
fn rule_preserving_an_annotation_verifies() {
    // p(?X) with ?X > 0 gives q(?X + 1) with ?X + 1 > 1.
    let program = NormalizedProgram::new(vec![shift_rule(0, "p", "q", 1)], vec![], vec![above("p", 0), above("q", 1)], vec![], vec![]);
    let mut verifier = RuleVerifier::new();
    let check = verifier.verify_rule(&program, &program.rules()[0]);
    assert!(check.valid);
    assert_eq!(check.outcomes, vec![SatOutcome::Unsat]);
    assert_eq!(check.queries.len(), 1);
    // the sum, the annotation of p, and the negated annotation of q
    assert_eq!(render_terms(&check.queries[0], ";"), "(= v1 (+ v0 1));(and true (> v0 0));(not (and true (> v1 1)));");
    assert_eq!(verifier.fresh_var_counter, 2);
}

#[test]
fn rule_breaking_an_annotation_is_refuted() {
    // p(?X) with ?X > 0 gives q(?X - 5), which need not be above 1.
    let program = NormalizedProgram::new(vec![shift_rule(0, "p", "q", -5)], vec![], vec![above("p", 0), above("q", 1)], vec![], vec![]);
    let mut verifier = RuleVerifier::new();
    let check = verifier.verify_rule(&program, &program.rules()[0]);
    assert!(!check.valid);
    assert_eq!(check.outcomes, vec![SatOutcome::Sat]);
}

#[test]
fn facts_against_annotations() {
    let program = NormalizedProgram::new(vec![], vec![fact("p", 3), fact("p", -1)], vec![above("p", 0)], vec![], vec![]);
    let verifier = RuleVerifier::new();
    assert_eq!(verifier.verify_facts(&program.facts()[0], &program), vec![SatOutcome::Sat]);
    assert_eq!(verifier.verify_facts(&program.facts()[1], &program), vec![SatOutcome::Unsat]);
}

#[test]
fn fresh_variables_count_up() {
    let mut verifier = RuleVerifier::new();
    assert_eq!(verifier.get_fresh_var(), "V1");
    assert_eq!(verifier.get_fresh_var(), "V2");
    assert_eq!(verifier.fresh_var_counter, 2);
}

#[test]
fn validity_needs_unsatisfiable_queries() {
    assert!(keeps_valid(true, SatOutcome::Unsat));
    assert!(!keeps_valid(true, SatOutcome::Unknown));
    assert!(!keeps_valid(true, SatOutcome::Sat));
    assert!(!keeps_valid(false, SatOutcome::Unsat));
}

#[test]
fn forward_propagation_creates_a_restriction() {
    let program = NormalizedProgram::new(vec![shift_rule(0, "p", "q", 1)], vec![], vec![above("p", 0)], vec![], vec![]);
    let mut verifier = RuleVerifier::new();
    assert!(verifier.forward_propagation(&program, &program.rules()[0]));
    assert_eq!(verifier.predicate_restriction().len(), 1);
    assert_eq!(verifier.predicate_restriction()[0].0.name(), "q");
}

#[test]
fn annotations_verified_component_by_component() {
    let program = NormalizedProgram::new(
        vec![shift_rule(0, "q", "r", 1), shift_rule(1, "p", "q", 1)],
        vec![fact("p", 5)],
        vec![above("p", 0), above("q", 1), above("r", 2)],
        vec![],
        vec![],
    );
    let mut analyzer = AnnotationAnalyzer::new(program);
    let report = analyzer.verify_annotations();
    assert!(report.valid);
    assert_eq!(report.facts, vec![vec![SatOutcome::Sat]]);
    let order: Vec<usize> = report.rules.iter().map(|(i, _)| *i).collect();
    assert_eq!(order, vec![1, 0]);
}

#[test]
fn contradiction_found_by_the_analyzer() {
    let program = NormalizedProgram::new(vec![shift_rule(0, "p", "q", -1)], vec![], vec![above("p", 0), above("q", 0)], vec![], vec![]);
    let mut analyzer = AnnotationAnalyzer::new(program);
    let report = analyzer.verify_annotations();
    assert!(!report.valid);
}

#[test]
fn forward_propagation_report() {
    let program = NormalizedProgram::new(
        vec![shift_rule(0, "p", "q", 1)],
        vec![],
        vec![above("p", 0), above("q", 1)],
        vec![],
        vec![],
    );
    let mut analyzer = AnnotationAnalyzer::new(program);
    let (checks, termination) = analyzer.verify_with_forward_propagation();
    assert_eq!(checks.rules.len(), 1);
    assert!(checks.valid);
    assert!(termination.is_empty());
}

#[test]
fn edb_annotations_leave_out_derived_predicates() {
    let program = NormalizedProgram::new(vec![shift_rule(0, "p", "q", 1)], vec![], vec![above("p", 0), above("q", 1), above("s", 2)], vec![], vec![]);
    let edb = AnnotationAnalyzer::edb_annotations(&program);
    let names: Vec<&str> = edb.iter().map(|a| a.head.predicate.name()).collect();
    assert_eq!(names, vec!["p", "s"]);
}

#[test]
fn edb_positions_of_a_program() {
    // q(?Y) :- p(?X), ?Y = ?X + 1.  r(?X) :- p(?X).
    let copy = NormalizedRule::new(
        1,
        vec![HeadAtom::new(Tag::new("r"), vec![Primitive::Variable(Variable::universal("X"))])],
        vec![BodyAtom::new(Tag::new("p"), vec![Variable::universal("X")])],
        vec![],
        vec![],
        vec![],
    );
    let program = NormalizedProgram::new(vec![shift_rule(0, "p", "q", 1), copy], vec![fact("p", 1)], vec![], vec![], vec![]);
    let graph = RuleAnalysisGraph::new(program.rules().iter().collect());
    let edb = EdbAnalyzer::new(&program, graph);
    assert!(edb.edb_positions.contains(&Tag::new("p"), 0));
    assert!(edb.edb_positions.contains(&Tag::new("r"), 0));
    assert!(!edb.edb_positions.contains(&Tag::new("q"), 0));
    let vars = edb.edb_vars_in_rule(&program.rules()[1]);
    assert_eq!(vars.len(), 1);
    assert_eq!(vars[0].name(), "X");
}

#[test]
fn critical_operations_assign() {
    assert!(EdbAnalyzer::critical_operation(&op(OperationKind::Equal, var("Y"), op(OperationKind::NumericSum, var("X"), lit(1)))));
    assert!(!EdbAnalyzer::critical_operation(&op(OperationKind::Equal, var("Y"), var("X"))));
    assert!(!EdbAnalyzer::critical_operation(&op(OperationKind::NumericLessthan, var("X"), lit(1))));
}

#[test]
fn tag_index_sets_insert_and_remove() {
    let mut set = TagIndexSet::new();
    assert!(set.insert(Tag::new("p"), 0));
    assert!(!set.insert(Tag::new("p"), 0));
    assert!(set.contains(&Tag::new("p"), 0));
    assert!(!set.contains(&Tag::new("p"), 1));
    assert_eq!(set.len(), 1);
    assert!(set.remove(&Tag::new("p"), 0));
    assert!(!set.contains(&Tag::new("p"), 0));
    assert!(!set.remove(&Tag::new("p"), 0));
}

#[test]
fn weakly_acyclic_component_in_report() {
    let copy = NormalizedRule::new(
        0,
        vec![HeadAtom::new(Tag::new("p"), vec![Primitive::Variable(Variable::universal("X"))])],
        vec![BodyAtom::new(Tag::new("p"), vec![Variable::universal("X")])],
        vec![],
        vec![],
        vec![],
    );
    let program = NormalizedProgram::new(vec![copy], vec![], vec![], vec![], vec![]);
    let mut analyzer = AnnotationAnalyzer::new(program);
    let report = analyzer.termination_report(&RuleVerifier::new());
    assert_eq!(report.len(), 1);
    assert!(matches!(report[0].1, SccTermination::WeaklyAcyclic));
}

#[test]
fn ground_head_position_counts_as_a_change() {
    // p(3) :- q(?X).
    let rule = NormalizedRule::new(
        0,
        vec![HeadAtom::new(Tag::new("p"), vec![Primitive::Ground(GroundTerm::new(3))])],
        vec![BodyAtom::new(Tag::new("q"), vec![Variable::universal("X")])],
        vec![],
        vec![],
        vec![],
    );
    let mut edb = TagIndexSet::new();
    let mut rejected = TagIndexSet::new();
    assert!(EdbAnalyzer::propagate_positions(&mut edb, &mut rejected, &rule));
    assert!(edb.contains(&Tag::new("p"), 0));
    assert!(!EdbAnalyzer::propagate_positions(&mut edb, &mut rejected, &rule));
}

#[test]
fn forward_propagation_keeps_entailed_filters() {
    // p(?X) with ?X > 0 gives q(?X + 1): the head term is above 0, not below.
    let program = NormalizedProgram::new(vec![shift_rule(0, "p", "q", 1)], vec![], vec![above("p", 0)], vec![], vec![]);
    let mut verifier = RuleVerifier::new();
    verifier.filter_predicates.push(Filter::new(op(OperationKind::NumericGreaterthan, var("F"), lit(0))));
    verifier.filter_predicates.push(Filter::new(op(OperationKind::NumericLessthan, var("F"), lit(0))));
    assert!(verifier.forward_propagation(&program, &program.rules()[0]));
    let (tag, restriction) = &verifier.predicate_restriction()[0];
    assert_eq!(tag.name(), "q");
    assert_eq!(restriction.restriction_head_vars, vec![2]);
    assert_eq!(render_terms(&restriction.restrictions, ";"), "(and true (> v2 0));");
    assert_eq!(verifier.fresh_var_counter, 3);
}
