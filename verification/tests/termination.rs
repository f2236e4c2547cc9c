use nemo::execution::planning::normalization::atom::{BodyAtom, HeadAtom};
use nemo::execution::planning::normalization::operation::Operation;
use nemo::execution::planning::normalization::program::NormalizedProgram;
use nemo::execution::planning::normalization::rule::NormalizedRule;
use nemo::execution::planning::normalization::termination_annotation::{
    NormalizedTerminationAnnotation, TerminationDirection,
};
use nemo::execution::planning::verification::annotation_analysis::rule_selection::RuleAnalysisGraph;
use nemo::execution::planning::verification::annotation_analysis::AnnotationAnalyzer;
use nemo::execution::planning::verification::edb_analysis::EdbAnalyzer;
use nemo::execution::planning::verification::rule_verification::RuleVerifier;
use nemo::execution::planning::verification::smt::{SmtOp, SmtTerm};
use nemo::execution::planning::verification::termination_verification::{SccTermination, TerminationVerifier};
use nemo::rule_model::components::operation_kind::OperationKind;
use nemo::rule_model::components::tag::Tag;
use nemo::rule_model::components::variable::{GroundTerm, Primitive, Variable};

fn var(name: &str) -> Operation {
    Operation::Primitive(Primitive::Variable(Variable::universal(name)))
}

fn lit(value: i64) -> Operation {
    Operation::Primitive(Primitive::Ground(GroundTerm::new(value)))
}

fn op(kind: OperationKind, a: Operation, b: Operation) -> Operation {
    Operation::Operation { kind, subterms: vec![a, b] }
}

/// p(?Y) :- p(?X), ?Y = ?X - 1, ?X > 0.
fn countdown_rule(id: usize) -> NormalizedRule {
    NormalizedRule::new(
        id,
        vec![HeadAtom::new(Tag::new("p"), vec![Primitive::Variable(Variable::universal("Y"))])],
        vec![BodyAtom::new(Tag::new("p"), vec![Variable::universal("X")])],
        vec![],
        vec![
            op(OperationKind::Equal, var("Y"), op(OperationKind::NumericSubtraction, var("X"), lit(1))),
            op(OperationKind::NumericGreaterthan, var("X"), lit(0)),
        ],
        vec![],
    )
}

/// p(?Y) :- p(?X), ?Y = ?X + 1.
fn countup_rule(id: usize) -> NormalizedRule {
    NormalizedRule::new(
        id,
        vec![HeadAtom::new(Tag::new("p"), vec![Primitive::Variable(Variable::universal("Y"))])],
        vec![BodyAtom::new(Tag::new("p"), vec![Variable::universal("X")])],
        vec![],
        vec![op(OperationKind::Equal, var("Y"), op(OperationKind::NumericSum, var("X"), lit(1)))],
        vec![],
    )
}

fn decreasing_p() -> NormalizedTerminationAnnotation {
    NormalizedTerminationAnnotation {
        head: BodyAtom::new(Tag::new("p"), vec![Variable::universal("Z")]),
        direction: TerminationDirection::Decreasing,
        body: var("Z"),
    }
}

fn program_of(rules: Vec<NormalizedRule>) -> NormalizedProgram {
    NormalizedProgram::new(rules, vec![], vec![], vec![decreasing_p()], vec![])
}

fn verifier_of(rules: Vec<NormalizedRule>) -> TerminationVerifier {
    let program = program_of(rules);
    let graph = RuleAnalysisGraph::new(program.rules().iter().collect());
    let edb = EdbAnalyzer::new(&program, graph);
    TerminationVerifier::new(edb, vec![], program)
}

#[test]
fn compose_cycle_of_a_countdown() {
    let verifier = verifier_of(vec![countdown_rule(0)]);
    let rule = &verifier.program.rules()[0];
    let cycle = vec![rule];
    let (composed, start, end, edb, linear) = verifier.compose_cycle(&cycle, &decreasing_p(), &Tag::new("p"));
    assert!(linear);
    assert_eq!(composed.len(), 2);
    assert_eq!(start.len(), 1);
    assert!(edb.is_empty());
    // The start measure is the constant of ?X, the end measure that of ?Y.
    assert!(matches!(start[0], SmtTerm::Var(_)));
    assert!(matches!(end, SmtTerm::Var(_)));
    assert_ne!(format!("{:?}", start[0]), format!("{:?}", end));
}

#[test]
fn countdown_strictly_decreases() {
    let verifier = verifier_of(vec![countdown_rule(0)]);
    let rule = &verifier.program.rules()[0];
    let cycle = vec![rule];
    let (composed, start, end, edb, _) = verifier.compose_cycle(&cycle, &decreasing_p(), &Tag::new("p"));
    assert!(verifier.strictly_changes_argument(&composed, &start, &end, &decreasing_p()));
    assert!(verifier.expression_has_lower_bound(&composed, &end, &edb));
    assert!(!verifier.expression_has_upper_bound(&composed, &end, &edb));
}

#[test]
fn countdown_terminates_by_annotation() {
    let verifier = verifier_of(vec![countdown_rule(0)]);
    let rule = &verifier.program.rules()[0];
    assert!(verifier.cycle_terminates_by_annotation(&vec![rule], &decreasing_p(), &Tag::new("p")));
}

#[test]
fn countup_does_not_decrease() {
    let verifier = verifier_of(vec![countup_rule(0)]);
    let rule = &verifier.program.rules()[0];
    let cycle = vec![rule];
    let (composed, start, end, _, _) = verifier.compose_cycle(&cycle, &decreasing_p(), &Tag::new("p"));
    assert!(!verifier.strictly_changes_argument(&composed, &start, &end, &decreasing_p()));
    assert!(!verifier.cycle_terminates_by_annotation(&cycle, &decreasing_p(), &Tag::new("p")));
}

#[test]
fn countdown_checked_in_all_turns() {
    let verifier = verifier_of(vec![countdown_rule(0)]);
    let rule = &verifier.program.rules()[0];
    let found = verifier.check_all_cycle_permutations(&vec![rule]);
    assert!(found.is_some());
    assert_eq!(found.unwrap().head.predicate.name(), "p");
    let with_predicate = verifier.check_cycle_termination_with_predicate(&vec![rule], &Tag::new("p"));
    assert!(with_predicate.is_some());
    let unannotated = verifier.check_cycle_termination_with_predicate(&vec![rule], &Tag::new("q"));
    assert!(unannotated.is_none());
}

#[test]
fn countdown_component_is_not_weakly_acyclic() {
    let verifier = verifier_of(vec![countdown_rule(0)]);
    match verifier.scc_termination(&vec![0]) {
        SccTermination::CyclesChecked { cycles } => {
            assert_eq!(cycles.len(), 1);
            assert_eq!(cycles[0].0, vec![0]);
            assert_eq!(cycles[0].1.as_ref().unwrap().name(), "p");
        },
        other => panic!("unexpected outcome {:?}", other),
    }
    // Not weakly acyclic, but its one cycle terminates by the annotation.
    assert!(verifier.check_scc_termination(&vec![0]));
}

#[test]
fn countup_component_is_not_shown_to_terminate() {
    let verifier = verifier_of(vec![countup_rule(0)]);
    match verifier.scc_termination(&vec![0]) {
        SccTermination::CyclesChecked { cycles } => {
            assert_eq!(cycles.len(), 1);
            assert_eq!(cycles[0].0, vec![0]);
            assert!(cycles[0].1.is_none());
        },
        other => panic!("unexpected outcome {:?}", other),
    }
    assert!(!verifier.check_scc_termination(&vec![0]));
}

/// p(?Y) :- p(?X), q(?X), ?Y = ?X - 1, ?X > 0.
fn shared_countdown_rule(id: usize) -> NormalizedRule {
    NormalizedRule::new(
        id,
        vec![HeadAtom::new(Tag::new("p"), vec![Primitive::Variable(Variable::universal("Y"))])],
        vec![
            BodyAtom::new(Tag::new("p"), vec![Variable::universal("X")]),
            BodyAtom::new(Tag::new("q"), vec![Variable::universal("X")]),
        ],
        vec![],
        vec![
            op(OperationKind::Equal, var("Y"), op(OperationKind::NumericSubtraction, var("X"), lit(1))),
            op(OperationKind::NumericGreaterthan, var("X"), lit(0)),
        ],
        vec![],
    )
}

/// q(?Y) :- p(?X), ?Y = ?X - 1.
fn feeding_rule(id: usize) -> NormalizedRule {
    NormalizedRule::new(
        id,
        vec![HeadAtom::new(Tag::new("q"), vec![Primitive::Variable(Variable::universal("Y"))])],
        vec![BodyAtom::new(Tag::new("p"), vec![Variable::universal("X")])],
        vec![],
        vec![op(OperationKind::Equal, var("Y"), op(OperationKind::NumericSubtraction, var("X"), lit(1)))],
        vec![],
    )
}

#[test]
fn every_cycle_of_a_shared_rule_is_checked() {
    let verifier = verifier_of(vec![shared_countdown_rule(0), feeding_rule(1)]);
    match verifier.scc_termination(&vec![0, 1]) {
        SccTermination::CyclesChecked { cycles } => {
            assert_eq!(cycles.len(), 2);
            let mut shapes: Vec<Vec<usize>> = cycles
                .iter()
                .map(|(c, _)| {
                    let mut c = c.clone();
                    c.sort();
                    c
                })
                .collect();
            shapes.sort();
            assert_eq!(shapes, vec![vec![0], vec![0, 1]]);
            let all = cycles.iter().all(|(_, t)| t.is_some());
            assert_eq!(verifier.check_scc_termination(&vec![0, 1]), all);
        },
        other => panic!("unexpected outcome {:?}", other),
    }
}

#[test]
fn copying_rule_is_weakly_acyclic() {
    // q(?X) :- p(?X). has no critical edge.
    let rule = NormalizedRule::new(
        0,
        vec![HeadAtom::new(Tag::new("q"), vec![Primitive::Variable(Variable::universal("X"))])],
        vec![BodyAtom::new(Tag::new("p"), vec![Variable::universal("X")])],
        vec![],
        vec![],
        vec![],
    );
    let verifier = verifier_of(vec![rule]);
    assert!(matches!(verifier.scc_termination(&vec![0]), SccTermination::WeaklyAcyclic));
    assert!(verifier.check_scc_termination(&vec![0]));
}

#[test]
fn single_predicate_dependence_counts_shared_rules() {
    let verifier = verifier_of(vec![countdown_rule(0), countup_rule(1)]);
    let shared = verifier.single_predicate_dependent(&vec![vec![0, 1], vec![0]]);
    assert_eq!(shared.unwrap().name(), "p");
    assert!(verifier.single_predicate_dependent(&vec![vec![0], vec![1]]).is_none());
    assert!(verifier.single_predicate_dependent(&vec![vec![0, 1], vec![0, 1]]).is_none());
}

#[test]
fn analyzer_reports_termination_of_components() {
    let mut analyzer = AnnotationAnalyzer::new(program_of(vec![countdown_rule(0)]));
    let verifier = RuleVerifier::new();
    let report = analyzer.termination_report(&verifier);
    assert_eq!(report.len(), 1);
    assert_eq!(report[0].0, vec![0]);
    assert!(matches!(report[0].1, SccTermination::CyclesChecked { .. }));
    assert!(analyzer.check_termination(&verifier));
    assert_eq!(analyzer.program().rules().len(), 1);
}

#[test]
fn analyzer_refuses_an_unshown_component() {
    let mut analyzer = AnnotationAnalyzer::new(program_of(vec![countup_rule(0)]));
    let verifier = RuleVerifier::new();
    assert!(!analyzer.check_termination(&verifier));
}
