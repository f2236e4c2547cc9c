use nemo::execution::planning::normalization::atom::{BodyAtom, GroundAtom, HeadAtom};
use nemo::execution::planning::normalization::global_annotation::NormalizedGlobalAnnotation;
use nemo::execution::planning::normalization::operation::Operation;
use nemo::execution::planning::verification::rule_verification::filters::Filter;
use nemo::execution::planning::verification::rule_verification::z3_goal::{VerificationGoal, VerificationStatus};
use nemo::execution::planning::verification::rule_verification::z3_restriction::{new_entailment, Restriction};
use nemo::execution::planning::verification::rule_verification::z3_translation::{conjoin, disjoin, RuleTranslator};
use nemo::execution::planning::verification::smt::{render_terms, SatOutcome, SmtOp, SmtTerm};
use nemo::rule_model::components::operation_kind::OperationKind;
use nemo::rule_model::components::tag::Tag;
use nemo::rule_model::components::variable::{GroundTerm, Primitive, Variable};

fn var(name: &str) -> Operation {
    Operation::Primitive(Primitive::Variable(Variable::universal(name)))
}

fn lit(value: i64) -> Operation {
    Operation::Primitive(Primitive::Ground(GroundTerm::new(value)))
}

fn op(kind: OperationKind, a: Operation, b: Operation) -> Operation {
    Operation::Operation { kind, subterms: vec![a, b] }
}

fn text(t: SmtTerm) -> String {
    render_terms(&vec![t], "")
}

/// #assert p(?A): ?A > 3.
fn above_three() -> NormalizedGlobalAnnotation {
    NormalizedGlobalAnnotation {
        head: BodyAtom::new(Tag::new("p"), vec![Variable::universal("A")]),
        body: vec![op(OperationKind::NumericGreaterthan, var("A"), lit(3))],
    }
}

#[test]
fn goals_from_annotations_use_position_constants() {
    let mut next_var = 5;
    let goal = VerificationGoal::new_from_annotation(&above_three(), &mut next_var);
    assert_eq!(next_var, 6);
    assert_eq!(goal.pos_vars, vec![5]);
    assert_eq!(goal.to_string(), "(> v5 3)");
    assert_eq!(goal.status, VerificationStatus::Unknown);
    let body = BodyAtom::new(Tag::new("p"), vec![Variable::universal("X")]);
    let cache = vec![(Variable::universal("X"), SmtTerm::Var(9))];
    let goals = goal.goal_from_body_atom(&body, &cache);
    assert_eq!(render_terms(&goals, ";"), "(> v9 3);");
    let head = HeadAtom::new(Tag::new("p"), vec![Primitive::Ground(GroundTerm::new(4))]);
    let goals = goal.goal_from_head_atom(&head, &cache);
    assert_eq!(render_terms(&goals, ";"), "(> 4 3);");
}

#[test]
fn refuted_goals_stay_refuted() {
    let mut next_var = 0;
    let mut goal = VerificationGoal::new_from_annotation(&above_three(), &mut next_var);
    assert!(goal.goal_proven());
    assert!(goal.is_proven());
    assert!(!goal.goal_proven());
    assert!(goal.goal_refuted());
    assert!(goal.is_refuted());
    assert!(!goal.goal_proven());
    assert!(goal.is_refuted());
    assert!(!goal.goal_refuted());
}

#[test]
fn propagated_goals_move_to_positions() {
    let atom = BodyAtom::new(Tag::new("q"), vec![Variable::universal("X")]);
    let cache = vec![(Variable::universal("X"), SmtTerm::Var(9))];
    let prop = SmtTerm::Apply(SmtOp::Lt, Box::new(SmtTerm::Var(9)), Box::new(SmtTerm::Int(10)));
    let mut next_var = 20;
    let mut goal = VerificationGoal::new_from_propagation(&atom, &cache, &prop, &mut next_var);
    assert_eq!(goal.to_string(), "(< v20 10)");
    goal.add_propagated_goal(&atom, &cache, &prop);
    assert_eq!(goal.verification_goals.len(), 2);
    assert_eq!(render_terms(&goal.verification_goals, ";"), "(< v20 10);(and true (< v20 10));");
}

#[test]
fn restrictions_from_propagation() {
    let head = HeadAtom::new(Tag::new("q"), vec![Primitive::Variable(Variable::universal("Y"))]);
    let cache = vec![(Variable::universal("Y"), SmtTerm::Var(2))];
    let prop = SmtTerm::Apply(SmtOp::Gt, Box::new(SmtTerm::Var(2)), Box::new(SmtTerm::Int(0)));
    let mut next_var = 10;
    let mut restriction = Restriction::new_from_propagation(&head, &cache, &prop, &mut next_var);
    assert_eq!(restriction.restriction_head_vars, vec![10]);
    assert_eq!(restriction.to_string(), "(> v10 0), ");
    assert!(restriction.has_lower_bound(0));
    assert!(!restriction.has_upper_bound(0));
    let body = BodyAtom::new(Tag::new("q"), vec![Variable::universal("X")]);
    let body_cache = vec![(Variable::universal("X"), SmtTerm::Var(7))];
    assert_eq!(text(restriction.get_restrictions_for_body(&body, &body_cache)), "(or false (> v7 0))");
    // A weaker restriction adds new entailments, the same one does not.
    let weaker = SmtTerm::Apply(SmtOp::Gt, Box::new(SmtTerm::Var(2)), Box::new(SmtTerm::Int(-5)));
    assert!(restriction.add_restriction_from_propagation(&head, &cache, &weaker));
    assert_eq!(restriction.restrictions.len(), 2);
    assert!(!restriction.add_restriction_from_propagation(&head, &cache, &prop));
    assert!(!restriction.check_new_entailment(&SmtTerm::Apply(SmtOp::Gt, Box::new(SmtTerm::Var(10)), Box::new(SmtTerm::Int(1)))));
    assert!(new_entailment(SatOutcome::Sat));
    assert!(!new_entailment(SatOutcome::Unknown));
}

#[test]
fn filters_apply_to_a_term() {
    let filter = Filter::new(op(OperationKind::NumericLessthan, var("F"), lit(8)));
    let cache = vec![(Variable::universal("X"), SmtTerm::Var(4))];
    let t = filter.get_filter(&Primitive::Variable(Variable::universal("X")), &cache);
    assert_eq!(text(t), "(< v4 8)");
    let t = filter.get_filter(&Primitive::Ground(GroundTerm::new(2)), &cache);
    assert_eq!(text(t), "(< 2 8)");
}

#[test]
fn operations_translate_to_terms() {
    let translator = RuleTranslator::new();
    let cache = vec![(Variable::universal("X"), SmtTerm::Var(1)), (Variable::universal("Y"), SmtTerm::Var(2))];
    let sum = op(OperationKind::NumericSum, var("X"), lit(-1));
    let t = translator.translate_operation(&op(OperationKind::Unequals, var("Y"), sum), &cache);
    assert_eq!(text(t), "(distinct v2 (+ v1 (- 1)))");
    let fact = GroundAtom::new(Tag::new("p"), vec![GroundTerm::new(7)]);
    assert_eq!(text(translator.translate_ground_assertion(&above_three(), &fact)), "(and true (> 7 3))");
    let atom = BodyAtom::new(Tag::new("p"), vec![Variable::universal("Y")]);
    assert_eq!(text(translator.translate_body_assertion(&above_three(), &atom, &cache)), "(and true (> v2 3))");
    assert!(RuleTranslator::is_filter_operation(&SmtTerm::Apply(SmtOp::Gt, Box::new(SmtTerm::Var(0)), Box::new(SmtTerm::Int(1)))));
    assert!(!RuleTranslator::is_filter_operation(&SmtTerm::Var(0)));
}

#[test]
fn conjunctions_and_disjunctions() {
    let terms = vec![SmtTerm::Bool(true), SmtTerm::Var(3)];
    assert_eq!(text(conjoin(&terms)), "(and (and true true) v3)");
    assert_eq!(text(disjoin(&vec![])), "false");
}
