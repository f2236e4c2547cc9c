use nemo::execution::planning::normalization::atom::{BodyAtom, HeadAtom};
use nemo::execution::planning::normalization::global_annotation::NormalizedGlobalAnnotation;
use nemo::execution::planning::normalization::operation::Operation;
use nemo::execution::planning::normalization::program::NormalizedProgram;
use nemo::execution::planning::normalization::rule::NormalizedRule;
use nemo::execution::planning::normalization::rule_annotation::NormalizedRuleAnnotation;
use nemo::execution::planning::verification::clauses::{
    check_formulas, render_clause_script, PredicateApplication, PredicateFormula,
};
use nemo::execution::planning::verification::completion::Completion;
use nemo::execution::planning::verification::rule_verifier::RuleVerifier;
use nemo::execution::planning::verification::smt::{render_terms, SatOutcome, SmtOp, SmtTerm};
use nemo::execution::planning::verification::smt_builder::{Lowering, LoweringError};
use nemo::rule_model::components::operation_kind::OperationKind;
use nemo::rule_model::components::tag::Tag;
use nemo::rule_model::components::variable::{GroundTerm, Primitive, Variable};

fn var(name: &str) -> Operation {
    Operation::Primitive(Primitive::Variable(Variable::universal(name)))
}

fn lit(value: i64) -> Operation {
    Operation::Primitive(Primitive::Ground(GroundTerm::new(value)))
}

fn op(kind: OperationKind, a: Operation, b: Operation) -> Operation {
    Operation::Operation { kind, subterms: vec![a, b] }
}

/// #assert pred(?A): ?A > bound.
fn above(pred: &str, bound: i64) -> NormalizedGlobalAnnotation {
    NormalizedGlobalAnnotation {
        head: BodyAtom::new(Tag::new(pred), vec![Variable::universal("A")]),
        body: vec![op(OperationKind::NumericGreaterthan, var("A"), lit(bound))],
    }
}

/// q(?X) :- p(?X), ?X > 2.
fn filter_rule() -> NormalizedRule {
    NormalizedRule::new(
        0,
        vec![HeadAtom::new(Tag::new("q"), vec![Primitive::Variable(Variable::universal("X"))])],
        vec![BodyAtom::new(Tag::new("p"), vec![Variable::universal("X")])],
        vec![],
        vec![op(OperationKind::NumericGreaterthan, var("X"), lit(2))],
        vec![],
    )
}

fn x_cache() -> Vec<(Variable, SmtTerm)> {
    vec![(Variable::universal("X"), SmtTerm::Var(0))]
}

fn formula_text(formulas: Vec<PredicateFormula>, arities: Vec<usize>) -> String {
    render_clause_script(&arities, &formulas)
}

#[test]
fn clause_scripts_declare_predicates_and_constants() {
    let formulas = vec![
        PredicateFormula::Application(PredicateApplication { predicate: 1, args: vec![SmtTerm::Var(3), SmtTerm::Int(-2)] }),
        PredicateFormula::Application(PredicateApplication { predicate: 0, args: vec![] }),
        PredicateFormula::Term(SmtTerm::Apply(SmtOp::Gt, Box::new(SmtTerm::Var(3)), Box::new(SmtTerm::Int(0)))),
    ];
    assert_eq!(
        formula_text(formulas, vec![0, 2]),
        "(declare-fun p0 () Bool)\n(declare-fun p1 (Int Int ) Bool)\n(declare-const v3 Int)\n\
         (assert (p1 v3 (- 2) ))\n(assert p0)\n(assert (> v3 0))\n"
    );
}

#[test]
fn uninterpreted_predicates_in_checks() {
    // p(x) and x > 1 has a model; p(x) and (x < 1) = (x >= 1) has none
    let app = || PredicateFormula::Application(PredicateApplication { predicate: 0, args: vec![SmtTerm::Var(0)] });
    let gt = SmtTerm::Apply(SmtOp::Gt, Box::new(SmtTerm::Var(0)), Box::new(SmtTerm::Int(1)));
    let check = check_formulas(&vec![1], &vec![app(), PredicateFormula::Term(gt)], &vec![0]);
    assert_eq!(check.outcome, SatOutcome::Sat);
    assert_eq!(check.values.len(), 1);
    let value: i64 = check.values[0].clone().expect("the model gives x").parse().expect("an integer");
    assert!(value > 1);
    let contradiction = SmtTerm::Apply(
        SmtOp::Eq,
        Box::new(SmtTerm::Apply(SmtOp::Lt, Box::new(SmtTerm::Var(0)), Box::new(SmtTerm::Int(1)))),
        Box::new(SmtTerm::Apply(SmtOp::Ge, Box::new(SmtTerm::Var(0)), Box::new(SmtTerm::Int(1)))),
    );
    let check = check_formulas(&vec![1], &vec![app(), PredicateFormula::Term(contradiction)], &vec![]);
    assert_eq!(check.outcome, SatOutcome::Unsat);
}

#[test]
fn predicate_verifier_validates_a_rule() {
    let program = NormalizedProgram::new(vec![filter_rule()], vec![], vec![above("p", 0), above("q", 1)], vec![], vec![]);
    let validation = RuleVerifier::verify_rule(&program, &program.rules()[0]);
    assert_eq!(validation.outcome, SatOutcome::Unsat);
    assert!(validation.model.is_empty());
    assert_eq!(
        validation.script,
        "(declare-fun p0 (Int ) Bool)\n(declare-fun p1 (Int ) Bool)\n(declare-const v0 Int)\n\
         (assert (p1 v0 ))\n(assert (and true (> v0 0)))\n(assert (> v0 2))\n(assert (not (and true (> v0 1))))\n"
    );
}

#[test]
fn predicate_verifier_finds_a_violation() {
    let program = NormalizedProgram::new(vec![filter_rule()], vec![], vec![above("p", 0), above("q", 5)], vec![], vec![]);
    let validation = RuleVerifier::verify_rule(&program, &program.rules()[0]);
    assert_eq!(validation.outcome, SatOutcome::Sat);
    assert_eq!(validation.model.len(), 1);
    assert_eq!(validation.model[0].0.name(), "X");
    let value: i64 = validation.model[0].1.clone().expect("the model gives X").parse().expect("an integer");
    assert!(value > 2 && value <= 5);
}

#[test]
fn predicate_verifier_translations() {
    let verifier = RuleVerifier::new();
    let decls = vec![(Tag::new("q"), 1), (Tag::new("p"), 2), (Tag::new("q"), 1)];
    let cache = vec![(Variable::universal("X"), SmtTerm::Var(4)), (Variable::universal("Y"), SmtTerm::Var(7))];
    let atom = BodyAtom::new(Tag::new("p"), vec![Variable::universal("Y"), Variable::universal("X")]);
    let head = HeadAtom::new(Tag::new("q"), vec![Primitive::Ground(GroundTerm::new(6))]);
    let formulas = vec![verifier.translate_body_atom(&atom, &cache, &decls), verifier.translate_head_atom(&head, &cache, &decls)];
    assert_eq!(
        formula_text(formulas, vec![1, 2, 1]),
        "(declare-fun p0 (Int ) Bool)\n(declare-fun p1 (Int Int ) Bool)\n(declare-fun p2 (Int ) Bool)\n\
         (declare-const v7 Int)\n(declare-const v4 Int)\n(assert (p1 v7 v4 ))\n(assert (p2 6 ))\n"
    );
    // an equality compares two truth values
    let equality = op(
        OperationKind::Equal,
        op(OperationKind::NumericLessthan, var("X"), lit(1)),
        op(OperationKind::NumericGreaterthaneq, var("Y"), lit(2)),
    );
    assert_eq!(render_terms(&vec![verifier.translate_operation(&equality, &cache)], ""), "(= (< v4 1) (>= v7 2))");
    let body = verifier.translate_body_assertion(&above("p", 3), &atom, &cache);
    assert_eq!(render_terms(&vec![body], ""), "(and true (> v7 3))");
}

#[test]
fn predicate_verifier_fresh_variables() {
    let mut verifier = RuleVerifier::new();
    assert_eq!(verifier.get_fresh_var(), "V1");
    assert_eq!(verifier.get_fresh_var(), "V2");
    assert_eq!(verifier.fresh_var_counter, 2);
}

#[test]
fn completion_implications_of_a_rule() {
    let mut completion = Completion { fresh_var_counter: 3 };
    let decls = vec![(Tag::new("q"), 1), (Tag::new("p"), 1)];
    let clauses = completion.translate_rule(&filter_rule(), &decls);
    assert_eq!(completion.fresh_var_counter, 4);
    assert_eq!(clauses.len(), 1);
    let clause = &clauses[0];
    let mut formulas = vec![clause.premise.copy()];
    for f in clause.conclusion.iter() {
        formulas.push(f.copy());
    }
    assert_eq!(
        formula_text(formulas, vec![1, 1]),
        "(declare-fun p0 (Int ) Bool)\n(declare-fun p1 (Int ) Bool)\n(declare-const v3 Int)\n\
         (assert (p0 v3 ))\n(assert (p1 v3 ))\n(assert (> v3 2))\n"
    );
}

#[test]
fn completion_of_a_program() {
    let program = NormalizedProgram::new(vec![filter_rule()], vec![], vec![], vec![], vec![]);
    let completion = Completion { fresh_var_counter: 0 };
    completion.translate_program(&program);
    let mut completion = completion;
    assert_eq!(completion.get_fresh_var(), "V1");
}

#[test]
fn lowering_declares_and_finds_predicates() {
    let mut lowering = Lowering::new();
    lowering.build_predicate(Tag::new("p"), 2);
    lowering.build_predicate(Tag::new("q"), 1);
    lowering.build_predicate(Tag::new("p"), 2);
    assert_eq!(lowering.get_predicate_fun(&Tag::new("p")), 2);
    assert_eq!(lowering.get_predicate_fun(&Tag::new("q")), 1);
}

#[test]
fn lowering_of_operations() {
    let mut lowering = Lowering::new();
    let cache = x_cache();
    let quotient = op(OperationKind::NumericDivision, var("X"), lit(2));
    let t = lowering.lower_operation(&quotient, &cache).expect("lowers");
    assert_eq!(render_terms(&vec![t], ""), "(div v0 2)");
    // an equality compares operands of any sort
    let mixed = op(OperationKind::Equal, var("X"), op(OperationKind::NumericLessthan, var("X"), lit(1)));
    let t = lowering.lower_operation(&mixed, &cache).expect("lowers");
    assert_eq!(render_terms(&vec![t], ""), "(= v0 (< v0 1))");
    // a sum takes integers
    let wrong = op(OperationKind::NumericSum, var("X"), op(OperationKind::NumericLessthan, var("X"), lit(1)));
    assert_eq!(lowering.lower_operation(&wrong, &cache).unwrap_err(), LoweringError::IntExpected);
    let annotation = NormalizedRuleAnnotation { body: vec![op(OperationKind::NumericLessthaneq, var("X"), lit(9))] };
    assert_eq!(render_terms(&lowering.lower_rule_annotation(&annotation, &cache), ";"), "(<= v0 9);");
    let ground = lowering.lower_primitive(&Primitive::Ground(GroundTerm::new(-4)), &cache);
    assert_eq!(render_terms(&vec![ground], ""), "(- 4)");
}

#[test]
fn lowering_restrictions_of_registered_variables() {
    let lowering = Lowering::new();
    let restrictions = vec![(Variable::universal("X"), (1, 5)), (Variable::universal("Z"), (0, 2))];
    let bounds = lowering.lower_restrictions(&restrictions, &x_cache());
    assert_eq!(render_terms(&bounds, ";"), "(>= v0 1);(< v0 5);");
}

#[test]
fn lowering_var_maps_number_variables() {
    let lowering = Lowering::new();
    let map = lowering.build_var_map(&vec![Variable::universal("A"), Variable::universal("B")]);
    assert_eq!(map.len(), 2);
    assert_eq!(map[1].0.name(), "B");
    assert_eq!(render_terms(&vec![map[1].1.clone()], ""), "v1");
}

#[test]
fn lowering_script_of_a_rule_check() {
    let mut rule = filter_rule();
    rule.annotations = vec![NormalizedRuleAnnotation { body: vec![op(OperationKind::NumericLessthan, var("X"), lit(10))] }];
    let script = Lowering::rule_script(&rule, &vec![(Variable::universal("X"), (0, 4))]);
    assert_eq!(
        script,
        "(declare-fun p0 (Int ) Bool)\n(declare-fun p1 (Int ) Bool)\n(declare-const v0 Int)\n\
         (assert (p1 v0 ))\n(assert (> v0 2))\n(assert (< v0 10))\n(assert (>= v0 0))\n(assert (< v0 4))\n"
    );
    assert!(Lowering::check_verdict(SatOutcome::Sat));
    assert!(!Lowering::check_verdict(SatOutcome::Unsat));
    assert!(!Lowering::check_verdict(SatOutcome::Unknown));
}

#[test]
fn lowering_problem_of_head_ranges() {
    let restrictions = vec![(Variable::universal("X"), (0, 4))];
    let annotation_ops = vec![op(OperationKind::NumericLessthan, var("Y"), lit(10))];
    let body_ops = vec![op(OperationKind::Equal, var("Y"), op(OperationKind::NumericSum, var("X"), lit(1)))];
    let rule_vars = vec![Variable::universal("X"), Variable::universal("Y")];
    let problem = Lowering::head_range_problem(&restrictions, &annotation_ops, &body_ops, &vec![Variable::universal("Y")], &rule_vars)
        .expect("the conditions lower");
    assert_eq!(
        problem.script,
        "(declare-const v0 Int)\n(declare-const v1 Int)\n(assert (>= v0 0))\n(assert (< v0 4))\n\
         (assert (< v1 10))\n(assert (= v1 (+ v0 1)))\n"
    );
    assert_eq!(problem.objectives.len(), 1);
    assert_eq!(problem.objectives[0].0.name(), "Y");
    assert_eq!(problem.objectives[0].1, "v1");
    let not_a_condition = vec![op(OperationKind::NumericSum, var("Y"), lit(1))];
    let error = Lowering::head_range_problem(&restrictions, &not_a_condition, &body_ops, &vec![], &rule_vars).unwrap_err();
    assert_eq!(error, LoweringError::BoolExpected);
    let ranges = Lowering::head_ranges(&vec![Variable::universal("Y")], &vec![1], &vec![4]);
    assert_eq!(ranges.len(), 1);
    assert_eq!(ranges[0].1, (1, 5));
}

#[test]
fn completion_translates_integer_equality() {
    let completion = Completion { fresh_var_counter: 0 };
    let cache = x_cache();
    let equality = op(OperationKind::Equal, var("X"), lit(3));
    let t = completion.translate_operation(&equality, &cache);
    assert!(matches!(&t, SmtTerm::Apply(SmtOp::Eq, _, _)));
    assert_eq!(render_terms(&vec![t], ""), "(= v0 3)");
    let verifier = RuleVerifier::new();
    let unequal = op(OperationKind::Unequals, op(OperationKind::NumericSum, var("X"), lit(1)), lit(2));
    assert_eq!(render_terms(&vec![verifier.translate_operation(&unequal, &cache)], ""), "(distinct (+ v0 1) 2)");
}

#[test]
fn rule_annotation_variables_keep_repeats() {
    let annotation = NormalizedRuleAnnotation {
        body: vec![
            op(OperationKind::NumericLessthan, var("X"), var("Y")),
            op(OperationKind::NumericLessthaneq, var("X"), lit(9)),
        ],
    };
    let names: Vec<String> = annotation.variables().iter().map(|v| v.name().to_string()).collect();
    assert_eq!(names, vec!["X", "Y", "X"]);
}
