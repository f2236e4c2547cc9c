use nemo::execution::planning::verification::smt::{
    bound_is_finite, check_sat, lower_bound, render_optimization, render_script, substitute, upper_bound, SatOutcome,
    SmtOp, SmtTerm,
};

fn apply(op: SmtOp, a: SmtTerm, b: SmtTerm) -> SmtTerm {
    SmtTerm::Apply(op, Box::new(a), Box::new(b))
}

#[test]
fn scripts_declare_and_assert() {
    let assertions = vec![
        apply(SmtOp::Gt, SmtTerm::Var(3), SmtTerm::Int(-2)),
        apply(SmtOp::Eq, SmtTerm::Var(1), apply(SmtOp::Add, SmtTerm::Var(3), SmtTerm::Int(4))),
        SmtTerm::Not(Box::new(SmtTerm::Bool(false))),
    ];
    assert_eq!(
        render_script(&assertions),
        "(declare-const v3 Int)\n(declare-const v1 Int)\n(assert (> v3 (- 2)))\n(assert (= v1 (+ v3 4)))\n(assert (not false))\n"
    );
    assert_eq!(render_script(&vec![]), "");
}

#[test]
fn optimization_scripts_name_their_objective() {
    let assertions = vec![apply(SmtOp::Le, SmtTerm::Var(0), SmtTerm::Int(7))];
    assert_eq!(
        render_optimization(&assertions, &SmtTerm::Var(0), true),
        "(declare-const v0 Int)\n(assert (<= v0 7))\n(maximize v0)\n"
    );
    assert_eq!(
        render_optimization(&assertions, &apply(SmtOp::Sub, SmtTerm::Var(2), SmtTerm::Var(0)), false),
        "(declare-const v0 Int)\n(declare-const v2 Int)\n(assert (<= v0 7))\n(minimize (- v2 v0))\n"
    );
}

#[test]
fn contradictory_bounds_are_unsatisfiable() {
    let assertions = vec![
        apply(SmtOp::Gt, SmtTerm::Var(0), SmtTerm::Int(3)),
        apply(SmtOp::Lt, SmtTerm::Var(0), SmtTerm::Int(2)),
    ];
    assert_eq!(check_sat(&assertions), SatOutcome::Unsat);
}

#[test]
fn consistent_bounds_are_satisfiable() {
    let assertions = vec![
        apply(SmtOp::Gt, SmtTerm::Var(0), SmtTerm::Int(3)),
        apply(SmtOp::Lt, SmtTerm::Var(0), SmtTerm::Int(5)),
    ];
    assert_eq!(check_sat(&assertions), SatOutcome::Sat);
    assert_eq!(check_sat(&vec![]), SatOutcome::Sat);
}

#[test]
fn bounds_of_a_bounded_objective() {
    let assertions = vec![
        apply(SmtOp::Ge, SmtTerm::Var(0), SmtTerm::Int(-3)),
        apply(SmtOp::Le, SmtTerm::Var(0), SmtTerm::Int(8)),
    ];
    let upper = upper_bound(&assertions, &SmtTerm::Var(0));
    let lower = lower_bound(&assertions, &SmtTerm::Var(0));
    assert_eq!(upper.as_deref(), Some("8"));
    assert_eq!(lower.as_deref(), Some("(- 3)"));
    assert!(bound_is_finite(&upper));
    assert!(bound_is_finite(&lower));
}

#[test]
fn bounds_of_an_unbounded_objective() {
    let assertions = vec![apply(SmtOp::Ge, SmtTerm::Var(0), SmtTerm::Int(0))];
    let upper = upper_bound(&assertions, &SmtTerm::Var(0));
    assert!(upper.as_deref().unwrap().contains("oo"));
    assert!(!bound_is_finite(&upper));
    assert!(bound_is_finite(&lower_bound(&assertions, &SmtTerm::Var(0))));
}

#[test]
fn finiteness_of_reported_bounds() {
    assert!(!bound_is_finite(&None));
    assert!(bound_is_finite(&Some("12".to_string())));
    assert!(!bound_is_finite(&Some("(* (- 1) oo)".to_string())));
}

#[test]
fn substitution_replaces_constants_at_once() {
    let t = apply(SmtOp::Add, SmtTerm::Var(0), apply(SmtOp::Mul, SmtTerm::Var(1), SmtTerm::Var(0)));
    let pairs = vec![(0, SmtTerm::Var(1)), (1, SmtTerm::Int(5)), (0, SmtTerm::Int(9))];
    let r = substitute(&t, &pairs);
    assert_eq!(render_script(&vec![apply(SmtOp::Eq, r, SmtTerm::Int(0))]),
        "(declare-const v1 Int)\n(assert (= (+ v1 (* 5 v1)) 0))\n");
}

#[test]
fn substitution_keeps_unsatisfiability() {
    // x > y, y > x is unsatisfiable, and stays so with y replaced by x + 1.
    let assertions = vec![
        apply(SmtOp::Gt, SmtTerm::Var(0), SmtTerm::Var(1)),
        apply(SmtOp::Gt, SmtTerm::Var(1), SmtTerm::Var(0)),
    ];
    assert_eq!(check_sat(&assertions), SatOutcome::Unsat);
    let pairs = vec![(1, apply(SmtOp::Add, SmtTerm::Var(0), SmtTerm::Int(1)))];
    let substituted: Vec<SmtTerm> = assertions.iter().map(|t| substitute(t, &pairs)).collect();
    assert_eq!(check_sat(&substituted), SatOutcome::Unsat);
}
