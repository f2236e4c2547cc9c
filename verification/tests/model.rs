use nemo::execution::planning::normalization::atom::{BodyAtom, HeadAtom};
use nemo::execution::planning::normalization::global_annotation::{select_bound_variables, NormalizedGlobalAnnotation};
use nemo::execution::planning::normalization::operation::Operation as NormalizedOperation;
use nemo::execution::planning::normalization::termination_annotation::{
    NormalizedTerminationAnnotation, TerminationDirection,
};
use nemo::execution::planning::normalization::type_annotation::NormalizedTypeAnnotation;
use nemo::rule_model::components::atom::Atom;
use nemo::rule_model::components::global_annotation::{GlobalAnnotation, GlobalAnnotationKind};
use nemo::rule_model::components::operation_kind::OperationKind;
use nemo::rule_model::components::tag::Tag;
use nemo::rule_model::components::term::{Operation, Term};
use nemo::rule_model::components::termination_annotation::{
    TerminationAnnotation, TerminationDirection as ModelDirection,
};
use nemo::rule_model::components::type_annotation::{TypeAnnotation, ValueDomain};
use nemo::rule_model::components::validation::{all_variables_contained, check_only_equalities, ValidationError};
use nemo::rule_model::components::variable::{GroundTerm, Primitive, Variable};

fn var_term(name: &str) -> Term {
    Term::Primitive(Primitive::Variable(Variable::universal(name)))
}

fn ground_term(value: i64) -> Term {
    Term::Primitive(Primitive::Ground(GroundTerm::new(value)))
}

fn atom(pred: &str, vars: &[&str]) -> Atom {
    Atom::new(Tag::new(pred), vars.iter().map(|v| var_term(v)).collect())
}

fn operation(kind: OperationKind, a: Term, b: Term) -> Operation {
    Operation::new(kind, vec![a, b])
}

#[test]
fn global_annotations_validate_their_variables() {
    let good = GlobalAnnotation::new(
        GlobalAnnotationKind::Assert,
        atom("p", &["X"]),
        vec![operation(OperationKind::Equal, var_term("X"), ground_term(1))],
    );
    assert_eq!(good.validate(), Ok(()));
    let foreign = GlobalAnnotation::new(
        GlobalAnnotationKind::Assert,
        atom("p", &["X"]),
        vec![operation(OperationKind::Equal, var_term("Y"), ground_term(1))],
    );
    assert_eq!(foreign.validate(), Err(ValidationError::ConflictingAnnotationVariables));
    let comparison = GlobalAnnotation::new(
        GlobalAnnotationKind::Verify,
        atom("p", &["X"]),
        vec![operation(OperationKind::NumericLessthan, var_term("X"), ground_term(1))],
    );
    assert_eq!(comparison.validate(), Err(ValidationError::UnsupportedAnnotationRestrictions));
}

#[test]
fn variable_containment_and_equalities() {
    let xs = vec![Variable::universal("X")];
    let xys = vec![Variable::universal("X"), Variable::universal("Y")];
    assert!(all_variables_contained(&xs, &xys));
    assert!(!all_variables_contained(&xys, &xs));
    assert!(check_only_equalities(&vec![operation(OperationKind::Unequals, var_term("X"), ground_term(0))]));
    assert!(!check_only_equalities(&vec![operation(OperationKind::NumericSum, var_term("X"), ground_term(0))]));
}

#[test]
fn global_annotations_normalize() {
    let annotation = GlobalAnnotation::new(
        GlobalAnnotationKind::Assert,
        atom("p", &["X", "Y"]),
        vec![operation(OperationKind::NumericLessthan, var_term("X"), var_term("Y"))],
    );
    let normalized = NormalizedGlobalAnnotation::normalize_global_annotation(&annotation);
    assert_eq!(normalized.head().predicate().name(), "p");
    let names: Vec<&str> = normalized.variables().iter().map(|v| v.name()).collect();
    assert_eq!(names, vec!["X", "Y"]);
    assert_eq!(normalized.body().len(), 1);
}

#[test]
fn termination_annotations_normalize() {
    let annotation = TerminationAnnotation::new(atom("p", &["Z"]), var_term("Z"), ModelDirection::Increasing);
    let normalized = NormalizedTerminationAnnotation::normalize_termination_annotation(&annotation);
    assert_eq!(normalized.direction(), TerminationDirection::Increasing);
    assert_eq!(normalized.head().predicate().name(), "p");
    assert!(matches!(normalized.body(), NormalizedOperation::Primitive(Primitive::Variable(_))));
}

#[test]
fn bounded_annotation_variables() {
    // #assert p(?A, ?B): ?A < 3, ?B > 0.
    let annotation = NormalizedGlobalAnnotation {
        head: BodyAtom::new(Tag::new("p"), vec![Variable::universal("A"), Variable::universal("B")]),
        body: vec![
            NormalizedOperation::Operation {
                kind: OperationKind::NumericLessthan,
                subterms: vec![
                    NormalizedOperation::Primitive(Primitive::Variable(Variable::universal("A"))),
                    NormalizedOperation::Primitive(Primitive::Ground(GroundTerm::new(3))),
                ],
            },
            NormalizedOperation::Operation {
                kind: OperationKind::NumericGreaterthan,
                subterms: vec![
                    NormalizedOperation::Primitive(Primitive::Variable(Variable::universal("B"))),
                    NormalizedOperation::Primitive(Primitive::Ground(GroundTerm::new(0))),
                ],
            },
        ],
    };
    let head = HeadAtom::new(
        Tag::new("p"),
        vec![Primitive::Variable(Variable::universal("X")), Primitive::Variable(Variable::universal("Y"))],
    );
    assert_eq!(annotation.bound_above_vars(&head).len(), 1);
    assert_eq!(annotation.bound_above_vars(&head)[0].name(), "X");
    assert_eq!(annotation.bound_below_vars(&head)[0].name(), "Y");
    let selected = select_bound_variables(
        &vec![Variable::universal("A"), Variable::universal("B")],
        &vec![Primitive::Ground(GroundTerm::new(1)), Primitive::Variable(Variable::universal("Y"))],
        &vec![Variable::universal("A"), Variable::universal("B")],
    );
    assert_eq!(selected.len(), 1);
    assert_eq!(selected[0].name(), "Y");
}

#[test]
fn type_annotations_display() {
    let annotation = TypeAnnotation::new(Tag::new("t"), vec![ValueDomain::Int, ValueDomain::PlainString, ValueDomain::MapValue]);
    assert_eq!(annotation.to_string(), "#type t ( int, string, map).");
    assert_eq!(TypeAnnotation::new(Tag::new("e"), vec![]).to_string(), "#type e ( ).");
    assert_eq!(annotation.validate(), Ok(()));
    let normalized = NormalizedTypeAnnotation::normalize_type_annotation(&annotation);
    assert_eq!(normalized.arity(), 3);
    assert_eq!(normalized.to_string(), "#type t: Int, PlainString, Map");
    assert_eq!(ValueDomain::NonNegativeLong.name(), "non-negative long");
}
