use nemo::execution::planning::normalization::atom::BodyAtom;
use nemo::execution::planning::normalization::generator::VariableGenerator;
use nemo::execution::planning::verification::annotation_analysis::analysis_report::{AnalysisError, AnalysisErrorKind};
use nemo::execution::planning::verification::completion::Completion;
use nemo::execution::planning::verification::type_verification::relation_types::RelationTypes;
use nemo::execution::planning::verification::type_verification::{FunctionTypePropagation, TypeVerifier};
use nemo::execution::verification_parameters::{ValueAnnotationParameters, VerificationParameters};
use nemo::parser::ast::types::{literal_domains, Sort, TypeLiteral};
use nemo::rule_model::components::atom::Atom;
use nemo::rule_model::components::operation_kind::OperationKind;
use nemo::rule_model::components::tag::Tag;
use nemo::rule_model::components::term::Term;
use nemo::rule_model::components::type_annotation::ValueDomain;
use nemo::rule_model::components::variable::{GroundTerm, Primitive, Variable};

#[test]
fn fact_mismatch_displays() {
    let error = AnalysisError::new(AnalysisErrorKind::GlobalAssertFactMismatch, "p(1)".to_string());
    assert_eq!(error.to_string(), "foo");
    assert_eq!(error.kind, AnalysisErrorKind::GlobalAssertFactMismatch);
    assert_eq!(error.text, "p(1)");
}

#[test]
fn completion_names_fresh_variables() {
    let mut completion = Completion { fresh_var_counter: 9 };
    assert_eq!(completion.get_fresh_var(), "V10");
    assert_eq!(completion.get_fresh_var(), "V11");
    assert_eq!(completion.fresh_var_counter, 11);
}

#[test]
fn generated_variables_are_numbered() {
    let mut generator = VariableGenerator::new();
    assert_eq!(generator.fresh_variable().name(), "__GENERATED_1");
    assert_eq!(generator.fresh_variable().name(), "__GENERATED_2");
}

#[test]
fn atoms_are_normalized_with_fresh_variables() {
    // p(?X, ?X, 3) becomes p(?X, ?G1, ?G2) with ?G1 = ?X and ?G2 = 3.
    let atom = Atom::new(
        Tag::new("p"),
        vec![
            Term::Primitive(Primitive::Variable(Variable::universal("X"))),
            Term::Primitive(Primitive::Variable(Variable::universal("X"))),
            Term::Primitive(Primitive::Ground(GroundTerm::new(3))),
        ],
    );
    let mut generator = VariableGenerator::new();
    let (normalized, ops) = BodyAtom::normalize_atom(&mut generator, &atom);
    let names: Vec<&str> = normalized.terms().iter().map(|v| v.name()).collect();
    assert_eq!(names, vec!["X", "__GENERATED_1", "__GENERATED_2"]);
    assert_eq!(ops.len(), 2);
    assert_eq!(normalized.predicate().name(), "p");
}

#[test]
fn distinct_variables_need_no_operations() {
    let atom = Atom::new(
        Tag::new("q"),
        vec![
            Term::Primitive(Primitive::Variable(Variable::universal("X"))),
            Term::Primitive(Primitive::Variable(Variable::universal("Y"))),
        ],
    );
    let mut generator = VariableGenerator::new();
    let (normalized, ops) = BodyAtom::normalize_atom(&mut generator, &atom);
    assert_eq!(normalized.arity(), 2);
    assert!(ops.is_empty());
}

#[test]
fn verification_parameters_default_to_no_verification() {
    let parameters = VerificationParameters::default();
    assert_eq!(parameters.annotation_setting, ValueAnnotationParameters::NoVerification);
    assert!(!parameters.ct);
    let chosen = VerificationParameters::new(true, ValueAnnotationParameters::Prop);
    assert_eq!(chosen.annotation_setting, ValueAnnotationParameters::Prop);
    assert!(chosen.ct);
    assert_eq!(ValueAnnotationParameters::default(), ValueAnnotationParameters::NoVerification);
}

#[test]
fn type_literals_name_value_domains() {
    let literals = vec![TypeLiteral::new(Sort::TypeInt), TypeLiteral::new(Sort::TypeString), TypeLiteral::new(Sort::TypeMap)];
    assert_eq!(literals[1].sort(), Sort::TypeString);
    assert_eq!(literal_domains(&literals), vec![ValueDomain::Int, ValueDomain::PlainString, ValueDomain::MapValue]);
    assert_eq!(Sort::TypeBoolean.value_domain(), ValueDomain::Boolean);
}

#[test]
fn operations_propagate_types() {
    assert_eq!(TypeVerifier::get_operation_type_propagation_kind(&OperationKind::NumericSum), FunctionTypePropagation::NumericUpcast);
    assert_eq!(TypeVerifier::get_operation_type_propagation_kind(&OperationKind::Equal), FunctionTypePropagation::KnownOutput);
    assert_eq!(TypeVerifier::get_operation_type_propagation_kind(&OperationKind::StringContains), FunctionTypePropagation::KnownOutput);
}

#[test]
fn relation_types_start_empty() {
    let types = RelationTypes::new(2);
    assert!(types.types_at_position(1).is_empty());
    assert!(!types.contains_type_at_position(0, &ValueDomain::Int));
}

#[test]
fn variables_compare_by_name() {
    let x = Primitive::Variable(Variable::universal("X"));
    assert!(x.is_variable(&Variable::universal("X")));
    assert!(!x.is_variable(&Variable::universal("Y")));
    assert!(!Primitive::Ground(GroundTerm::new(1)).is_variable(&Variable::universal("X")));
    assert_eq!(GroundTerm::new(-7).value(), -7);
}
