//! A verifier of rules that applies the predicates of a rule as
//! uninterpreted functions of the solver, defined by struct [RuleVerifier]

use vstd::prelude::*;

use crate::execution::planning::normalization::atom::{BodyAtom, HeadAtom};
use crate::execution::planning::normalization::generator::{decimal, numbered_name};
use crate::execution::planning::normalization::global_annotation::NormalizedGlobalAnnotation;
use crate::execution::planning::normalization::operation::Operation;
use crate::execution::planning::normalization::program::NormalizedProgram;
use crate::execution::planning::normalization::rule::{body_predicates, head_predicates, NormalizedRule};
use crate::rule_model::components::term::variable_names;
use crate::rule_model::components::operation_kind::OperationKind;
use crate::rule_model::components::tag::{Tag, TagIndexSet};
use crate::rule_model::components::variable::{Primitive, PrimitiveView, Variable};

use super::clauses::{
    check_formulas, clause_script_text, formula_views, formulas_satisfiable, FormulaView, PredicateApplication,
    PredicateFormula,
};
use super::rule_verification::{create_var_cache, lemma_body_atom_variable, lemma_head_atom_variable, lemma_rule_cache, rule_cache};
use super::rule_verification::z3_translation::{
    annotation_body_substitution, annotation_head_substitution, body_assertion_term, cache_lookup, cache_view,
    conjoin, head_assertion_term, int_cache, lemma_lookup_int, lemma_lookup_present, lookup, min_length,
    operation_term, operation_terms, primitive_substitution, primitive_term, primitives_registered, registered,
    variable_substitution, variables_registered, RuleTranslator,
};
use super::smt::{bool_term, conjunction, int_term, SatOutcome, SmtOp, SmtTerm};

verus! {

/// The names and arities of declared predicates.
pub open spec fn declaration_views(decls: Seq<(Tag, usize)>) -> Seq<(Seq<char>, usize)> {
    decls.map_values(|d: (Tag, usize)| (d.0@, d.1))
}

/// The number of the declaration of the predicate `t`: the last one of its
/// name, as a later registration of a name replaces an earlier one.
pub open spec fn declared_predicate(decls: Seq<(Seq<char>, usize)>, t: Seq<char>) -> Option<int>
    decreases decls.len(),
{
    if decls.len() == 0 {
        None
    } else if decls.last().0 == t {
        Some(decls.len() - 1)
    } else {
        declared_predicate(decls.drop_last(), t)
    }
}

/// Whether the predicate is declared, with the given arity.
pub open spec fn declared_with_arity(decls: Seq<(Seq<char>, usize)>, t: Seq<char>, arity: nat) -> bool {
    declared_predicate(decls, t) matches Some(k) && decls[k].1 == arity
}

/// The application of the declared predicate of a body atom to the terms
/// of its variables.
pub open spec fn body_atom_formula(atom: BodyAtom, decls: Seq<(Seq<char>, usize)>, cache: Seq<(Seq<char>, SmtTerm)>) -> FormulaView {
    FormulaView::Application(declared_predicate(decls, atom.predicate@).unwrap() as usize,
        atom.terms@.map_values(|v: Variable| cache_lookup(cache, v@).unwrap()))
}

/// The application of the declared predicate of a head atom to the terms
/// of its primitives.
pub open spec fn head_atom_formula(atom: HeadAtom, decls: Seq<(Seq<char>, usize)>, cache: Seq<(Seq<char>, SmtTerm)>) -> FormulaView {
    FormulaView::Application(declared_predicate(decls, atom.predicate@).unwrap() as usize,
        atom.terms@.map_values(|p: Primitive| primitive_term(p@, cache)))
}

/// Whether the kind compares two truth values.
pub open spec fn truth_comparison(kind: OperationKind) -> bool {
    kind == OperationKind::Equal || kind == OperationKind::Unequals
}

/// Whether the kind maps two integers to an integer or compares them,
/// leaving out division.
pub open spec fn integer_kind(kind: OperationKind) -> bool {
    ||| kind == OperationKind::NumericSum
    ||| kind == OperationKind::NumericSubtraction
    ||| kind == OperationKind::NumericProduct
    ||| kind == OperationKind::NumericGreaterthaneq
    ||| kind == OperationKind::NumericGreaterthan
    ||| kind == OperationKind::NumericLessthaneq
    ||| kind == OperationKind::NumericLessthan
}

/// Whether the operation translates: its variables are registered, an
/// equality or disequality is applied to two truth values or to two
/// integers, and the other operators, division left out, to two integers.
pub open spec fn boolean_translatable(op: Operation, cache: Seq<(Seq<char>, SmtTerm)>) -> bool
    decreases op,
{
    match op {
        Operation::Primitive(p) => match p@ {
            PrimitiveView::Variable(v) => cache_lookup(cache, v) is Some,
            PrimitiveView::Ground(_) => true,
        },
        Operation::Operation { kind, subterms } => {
            &&& subterms@.len() >= 2
            &&& boolean_translatable(subterms@[0], cache)
            &&& boolean_translatable(subterms@[1], cache)
            &&& if truth_comparison(kind) {
                (bool_term(operation_term(subterms@[0], cache)) && bool_term(operation_term(subterms@[1], cache)))
                || (int_term(operation_term(subterms@[0], cache)) && int_term(operation_term(subterms@[1], cache)))
            } else {
                integer_kind(kind) && int_term(operation_term(subterms@[0], cache)) && int_term(
                    operation_term(subterms@[1], cache))
            }
        },
    }
}

/// Whether the operation translates to a truth value.
pub open spec fn boolean_condition(op: Operation, cache: Seq<(Seq<char>, SmtTerm)>) -> bool {
    boolean_translatable(op, cache) && bool_term(operation_term(op, cache))
}

/// Whether each operation translates to a truth value.
pub open spec fn boolean_conditions(ops: Seq<Operation>, cache: Seq<(Seq<char>, SmtTerm)>) -> bool {
    forall|i: int| 0 <= i < ops.len() ==> boolean_condition(#[trigger] ops[i], cache)
}

/// Whether the global annotation translates for the body atom.
pub open spec fn body_annotation_translates(a: NormalizedGlobalAnnotation, atom: BodyAtom, cache: Seq<(Seq<char>, SmtTerm)>) -> bool {
    &&& variables_registered(atom.terms@, a.head.terms@.len(), cache)
    &&& boolean_conditions(a.body@, variable_substitution(a.head.terms@, atom.terms@, cache))
}

/// Whether the global annotation translates for the head atom.
pub open spec fn head_annotation_translates(a: NormalizedGlobalAnnotation, atom: HeadAtom, cache: Seq<(Seq<char>, SmtTerm)>) -> bool {
    &&& primitives_registered(atom.terms@, a.head.terms@.len(), cache)
    &&& boolean_conditions(a.body@, primitive_substitution(a.head.terms@, atom.terms@, cache))
}

/// Whether the body atom translates: its predicate is declared with its
/// arity and its variables are registered.
pub open spec fn body_atom_translates(atom: BodyAtom, decls: Seq<(Seq<char>, usize)>, cache: Seq<(Seq<char>, SmtTerm)>) -> bool {
    &&& declared_with_arity(decls, atom.predicate@, atom.terms@.len())
    &&& forall|i: int| 0 <= i < atom.terms@.len() ==> cache_lookup(cache, (#[trigger] atom.terms@[i])@) is Some
}

/// Whether the head atom translates: its predicate is declared with its
/// arity and its variables are registered.
pub open spec fn head_atom_translates(atom: HeadAtom, decls: Seq<(Seq<char>, usize)>, cache: Seq<(Seq<char>, SmtTerm)>) -> bool {
    &&& declared_with_arity(decls, atom.predicate@, atom.terms@.len())
    &&& forall|i: int| 0 <= i < atom.terms@.len() ==> ((#[trigger] atom.terms@[i])@ matches PrimitiveView::Variable(v)
        ==> cache_lookup(cache, v) is Some)
}

/// The formulas of the positive body atoms: each atom's application
/// followed by the global annotations of its predicate.
pub open spec fn body_formulas(program: NormalizedProgram, atoms: Seq<BodyAtom>, decls: Seq<(Seq<char>, usize)>,
    cache: Seq<(Seq<char>, SmtTerm)>) -> Seq<FormulaView>
    decreases atoms.len(),
{
    if atoms.len() == 0 {
        Seq::empty()
    } else {
        let atom = atoms.last();
        body_formulas(program, atoms.drop_last(), decls, cache) + seq![body_atom_formula(atom, decls, cache)]
            + program.spec_global_annotations_for(atom.predicate@).map_values(
            |a: NormalizedGlobalAnnotation| FormulaView::Term(body_assertion_term(a, atom, cache)))
    }
}

/// The formulas of a rule's body: those of its positive atoms, then its
/// operations.
pub open spec fn rule_body_formulas(program: NormalizedProgram, positive: Seq<BodyAtom>, operations: Seq<Operation>,
    decls: Seq<(Seq<char>, usize)>, cache: Seq<(Seq<char>, SmtTerm)>) -> Seq<FormulaView>
{
    body_formulas(program, positive, decls, cache) + operation_terms(operations, cache).map_values(
        |t: SmtTerm| FormulaView::Term(t))
}

/// Whether the body of a rule translates: its positive atoms, the global
/// annotations of their predicates, and its operations.
pub open spec fn body_translates(program: NormalizedProgram, positive: Seq<BodyAtom>, operations: Seq<Operation>,
    decls: Seq<(Seq<char>, usize)>, cache: Seq<(Seq<char>, SmtTerm)>) -> bool
{
    &&& forall|i: int| 0 <= i < positive.len() ==> body_atom_translates(#[trigger] positive[i], decls, cache)
    &&& forall|i: int, j: int| 0 <= i < positive.len() && 0 <= j < program.spec_global_annotations_for(positive[i].predicate@).len()
        ==> body_annotation_translates(#[trigger] program.spec_global_annotations_for(positive[i].predicate@)[j], positive[i], cache)
    &&& boolean_conditions(operations, cache)
}

/// Whether the operation is an integer expression over variables named in
/// `names`: a primitive, or a sum, difference or product of two integer
/// expressions.
pub open spec fn integer_operation(op: Operation, names: Set<Seq<char>>) -> bool
    decreases op,
{
    match op {
        Operation::Primitive(p) => match p@ {
            PrimitiveView::Variable(v) => names.contains(v),
            PrimitiveView::Ground(_) => true,
        },
        Operation::Operation { kind, subterms } => {
            &&& subterms@.len() >= 2
            &&& (kind == OperationKind::NumericSum || kind == OperationKind::NumericSubtraction
                || kind == OperationKind::NumericProduct)
            &&& integer_operation(subterms@[0], names)
            &&& integer_operation(subterms@[1], names)
        },
    }
}

/// Whether the operation is a condition over variables named in `names`:
/// a comparison of two integer expressions, or an equality or disequality
/// of two conditions or of two integer expressions.
pub open spec fn truth_operation(op: Operation, names: Set<Seq<char>>) -> bool
    decreases op,
{
    match op {
        Operation::Primitive(_) => false,
        Operation::Operation { kind, subterms } => {
            &&& subterms@.len() >= 2
            &&& if truth_comparison(kind) {
                (truth_operation(subterms@[0], names) && truth_operation(subterms@[1], names))
                || (integer_operation(subterms@[0], names) && integer_operation(subterms@[1], names))
            } else {
                (kind == OperationKind::NumericGreaterthaneq || kind == OperationKind::NumericGreaterthan
                    || kind == OperationKind::NumericLessthaneq || kind == OperationKind::NumericLessthan)
                    && integer_operation(subterms@[0], names) && integer_operation(subterms@[1], names)
            }
        },
    }
}

/// Whether each operation is a condition over variables named in `names`.
pub open spec fn truth_operations(ops: Seq<Operation>, names: Set<Seq<char>>) -> bool {
    forall|i: int| 0 <= i < ops.len() ==> truth_operation(#[trigger] ops[i], names)
}

/// The names of the annotation variables that a substitution for an atom
/// of the given arity replaces.
pub open spec fn substituted_names(ann_vars: Seq<Variable>, arity: nat) -> Set<Seq<char>> {
    variable_names(ann_vars.take(min_length(ann_vars.len(), arity) as int)).to_set()
}

/// The predicates with their arities of a rule.
pub open spec fn rule_predicate_set(rule: NormalizedRule) -> Set<(Seq<char>, usize)> {
    head_predicates(rule.head@).union(body_predicates(rule.positive@)).union(body_predicates(rule.negative@))
}

/// Whether each predicate of the set has a single arity.
pub open spec fn single_arities(preds: Set<(Seq<char>, usize)>) -> bool {
    forall|a: (Seq<char>, usize), b: (Seq<char>, usize)| #[trigger] preds.contains(a) && #[trigger] preds.contains(b)
        && a.0 == b.0 ==> a.1 == b.1
}

/// The arities of the declarations.
pub open spec fn declaration_arities(decls: Seq<(Seq<char>, usize)>) -> Seq<usize> {
    decls.map_values(|d: (Seq<char>, usize)| d.1)
}

/// Whether the rule can be checked against the first global annotation of
/// its head predicate: it has a head, which has an annotation, each of its
/// predicates has one arity, and its operations and the annotations of its
/// positive atoms and of its head are conditions over the variables they
/// speak of.
pub open spec fn validatable_rule(program: NormalizedProgram, rule: NormalizedRule) -> bool {
    &&& rule.head@.len() > 0
    &&& program.spec_global_annotations_for(rule.head@[0].predicate@).len() > 0
    &&& single_arities(rule_predicate_set(rule))
    &&& truth_operations(rule.operations@, rule.spec_variables())
    &&& forall|i: int, j: int| 0 <= i < rule.positive@.len() && 0 <= j < program.spec_global_annotations_for(rule.positive@[i].predicate@).len()
        ==> truth_operations((#[trigger] program.spec_global_annotations_for(rule.positive@[i].predicate@)[j]).body@,
        substituted_names(program.spec_global_annotations_for(rule.positive@[i].predicate@)[j].head.terms@, rule.positive@[i].terms@.len()))
    &&& truth_operations(program.spec_global_annotations_for(rule.head@[0].predicate@)[0].body@,
        substituted_names(program.spec_global_annotations_for(rule.head@[0].predicate@)[0].head.terms@, rule.head@[0].terms@.len()))
    &&& rule.spec_variables().len() <= usize::MAX
}

/// The formulas that the validation of a rule checks: those of its body,
/// and the negation of the first global annotation of its head predicate.
pub open spec fn validation_formulas(program: NormalizedProgram, rule: NormalizedRule, decls: Seq<(Seq<char>, usize)>,
    cache: Seq<(Seq<char>, SmtTerm)>) -> Seq<FormulaView>
{
    rule_body_formulas(program, rule.positive@, rule.operations@, decls, cache) + seq![FormulaView::Term(SmtTerm::Not(
        Box::new(head_assertion_term(program.spec_global_annotations_for(rule.head@[0].predicate@)[0], rule.head@[0], cache))))]
}

/// The names of the variables among the primitives, in order.
pub open spec fn primitive_variable_names(terms: Seq<Primitive>) -> Seq<Seq<char>>
    decreases terms.len(),
{
    if terms.len() == 0 {
        Seq::empty()
    } else {
        let rest = primitive_variable_names(terms.drop_last());
        match terms.last()@ {
            PrimitiveView::Variable(v) => rest.push(v),
            PrimitiveView::Ground(_) => rest,
        }
    }
}

/// The declaration of a predicate that occurs is the last one of its name.
pub(crate) proof fn lemma_declared_predicate(decls: Seq<(Seq<char>, usize)>, t: Seq<char>)
    ensures
        declared_predicate(decls, t) matches Some(k) ==> 0 <= k < decls.len() && decls[k].0 == t,
        (exists|i: int| 0 <= i < decls.len() && (#[trigger] decls[i]).0 == t) ==> declared_predicate(decls, t) is Some,
    decreases decls.len(),
{
    if decls.len() > 0 && decls.last().0 != t {
        lemma_declared_predicate(decls.drop_last(), t);
        if exists|i: int| 0 <= i < decls.len() && (#[trigger] decls[i]).0 == t {
            let i = choose|i: int| 0 <= i < decls.len() && (#[trigger] decls[i]).0 == t;
            assert(decls.drop_last()[i] == decls[i]);
        }
    }
}

/// An atom's predicate, with its arity, is among the predicates of the atoms.
pub(crate) proof fn lemma_body_atom_predicate(atoms: Seq<BodyAtom>, i: int)
    requires
        0 <= i < atoms.len(),
    ensures
        body_predicates(atoms).contains((atoms[i].predicate@, atoms[i].terms@.len() as usize)),
    decreases atoms.len(),
{
    if i < atoms.len() - 1 {
        lemma_body_atom_predicate(atoms.drop_last(), i);
        assert(atoms.drop_last()[i] == atoms[i]);
    }
}

/// A head atom's predicate, with its arity, is among the predicates of the atoms.
pub(crate) proof fn lemma_head_atom_predicate(atoms: Seq<HeadAtom>, i: int)
    requires
        0 <= i < atoms.len(),
    ensures
        head_predicates(atoms).contains((atoms[i].predicate@, atoms[i].terms@.len() as usize)),
    decreases atoms.len(),
{
    if i < atoms.len() - 1 {
        lemma_head_atom_predicate(atoms.drop_last(), i);
        assert(atoms.drop_last()[i] == atoms[i]);
    }
}

/// A predicate of the declarations, whose predicates have one arity each,
/// is declared with its arity.
pub(crate) proof fn lemma_declared_arity(decls: Seq<(Seq<char>, usize)>, t: Seq<char>, arity: usize)
    requires
        single_arities(decls.to_set()),
        decls.to_set().contains((t, arity)),
    ensures
        declared_with_arity(decls, t, arity as nat),
{
    let i = choose|i: int| 0 <= i < decls.len() && decls[i] == (t, arity);
    assert(decls[i].0 == t);
    lemma_declared_predicate(decls, t);
    let k = declared_predicate(decls, t).unwrap();
    assert(decls.to_set().contains(decls[k]));
}

/// An integer expression over registered variables translates to an
/// integer term, and a condition to a truth value.
proof fn lemma_truth_operation(op: Operation, names: Set<Seq<char>>, cache: Seq<(Seq<char>, SmtTerm)>)
    requires
        registered(cache, names),
        int_cache(cache),
    ensures
        integer_operation(op, names) ==> boolean_translatable(op, cache) && int_term(operation_term(op, cache)),
        truth_operation(op, names) ==> boolean_translatable(op, cache) && bool_term(operation_term(op, cache)),
    decreases op,
{
    match op {
        Operation::Primitive(p) => {
            match p@ {
                PrimitiveView::Variable(v) => {
                    if names.contains(v) {
                        lemma_lookup_int(cache, v);
                    }
                },
                PrimitiveView::Ground(_) => {},
            }
        },
        Operation::Operation { kind, subterms } => {
            if subterms@.len() >= 2 {
                assert(decreases_to!(op => subterms));
                assert(decreases_to!(subterms => subterms@));
                lemma_truth_operation(subterms@[0], names, cache);
                lemma_truth_operation(subterms@[1], names, cache);
            }
        },
    }
}

/// Conditions over registered variables translate to truth values.
pub(crate) proof fn lemma_truth_operations(ops: Seq<Operation>, names: Set<Seq<char>>, cache: Seq<(Seq<char>, SmtTerm)>)
    requires
        truth_operations(ops, names),
        registered(cache, names),
        int_cache(cache),
    ensures
        boolean_conditions(ops, cache),
{
    assert forall|i: int| 0 <= i < ops.len() implies boolean_condition(#[trigger] ops[i], cache) by {
        lemma_truth_operation(ops[i], names, cache);
    }
}

/// A substitution of integer terms for the leading annotation variables
/// registers the names that it replaces.
proof fn lemma_substitution_registers(ann_vars: Seq<Variable>, arity: nat, sub: Seq<(Seq<char>, SmtTerm)>)
    requires
        sub.len() == min_length(ann_vars.len(), arity),
        forall|i: int| 0 <= i < sub.len() ==> (#[trigger] sub[i]).0 == ann_vars[i]@ && int_term(sub[i].1),
    ensures
        registered(sub, substituted_names(ann_vars, arity)),
        int_cache(sub),
{
    let names = variable_names(ann_vars.take(min_length(ann_vars.len(), arity) as int));
    assert forall|n: Seq<char>| #[trigger] names.to_set().contains(n) implies cache_lookup(sub, n) is Some by {
        let i = choose|i: int| 0 <= i < names.len() && names[i] == n;
        assert(sub[i].0 == n);
        lemma_lookup_present(sub, i);
    }
}

/// The translation preconditions of a rule that can be validated, for its
/// cache and the declarations of its predicates.
proof fn lemma_validatable_rule(program: NormalizedProgram, rule: NormalizedRule, decls: Seq<(Seq<char>, usize)>,
    cache: Seq<(Seq<char>, SmtTerm)>)
    requires
        validatable_rule(program, rule),
        rule_cache(rule, cache, 0),
        decls.to_set() == rule_predicate_set(rule),
    ensures
        body_translates(program, rule.positive@, rule.operations@, decls, cache),
        head_annotation_translates(program.spec_global_annotations_for(rule.head@[0].predicate@)[0], rule.head@[0], cache),
{
    lemma_rule_cache(rule, cache, 0);
    assert forall|i: int| 0 <= i < rule.positive@.len() implies body_atom_translates(#[trigger] rule.positive@[i], decls, cache) by {
        let atom = rule.positive@[i];
        lemma_body_atom_predicate(rule.positive@, i);
        assert(rule_predicate_set(rule).contains((atom.predicate@, atom.terms@.len() as usize)));
        assert(single_arities(decls.to_set()));
        assert(atom.terms@.len() == atom.terms.len());
        lemma_declared_arity(decls, atom.predicate@, atom.terms@.len() as usize);
        assert forall|k: int| 0 <= k < atom.terms@.len() implies cache_lookup(cache, (#[trigger] atom.terms@[k])@) is Some by {
            lemma_body_atom_variable(rule.positive@, i, k);
            assert(rule.spec_variables().contains(atom.terms@[k]@));
        }
    }
    assert forall|i: int, j: int| 0 <= i < rule.positive@.len() && 0 <= j < program.spec_global_annotations_for(rule.positive@[i].predicate@).len()
        implies body_annotation_translates(#[trigger] program.spec_global_annotations_for(rule.positive@[i].predicate@)[j], rule.positive@[i], cache) by {
        let atom = rule.positive@[i];
        let a = program.spec_global_annotations_for(atom.predicate@)[j];
        assert forall|k: int| 0 <= k < a.head.terms@.len() && k < atom.terms@.len() implies
            cache_lookup(cache, (#[trigger] atom.terms@[k])@) is Some by {
            lemma_body_atom_variable(rule.positive@, i, k);
            assert(rule.spec_variables().contains(atom.terms@[k]@));
        }
        let sub = variable_substitution(a.head.terms@, atom.terms@, cache);
        assert forall|k: int| 0 <= k < sub.len() implies (#[trigger] sub[k]).0 == a.head.terms@[k]@ && int_term(sub[k].1) by {
            lemma_body_atom_variable(rule.positive@, i, k);
            assert(rule.spec_variables().contains(atom.terms@[k]@));
            lemma_lookup_int(cache, atom.terms@[k]@);
        }
        lemma_substitution_registers(a.head.terms@, atom.terms@.len(), sub);
        lemma_truth_operations(a.body@, substituted_names(a.head.terms@, atom.terms@.len()), sub);
    }
    lemma_truth_operations(rule.operations@, rule.spec_variables(), cache);
    let head = rule.head@[0];
    let a = program.spec_global_annotations_for(head.predicate@)[0];
    assert forall|k: int| 0 <= k < a.head.terms@.len() && k < head.terms@.len() implies
        ((#[trigger] head.terms@[k])@ matches PrimitiveView::Variable(v) ==> cache_lookup(cache, v) is Some) by {
        lemma_head_atom_variable(rule.head@, 0, k);
        match head.terms@[k]@ {
            PrimitiveView::Variable(v) => { assert(rule.spec_variables().contains(v)); },
            PrimitiveView::Ground(_) => {},
        }
    }
    let sub = primitive_substitution(a.head.terms@, head.terms@, cache);
    assert forall|k: int| 0 <= k < sub.len() implies (#[trigger] sub[k]).0 == a.head.terms@[k]@ && int_term(sub[k].1) by {
        lemma_head_atom_variable(rule.head@, 0, k);
        match head.terms@[k]@ {
            PrimitiveView::Variable(v) => {
                assert(rule.spec_variables().contains(v));
                lemma_lookup_int(cache, v);
            },
            PrimitiveView::Ground(_) => {},
        }
    }
    lemma_substitution_registers(a.head.terms@, head.terms@.len(), sub);
    lemma_truth_operations(a.body@, substituted_names(a.head.terms@, head.terms@.len()), sub);
}

/// What the validation of a rule found: the script that the solver
/// checked, its answer, and, for a violation, the variables of the head
/// with the values of the solver's model.
#[derive(Debug)]
pub struct RuleValidation {
    /// The SMT-LIB script of the check
    pub script: String,
    /// The solver's answer
    pub outcome: SatOutcome,
    /// For a violation, the head's variables with their values in the model
    pub model: Vec<(Variable, Option<String>)>,
}

/// Returns the predicates of the set, in its order.
pub(crate) fn declarations_of(preds: &TagIndexSet) -> (decls: Vec<(Tag, usize)>)
    ensures
        declaration_views(decls@) == preds.spec_entries(),
        preds.spec_entries().no_duplicates(),
        preds.spec_entries().to_set() == preds@,
{
    let n = preds.entry_count();
    let mut decls: Vec<(Tag, usize)> = Vec::new();
    let mut k: usize = 0;
    while k < n
        invariant
            n == preds.spec_entries().len(),
            0 <= k <= n,
            declaration_views(decls@) == preds.spec_entries().take(k as int),
        decreases n - k,
    {
        let (tag, arity) = preds.get(k);
        let ghost before = decls@;
        decls.push((tag.clone(), arity));
        assert(declaration_views(decls@) =~= declaration_views(before).push((tag@, arity)));
        assert(declaration_views(decls@) =~= preds.spec_entries().take(k + 1));
        k = k + 1;
    }
    assert(preds.spec_entries().take(n as int) =~= preds.spec_entries());
    decls
}

/// The arities of the declarations.
pub(crate) fn arities_of(decls: &Vec<(Tag, usize)>) -> (arities: Vec<usize>)
    ensures
        arities@ == declaration_arities(declaration_views(decls@)),
{
    let mut arities: Vec<usize> = Vec::new();
    let n = decls.len();
    let mut k: usize = 0;
    while k < n
        invariant
            n == decls@.len(),
            0 <= k <= n,
            arities@ == declaration_arities(declaration_views(decls@)).take(k as int),
        decreases n - k,
    {
        arities.push(decls[k].1);
        assert(arities@ =~= declaration_arities(declaration_views(decls@)).take(k + 1));
        k = k + 1;
    }
    assert(declaration_arities(declaration_views(decls@)).take(n as int) =~= declaration_arities(declaration_views(decls@)));
    arities
}

/// The variables among the primitives, with the numbers of their constants
/// in the cache.
fn primitive_constants(terms: &Vec<Primitive>, var_cache: &Vec<(Variable, SmtTerm)>) -> (r: (Vec<Variable>, Vec<usize>))
    ensures
        r.0@.map_values(|v: Variable| v@) == primitive_variable_names(terms@),
        r.1@.len() == r.0@.len(),
{
    let mut vars: Vec<Variable> = Vec::new();
    let mut constants: Vec<usize> = Vec::new();
    let n = terms.len();
    let mut k: usize = 0;
    while k < n
        invariant
            n == terms@.len(),
            0 <= k <= n,
            vars@.map_values(|v: Variable| v@) == primitive_variable_names(terms@.take(k as int)),
            constants@.len() == vars@.len(),
        decreases n - k,
    {
        assert(terms@.take(k + 1).drop_last() =~= terms@.take(k as int));
        assert(terms@.take(k + 1).last() == terms@[k as int]);
        match &terms[k] {
            Primitive::Variable(v) => {
                let ghost before = vars@;
                let c = match lookup(var_cache, v) {
                    Some(SmtTerm::Var(c)) => c,
                    _ => 0,
                };
                vars.push(v.clone());
                constants.push(c);
                assert(vars@.map_values(|v: Variable| v@) =~= before.map_values(|v: Variable| v@).push(v@));
            },
            Primitive::Ground(_) => {},
        }
        k = k + 1;
    }
    assert(terms@.take(n as int) =~= terms@);
    (vars, constants)
}

/// Returns the number of the declaration of the predicate, if there is one.
fn find_declaration(decls: &Vec<(Tag, usize)>, tag: &Tag) -> (r: Option<usize>)
    ensures
        match r {
            Some(k) => declared_predicate(declaration_views(decls@), tag@) == Some(k as int),
            None => declared_predicate(declaration_views(decls@), tag@) is None,
        },
{
    let mut k = decls.len();
    assert(declaration_views(decls@).take(k as int) =~= declaration_views(decls@));
    while k > 0
        invariant
            k <= decls@.len(),
            declared_predicate(declaration_views(decls@), tag@) == declared_predicate(declaration_views(decls@).take(k as int), tag@),
        decreases k,
    {
        let ghost prefix = declaration_views(decls@).take(k as int);
        assert(prefix.last() == (decls@[k - 1].0@, decls@[k - 1].1));
        if decls[k - 1].0 == *tag {
            return Some(k - 1);
        }
        assert(prefix.drop_last() =~= declaration_views(decls@).take(k - 1));
        k = k - 1;
    }
    None
}

/// Struct for converting rules
#[derive(Debug, Copy, Clone)]
pub struct RuleVerifier {
    /// The number of fresh variables generated so far
    pub fresh_var_counter: usize,
}

impl RuleVerifier {
    /// Creates a new [RuleVerifier]
    pub fn new() -> (verifier: Self)
        ensures
            verifier.fresh_var_counter == 0,
    {
        RuleVerifier { fresh_var_counter: 0 }
    }

    /// Generates a new var for the program: `V` followed by the incremented counter
    pub fn get_fresh_var(&mut self) -> (name: String)
        requires
            old(self).fresh_var_counter < usize::MAX,
        ensures
            final(self).fresh_var_counter == old(self).fresh_var_counter + 1,
            name@ == seq!['V'] + decimal(final(self).fresh_var_counter as nat),
    {
        self.fresh_var_counter = self.fresh_var_counter + 1;
        proof { reveal_strlit("V"); }
        numbered_name("V", self.fresh_var_counter)
    }

    /// Translates a (normalized) body atom: its declared predicate applied
    /// to the terms of its variables
    pub fn translate_body_atom(&self, atom: &BodyAtom, var_cache: &Vec<(Variable, SmtTerm)>,
        predicate_to_z3_fun: &Vec<(Tag, usize)>) -> (f: PredicateFormula)
        requires
            body_atom_translates(*atom, declaration_views(predicate_to_z3_fun@), cache_view(var_cache@)),
        ensures
            f@ == body_atom_formula(*atom, declaration_views(predicate_to_z3_fun@), cache_view(var_cache@)),
    {
        let ghost cache = cache_view(var_cache@);
        let predicate = match find_declaration(predicate_to_z3_fun, &atom.predicate) {
            Some(k) => k,
            None => 0,
        };
        let mut args: Vec<SmtTerm> = Vec::new();
        let n = atom.terms.len();
        let mut i: usize = 0;
        while i < n
            invariant
                n == atom.terms@.len(),
                cache == cache_view(var_cache@),
                forall|j: int| 0 <= j < atom.terms@.len() ==> cache_lookup(cache, (#[trigger] atom.terms@[j])@) is Some,
                0 <= i <= n,
                args@ == atom.terms@.map_values(|v: Variable| cache_lookup(cache, v@).unwrap()).take(i as int),
            decreases n - i,
        {
            assert(cache_lookup(cache, atom.terms@[i as int]@) is Some);
            let t = match lookup(var_cache, &atom.terms[i]) {
                Some(t) => t,
                None => SmtTerm::Int(0),
            };
            args.push(t);
            assert(args@ =~= atom.terms@.map_values(|v: Variable| cache_lookup(cache, v@).unwrap()).take(i + 1));
            i = i + 1;
        }
        assert(atom.terms@.map_values(|v: Variable| cache_lookup(cache, v@).unwrap()).take(n as int)
            =~= atom.terms@.map_values(|v: Variable| cache_lookup(cache, v@).unwrap()));
        PredicateFormula::Application(PredicateApplication { predicate, args })
    }

    /// Translates a (normalized) head atom: its declared predicate applied
    /// to the terms of its primitives
    pub fn translate_head_atom(&self, atom: &HeadAtom, var_cache: &Vec<(Variable, SmtTerm)>,
        predicate_to_z3_fun: &Vec<(Tag, usize)>) -> (f: PredicateFormula)
        requires
            head_atom_translates(*atom, declaration_views(predicate_to_z3_fun@), cache_view(var_cache@)),
        ensures
            f@ == head_atom_formula(*atom, declaration_views(predicate_to_z3_fun@), cache_view(var_cache@)),
    {
        let ghost cache = cache_view(var_cache@);
        let predicate = match find_declaration(predicate_to_z3_fun, &atom.predicate) {
            Some(k) => k,
            None => 0,
        };
        let mut args: Vec<SmtTerm> = Vec::new();
        let n = atom.terms.len();
        let mut i: usize = 0;
        while i < n
            invariant
                n == atom.terms@.len(),
                cache == cache_view(var_cache@),
                forall|j: int| 0 <= j < atom.terms@.len() ==> ((#[trigger] atom.terms@[j])@ matches PrimitiveView::Variable(v)
                    ==> cache_lookup(cache, v) is Some),
                0 <= i <= n,
                args@ == atom.terms@.map_values(|p: Primitive| primitive_term(p@, cache)).take(i as int),
            decreases n - i,
        {
            assert(atom.terms@[i as int]@ matches PrimitiveView::Variable(v) ==> cache_lookup(cache, v) is Some);
            let t = self.translate_primitive(&atom.terms[i], var_cache);
            args.push(t);
            assert(args@ =~= atom.terms@.map_values(|p: Primitive| primitive_term(p@, cache)).take(i + 1));
            i = i + 1;
        }
        assert(atom.terms@.map_values(|p: Primitive| primitive_term(p@, cache)).take(n as int)
            =~= atom.terms@.map_values(|p: Primitive| primitive_term(p@, cache)));
        PredicateFormula::Application(PredicateApplication { predicate, args })
    }

    /// Translates a primitive into an integer term
    pub fn translate_primitive(&self, prim: &Primitive, var_cache: &Vec<(Variable, SmtTerm)>) -> (t: SmtTerm)
        requires
            prim@ matches PrimitiveView::Variable(v) ==> cache_lookup(cache_view(var_cache@), v) is Some,
        ensures
            t == primitive_term(prim@, cache_view(var_cache@)),
    {
        RuleTranslator::new().translate_primitive(prim, var_cache)
    }

    /// Translates an operation: the operator of its kind applied to its first
    /// two subterms, where an equality compares two truth values or two
    /// integers
    pub fn translate_operation(&self, op: &Operation, var_cache: &Vec<(Variable, SmtTerm)>) -> (t: SmtTerm)
        requires
            boolean_translatable(*op, cache_view(var_cache@)),
        ensures
            t == operation_term(*op, cache_view(var_cache@)),
        decreases op,
    {
        match op {
            Operation::Primitive(primitive) => self.translate_primitive(primitive, var_cache),
            Operation::Operation { kind, subterms } => {
                proof {
                    assert(decreases_to!(*op => subterms));
                    assert(decreases_to!(subterms => subterms@));
                }
                let left = self.translate_operation(&subterms[0], var_cache);
                let right = self.translate_operation(&subterms[1], var_cache);
                let smt_op = match kind {
                    OperationKind::Equal => SmtOp::Eq,
                    OperationKind::Unequals => SmtOp::Ne,
                    OperationKind::NumericSum => SmtOp::Add,
                    OperationKind::NumericSubtraction => SmtOp::Sub,
                    OperationKind::NumericProduct => SmtOp::Mul,
                    OperationKind::NumericGreaterthaneq => SmtOp::Ge,
                    OperationKind::NumericGreaterthan => SmtOp::Gt,
                    OperationKind::NumericLessthaneq => SmtOp::Le,
                    // the remaining kind that translates
                    _ => SmtOp::Lt,
                };
                SmtTerm::Apply(smt_op, Box::new(left), Box::new(right))
            },
        }
    }

    /// The conjunction of the translations of the conditions.
    pub(crate) fn translate_conditions(&self, ops: &Vec<Operation>, var_cache: &Vec<(Variable, SmtTerm)>) -> (terms: Vec<SmtTerm>)
        requires
            boolean_conditions(ops@, cache_view(var_cache@)),
        ensures
            terms@ == operation_terms(ops@, cache_view(var_cache@)),
    {
        let mut terms: Vec<SmtTerm> = Vec::new();
        let n = ops.len();
        let mut i: usize = 0;
        while i < n
            invariant
                n == ops@.len(),
                boolean_conditions(ops@, cache_view(var_cache@)),
                0 <= i <= n,
                terms@ == operation_terms(ops@, cache_view(var_cache@)).take(i as int),
            decreases n - i,
        {
            assert(boolean_condition(ops@[i as int], cache_view(var_cache@)));
            let t = self.translate_operation(&ops[i], var_cache);
            terms.push(t);
            assert(terms@ =~= operation_terms(ops@, cache_view(var_cache@)).take(i + 1));
            i = i + 1;
        }
        assert(operation_terms(ops@, cache_view(var_cache@)).take(n as int) =~= operation_terms(ops@, cache_view(var_cache@)));
        terms
    }

    /// Translates the global annotation of a body atom: the conjunction of
    /// its conditions, with each annotation variable replaced by the term of
    /// the rule variable at the same position
    pub fn translate_body_assertion(&self, assertion: &NormalizedGlobalAnnotation, rule_predicate: &BodyAtom,
        var_cache: &Vec<(Variable, SmtTerm)>) -> (t: SmtTerm)
        requires
            body_annotation_translates(*assertion, *rule_predicate, cache_view(var_cache@)),
        ensures
            t == body_assertion_term(*assertion, *rule_predicate, cache_view(var_cache@)),
    {
        let var_sub = annotation_body_substitution(&assertion.head.terms, &rule_predicate.terms, var_cache);
        let terms = self.translate_conditions(&assertion.body, &var_sub);
        conjoin(&terms)
    }

    /// Translates the assertion for the head atom: the conjunction of the
    /// annotation's conditions, with each annotation variable replaced by the
    /// term of the head primitive at the same position
    pub fn translate_head_assertion(&self, assertion: &NormalizedGlobalAnnotation, head_predicate: &HeadAtom,
        var_cache: &Vec<(Variable, SmtTerm)>) -> (t: SmtTerm)
        requires
            head_annotation_translates(*assertion, *head_predicate, cache_view(var_cache@)),
        ensures
            t == head_assertion_term(*assertion, *head_predicate, cache_view(var_cache@)),
    {
        let prim_cache = annotation_head_substitution(&assertion.head.terms, &head_predicate.terms, var_cache);
        let terms = self.translate_conditions(&assertion.body, &prim_cache);
        conjoin(&terms)
    }

    /// Translates the body of a (normalized) rule: each positive atom,
    /// followed by the global annotations of its predicate, then the rule's
    /// operations
    pub fn translate_rule(&self, rule: &NormalizedRule, predicate_to_z3_fun: &Vec<(Tag, usize)>,
        var_cache: &Vec<(Variable, SmtTerm)>, program: &NormalizedProgram) -> (formulas: Vec<PredicateFormula>)
        requires
            body_translates(*program, rule.positive@, rule.operations@, declaration_views(predicate_to_z3_fun@),
                cache_view(var_cache@)),
        ensures
            formula_views(formulas@) == rule_body_formulas(*program, rule.positive@, rule.operations@,
                declaration_views(predicate_to_z3_fun@), cache_view(var_cache@)),
    {
        let ghost decls = declaration_views(predicate_to_z3_fun@);
        let ghost cache = cache_view(var_cache@);
        let mut body_terms: Vec<PredicateFormula> = Vec::new();
        let n = rule.positive.len();
        let mut i: usize = 0;
        while i < n
            invariant
                n == rule.positive@.len(),
                decls == declaration_views(predicate_to_z3_fun@),
                cache == cache_view(var_cache@),
                body_translates(*program, rule.positive@, rule.operations@, decls, cache),
                0 <= i <= n,
                formula_views(body_terms@) == body_formulas(*program, rule.positive@.take(i as int), decls, cache),
            decreases n - i,
        {
            let atom = &rule.positive[i];
            assert(body_atom_translates(rule.positive@[i as int], decls, cache));
            let ghost before = formula_views(body_terms@);
            body_terms.push(self.translate_body_atom(atom, var_cache, predicate_to_z3_fun));
            assert(formula_views(body_terms@) =~= before + seq![body_atom_formula(*atom, decls, cache)]);
            let annotations = program.predicate_to_global_annotation(&atom.predicate);
            let ghost anns = program.spec_global_annotations_for(atom.predicate@);
            let ghost with_atom = formula_views(body_terms@);
            let m = annotations.len();
            let mut j: usize = 0;
            assert(annotations@.map_values(|a: &NormalizedGlobalAnnotation| *a).len() == annotations@.len());
            while j < m
                invariant
                    m == annotations@.len(),
                    annotations@.map_values(|a: &NormalizedGlobalAnnotation| *a) == anns,
                    anns == program.spec_global_annotations_for(atom.predicate@),
                    *atom == rule.positive@[i as int],
                    0 <= i < n,
                    n == rule.positive@.len(),
                    cache == cache_view(var_cache@),
                    body_translates(*program, rule.positive@, rule.operations@, decls, cache),
                    0 <= j <= m,
                    formula_views(body_terms@) == with_atom + anns.take(j as int).map_values(
                        |a: NormalizedGlobalAnnotation| FormulaView::Term(body_assertion_term(a, *atom, cache))),
                decreases m - j,
            {
                assert(*annotations@[j as int] == anns[j as int]);
                assert(body_annotation_translates(program.spec_global_annotations_for(rule.positive@[i as int].predicate@)[j as int],
                    rule.positive@[i as int], cache));
                let t = self.translate_body_assertion(annotations[j], atom, var_cache);
                let ghost prior = formula_views(body_terms@);
                body_terms.push(PredicateFormula::Term(t));
                assert(formula_views(body_terms@) =~= prior.push(FormulaView::Term(t)));
                assert(anns.take(j + 1).map_values(|a: NormalizedGlobalAnnotation| FormulaView::Term(body_assertion_term(a, *atom, cache)))
                    =~= anns.take(j as int).map_values(|a: NormalizedGlobalAnnotation| FormulaView::Term(body_assertion_term(a, *atom, cache)))
                    .push(FormulaView::Term(t)));
                j = j + 1;
            }
            assert(anns.take(m as int) =~= anns);
            assert(rule.positive@.take(i + 1).drop_last() =~= rule.positive@.take(i as int));
            assert(rule.positive@.take(i + 1).last() == *atom);
            i = i + 1;
            assert(formula_views(body_terms@) =~= body_formulas(*program, rule.positive@.take(i as int), decls, cache));
        }
        assert(rule.positive@.take(n as int) =~= rule.positive@);
        let operations = self.translate_conditions(&rule.operations, var_cache);
        let ghost body = formula_views(body_terms@);
        let k = operations.len();
        let mut l: usize = 0;
        while l < k
            invariant
                k == operations@.len(),
                0 <= l <= k,
                formula_views(body_terms@) == body + operations@.take(l as int).map_values(|t: SmtTerm| FormulaView::Term(t)),
            decreases k - l,
        {
            let ghost prior = formula_views(body_terms@);
            body_terms.push(PredicateFormula::Term(operations[l].clone()));
            assert(formula_views(body_terms@) =~= prior.push(FormulaView::Term(operations@[l as int])));
            assert(operations@.take(l + 1).map_values(|t: SmtTerm| FormulaView::Term(t))
                =~= operations@.take(l as int).map_values(|t: SmtTerm| FormulaView::Term(t)).push(FormulaView::Term(operations@[l as int])));
            l = l + 1;
        }
        assert(operations@.take(k as int) =~= operations@);
        body_terms
    }

    /// Verifies whether a rule satisfies the first global annotation of its
    /// head predicate: the solver decides whether the body of the rule, with
    /// the annotations of its body atoms, admits an assignment that violates
    /// it; the predicates of the rule are uninterpreted functions
    pub fn verify_rule(program: &NormalizedProgram, rule: &NormalizedRule) -> (r: RuleValidation)
        requires
            validatable_rule(*program, *rule),
        ensures
            exists|cache: Seq<(Seq<char>, SmtTerm)>, decls: Seq<(Seq<char>, usize)>|
                #![trigger validation_formulas(*program, *rule, decls, cache)]
                rule_cache(*rule, cache, 0) && decls.no_duplicates() && decls.to_set() == rule_predicate_set(*rule)
                && r.script@ == clause_script_text(declaration_arities(decls), validation_formulas(*program, *rule, decls, cache))
                && (r.outcome == SatOutcome::Unsat ==> !formulas_satisfiable(validation_formulas(*program, *rule, decls, cache))),
            r.outcome == SatOutcome::Sat ==> r.model@.map_values(|e: (Variable, Option<String>)| e.0@)
                == primitive_variable_names(rule.head@[0].terms@),
            r.outcome != SatOutcome::Sat ==> r.model@.len() == 0,
    {
        let verifier = RuleVerifier::new();
        let preds = rule.predicates();
        let predicate_to_z3_fun = declarations_of(&preds);
        let ghost decls = declaration_views(predicate_to_z3_fun@);
        let mut next_var: usize = 0;
        let var_cache = create_var_cache(rule, &mut next_var);
        let ghost cache = cache_view(var_cache@);
        proof { lemma_validatable_rule(*program, *rule, decls, cache); }
        let mut formulas = verifier.translate_rule(rule, &predicate_to_z3_fun, &var_cache, program);
        let head = &rule.head[0];
        let head_assertions = program.predicate_to_global_annotation(&head.predicate);
        assert(head_assertions@.map_values(|a: &NormalizedGlobalAnnotation| *a).len() == head_assertions@.len());
        assert(*head_assertions@[0] == program.spec_global_annotations_for(head.predicate@)[0]);
        let head_restriction = verifier.translate_head_assertion(head_assertions[0], head, &var_cache);
        let ghost body = formula_views(formulas@);
        formulas.push(PredicateFormula::Term(SmtTerm::Not(Box::new(head_restriction))));
        assert(formula_views(formulas@) =~= validation_formulas(*program, *rule, decls, cache));
        let arities = arities_of(&predicate_to_z3_fun);
        let (head_vars, constants) = primitive_constants(&head.terms, &var_cache);
        let check = check_formulas(&arities, &formulas, &constants);
        let mut model: Vec<(Variable, Option<String>)> = Vec::new();
        if check.outcome == SatOutcome::Sat {
            let n = head_vars.len();
            let mut i: usize = 0;
            while i < n
                invariant
                    n == head_vars@.len(),
                    0 <= i <= n,
                    model@.map_values(|e: (Variable, Option<String>)| e.0@) == head_vars@.map_values(|v: Variable| v@).take(i as int),
                decreases n - i,
            {
                let value = if i < check.values.len() {
                    check.values[i].clone()
                } else {
                    None
                };
                let ghost before = model@;
                model.push((head_vars[i].clone(), value));
                assert(model@.map_values(|e: (Variable, Option<String>)| e.0@)
                    =~= before.map_values(|e: (Variable, Option<String>)| e.0@).push(head_vars@[i as int]@));
                assert(head_vars@.map_values(|v: Variable| v@).take(i + 1)
                    =~= head_vars@.map_values(|v: Variable| v@).take(i as int).push(head_vars@[i as int]@));
                i = i + 1;
            }
            assert(head_vars@.map_values(|v: Variable| v@).take(n as int) =~= head_vars@.map_values(|v: Variable| v@));
        }
        RuleValidation { script: check.script, outcome: check.outcome, model }
    }
}

} // verus!
