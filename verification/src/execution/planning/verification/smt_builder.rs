//! Defines the lowering of rules to SMT-LIB scripts, whose predicates are
//! declared functions, and the scripts that the checks of a rule send to the
//! solver, defined by struct [Lowering]

use vstd::prelude::*;
use vstd::string::{StrSliceExecFns, StringExecFns};

use crate::execution::planning::normalization::atom::{BodyAtom, HeadAtom};
use crate::execution::planning::normalization::operation::Operation;
use crate::execution::planning::normalization::rule::NormalizedRule;
use crate::execution::planning::normalization::rule_annotation::NormalizedRuleAnnotation;
use crate::rule_model::components::operation_kind::OperationKind;
use crate::rule_model::components::tag::Tag;
use crate::rule_model::components::variable::{Primitive, PrimitiveView, Variable};

use super::clauses::{clause_script_text, formula_views, FormulaView, PredicateFormula};
use super::rule_verification::z3_translation::{cache_lookup, cache_view, kind_op, lemma_lookup_entry, lookup, primitive_term};
use super::rule_verifier::{
    body_atom_formula, body_atom_translates, declaration_arities, declaration_views, declared_predicate,
    head_atom_formula, head_atom_translates, rule_predicate_set, single_arities, truth_comparison, RuleVerifier,
};
use super::rule_verification::{cache_names, lemma_body_atom_variable, lemma_rule_cache, rule_cache};
use super::rule_verifier::{arities_of, declarations_of, lemma_body_atom_predicate, lemma_declared_arity};
use super::clauses::render_clause_script;
use crate::rule_model::components::term::variable_names;
use super::smt::{
    append_assertions, append_declarations, append_var, arithmetic_op, assertions_text, comparison_op,
    declarations_text, var_text, SatOutcome, SmtOp, SmtTerm,
};

verus! {

/// An error of the lowering.
#[derive(Debug, Clone, Copy, PartialEq, Eq, Structural)]
pub enum LoweringError {
    /// An operand that an arithmetic operation or a comparison takes as an
    /// integer is a truth value
    IntExpected,
    /// An operation that is taken as a condition is an integer
    BoolExpected,
}

/// Whether the term has the sort of the integers: a constant, a literal or
/// an arithmetic operation.
pub open spec fn int_sorted(t: SmtTerm) -> bool {
    match t {
        SmtTerm::Var(_) => true,
        SmtTerm::Int(_) => true,
        SmtTerm::Apply(op, _, _) => arithmetic_op(op),
        _ => false,
    }
}

/// Whether the term has the sort of the truth values that a comparison
/// gives.
pub open spec fn bool_sorted(t: SmtTerm) -> bool {
    t matches SmtTerm::Apply(op, _, _) && comparison_op(op)
}

/// The lowering of an operation of the kind with `n` subterms, the first
/// two of which lower to `first` and `second`: nothing where the lowering
/// panics, else its result; an equality compares operands of any sort, the
/// other operators take integers.
pub open spec fn combined_lowering(kind: OperationKind, n: nat, first: Option<Result<SmtTerm, LoweringError>>,
    second: Option<Result<SmtTerm, LoweringError>>) -> Option<Result<SmtTerm, LoweringError>>
{
    if n == 0 {
        None
    } else {
        match first {
            None => None,
            Some(Err(e)) => Some(Err(e)),
            Some(Ok(l)) => if n < 2 {
                None
            } else {
                match second {
                    None => None,
                    Some(Err(e)) => Some(Err(e)),
                    Some(Ok(r)) => match kind_op(kind) {
                        None => None,
                        Some(o) => if truth_comparison(kind) || (int_sorted(l) && int_sorted(r)) {
                            Some(Ok(SmtTerm::Apply(o, Box::new(l), Box::new(r))))
                        } else {
                            Some(Err(LoweringError::IntExpected))
                        },
                    },
                }
            },
        }
    }
}

/// The lowering of an operation: nothing where it panics (an unregistered
/// variable, too few subterms, a kind that does not lower), else the term
/// or the error.
pub open spec fn lowering(op: Operation, cache: Seq<(Seq<char>, SmtTerm)>) -> Option<Result<SmtTerm, LoweringError>>
    decreases op,
{
    match op {
        Operation::Primitive(p) => match p@ {
            PrimitiveView::Variable(v) => match cache_lookup(cache, v) {
                Some(t) => Some(Ok(t)),
                None => None,
            },
            PrimitiveView::Ground(i) => Some(Ok(SmtTerm::Int(i))),
        },
        Operation::Operation { kind, subterms } => combined_lowering(kind, subterms@.len(),
            if subterms@.len() > 0 { lowering(subterms@[0], cache) } else { None },
            if subterms@.len() > 1 { lowering(subterms@[1], cache) } else { None }),
    }
}

/// Whether the operation lowers to a truth value.
pub open spec fn lowers_to_condition(op: Operation, cache: Seq<(Seq<char>, SmtTerm)>) -> bool {
    lowering(op, cache) matches Some(Ok(t)) && bool_sorted(t)
}

/// The conditions that the operations lower to.
pub open spec fn lowered_conditions(ops: Seq<Operation>, cache: Seq<(Seq<char>, SmtTerm)>) -> Seq<SmtTerm> {
    ops.map_values(|op: Operation| lowering(op, cache).unwrap()->Ok_0)
}

/// The formulas that the operations lower to.
pub open spec fn lowered_formulas(ops: Seq<Operation>, cache: Seq<(Seq<char>, SmtTerm)>) -> Seq<FormulaView> {
    lowered_conditions(ops, cache).map_values(|t: SmtTerm| FormulaView::Term(t))
}

/// The formulas of the annotations, annotation by annotation.
pub open spec fn annotations_formulas(annotations: Seq<NormalizedRuleAnnotation>, cache: Seq<(Seq<char>, SmtTerm)>) -> Seq<FormulaView>
    decreases annotations.len(),
{
    if annotations.len() == 0 {
        Seq::empty()
    } else {
        annotations_formulas(annotations.drop_last(), cache) + lowered_formulas(annotations.last().body@, cache)
    }
}

/// The formulas that a rule lowers to: the applications of its positive
/// body atoms, its operations, and the conditions of its annotations.
pub open spec fn lowered_rule(rule: NormalizedRule, decls: Seq<(Seq<char>, usize)>, cache: Seq<(Seq<char>, SmtTerm)>) -> Seq<FormulaView> {
    rule.positive@.map_values(|b: BodyAtom| body_atom_formula(b, decls, cache)) + lowered_formulas(rule.operations@, cache)
        + annotations_formulas(rule.annotations@, cache)
}

/// Whether the rule lowers: its positive atoms translate, and its
/// operations and the conditions of its annotations lower to truth values.
pub open spec fn rule_lowers(rule: NormalizedRule, decls: Seq<(Seq<char>, usize)>, cache: Seq<(Seq<char>, SmtTerm)>) -> bool {
    &&& forall|i: int| 0 <= i < rule.positive@.len() ==> body_atom_translates(#[trigger] rule.positive@[i], decls, cache)
    &&& forall|i: int| 0 <= i < rule.operations@.len() ==> lowers_to_condition(#[trigger] rule.operations@[i], cache)
    &&& forall|i: int, j: int| 0 <= i < rule.annotations@.len() && 0 <= j < rule.annotations@[i].body@.len()
        ==> lowers_to_condition(#[trigger] rule.annotations@[i].body@[j], cache)
}

/// The bounds that restrictions put on the registered variables: each at
/// least its start and less than its end.
pub open spec fn restriction_bounds(restrictions: Seq<(Variable, (i64, i64))>, cache: Seq<(Seq<char>, SmtTerm)>) -> Seq<SmtTerm>
    decreases restrictions.len(),
{
    if restrictions.len() == 0 {
        Seq::empty()
    } else {
        let (v, range) = restrictions.last();
        let rest = restriction_bounds(restrictions.drop_last(), cache);
        match cache_lookup(cache, v@) {
            Some(t) => rest + seq![SmtTerm::Apply(SmtOp::Ge, Box::new(t), Box::new(SmtTerm::Int(range.0))),
                SmtTerm::Apply(SmtOp::Lt, Box::new(t), Box::new(SmtTerm::Int(range.1)))],
            None => rest,
        }
    }
}

/// The cache that numbers the variables in order.
pub open spec fn numbered_cache(vars: Seq<Variable>) -> Seq<(Seq<char>, SmtTerm)> {
    Seq::new(vars.len(), |i: int| (vars[i]@, SmtTerm::Var(i as usize)))
}

/// Whether the operations and the conditions of the annotations of a rule
/// lower to truth values.
pub open spec fn rule_conditions_lower(rule: NormalizedRule, cache: Seq<(Seq<char>, SmtTerm)>) -> bool {
    &&& forall|i: int| 0 <= i < rule.operations@.len() ==> lowers_to_condition(#[trigger] rule.operations@[i], cache)
    &&& forall|i: int, j: int| 0 <= i < rule.annotations@.len() && 0 <= j < rule.annotations@[i].body@.len()
        ==> lowers_to_condition(#[trigger] rule.annotations@[i].body@[j], cache)
}

/// Whether the rule can be checked: each of its predicates has one arity,
/// and, with its variables numbered in any order, its operations and the
/// conditions of its annotations lower to truth values.
pub open spec fn checkable_rule(rule: NormalizedRule) -> bool {
    &&& single_arities(rule_predicate_set(rule))
    &&& forall|cache: Seq<(Seq<char>, SmtTerm)>| #[trigger] rule_cache(rule, cache, 0) ==> rule_conditions_lower(rule, cache)
}

/// The formulas of the check of a rule: those that it lowers to, and the
/// bounds of the restrictions.
pub open spec fn rule_check_formulas(rule: NormalizedRule, restrictions: Seq<(Variable, (i64, i64))>,
    decls: Seq<(Seq<char>, usize)>, cache: Seq<(Seq<char>, SmtTerm)>) -> Seq<FormulaView>
{
    lowered_rule(rule, decls, cache) + restriction_bounds(restrictions, cache).map_values(|t: SmtTerm| FormulaView::Term(t))
}

/// The lowering of each operation, in order, up to the first that does not
/// give a condition: the conditions, or the error of that operation, where
/// a term that is no condition gives a mismatch.
pub open spec fn lowered_condition_list(ops: Seq<Operation>, cache: Seq<(Seq<char>, SmtTerm)>) -> Result<Seq<SmtTerm>, LoweringError>
    decreases ops.len(),
{
    if ops.len() == 0 {
        Ok(Seq::empty())
    } else {
        match lowered_condition_list(ops.drop_last(), cache) {
            Err(e) => Err(e),
            Ok(ts) => match lowering(ops.last(), cache) {
                Some(Ok(t)) => if bool_sorted(t) { Ok(ts.push(t)) } else { Err(LoweringError::BoolExpected) },
                Some(Err(e)) => Err(e),
                None => Err(LoweringError::BoolExpected),
            },
        }
    }
}

/// Whether the lowering of the operations does not panic up to the first
/// one that does not give a condition.
pub open spec fn condition_list_defined(ops: Seq<Operation>, cache: Seq<(Seq<char>, SmtTerm)>) -> bool
    decreases ops.len(),
{
    if ops.len() == 0 {
        true
    } else {
        condition_list_defined(ops.drop_last(), cache) && (lowered_condition_list(ops.drop_last(), cache) is Ok
            ==> lowering(ops.last(), cache) is Some)
    }
}

/// The numbers from 0 below `n`.
pub open spec fn numbers_below(n: nat) -> Seq<usize> {
    Seq::new(n, |i: int| i as usize)
}

/// The problem whose bounds the solver's optimizer finds: the script that
/// declares the constants of the variables and asserts the conditions, and
/// for each variable to bound, the name of its constant.
#[derive(Debug)]
pub struct RangeProblem {
    /// The SMT-LIB script
    pub script: String,
    /// The variables to bound, with the names of their constants
    pub objectives: Vec<(Variable, String)>,
}

/// Declaring a predicate makes it the one that its name finds, and leaves
/// the others as they were: what `get_predicate_fun` gives after
/// `build_predicate`.
pub proof fn lemma_last_declaration_found(decls: Seq<(Seq<char>, usize)>, t: Seq<char>, arity: usize)
    ensures
        declared_predicate(decls.push((t, arity)), t) == Some(decls.len() as int),
        forall|u: Seq<char>| u != t ==> #[trigger] declared_predicate(decls.push((t, arity)), u) == declared_predicate(decls, u),
{
    assert(decls.push((t, arity)).drop_last() =~= decls);
}

/// Lowers Datalog rules to smt represenation
#[derive(Debug)]
pub struct Lowering {
    /// The declared predicates with their arities; a later declaration of a
    /// name replaces an earlier one
    pub predicates_to_fun: Vec<(Tag, usize)>,
}

impl Lowering {
    /// Creates new instance of the lowering struct
    pub fn new() -> (lowering: Self)
        ensures
            lowering.predicates_to_fun@.len() == 0,
    {
        Lowering { predicates_to_fun: Vec::new() }
    }

    /// Returns the number of the declared function of the given predicate
    pub fn get_predicate_fun(&mut self, predicate: &Tag) -> (k: usize)
        requires
            declared_predicate(declaration_views(old(self).predicates_to_fun@), predicate@) is Some,
        ensures
            final(self).predicates_to_fun@ == old(self).predicates_to_fun@,
            declared_predicate(declaration_views(old(self).predicates_to_fun@), predicate@) == Some(k as int),
    {
        let mut k = self.predicates_to_fun.len();
        assert(declaration_views(self.predicates_to_fun@).take(k as int) =~= declaration_views(self.predicates_to_fun@));
        while k > 0
            invariant
                k <= self.predicates_to_fun@.len(),
                declared_predicate(declaration_views(self.predicates_to_fun@), predicate@)
                    == declared_predicate(declaration_views(self.predicates_to_fun@).take(k as int), predicate@),
            decreases k,
        {
            let ghost prefix = declaration_views(self.predicates_to_fun@).take(k as int);
            assert(prefix.last() == (self.predicates_to_fun@[k - 1].0@, self.predicates_to_fun@[k - 1].1));
            if self.predicates_to_fun[k - 1].0 == *predicate {
                return k - 1;
            }
            assert(prefix.drop_last() =~= declaration_views(self.predicates_to_fun@).take(k - 1));
            k = k - 1;
        }
        0
    }

    /// Declares the function of the predicate, from integers of the given
    /// arity to truth values
    pub fn build_predicate(&mut self, predicate: Tag, arity: usize)
        ensures
            declaration_views(final(self).predicates_to_fun@) == declaration_views(old(self).predicates_to_fun@).push(
                (predicate@, arity)),
    {
        let ghost before = declaration_views(self.predicates_to_fun@);
        let ghost name = predicate@;
        self.predicates_to_fun.push((predicate, arity));
        assert(declaration_views(self.predicates_to_fun@) =~= before.push((name, arity)));
    }

    /// Constructs the body atom: its declared function applied to its variables
    pub fn lower_body_atom(&mut self, body_atom: &BodyAtom, var_map: &Vec<(Variable, SmtTerm)>) -> (f: PredicateFormula)
        requires
            body_atom_translates(*body_atom, declaration_views(old(self).predicates_to_fun@), cache_view(var_map@)),
        ensures
            final(self).predicates_to_fun@ == old(self).predicates_to_fun@,
            f@ == body_atom_formula(*body_atom, declaration_views(old(self).predicates_to_fun@), cache_view(var_map@)),
    {
        RuleVerifier::new().translate_body_atom(body_atom, var_map, &self.predicates_to_fun)
    }

    /// Constructs the head atom: its declared function applied to its primitives
    pub fn lower_head_atom(&mut self, head_atom: &HeadAtom, var_map: &Vec<(Variable, SmtTerm)>) -> (f: PredicateFormula)
        requires
            head_atom_translates(*head_atom, declaration_views(old(self).predicates_to_fun@), cache_view(var_map@)),
        ensures
            final(self).predicates_to_fun@ == old(self).predicates_to_fun@,
            f@ == head_atom_formula(*head_atom, declaration_views(old(self).predicates_to_fun@), cache_view(var_map@)),
    {
        RuleVerifier::new().translate_head_atom(head_atom, var_map, &self.predicates_to_fun)
    }

    /// Converts a primitive into an integer term: a variable into its term,
    /// a ground term into its literal
    pub fn lower_primitive(&self, primitive: &Primitive, var_map: &Vec<(Variable, SmtTerm)>) -> (t: SmtTerm)
        requires
            primitive@ matches PrimitiveView::Variable(v) ==> cache_lookup(cache_view(var_map@), v) is Some,
        ensures
            t == primitive_term(primitive@, cache_view(var_map@)),
    {
        RuleVerifier::new().translate_primitive(primitive, var_map)
    }

    /// Converts the conditions of a rule annotation into terms
    pub fn lower_rule_annotation(&mut self, annotation: &NormalizedRuleAnnotation, var_map: &Vec<(Variable, SmtTerm)>)
        -> (terms: Vec<SmtTerm>)
        requires
            forall|i: int| 0 <= i < annotation.body@.len() ==> lowers_to_condition(#[trigger] annotation.body@[i],
                cache_view(var_map@)),
        ensures
            final(self).predicates_to_fun@ == old(self).predicates_to_fun@,
            terms@ == lowered_conditions(annotation.body@, cache_view(var_map@)),
    {
        self.lower_conditions(&annotation.body, var_map)
    }

    /// Converts operations that lower to conditions into terms
    fn lower_conditions(&mut self, ops: &Vec<Operation>, var_map: &Vec<(Variable, SmtTerm)>) -> (terms: Vec<SmtTerm>)
        requires
            forall|i: int| 0 <= i < ops@.len() ==> lowers_to_condition(#[trigger] ops@[i], cache_view(var_map@)),
        ensures
            final(self).predicates_to_fun@ == old(self).predicates_to_fun@,
            terms@ == lowered_conditions(ops@, cache_view(var_map@)),
    {
        let ghost cache = cache_view(var_map@);
        let mut terms: Vec<SmtTerm> = Vec::new();
        let n = ops.len();
        let mut i: usize = 0;
        while i < n
            invariant
                n == ops@.len(),
                cache == cache_view(var_map@),
                forall|i: int| 0 <= i < ops@.len() ==> lowers_to_condition(#[trigger] ops@[i], cache),
                self.predicates_to_fun@ == old(self).predicates_to_fun@,
                0 <= i <= n,
                terms@ == lowered_conditions(ops@, cache).take(i as int),
            decreases n - i,
        {
            assert(lowers_to_condition(ops@[i as int], cache));
            let t = match self.lower_operation(&ops[i], var_map) {
                Ok(t) => t,
                Err(_) => SmtTerm::Bool(false),
            };
            terms.push(t);
            assert(terms@ =~= lowered_conditions(ops@, cache).take(i + 1));
            i = i + 1;
        }
        assert(lowered_conditions(ops@, cache).take(n as int) =~= lowered_conditions(ops@, cache));
        terms
    }

    /// Converts an operation into a term: a primitive into its term, an
    /// operation by its kind
    pub fn lower_operation(&mut self, operation: &Operation, var_map: &Vec<(Variable, SmtTerm)>) -> (r: Result<SmtTerm, LoweringError>)
        requires
            lowering(*operation, cache_view(var_map@)) is Some,
        ensures
            final(self).predicates_to_fun@ == old(self).predicates_to_fun@,
            Some(r) == lowering(*operation, cache_view(var_map@)),
        decreases operation,
    {
        match operation {
            Operation::Primitive(primitive) => Ok(self.lower_primitive(primitive, var_map)),
            Operation::Operation { kind, subterms } => {
                proof {
                    assert(decreases_to!(*operation => subterms));
                }
                self.lower_operation_kind(kind, subterms, var_map)
            },
        }
    }

    /// Converts an operation of the kind into a term: the operator of the
    /// kind applied to the terms of the first two subterms
    pub fn lower_operation_kind(&mut self, kind: &OperationKind, subterms: &Vec<Operation>, var_map: &Vec<(Variable, SmtTerm)>)
        -> (r: Result<SmtTerm, LoweringError>)
        requires
            combined_lowering(*kind, subterms@.len(),
                if subterms@.len() > 0 { lowering(subterms@[0], cache_view(var_map@)) } else { None },
                if subterms@.len() > 1 { lowering(subterms@[1], cache_view(var_map@)) } else { None }) is Some,
        ensures
            final(self).predicates_to_fun@ == old(self).predicates_to_fun@,
            Some(r) == combined_lowering(*kind, subterms@.len(),
                if subterms@.len() > 0 { lowering(subterms@[0], cache_view(var_map@)) } else { None },
                if subterms@.len() > 1 { lowering(subterms@[1], cache_view(var_map@)) } else { None }),
        decreases subterms,
    {
        proof {
            assert(decreases_to!(subterms => subterms@));
        }
        let left = match self.lower_operation(&subterms[0], var_map) {
            Ok(t) => t,
            Err(e) => return Err(e),
        };
        let right = match self.lower_operation(&subterms[1], var_map) {
            Ok(t) => t,
            Err(e) => return Err(e),
        };
        let op = match kind {
            OperationKind::Equal => SmtOp::Eq,
            OperationKind::Unequals => SmtOp::Ne,
            OperationKind::NumericSum => SmtOp::Add,
            OperationKind::NumericSubtraction => SmtOp::Sub,
            OperationKind::NumericProduct => SmtOp::Mul,
            OperationKind::NumericDivision => SmtOp::Div,
            OperationKind::NumericGreaterthaneq => SmtOp::Ge,
            OperationKind::NumericGreaterthan => SmtOp::Gt,
            OperationKind::NumericLessthaneq => SmtOp::Le,
            // the remaining kind that lowers
            _ => SmtOp::Lt,
        };
        let compares = match kind {
            OperationKind::Equal => true,
            OperationKind::Unequals => true,
            _ => false,
        };
        if compares || (is_int_sorted(&left) && is_int_sorted(&right)) {
            Ok(SmtTerm::Apply(op, Box::new(left), Box::new(right)))
        } else {
            Err(LoweringError::IntExpected)
        }
    }

    /// Lowers the restrictions of the registered variables: each variable at
    /// least the start of its range and less than its end
    pub fn lower_restrictions(&self, restrictions: &Vec<(Variable, (i64, i64))>, var_map: &Vec<(Variable, SmtTerm)>)
        -> (bounds: Vec<SmtTerm>)
        ensures
            bounds@ == restriction_bounds(restrictions@, cache_view(var_map@)),
    {
        let ghost cache = cache_view(var_map@);
        let mut bounds: Vec<SmtTerm> = Vec::new();
        let n = restrictions.len();
        let mut i: usize = 0;
        while i < n
            invariant
                n == restrictions@.len(),
                cache == cache_view(var_map@),
                0 <= i <= n,
                bounds@ == restriction_bounds(restrictions@.take(i as int), cache),
            decreases n - i,
        {
            assert(restrictions@.take(i + 1).drop_last() =~= restrictions@.take(i as int));
            assert(restrictions@.take(i + 1).last() == restrictions@[i as int]);
            let (var, range) = &restrictions[i];
            match lookup(var_map, var) {
                Some(int_var) => {
                    let ghost before = bounds@;
                    bounds.push(SmtTerm::Apply(SmtOp::Ge, Box::new(int_var.clone()), Box::new(SmtTerm::Int(range.0))));
                    bounds.push(SmtTerm::Apply(SmtOp::Lt, Box::new(int_var), Box::new(SmtTerm::Int(range.1))));
                    assert(bounds@ =~= restriction_bounds(restrictions@.take(i + 1), cache));
                },
                None => {},
            }
            i = i + 1;
        }
        assert(restrictions@.take(n as int) =~= restrictions@);
        bounds
    }

    /// Lowers a rule: the applications of its positive body atoms, its
    /// operations, and the conditions of its annotations
    pub fn lower_rule(&mut self, rule: &NormalizedRule, var_map: &Vec<(Variable, SmtTerm)>) -> (formulas: Vec<PredicateFormula>)
        requires
            rule_lowers(*rule, declaration_views(old(self).predicates_to_fun@), cache_view(var_map@)),
        ensures
            final(self).predicates_to_fun@ == old(self).predicates_to_fun@,
            formula_views(formulas@) == lowered_rule(*rule, declaration_views(old(self).predicates_to_fun@), cache_view(var_map@)),
    {
        let ghost decls = declaration_views(self.predicates_to_fun@);
        let ghost cache = cache_view(var_map@);
        let mut formulas: Vec<PredicateFormula> = Vec::new();
        let n = rule.positive.len();
        let mut i: usize = 0;
        while i < n
            invariant
                n == rule.positive@.len(),
                decls == declaration_views(self.predicates_to_fun@),
                self.predicates_to_fun@ == old(self).predicates_to_fun@,
                cache == cache_view(var_map@),
                rule_lowers(*rule, decls, cache),
                0 <= i <= n,
                formula_views(formulas@) == rule.positive@.map_values(|b: BodyAtom| body_atom_formula(b, decls, cache)).take(i as int),
            decreases n - i,
        {
            assert(body_atom_translates(rule.positive@[i as int], decls, cache));
            let f = self.lower_body_atom(&rule.positive[i], var_map);
            let ghost before = formula_views(formulas@);
            formulas.push(f);
            assert(formula_views(formulas@) =~= before.push(f@));
            assert(formula_views(formulas@) =~= rule.positive@.map_values(|b: BodyAtom| body_atom_formula(b, decls, cache)).take(i + 1));
            i = i + 1;
        }
        assert(rule.positive@.map_values(|b: BodyAtom| body_atom_formula(b, decls, cache)).take(n as int)
            =~= rule.positive@.map_values(|b: BodyAtom| body_atom_formula(b, decls, cache)));
        let operations = self.lower_conditions(&rule.operations, var_map);
        push_terms(&mut formulas, &operations);
        assert(formula_views(formulas@) =~= rule.positive@.map_values(|b: BodyAtom| body_atom_formula(b, decls, cache))
            + lowered_formulas(rule.operations@, cache));
        let m = rule.annotations.len();
        let mut j: usize = 0;
        let ghost with_operations = formula_views(formulas@);
        while j < m
            invariant
                m == rule.annotations@.len(),
                self.predicates_to_fun@ == old(self).predicates_to_fun@,
                cache == cache_view(var_map@),
                rule_lowers(*rule, decls, cache),
                0 <= j <= m,
                formula_views(formulas@) == with_operations + annotations_formulas(rule.annotations@.take(j as int), cache),
            decreases m - j,
        {
            assert forall|k: int| 0 <= k < rule.annotations@[j as int].body@.len() implies
                lowers_to_condition(#[trigger] rule.annotations@[j as int].body@[k], cache) by {
                assert(lowers_to_condition(rule.annotations@[j as int].body@[k], cache));
            }
            let lowered_ann = self.lower_rule_annotation(&rule.annotations[j], var_map);
            push_terms(&mut formulas, &lowered_ann);
            assert(rule.annotations@.take(j + 1).drop_last() =~= rule.annotations@.take(j as int));
            assert(rule.annotations@.take(j + 1).last() == rule.annotations@[j as int]);
            j = j + 1;
            assert(formula_views(formulas@) =~= with_operations + annotations_formulas(rule.annotations@.take(j as int), cache));
        }
        assert(rule.annotations@.take(m as int) =~= rule.annotations@);
        formulas
    }

    /// Builds the map of the variables to their constants, numbered in order
    pub fn build_var_map(&self, vars: &Vec<Variable>) -> (var_map: Vec<(Variable, SmtTerm)>)
        ensures
            cache_view(var_map@) == numbered_cache(vars@),
    {
        let mut var_map: Vec<(Variable, SmtTerm)> = Vec::new();
        let n = vars.len();
        let mut i: usize = 0;
        while i < n
            invariant
                n == vars@.len(),
                0 <= i <= n,
                cache_view(var_map@) == numbered_cache(vars@).take(i as int),
            decreases n - i,
        {
            let ghost before = cache_view(var_map@);
            var_map.push((vars[i].clone(), SmtTerm::Var(i)));
            assert(cache_view(var_map@) =~= before.push((vars@[i as int]@, SmtTerm::Var(i))));
            assert(cache_view(var_map@) =~= numbered_cache(vars@).take(i + 1));
            i = i + 1;
        }
        assert(numbered_cache(vars@).take(n as int) =~= numbered_cache(vars@));
        var_map
    }

    /// Lowers the operations of both lists in order, up to the first that
    /// does not give a condition, whose error is returned
    fn lower_condition_list(&mut self, first: &Vec<Operation>, second: &Vec<Operation>, var_map: &Vec<(Variable, SmtTerm)>)
        -> (r: Result<Vec<SmtTerm>, LoweringError>)
        requires
            condition_list_defined(first@ + second@, cache_view(var_map@)),
        ensures
            final(self).predicates_to_fun@ == old(self).predicates_to_fun@,
            match r {
                Ok(terms) => lowered_condition_list(first@ + second@, cache_view(var_map@)) == Ok::<Seq<SmtTerm>, LoweringError>(terms@),
                Err(e) => lowered_condition_list(first@ + second@, cache_view(var_map@)) == Err::<Seq<SmtTerm>, LoweringError>(e),
            },
    {
        let ghost cache = cache_view(var_map@);
        let ghost ops = first@ + second@;
        let mut terms: Vec<SmtTerm> = Vec::new();
        let mut phase: usize = 0;
        while phase < 2
            invariant
                0 <= phase <= 2,
                ops == first@ + second@,
                cache == cache_view(var_map@),
                self.predicates_to_fun@ == old(self).predicates_to_fun@,
                condition_list_defined(ops, cache),
                lowered_condition_list(ops.take(if phase == 0 { 0 } else if phase == 1 { first@.len() as int } else { ops.len() as int }),
                    cache) == Ok::<Seq<SmtTerm>, LoweringError>(terms@),
            decreases 2 - phase,
        {
            let list = if phase == 0 { first } else { second };
            let ghost offset: int = if phase == 0 { 0 } else { first@.len() as int };
            assert(forall|j: int| 0 <= j < list@.len() ==> list@[j] == ops[offset + j]);
            let n = list.len();
            let mut i: usize = 0;
            while i < n
                invariant
                    n == list@.len(),
                    ops == first@ + second@,
                    0 <= offset,
                    offset + n <= ops.len(),
                    forall|j: int| 0 <= j < list@.len() ==> list@[j] == ops[offset + j],
                    cache == cache_view(var_map@),
                    self.predicates_to_fun@ == old(self).predicates_to_fun@,
                    condition_list_defined(ops, cache),
                    0 <= i <= n,
                    lowered_condition_list(ops.take(offset + i), cache) == Ok::<Seq<SmtTerm>, LoweringError>(terms@),
                decreases n - i,
            {
                proof { lemma_condition_list_prefix(ops, cache, offset + i + 1); }
                assert(ops.take(offset + i + 1).drop_last() =~= ops.take(offset + i));
                assert(ops.take(offset + i + 1).last() == list@[i as int]);
                let t = match self.lower_operation(&list[i], var_map) {
                    Ok(t) => t,
                    Err(e) => {
                        proof { lemma_condition_list_error(ops, cache, offset + i + 1); }
                        return Err(e);
                    },
                };
                if !is_bool_sorted(&t) {
                    proof { lemma_condition_list_error(ops, cache, offset + i + 1); }
                    return Err(LoweringError::BoolExpected);
                }
                terms.push(t);
                i = i + 1;
            }
            phase = phase + 1;
        }
        assert(ops.take(ops.len() as int) =~= ops);
        Ok(terms)
    }

    /// The SMT-LIB script of the check of a rule under the restrictions of
    /// its variables: the predicates of the rule declared, the formulas that
    /// the rule lowers to, and the bounds of the restrictions
    pub fn rule_script(rule: &NormalizedRule, restrictions: &Vec<(Variable, (i64, i64))>) -> (script: String)
        requires
            checkable_rule(*rule),
        ensures
            exists|cache: Seq<(Seq<char>, SmtTerm)>, decls: Seq<(Seq<char>, usize)>|
                #![trigger rule_check_formulas(*rule, restrictions@, decls, cache)]
                rule_cache(*rule, cache, 0) && decls.no_duplicates() && decls.to_set() == rule_predicate_set(*rule)
                && script@ == clause_script_text(declaration_arities(decls), rule_check_formulas(*rule, restrictions@, decls, cache)),
    {
        let mut lowering = Lowering::new();
        let vars = rule.variables();
        let var_map = lowering.build_var_map(&vars);
        let ghost cache = cache_view(var_map@);
        proof {
            assert(cache_names(cache) =~= variable_names(vars@));
            variable_names(vars@).unique_seq_to_set();
            assert(rule_cache(*rule, cache, 0));
            lemma_rule_cache(*rule, cache, 0);
        }
        let preds = rule.predicates();
        let declarations = declarations_of(&preds);
        let n = declarations.len();
        let mut k: usize = 0;
        while k < n
            invariant
                n == declarations@.len(),
                0 <= k <= n,
                declaration_views(lowering.predicates_to_fun@) == declaration_views(declarations@).take(k as int),
            decreases n - k,
        {
            lowering.build_predicate(declarations[k].0.clone(), declarations[k].1);
            assert(declaration_views(lowering.predicates_to_fun@) =~= declaration_views(declarations@).take(k + 1));
            k = k + 1;
        }
        assert(declaration_views(declarations@).take(n as int) =~= declaration_views(declarations@));
        let ghost decls = declaration_views(lowering.predicates_to_fun@);
        proof {
            assert forall|i: int| 0 <= i < rule.positive@.len() implies body_atom_translates(#[trigger] rule.positive@[i], decls, cache) by {
                let atom = rule.positive@[i];
                lemma_body_atom_predicate(rule.positive@, i);
                assert(rule_predicate_set(*rule).contains((atom.predicate@, atom.terms@.len() as usize)));
                assert(atom.terms@.len() == atom.terms.len());
                lemma_declared_arity(decls, atom.predicate@, atom.terms@.len() as usize);
                assert forall|j: int| 0 <= j < atom.terms@.len() implies cache_lookup(cache, (#[trigger] atom.terms@[j])@) is Some by {
                    lemma_body_atom_variable(rule.positive@, i, j);
                    assert(rule.spec_variables().contains(atom.terms@[j]@));
                }
            }
            assert(rule_conditions_lower(*rule, cache));
        }
        let mut formulas = lowering.lower_rule(rule, &var_map);
        let bounds = lowering.lower_restrictions(restrictions, &var_map);
        push_terms(&mut formulas, &bounds);
        let arities = arities_of(&lowering.predicates_to_fun);
        proof {
            assert(formula_views(formulas@) =~= rule_check_formulas(*rule, restrictions@, decls, cache));
        }
        render_clause_script(&arities, &formulas)
    }

    /// Whether the check of a rule found its formulas satisfiable: an
    /// answer that the solver could not decide counts as not satisfiable
    pub fn check_verdict(outcome: SatOutcome) -> (r: bool)
        ensures
            r == (outcome == SatOutcome::Sat),
    {
        match outcome {
            SatOutcome::Unsat => false,
            SatOutcome::Sat => true,
            SatOutcome::Unknown => false,
        }
    }

    /// The problem whose optimization gives the ranges of the variables of
    /// the head: the constants of the rule's variables, numbered in order,
    /// under the bounds of the restrictions and the conditions that the
    /// annotation's and the body's operations lower to, with the constants of
    /// the variables to bound; the error of the first operation that does not
    /// lower to a condition
    pub fn head_range_problem(restrictions: &Vec<(Variable, (i64, i64))>, annotation_ops: &Vec<Operation>,
        body_ops: &Vec<Operation>, arith_head_vars: &Vec<Variable>, rule_vars: &Vec<Variable>) -> (r: Result<RangeProblem, LoweringError>)
        requires
            condition_list_defined(annotation_ops@ + body_ops@, numbered_cache(rule_vars@)),
            lowered_condition_list(annotation_ops@ + body_ops@, numbered_cache(rule_vars@)) is Ok ==> forall|i: int|
                0 <= i < arith_head_vars@.len() ==> cache_lookup(numbered_cache(rule_vars@), (#[trigger] arith_head_vars@[i])@) is Some,
        ensures
            match r {
                Ok(p) => {
                    &&& lowered_condition_list(annotation_ops@ + body_ops@, numbered_cache(rule_vars@)) matches Ok(conditions)
                    &&& p.script@ == declarations_text(numbers_below(rule_vars@.len())) + assertions_text(
                        restriction_bounds(restrictions@, numbered_cache(rule_vars@)) + conditions)
                    &&& p.objectives@.len() == arith_head_vars@.len()
                    &&& forall|i: int| 0 <= i < arith_head_vars@.len() ==> (#[trigger] p.objectives@[i]).0@ == arith_head_vars@[i]@
                        && (cache_lookup(numbered_cache(rule_vars@), arith_head_vars@[i]@) matches Some(SmtTerm::Var(k))
                        && p.objectives@[i].1@ == var_text(k))
                },
                Err(e) => lowered_condition_list(annotation_ops@ + body_ops@, numbered_cache(rule_vars@))
                    == Err::<Seq<SmtTerm>, LoweringError>(e),
            },
    {
        let mut lowering = Lowering::new();
        let var_map = lowering.build_var_map(rule_vars);
        let ghost cache = cache_view(var_map@);
        let bounds = lowering.lower_restrictions(restrictions, &var_map);
        let conditions = match lowering.lower_condition_list(annotation_ops, body_ops, &var_map) {
            Ok(conditions) => conditions,
            Err(e) => return Err(e),
        };
        let mut assertions = bounds;
        let mut more = conditions;
        let ghost bound_terms = assertions@;
        let ghost condition_terms = more@;
        assertions.append(&mut more);
        assert(assertions@ =~= bound_terms + condition_terms);
        let mut numbers: Vec<usize> = Vec::new();
        let n = rule_vars.len();
        let mut k: usize = 0;
        while k < n
            invariant
                n == rule_vars@.len(),
                0 <= k <= n,
                numbers@ == numbers_below(n as nat).take(k as int),
            decreases n - k,
        {
            numbers.push(k);
            assert(numbers@ =~= numbers_below(n as nat).take(k + 1));
            k = k + 1;
        }
        assert(numbers_below(n as nat).take(n as int) =~= numbers_below(n as nat));
        let mut script = String::new();
        append_declarations(&mut script, &numbers);
        append_assertions(&mut script, &assertions);
        let mut objectives: Vec<(Variable, String)> = Vec::new();
        let m = arith_head_vars.len();
        let mut i: usize = 0;
        while i < m
            invariant
                m == arith_head_vars@.len(),
                cache == cache_view(var_map@),
                cache == numbered_cache(rule_vars@),
                forall|i: int| 0 <= i < arith_head_vars@.len() ==> cache_lookup(cache, (#[trigger] arith_head_vars@[i])@) is Some,
                0 <= i <= m,
                objectives@.len() == i,
                forall|j: int| 0 <= j < i ==> (#[trigger] objectives@[j]).0@ == arith_head_vars@[j]@
                    && (cache_lookup(cache, arith_head_vars@[j]@) matches Some(SmtTerm::Var(k)) && objectives@[j].1@ == var_text(k)),
            decreases m - i,
        {
            assert(cache_lookup(cache, arith_head_vars@[i as int]@) is Some);
            proof { lemma_numbered_lookup(rule_vars@, arith_head_vars@[i as int]@); }
            let c = match lookup(&var_map, &arith_head_vars[i]) {
                Some(SmtTerm::Var(c)) => c,
                _ => 0,
            };
            let mut name = String::new();
            append_var(&mut name, c);
            assert(name@ =~= var_text(c));
            objectives.push((arith_head_vars[i].clone(), name));
            i = i + 1;
        }
        Ok(RangeProblem { script, objectives })
    }

    /// The ranges of the variables from the least and the greatest values
    /// that the optimizer found: from the least up to, and without, the one
    /// after the greatest
    pub fn head_ranges(vars: &Vec<Variable>, mins: &Vec<i64>, maxs: &Vec<i64>) -> (ranges: Vec<(Variable, (i64, i64))>)
        requires
            mins@.len() == vars@.len(),
            maxs@.len() == vars@.len(),
            forall|i: int| 0 <= i < maxs@.len() ==> #[trigger] maxs@[i] < i64::MAX,
        ensures
            ranges@.len() == vars@.len(),
            forall|i: int| 0 <= i < vars@.len() ==> (#[trigger] ranges@[i]).0@ == vars@[i]@ && ranges@[i].1.0 == mins@[i]
                && ranges@[i].1.1 == maxs@[i] + 1,
    {
        let mut ranges: Vec<(Variable, (i64, i64))> = Vec::new();
        let n = vars.len();
        let mut i: usize = 0;
        while i < n
            invariant
                n == vars@.len(),
                mins@.len() == n,
                maxs@.len() == n,
                forall|i: int| 0 <= i < maxs@.len() ==> #[trigger] maxs@[i] < i64::MAX,
                0 <= i <= n,
                ranges@.len() == i,
                forall|j: int| 0 <= j < i ==> (#[trigger] ranges@[j]).0@ == vars@[j]@ && ranges@[j].1.0 == mins@[j]
                    && ranges@[j].1.1 == maxs@[j] + 1,
            decreases n - i,
        {
            assert(maxs@[i as int] < i64::MAX);
            ranges.push((vars[i].clone(), (mins[i], maxs[i] + 1)));
            i = i + 1;
        }
        ranges
    }
}

/// Returns whether the term has the sort of the integers.
fn is_int_sorted(t: &SmtTerm) -> (r: bool)
    ensures
        r == int_sorted(*t),
{
    match t {
        SmtTerm::Var(_) => true,
        SmtTerm::Int(_) => true,
        SmtTerm::Apply(op, _, _) => match op {
            SmtOp::Add => true,
            SmtOp::Sub => true,
            SmtOp::Mul => true,
            SmtOp::Div => true,
            _ => false,
        },
        _ => false,
    }
}

/// Returns whether the term has the sort of the truth values that a
/// comparison gives.
fn is_bool_sorted(t: &SmtTerm) -> (r: bool)
    ensures
        r == bool_sorted(*t),
{
    match t {
        SmtTerm::Apply(op, _, _) => match op {
            SmtOp::Eq => true,
            SmtOp::Ne => true,
            SmtOp::Ge => true,
            SmtOp::Gt => true,
            SmtOp::Le => true,
            SmtOp::Lt => true,
            _ => false,
        },
        _ => false,
    }
}

/// Appends the terms as formulas.
fn push_terms(formulas: &mut Vec<PredicateFormula>, terms: &Vec<SmtTerm>)
    ensures
        formula_views(final(formulas)@) == formula_views(old(formulas)@) + terms@.map_values(|t: SmtTerm| FormulaView::Term(t)),
{
    let ghost start = formula_views(formulas@);
    let n = terms.len();
    let mut i: usize = 0;
    while i < n
        invariant
            n == terms@.len(),
            0 <= i <= n,
            formula_views(formulas@) == start + terms@.take(i as int).map_values(|t: SmtTerm| FormulaView::Term(t)),
        decreases n - i,
    {
        let ghost prior = formula_views(formulas@);
        formulas.push(PredicateFormula::Term(terms[i].clone()));
        assert(formula_views(formulas@) =~= prior.push(FormulaView::Term(terms@[i as int])));
        assert(terms@.take(i + 1).map_values(|t: SmtTerm| FormulaView::Term(t))
            =~= terms@.take(i as int).map_values(|t: SmtTerm| FormulaView::Term(t)).push(FormulaView::Term(terms@[i as int])));
        i = i + 1;
    }
    assert(terms@.take(n as int) =~= terms@);
}

/// A prefix of operations whose lowering is defined has a defined lowering.
proof fn lemma_condition_list_prefix(ops: Seq<Operation>, cache: Seq<(Seq<char>, SmtTerm)>, i: int)
    requires
        0 <= i <= ops.len(),
        condition_list_defined(ops, cache),
    ensures
        condition_list_defined(ops.take(i), cache),
    decreases ops.len(),
{
    if i < ops.len() {
        lemma_condition_list_prefix(ops.drop_last(), cache, i);
        assert(ops.drop_last().take(i) =~= ops.take(i));
    } else {
        assert(ops.take(i) =~= ops);
    }
}

/// An error in a prefix of the operations is the error of all of them.
proof fn lemma_condition_list_error(ops: Seq<Operation>, cache: Seq<(Seq<char>, SmtTerm)>, i: int)
    requires
        0 <= i <= ops.len(),
        lowered_condition_list(ops.take(i), cache) is Err,
    ensures
        lowered_condition_list(ops, cache) == lowered_condition_list(ops.take(i), cache),
    decreases ops.len(),
{
    if i < ops.len() {
        assert(ops.drop_last().take(i) =~= ops.take(i));
        lemma_condition_list_error(ops.drop_last(), cache, i);
    } else {
        assert(ops.take(i) =~= ops);
    }
}

/// The term of a variable in a numbered cache is its constant.
proof fn lemma_numbered_lookup(vars: Seq<Variable>, v: Seq<char>)
    requires
        cache_lookup(numbered_cache(vars), v) is Some,
    ensures
        cache_lookup(numbered_cache(vars), v) matches Some(SmtTerm::Var(_)),
{
    lemma_lookup_entry(numbered_cache(vars), v);
}

} // verus!
