//! Translates normalized rules into terms of the solver's language, defined
//! by struct [RuleTranslator]

use vstd::prelude::*;

use crate::execution::planning::normalization::atom::{BodyAtom, GroundAtom, HeadAtom};
use crate::execution::planning::normalization::global_annotation::NormalizedGlobalAnnotation;
use crate::execution::planning::normalization::operation::Operation;
use crate::execution::planning::normalization::program::{tag_views, NormalizedProgram};
use crate::execution::planning::normalization::rule::NormalizedRule;
use crate::execution::planning::normalization::termination_annotation::NormalizedTerminationAnnotation;
use crate::rule_model::components::tag::Tag;
use crate::execution::planning::verification::smt::{
    arithmetic_op, bool_term, comparison_op, conjunction, int_term, SmtOp, SmtTerm,
};
use crate::rule_model::components::operation_kind::OperationKind;
use crate::rule_model::components::variable::{Primitive, PrimitiveView, Variable};

verus! {

/// An entry of a cache: a variable and its term.
pub type CacheEntry = (Variable, SmtTerm);

/// The names of the variables of a cache with their terms.
pub open spec fn cache_view(cache: Seq<(Variable, SmtTerm)>) -> Seq<(Seq<char>, SmtTerm)> {
    cache.map_values(|e: (Variable, SmtTerm)| (e.0@, e.1))
}

/// The term of the variable named `v` in the cache; a later entry of the
/// same name replaces an earlier one.
pub open spec fn cache_lookup(cache: Seq<(Seq<char>, SmtTerm)>, v: Seq<char>) -> Option<SmtTerm>
    decreases cache.len(),
{
    if cache.len() == 0 {
        None
    } else if cache.last().0 == v {
        Some(cache.last().1)
    } else {
        cache_lookup(cache.drop_last(), v)
    }
}

/// Whether every term of the cache denotes an integer.
pub open spec fn int_cache(cache: Seq<(Seq<char>, SmtTerm)>) -> bool {
    forall|i: int| 0 <= i < cache.len() ==> int_term(#[trigger] cache[i].1)
}

/// Whether every name is registered in the cache.
pub open spec fn registered(cache: Seq<(Seq<char>, SmtTerm)>, names: Set<Seq<char>>) -> bool {
    forall|n: Seq<char>| #[trigger] names.contains(n) ==> cache_lookup(cache, n) is Some
}

/// The solver operator of an operation kind, for the kinds that translate.
pub open spec fn kind_op(kind: OperationKind) -> Option<SmtOp> {
    match kind {
        OperationKind::Equal => Some(SmtOp::Eq),
        OperationKind::Unequals => Some(SmtOp::Ne),
        OperationKind::NumericSum => Some(SmtOp::Add),
        OperationKind::NumericSubtraction => Some(SmtOp::Sub),
        OperationKind::NumericProduct => Some(SmtOp::Mul),
        OperationKind::NumericDivision => Some(SmtOp::Div),
        OperationKind::NumericGreaterthaneq => Some(SmtOp::Ge),
        OperationKind::NumericGreaterthan => Some(SmtOp::Gt),
        OperationKind::NumericLessthaneq => Some(SmtOp::Le),
        OperationKind::NumericLessthan => Some(SmtOp::Lt),
        _ => None,
    }
}

/// The term of a primitive: the cached term of a variable, or the integer
/// literal of a ground value.
pub open spec fn primitive_term(p: PrimitiveView, cache: Seq<(Seq<char>, SmtTerm)>) -> SmtTerm {
    match p {
        PrimitiveView::Variable(v) => cache_lookup(cache, v).unwrap(),
        PrimitiveView::Ground(i) => SmtTerm::Int(i),
    }
}

/// The term of an operation: the operator of its kind applied to the terms
/// of its first two subterms.
pub open spec fn operation_term(op: Operation, cache: Seq<(Seq<char>, SmtTerm)>) -> SmtTerm
    decreases op,
{
    match op {
        Operation::Primitive(p) => primitive_term(p@, cache),
        Operation::Operation { kind, subterms } => if subterms@.len() >= 2 {
            SmtTerm::Apply(
                kind_op(kind).unwrap(),
                Box::new(operation_term(subterms@[0], cache)),
                Box::new(operation_term(subterms@[1], cache)),
            )
        } else {
            SmtTerm::Bool(false)
        },
    }
}

/// The terms of the operations.
pub open spec fn operation_terms(ops: Seq<Operation>, cache: Seq<(Seq<char>, SmtTerm)>) -> Seq<SmtTerm> {
    ops.map_values(|op: Operation| operation_term(op, cache))
}

/// Whether the operation is an integer expression over variables named in
/// `names`: a primitive, or arithmetic on two integer expressions.
pub open spec fn int_operation(op: Operation, names: Set<Seq<char>>) -> bool
    decreases op,
{
    match op {
        Operation::Primitive(p) => match p@ {
            PrimitiveView::Variable(v) => names.contains(v),
            PrimitiveView::Ground(_) => true,
        },
        Operation::Operation { kind, subterms } => {
            &&& subterms@.len() >= 2
            &&& kind_op(kind) matches Some(o) && arithmetic_op(o)
            &&& int_operation(subterms@[0], names)
            &&& int_operation(subterms@[1], names)
        },
    }
}

/// Whether the operation compares two integer expressions over variables
/// named in `names`.
pub open spec fn bool_operation(op: Operation, names: Set<Seq<char>>) -> bool {
    match op {
        Operation::Operation { kind, subterms } => {
            &&& subterms@.len() >= 2
            &&& kind_op(kind) matches Some(o) && comparison_op(o)
            &&& int_operation(subterms@[0], names)
            &&& int_operation(subterms@[1], names)
        },
        _ => false,
    }
}

/// Whether each operation compares two integer expressions over variables
/// named in `names`.
pub open spec fn bool_operations(ops: Seq<Operation>, names: Set<Seq<char>>) -> bool {
    forall|i: int| 0 <= i < ops.len() ==> bool_operation(#[trigger] ops[i], names)
}

/// An integer expression over registered variables translates to an integer term.
pub proof fn lemma_int_operation(op: Operation, names: Set<Seq<char>>, cache: Seq<(Seq<char>, SmtTerm)>)
    requires
        int_operation(op, names),
        registered(cache, names),
        int_cache(cache),
    ensures
        translatable(op, cache),
        int_term(operation_term(op, cache)),
    decreases op,
{
    match op {
        Operation::Primitive(p) => {
            match p@ {
                PrimitiveView::Variable(v) => {
                    lemma_lookup_int(cache, v);
                },
                PrimitiveView::Ground(_) => {},
            }
        },
        Operation::Operation { kind, subterms } => {
            assert(decreases_to!(op => subterms));
            assert(decreases_to!(subterms => subterms@));
            lemma_int_operation(subterms@[0], names, cache);
            lemma_int_operation(subterms@[1], names, cache);
        },
    }
}

/// A comparison over registered variables translates to a boolean term.
pub proof fn lemma_bool_operation(op: Operation, names: Set<Seq<char>>, cache: Seq<(Seq<char>, SmtTerm)>)
    requires
        bool_operation(op, names),
        registered(cache, names),
        int_cache(cache),
    ensures
        translatable(op, cache),
        bool_term(operation_term(op, cache)),
{
    match op {
        Operation::Operation { kind, subterms } => {
            lemma_int_operation(subterms@[0], names, cache);
            lemma_int_operation(subterms@[1], names, cache);
        },
        _ => {},
    }
}

/// Comparisons over registered variables translate to boolean terms.
pub proof fn lemma_bool_operations(ops: Seq<Operation>, names: Set<Seq<char>>, cache: Seq<(Seq<char>, SmtTerm)>)
    requires
        bool_operations(ops, names),
        registered(cache, names),
        int_cache(cache),
    ensures
        translatable_conditions(ops, cache),
{
    assert forall|i: int| 0 <= i < ops.len() implies translatable(#[trigger] ops[i], cache) && bool_term(operation_term(ops[i], cache)) by {
        lemma_bool_operation(ops[i], names, cache);
    }
}

/// A name of an entry of the cache is registered.
pub proof fn lemma_lookup_present(cache: Seq<(Seq<char>, SmtTerm)>, i: int)
    requires
        0 <= i < cache.len(),
    ensures
        cache_lookup(cache, cache[i].0) is Some,
    decreases cache.len(),
{
    if cache.last().0 != cache[i].0 {
        assert(i < cache.len() - 1);
        lemma_lookup_present(cache.drop_last(), i);
        assert(cache.drop_last()[i] == cache[i]);
    }
}

/// A looked-up term is the term of an entry of its name.
pub proof fn lemma_lookup_entry(cache: Seq<(Seq<char>, SmtTerm)>, v: Seq<char>)
    requires
        cache_lookup(cache, v) is Some,
    ensures
        exists|i: int| 0 <= i < cache.len() && #[trigger] cache[i] == (v, cache_lookup(cache, v).unwrap()),
    decreases cache.len(),
{
    if cache.last().0 != v {
        lemma_lookup_entry(cache.drop_last(), v);
        let i = choose|i: int| 0 <= i < cache.drop_last().len() && #[trigger] cache.drop_last()[i] == (v, cache_lookup(cache, v).unwrap());
        assert(cache[i] == cache.drop_last()[i]);
    } else {
        assert(cache[cache.len() - 1] == (v, cache_lookup(cache, v).unwrap()));
    }
}

/// A looked-up term of an integer cache is an integer term.
pub proof fn lemma_lookup_int(cache: Seq<(Seq<char>, SmtTerm)>, v: Seq<char>)
    requires
        int_cache(cache),
    ensures
        cache_lookup(cache, v) matches Some(t) ==> int_term(t),
    decreases cache.len(),
{
    if cache.len() > 0 {
        assert(int_term(cache[cache.len() - 1].1));
        if cache.last().0 != v {
            assert forall|i: int| 0 <= i < cache.drop_last().len() implies int_term(#[trigger] cache.drop_last()[i].1) by {
                assert(cache.drop_last()[i] == cache[i]);
            }
            lemma_lookup_int(cache.drop_last(), v);
        }
    }
}


/// Whether the operation can be translated: its variables are registered,
/// its kinds translate, and every operator is applied to integer terms.
pub open spec fn translatable(op: Operation, cache: Seq<(Seq<char>, SmtTerm)>) -> bool
    decreases op,
{
    match op {
        Operation::Primitive(p) => match p@ {
            PrimitiveView::Variable(v) => cache_lookup(cache, v) is Some,
            PrimitiveView::Ground(_) => true,
        },
        Operation::Operation { kind, subterms } => {
            &&& subterms@.len() >= 2
            &&& kind_op(kind) is Some
            &&& translatable(subterms@[0], cache)
            &&& translatable(subterms@[1], cache)
            &&& int_term(operation_term(subterms@[0], cache))
            &&& int_term(operation_term(subterms@[1], cache))
        },
    }
}

/// Whether each operation translates to a boolean term.
pub open spec fn translatable_conditions(ops: Seq<Operation>, cache: Seq<(Seq<char>, SmtTerm)>) -> bool {
    forall|i: int| 0 <= i < ops.len() ==> translatable(#[trigger] ops[i], cache) && bool_term(operation_term(ops[i], cache))
}

/// The smaller of two lengths.
pub open spec fn min_length(a: nat, b: nat) -> nat {
    if a <= b { a } else { b }
}

/// Each annotation variable mapped to the cached term of the rule variable
/// at the same position.
pub open spec fn variable_substitution(annotation_vars: Seq<Variable>, rule_vars: Seq<Variable>, cache: Seq<(Seq<char>, SmtTerm)>)
    -> Seq<(Seq<char>, SmtTerm)>
{
    Seq::new(min_length(annotation_vars.len(), rule_vars.len()),
        |i: int| (annotation_vars[i]@, cache_lookup(cache, rule_vars[i]@).unwrap()))
}

/// Each annotation variable mapped to the term of the head primitive at
/// the same position.
pub open spec fn primitive_substitution(annotation_vars: Seq<Variable>, head_terms: Seq<Primitive>, cache: Seq<(Seq<char>, SmtTerm)>)
    -> Seq<(Seq<char>, SmtTerm)>
{
    Seq::new(min_length(annotation_vars.len(), head_terms.len()),
        |i: int| (annotation_vars[i]@, primitive_term(head_terms[i]@, cache)))
}

/// Each annotation variable mapped to the literal of the fact's value at
/// the same position.
pub open spec fn ground_substitution(annotation_vars: Seq<Variable>, fact: GroundAtom) -> Seq<(Seq<char>, SmtTerm)> {
    Seq::new(min_length(annotation_vars.len(), fact.terms@.len()),
        |i: int| (annotation_vars[i]@, SmtTerm::Int(fact.terms@[i].spec_value())))
}

/// Whether the first `n` variables are registered.
pub open spec fn variables_registered(vars: Seq<Variable>, n: nat, cache: Seq<(Seq<char>, SmtTerm)>) -> bool {
    forall|i: int| 0 <= i < n && i < vars.len() ==> cache_lookup(cache, (#[trigger] vars[i])@) is Some
}

/// Whether the variables among the first `n` primitives are registered.
pub open spec fn primitives_registered(terms: Seq<Primitive>, n: nat, cache: Seq<(Seq<char>, SmtTerm)>) -> bool {
    forall|i: int| 0 <= i < n && i < terms.len() ==> ((#[trigger] terms[i])@ matches PrimitiveView::Variable(v)
        ==> cache_lookup(cache, v) is Some)
}

/// The term that a global annotation asserts of a body atom.
pub open spec fn body_assertion_term(a: NormalizedGlobalAnnotation, atom: BodyAtom, cache: Seq<(Seq<char>, SmtTerm)>) -> SmtTerm {
    conjunction(operation_terms(a.body@, variable_substitution(a.head.terms@, atom.terms@, cache)))
}

/// The term that a global annotation asserts of a head atom.
pub open spec fn head_assertion_term(a: NormalizedGlobalAnnotation, atom: HeadAtom, cache: Seq<(Seq<char>, SmtTerm)>) -> SmtTerm {
    conjunction(operation_terms(a.body@, primitive_substitution(a.head.terms@, atom.terms@, cache)))
}

/// The term that a global annotation asserts of a fact.
pub open spec fn ground_assertion_term(a: NormalizedGlobalAnnotation, fact: GroundAtom) -> SmtTerm {
    conjunction(operation_terms(a.body@, ground_substitution(a.head.terms@, fact)))
}

/// Whether the annotation can be translated for a body atom.
pub open spec fn body_assertion_translatable(a: NormalizedGlobalAnnotation, atom: BodyAtom, cache: Seq<(Seq<char>, SmtTerm)>) -> bool {
    &&& variables_registered(atom.terms@, a.head.terms@.len(), cache)
    &&& translatable_conditions(a.body@, variable_substitution(a.head.terms@, atom.terms@, cache))
}

/// Whether the annotation can be translated for a head atom.
pub open spec fn head_assertion_translatable(a: NormalizedGlobalAnnotation, atom: HeadAtom, cache: Seq<(Seq<char>, SmtTerm)>) -> bool {
    &&& primitives_registered(atom.terms@, a.head.terms@.len(), cache)
    &&& translatable_conditions(a.body@, primitive_substitution(a.head.terms@, atom.terms@, cache))
}

/// The terms of the annotations of the predicates of the atoms, atom by
/// atom, in the order of the annotations in the program.
pub open spec fn atoms_annotation_terms(program: NormalizedProgram, atoms: Seq<BodyAtom>, cache: Seq<(Seq<char>, SmtTerm)>) -> Seq<SmtTerm>
    decreases atoms.len(),
{
    if atoms.len() == 0 {
        Seq::empty()
    } else {
        let atom = atoms.last();
        atoms_annotation_terms(program, atoms.drop_last(), cache)
            + program.spec_global_annotations_for(atom.predicate@).map_values(|a: NormalizedGlobalAnnotation| body_assertion_term(a, atom, cache))
    }
}

/// The atoms whose predicate is among the given ones.
pub open spec fn atoms_with_predicates(atoms: Seq<BodyAtom>, predicates: Seq<Seq<char>>) -> Seq<BodyAtom> {
    atoms.filter(|atom: BodyAtom| predicates.contains(atom.predicate@))
}

/// Whether every annotation of every atom's predicate can be translated.
pub open spec fn atoms_annotations_translatable(program: NormalizedProgram, atoms: Seq<BodyAtom>, cache: Seq<(Seq<char>, SmtTerm)>) -> bool {
    forall|i: int, j: int| 0 <= i < atoms.len() && 0 <= j < program.spec_global_annotations_for(atoms[i].predicate@).len()
        ==> body_assertion_translatable(#[trigger] program.spec_global_annotations_for(atoms[i].predicate@)[j], atoms[i], cache)
}

/// The term of a termination annotation's measure for a body atom.
pub open spec fn termination_body_term(a: NormalizedTerminationAnnotation, atom: BodyAtom, cache: Seq<(Seq<char>, SmtTerm)>) -> SmtTerm {
    operation_term(a.body, variable_substitution(a.head.terms@, atom.terms@, cache))
}

/// The term of a termination annotation's measure for a head atom.
pub open spec fn termination_head_term(a: NormalizedTerminationAnnotation, atom: HeadAtom, cache: Seq<(Seq<char>, SmtTerm)>) -> SmtTerm {
    operation_term(a.body, primitive_substitution(a.head.terms@, atom.terms@, cache))
}

/// Struct for translating rules to terms of the solver's language
#[derive(Debug, Clone, Copy)]
pub struct RuleTranslator {}

/// Returns the term of the variable of the given name in the cache.
pub fn lookup(cache: &Vec<(Variable, SmtTerm)>, v: &Variable) -> (t: Option<SmtTerm>)
    ensures
        t == cache_lookup(cache_view(cache@), v@),
{
    let mut k = cache.len();
    assert(cache_view(cache@).take(k as int) =~= cache_view(cache@));
    while k > 0
        invariant
            k <= cache@.len(),
            cache_lookup(cache_view(cache@), v@) == cache_lookup(cache_view(cache@).take(k as int), v@),
        decreases k,
    {
        let ghost prefix = cache_view(cache@).take(k as int);
        assert(prefix.last() == (cache@[k - 1].0@, cache@[k - 1].1));
        if cache[k - 1].0 == *v {
            return Some(cache[k - 1].1.clone());
        }
        assert(prefix.drop_last() =~= cache_view(cache@).take(k - 1));
        k = k - 1;
    }
    assert(cache_view(cache@).take(0) =~= Seq::<(Seq<char>, SmtTerm)>::empty());
    None
}

/// Maps each annotation variable to the cached term of the rule variable at
/// the same position.
pub(crate) fn annotation_body_substitution(ann_vars: &Vec<Variable>, rule_vars: &Vec<Variable>, var_cache: &Vec<(Variable, SmtTerm)>)
    -> (var_sub: Vec<(Variable, SmtTerm)>)
    requires
        variables_registered(rule_vars@, ann_vars@.len(), cache_view(var_cache@)),
    ensures
        cache_view(var_sub@) == variable_substitution(ann_vars@, rule_vars@, cache_view(var_cache@)),
{
    let ghost cache = cache_view(var_cache@);
    let n = if ann_vars.len() <= rule_vars.len() { ann_vars.len() } else { rule_vars.len() };
    let mut var_sub: Vec<(Variable, SmtTerm)> = Vec::new();
    let mut i: usize = 0;
    while i < n
        invariant
            n == min_length(ann_vars@.len(), rule_vars@.len()),
            variables_registered(rule_vars@, ann_vars@.len(), cache),
            cache == cache_view(var_cache@),
            0 <= i <= n,
            cache_view(var_sub@) == variable_substitution(ann_vars@, rule_vars@, cache).take(i as int),
        decreases n - i,
    {
        assert(cache_lookup(cache, rule_vars@[i as int]@) is Some);
        let t = match lookup(var_cache, &rule_vars[i]) {
            Some(t) => t,
            None => SmtTerm::Int(0),
        };
        let ghost before = var_sub@;
        let v = ann_vars[i].clone();
        var_sub.push((v, t));
        proof {
            let expected = variable_substitution(ann_vars@, rule_vars@, cache);
            assert(expected[i as int] == (ann_vars@[i as int]@, t));
            assert(cache_view(var_sub@) =~= cache_view(before).push((v@, t)));
            assert(cache_view(var_sub@) =~= expected.take(i + 1));
        }
        i = i + 1;
    }
    assert(variable_substitution(ann_vars@, rule_vars@, cache).take(n as int) =~= variable_substitution(ann_vars@, rule_vars@, cache));
    var_sub
}

/// Maps each annotation variable to the term of the head primitive at the
/// same position.
pub(crate) fn annotation_head_substitution(ann_vars: &Vec<Variable>, head_terms: &Vec<Primitive>, var_cache: &Vec<(Variable, SmtTerm)>)
    -> (prim_cache: Vec<(Variable, SmtTerm)>)
    requires
        primitives_registered(head_terms@, ann_vars@.len(), cache_view(var_cache@)),
    ensures
        cache_view(prim_cache@) == primitive_substitution(ann_vars@, head_terms@, cache_view(var_cache@)),
{
    let ghost cache = cache_view(var_cache@);
    let translator = RuleTranslator::new();
    let n = if ann_vars.len() <= head_terms.len() { ann_vars.len() } else { head_terms.len() };
    let mut prim_cache: Vec<(Variable, SmtTerm)> = Vec::new();
    let mut i: usize = 0;
    while i < n
        invariant
            n == min_length(ann_vars@.len(), head_terms@.len()),
            primitives_registered(head_terms@, ann_vars@.len(), cache),
            cache == cache_view(var_cache@),
            0 <= i <= n,
            cache_view(prim_cache@) == primitive_substitution(ann_vars@, head_terms@, cache).take(i as int),
        decreases n - i,
    {
        assert(head_terms@[i as int]@ matches PrimitiveView::Variable(v) ==> cache_lookup(cache, v) is Some);
        let t = translator.translate_primitive(&head_terms[i], var_cache);
        let ghost before = prim_cache@;
        let v = ann_vars[i].clone();
        prim_cache.push((v, t));
        proof {
            let expected = primitive_substitution(ann_vars@, head_terms@, cache);
            assert(expected[i as int] == (ann_vars@[i as int]@, t));
            assert(cache_view(prim_cache@) =~= cache_view(before).push((v@, t)));
            assert(cache_view(prim_cache@) =~= expected.take(i + 1));
        }
        i = i + 1;
    }
    assert(primitive_substitution(ann_vars@, head_terms@, cache).take(n as int) =~= primitive_substitution(ann_vars@, head_terms@, cache));
    prim_cache
}

impl RuleTranslator {
    /// Creates a new [RuleTranslator]
    pub fn new() -> (translator: Self) {
        RuleTranslator {}
    }

    /// Translates a primitive into an integer term
    pub fn translate_primitive(&self, prim: &Primitive, var_cache: &Vec<(Variable, SmtTerm)>) -> (t: SmtTerm)
        requires
            prim@ matches PrimitiveView::Variable(v) ==> cache_lookup(cache_view(var_cache@), v) is Some,
        ensures
            t == primitive_term(prim@, cache_view(var_cache@)),
    {
        match prim {
            Primitive::Variable(variable) => match lookup(var_cache, variable) {
                Some(t) => t,
                None => SmtTerm::Int(0),
            },
            Primitive::Ground(ground_term) => SmtTerm::Int(ground_term.value()),
        }
    }

    /// Translates an operation into a term: the operator of its kind applied
    /// to its first two subterms
    pub fn translate_operation(&self, op: &Operation, var_cache: &Vec<(Variable, SmtTerm)>) -> (t: SmtTerm)
        requires
            translatable(*op, cache_view(var_cache@)),
        ensures
            t == operation_term(*op, cache_view(var_cache@)),
        decreases op,
    {
        match op {
            Operation::Primitive(primitive) => self.translate_primitive(primitive, var_cache),
            Operation::Operation { kind, subterms } => {
                proof {
                    assert(decreases_to!(*op => subterms));
                    assert(decreases_to!(subterms => subterms@));
                }
                let left = self.translate_operation(&subterms[0], var_cache);
                let right = self.translate_operation(&subterms[1], var_cache);
                let smt_op = match kind {
                    OperationKind::Equal => SmtOp::Eq,
                    OperationKind::Unequals => SmtOp::Ne,
                    OperationKind::NumericSum => SmtOp::Add,
                    OperationKind::NumericSubtraction => SmtOp::Sub,
                    OperationKind::NumericProduct => SmtOp::Mul,
                    OperationKind::NumericDivision => SmtOp::Div,
                    OperationKind::NumericGreaterthaneq => SmtOp::Ge,
                    OperationKind::NumericGreaterthan => SmtOp::Gt,
                    OperationKind::NumericLessthaneq => SmtOp::Le,
                    // the remaining kind that translates
                    _ => SmtOp::Lt,
                };
                SmtTerm::Apply(smt_op, Box::new(left), Box::new(right))
            },
        }
    }

    /// Translates the operations into their terms.
    fn translate_operations(&self, ops: &Vec<Operation>, var_cache: &Vec<(Variable, SmtTerm)>) -> (terms: Vec<SmtTerm>)
        requires
            forall|i: int| 0 <= i < ops@.len() ==> translatable(#[trigger] ops@[i], cache_view(var_cache@)),
        ensures
            terms@ == operation_terms(ops@, cache_view(var_cache@)),
    {
        let mut terms: Vec<SmtTerm> = Vec::new();
        let n = ops.len();
        let mut i: usize = 0;
        while i < n
            invariant
                n == ops@.len(),
                forall|j: int| 0 <= j < ops@.len() ==> translatable(#[trigger] ops@[j], cache_view(var_cache@)),
                0 <= i <= n,
                terms@ == operation_terms(ops@, cache_view(var_cache@)).take(i as int),
            decreases n - i,
        {
            let t = self.translate_operation(&ops[i], var_cache);
            terms.push(t);
            assert(terms@ =~= operation_terms(ops@, cache_view(var_cache@)).take(i + 1));
            i = i + 1;
        }
        assert(operation_terms(ops@, cache_view(var_cache@)).take(n as int) =~= operation_terms(ops@, cache_view(var_cache@)));
        terms
    }

    /// The conjunction of the translations of the operations.
    fn translate_conjunction(&self, ops: &Vec<Operation>, var_cache: &Vec<(Variable, SmtTerm)>) -> (t: SmtTerm)
        requires
            forall|i: int| 0 <= i < ops@.len() ==> translatable(#[trigger] ops@[i], cache_view(var_cache@)),
        ensures
            t == conjunction(operation_terms(ops@, cache_view(var_cache@))),
    {
        let terms = self.translate_operations(ops, var_cache);
        conjoin(&terms)
    }

    /// Translates the global annotation of a body atom: the conjunction of
    /// its conditions, with each annotation variable replaced by the term of
    /// the rule variable at the same position
    pub fn translate_body_assertion(&self, assertion: &NormalizedGlobalAnnotation, rule_predicate: &BodyAtom,
        var_cache: &Vec<(Variable, SmtTerm)>) -> (t: SmtTerm)
        requires
            body_assertion_translatable(*assertion, *rule_predicate, cache_view(var_cache@)),
        ensures
            t == body_assertion_term(*assertion, *rule_predicate, cache_view(var_cache@)),
    {
        let var_sub = annotation_body_substitution(&assertion.head.terms, &rule_predicate.terms, var_cache);
        self.translate_conjunction(&assertion.body, &var_sub)
    }

    /// Translates the assertion for the head atom: the conjunction of the
    /// annotation's conditions, with each annotation variable replaced by the
    /// term of the head primitive at the same position
    pub fn translate_head_assertion(&self, assertion: &NormalizedGlobalAnnotation, head_predicate: &HeadAtom,
        var_cache: &Vec<(Variable, SmtTerm)>) -> (t: SmtTerm)
        requires
            head_assertion_translatable(*assertion, *head_predicate, cache_view(var_cache@)),
        ensures
            t == head_assertion_term(*assertion, *head_predicate, cache_view(var_cache@)),
    {
        let prim_cache = annotation_head_substitution(&assertion.head.terms, &head_predicate.terms, var_cache);
        self.translate_conjunction(&assertion.body, &prim_cache)
    }

    /// Translates the assertion for a fact: the conjunction of the
    /// annotation's conditions, with each annotation variable replaced by the
    /// fact's value at the same position
    pub fn translate_ground_assertion(&self, assertion: &NormalizedGlobalAnnotation, fact: &GroundAtom) -> (t: SmtTerm)
        requires
            forall|i: int| 0 <= i < assertion.body@.len() ==> translatable(#[trigger] assertion.body@[i],
                ground_substitution(assertion.head.terms@, *fact)),
        ensures
            t == ground_assertion_term(*assertion, *fact),
    {
        let ann_vars = &assertion.head.terms;
        let values = &fact.terms;
        let n = if ann_vars.len() <= values.len() { ann_vars.len() } else { values.len() };
        let mut prim_cache: Vec<(Variable, SmtTerm)> = Vec::new();
        let mut i: usize = 0;
        while i < n
            invariant
                n == min_length(ann_vars@.len(), values@.len()),
                0 <= i <= n,
                cache_view(prim_cache@) == ground_substitution(ann_vars@, *fact).take(i as int),
                values == &fact.terms,
            decreases n - i,
        {
            let ghost before = prim_cache@;
            let v = ann_vars[i].clone();
            let t = SmtTerm::Int(values[i].value());
            prim_cache.push((v, t));
            proof {
                let expected = ground_substitution(ann_vars@, *fact);
                assert(expected[i as int] == (ann_vars@[i as int]@, t));
                assert(cache_view(prim_cache@) =~= cache_view(before).push((v@, t)));
                assert(cache_view(prim_cache@) =~= expected.take(i + 1));
            }
            i = i + 1;
        }
        assert(ground_substitution(ann_vars@, *fact).take(n as int) =~= ground_substitution(ann_vars@, *fact));
        self.translate_conjunction(&assertion.body, &prim_cache)
    }

    /// Translates the measure of the termination annotation for the given
    /// body atom: an integer term
    pub fn translate_termination_annotation_body(&self, annotation: &NormalizedTerminationAnnotation,
        body_predicate: &BodyAtom, var_cache: &Vec<(Variable, SmtTerm)>) -> (t: SmtTerm)
        requires
            variables_registered(body_predicate.terms@, annotation.head.terms@.len(), cache_view(var_cache@)),
            translatable(annotation.body, variable_substitution(annotation.head.terms@, body_predicate.terms@, cache_view(var_cache@))),
        ensures
            t == termination_body_term(*annotation, *body_predicate, cache_view(var_cache@)),
    {
        let ghost cache = cache_view(var_cache@);
        let ann_vars = &annotation.head.terms;
        let rule_vars = &body_predicate.terms;
        let n = if ann_vars.len() <= rule_vars.len() { ann_vars.len() } else { rule_vars.len() };
        let mut var_sub: Vec<(Variable, SmtTerm)> = Vec::new();
        let mut i: usize = 0;
        while i < n
            invariant
                n == min_length(ann_vars@.len(), rule_vars@.len()),
                variables_registered(rule_vars@, ann_vars@.len(), cache),
                cache == cache_view(var_cache@),
                0 <= i <= n,
                cache_view(var_sub@) == variable_substitution(ann_vars@, rule_vars@, cache).take(i as int),
            decreases n - i,
        {
            assert(cache_lookup(cache, rule_vars@[i as int]@) is Some);
            let t = match lookup(var_cache, &rule_vars[i]) {
                Some(t) => t,
                None => SmtTerm::Int(0),
            };
            let ghost before = var_sub@;
            let v = ann_vars[i].clone();
            var_sub.push((v, t));
            proof {
                let expected = variable_substitution(ann_vars@, rule_vars@, cache);
                assert(expected[i as int] == (ann_vars@[i as int]@, t));
                assert(cache_view(var_sub@) =~= cache_view(before).push((v@, t)));
                assert(cache_view(var_sub@) =~= expected.take(i + 1));
            }
            i = i + 1;
        }
        assert(variable_substitution(ann_vars@, rule_vars@, cache).take(n as int) =~= variable_substitution(ann_vars@, rule_vars@, cache));
        self.translate_operation(&annotation.body, &var_sub)
    }

    /// Translates the measure of the termination annotation for the given
    /// head atom: an integer term
    pub fn translate_termination_annotation_head(&self, annotation: &NormalizedTerminationAnnotation,
        head_predicate: &HeadAtom, var_cache: &Vec<(Variable, SmtTerm)>) -> (t: SmtTerm)
        requires
            primitives_registered(head_predicate.terms@, annotation.head.terms@.len(), cache_view(var_cache@)),
            translatable(annotation.body, primitive_substitution(annotation.head.terms@, head_predicate.terms@, cache_view(var_cache@))),
        ensures
            t == termination_head_term(*annotation, *head_predicate, cache_view(var_cache@)),
    {
        let ghost cache = cache_view(var_cache@);
        let ann_vars = &annotation.head.terms;
        let head_terms = &head_predicate.terms;
        let n = if ann_vars.len() <= head_terms.len() { ann_vars.len() } else { head_terms.len() };
        let mut prim_cache: Vec<(Variable, SmtTerm)> = Vec::new();
        let mut i: usize = 0;
        while i < n
            invariant
                n == min_length(ann_vars@.len(), head_terms@.len()),
                primitives_registered(head_terms@, ann_vars@.len(), cache),
                cache == cache_view(var_cache@),
                0 <= i <= n,
                cache_view(prim_cache@) == primitive_substitution(ann_vars@, head_terms@, cache).take(i as int),
            decreases n - i,
        {
            assert(head_terms@[i as int]@ matches PrimitiveView::Variable(v) ==> cache_lookup(cache, v) is Some);
            let t = self.translate_primitive(&head_terms[i], var_cache);
            let ghost before = prim_cache@;
            let v = ann_vars[i].clone();
            prim_cache.push((v, t));
            proof {
                let expected = primitive_substitution(ann_vars@, head_terms@, cache);
                assert(expected[i as int] == (ann_vars@[i as int]@, t));
                assert(cache_view(prim_cache@) =~= cache_view(before).push((v@, t)));
                assert(cache_view(prim_cache@) =~= expected.take(i + 1));
            }
            i = i + 1;
        }
        assert(primitive_substitution(ann_vars@, head_terms@, cache).take(n as int) =~= primitive_substitution(ann_vars@, head_terms@, cache));
        self.translate_operation(&annotation.body, &prim_cache)
    }

    /// Returns true if the term applies an operator to two terms
    pub fn is_filter_operation(restriction: &SmtTerm) -> (r: bool)
        ensures
            r == (*restriction is Apply),
    {
        match restriction {
            SmtTerm::Apply(_, _, _) => true,
            _ => false,
        }
    }

    /// Translates operations into their terms
    pub fn translate_rule_operations_of(&self, ops: &Vec<Operation>, var_cache: &Vec<(Variable, SmtTerm)>) -> (terms: Vec<SmtTerm>)
        requires
            translatable_conditions(ops@, cache_view(var_cache@)),
        ensures
            terms@ == operation_terms(ops@, cache_view(var_cache@)),
    {
        self.translate_operations(ops, var_cache)
    }

    /// Translates the operations of a rule but leaves out annotations
    pub fn translate_rule_operations_without_annotations(&self, rule: &NormalizedRule,
        var_cache: &Vec<(Variable, SmtTerm)>) -> (terms: Vec<SmtTerm>)
        requires
            translatable_conditions(rule.operations@, cache_view(var_cache@)),
        ensures
            terms@ == operation_terms(rule.operations@, cache_view(var_cache@)),
    {
        self.translate_operations(&rule.operations, var_cache)
    }
}

impl RuleTranslator {
    /// Appends the translations of the annotations of the atom's predicate.
    fn add_atom_annotations(&self, program: &NormalizedProgram, atom: &BodyAtom, var_cache: &Vec<(Variable, SmtTerm)>,
        out: &mut Vec<SmtTerm>)
        requires
            forall|j: int| 0 <= j < program.spec_global_annotations_for(atom.predicate@).len() ==> body_assertion_translatable(
                #[trigger] program.spec_global_annotations_for(atom.predicate@)[j], *atom, cache_view(var_cache@)),
        ensures
            final(out)@ == old(out)@ + program.spec_global_annotations_for(atom.predicate@).map_values(
                |a: NormalizedGlobalAnnotation| body_assertion_term(a, *atom, cache_view(var_cache@))),
    {
        let ghost anns = program.spec_global_annotations_for(atom.predicate@);
        let ghost start = out@;
        let ghost f = |a: NormalizedGlobalAnnotation| body_assertion_term(a, *atom, cache_view(var_cache@));
        let annotations = program.predicate_to_global_annotation(&atom.predicate());
        let m = annotations.len();
        let mut j: usize = 0;
        while j < m
            invariant
                annotations@.map_values(|a: &NormalizedGlobalAnnotation| *a) == anns,
                m == annotations@.len(),
                forall|x: int| 0 <= x < anns.len() ==> body_assertion_translatable(#[trigger] anns[x], *atom, cache_view(var_cache@)),
                0 <= j <= m,
                f == (|a: NormalizedGlobalAnnotation| body_assertion_term(a, *atom, cache_view(var_cache@))),
                out@ == start + anns.map_values(f).take(j as int),
            decreases m - j,
        {
            assert(*annotations@[j as int] == anns[j as int]);
            let t = self.translate_body_assertion(annotations[j], atom, var_cache);
            let ghost before = out@;
            out.push(t);
            assert(anns.map_values(f)[j as int] == t);
            assert(anns.map_values(f).take(j + 1) =~= anns.map_values(f).take(j as int).push(t));
            assert(out@ =~= start + anns.map_values(f).take(j + 1));
            j = j + 1;
        }
        assert(anns.map_values(f).take(m as int) =~= anns.map_values(f));
    }

    /// Translate a (normalized) rule: the terms of its operations, and the
    /// terms of the annotations of the predicates of its positive body atoms
    pub fn translate_rule(&self, rule: &NormalizedRule, var_cache: &Vec<(Variable, SmtTerm)>, program: &NormalizedProgram)
        -> (terms: (Vec<SmtTerm>, Vec<SmtTerm>))
        requires
            translatable_conditions(rule.operations@, cache_view(var_cache@)),
            atoms_annotations_translatable(*program, rule.positive@, cache_view(var_cache@)),
        ensures
            terms.0@ == operation_terms(rule.operations@, cache_view(var_cache@)),
            terms.1@ == atoms_annotation_terms(*program, rule.positive@, cache_view(var_cache@)),
    {
        let ghost cache = cache_view(var_cache@);
        let atoms = &rule.positive;
        let mut body_annotations: Vec<SmtTerm> = Vec::new();
        let n = atoms.len();
        let mut i: usize = 0;
        while i < n
            invariant
                n == atoms@.len(),
                cache == cache_view(var_cache@),
                atoms_annotations_translatable(*program, atoms@, cache),
                0 <= i <= n,
                body_annotations@ == atoms_annotation_terms(*program, atoms@.take(i as int), cache),
            decreases n - i,
        {
            assert forall|j: int| 0 <= j < program.spec_global_annotations_for(atoms@[i as int].predicate@).len() implies
                body_assertion_translatable(#[trigger] program.spec_global_annotations_for(atoms@[i as int].predicate@)[j],
                atoms@[i as int], cache) by {}
            self.add_atom_annotations(program, &atoms[i], var_cache, &mut body_annotations);
            assert(atoms@.take(i + 1).drop_last() =~= atoms@.take(i as int));
            assert(atoms@.take(i + 1).last() == atoms@[i as int]);
            i = i + 1;
        }
        assert(atoms@.take(n as int) =~= atoms@);
        let body_operations = self.translate_operations(&rule.operations, var_cache);
        (body_operations, body_annotations)
    }

    /// Translate a (normalized) rule; only the annotations of the atoms whose
    /// predicate is among the edb predicates are translated
    pub fn translate_rule_edb_annotations(&self, rule: &NormalizedRule, var_cache: &Vec<(Variable, SmtTerm)>,
        program: &NormalizedProgram, edb_predicates: &Vec<Tag>) -> (terms: (Vec<SmtTerm>, Vec<SmtTerm>))
        requires
            translatable_conditions(rule.operations@, cache_view(var_cache@)),
            atoms_annotations_translatable(*program, rule.positive@, cache_view(var_cache@)),
        ensures
            terms.0@ == operation_terms(rule.operations@, cache_view(var_cache@)),
            terms.1@ == atoms_annotation_terms(*program, atoms_with_predicates(rule.positive@, tag_views(edb_predicates@)),
                cache_view(var_cache@)),
    {
        let ghost cache = cache_view(var_cache@);
        let ghost edb = tag_views(edb_predicates@);
        let atoms = &rule.positive;
        let mut body_annotations: Vec<SmtTerm> = Vec::new();
        let n = atoms.len();
        let mut i: usize = 0;
        assert(atoms_with_predicates(atoms@.take(0), edb) =~= Seq::<BodyAtom>::empty());
        while i < n
            invariant
                n == atoms@.len(),
                cache == cache_view(var_cache@),
                edb == tag_views(edb_predicates@),
                atoms_annotations_translatable(*program, atoms@, cache),
                0 <= i <= n,
                body_annotations@ == atoms_annotation_terms(*program, atoms_with_predicates(atoms@.take(i as int), edb), cache),
            decreases n - i,
        {
            let ghost prefix = atoms@.take(i as int);
            assert(atoms@.take(i + 1) =~= prefix.push(atoms@[i as int]));
            proof {
                reveal_with_fuel(Seq::<_>::filter, 1);
                assert(atoms@.take(i + 1).drop_last() =~= prefix);
            }
            if crate::execution::planning::normalization::program::contains_tag(edb_predicates, &atoms[i].predicate) {
                assert forall|j: int| 0 <= j < program.spec_global_annotations_for(atoms@[i as int].predicate@).len() implies
                    body_assertion_translatable(#[trigger] program.spec_global_annotations_for(atoms@[i as int].predicate@)[j],
                    atoms@[i as int], cache) by {}
                self.add_atom_annotations(program, &atoms[i], var_cache, &mut body_annotations);
                assert(atoms_with_predicates(atoms@.take(i + 1), edb) =~= atoms_with_predicates(prefix, edb).push(atoms@[i as int]));
                assert(atoms_with_predicates(atoms@.take(i + 1), edb).drop_last() =~= atoms_with_predicates(prefix, edb));
            } else {
                assert(atoms_with_predicates(atoms@.take(i + 1), edb) =~= atoms_with_predicates(prefix, edb));
            }
            i = i + 1;
        }
        assert(atoms@.take(n as int) =~= atoms@);
        let body_operations = self.translate_operations(&rule.operations, var_cache);
        (body_operations, body_annotations)
    }
}

/// The conjunction of the terms.
pub fn conjoin(terms: &Vec<SmtTerm>) -> (t: SmtTerm)
    ensures
        t == conjunction(terms@),
{
    let mut result = SmtTerm::Bool(true);
    let n = terms.len();
    let mut i: usize = 0;
    while i < n
        invariant
            n == terms@.len(),
            0 <= i <= n,
            result == conjunction(terms@.take(i as int)),
        decreases n - i,
    {
        assert(terms@.take(i + 1).drop_last() =~= terms@.take(i as int));
        result = SmtTerm::Apply(SmtOp::And, Box::new(result), Box::new(terms[i].clone()));
        i = i + 1;
    }
    assert(terms@.take(n as int) =~= terms@);
    result
}

/// The disjunction of the terms.
pub fn disjoin(terms: &Vec<SmtTerm>) -> (t: SmtTerm)
    ensures
        t == crate::execution::planning::verification::smt::disjunction(terms@),
{
    let mut result = SmtTerm::Bool(false);
    let n = terms.len();
    let mut i: usize = 0;
    while i < n
        invariant
            n == terms@.len(),
            0 <= i <= n,
            result == crate::execution::planning::verification::smt::disjunction(terms@.take(i as int)),
        decreases n - i,
    {
        assert(terms@.take(i + 1).drop_last() =~= terms@.take(i as int));
        result = SmtTerm::Apply(SmtOp::Or, Box::new(result), Box::new(terms[i].clone()));
        i = i + 1;
    }
    assert(terms@.take(n as int) =~= terms@);
    result
}

} // verus!
