//! This module defines verification goals for output predicates

use vstd::prelude::*;

use crate::execution::planning::normalization::atom::{BodyAtom, HeadAtom};
use crate::execution::planning::normalization::global_annotation::NormalizedGlobalAnnotation;
use crate::execution::planning::verification::smt::{
    render_terms, terms_text,
    conjunction, eval_bool, holds_all, int_term, lemma_substitution_eval, satisfiable, substitute, substituted,
    substituted_model, SmtTerm,
};
use crate::rule_model::components::variable::{Primitive, PrimitiveView, Variable};

use super::z3_restriction::{fresh_vars, var_id};
use super::z3_translation::{
    cache_lookup, cache_view, conjoin, lookup, min_length, operation_terms, primitive_term, translatable_conditions,
    CacheEntry, RuleTranslator,
};

verus! {

/// Represents the status of the VerificationGoal,
#[derive(Debug, Clone, Copy, PartialEq, Eq, Structural)]
pub enum VerificationStatus {
    /// Goal has been proven at least once
    /// Importantly, it can still be disproven
    Proven,
    /// Goal has been disproven, so guaranteed doesn't hold.
    Refuted,
    /// Truth of goal unknown
    Unknown,
}

/// Each annotation variable mapped to the constant of its position.
pub open spec fn position_cache(vars: Seq<Variable>, pos_vars: Seq<usize>) -> Seq<(Seq<char>, SmtTerm)> {
    Seq::new(min_length(vars.len(), pos_vars.len()), |i: int| (vars[i]@, SmtTerm::Var(pos_vars[i])))
}

/// The replacement of the constant of each atom variable by the constant of
/// its position.
pub open spec fn atom_to_positions(atom_terms: Seq<Variable>, pos_vars: Seq<usize>, cache: Seq<(Seq<char>, SmtTerm)>)
    -> Seq<(usize, SmtTerm)>
{
    Seq::new(min_length(atom_terms.len(), pos_vars.len()),
        |i: int| (var_id(cache_lookup(cache, atom_terms[i]@).unwrap()), SmtTerm::Var(pos_vars[i])))
}

/// The replacement of the constant of each position by the term of the head
/// primitive at the position.
pub open spec fn positions_to_head(pos_vars: Seq<usize>, head_terms: Seq<Primitive>, cache: Seq<(Seq<char>, SmtTerm)>)
    -> Seq<(usize, SmtTerm)>
{
    Seq::new(min_length(pos_vars.len(), head_terms.len()),
        |i: int| (pos_vars[i], primitive_term(head_terms[i]@, cache)))
}

/// The replacement of the constant of each position by the term of the body
/// variable at the position.
pub open spec fn positions_to_body(pos_vars: Seq<usize>, body_terms: Seq<Variable>, cache: Seq<(Seq<char>, SmtTerm)>)
    -> Seq<(usize, SmtTerm)>
{
    Seq::new(min_length(pos_vars.len(), body_terms.len()),
        |i: int| (pos_vars[i], cache_lookup(cache, body_terms[i]@).unwrap()))
}

/// The terms with the same substitution applied to each.
pub open spec fn substituted_all(ts: Seq<SmtTerm>, pairs: Seq<(usize, SmtTerm)>) -> Seq<SmtTerm> {
    ts.map_values(|t: SmtTerm| substituted(t, pairs))
}

/// Replacing constants by integer terms never makes unsatisfiable
/// assertions satisfiable: an assignment that satisfies the substituted
/// assertions gives one that satisfies the assertions.
pub proof fn lemma_substitution_satisfiable(ts: Seq<SmtTerm>, pairs: Seq<(usize, SmtTerm)>)
    requires
        forall|i: int| 0 <= i < pairs.len() ==> int_term(#[trigger] pairs[i].1),
    ensures
        satisfiable(substituted_all(ts, pairs)) ==> satisfiable(ts),
{
    if satisfiable(substituted_all(ts, pairs)) {
        let m = choose|m: spec_fn(usize) -> int| #[trigger] holds_all(substituted_all(ts, pairs), m);
        let m2 = substituted_model(pairs, m);
        assert forall|i: int| 0 <= i < ts.len() implies #[trigger] eval_bool(ts[i], m2) by {
            lemma_substitution_eval(ts[i], pairs, m);
            assert(eval_bool(substituted_all(ts, pairs)[i], m));
        }
        assert(holds_all(ts, m2));
    }
}

/// Whether the variables of the atom are registered as constants.
pub open spec fn atom_constants(atom_terms: Seq<Variable>, cache: Seq<(Seq<char>, SmtTerm)>) -> bool {
    forall|i: int| 0 <= i < atom_terms.len() ==> (cache_lookup(cache, (#[trigger] atom_terms[i])@) matches Some(t) && t is Var)
}

/// Represents a goal necessary to prove output predicates
#[derive(Debug)]
pub struct VerificationGoal {
    /// The constants of the positions
    pub pos_vars: Vec<usize>,
    /// The conditions that the goal requires of the positions
    pub verification_goals: Vec<SmtTerm>,
    /// The current status of proving the goal
    pub status: VerificationStatus,
}

/// Returns `n` fresh constants.
fn fresh_constants(n: usize, next_var: &mut usize) -> (vars: Vec<usize>)
    requires
        old(next_var) + n <= usize::MAX,
    ensures
        *final(next_var) == *old(next_var) + n,
        vars@ == fresh_vars(*old(next_var) as nat, n as nat),
{
    let start = *next_var;
    let mut vars: Vec<usize> = Vec::new();
    let mut k: usize = 0;
    while k < n
        invariant
            start + n <= usize::MAX,
            0 <= k <= n,
            *next_var == start + k,
            vars@ == fresh_vars(start as nat, k as nat),
        decreases n - k,
    {
        vars.push(*next_var);
        *next_var = *next_var + 1;
        k = k + 1;
        assert(vars@ =~= fresh_vars(start as nat, k as nat));
    }
    vars
}

/// Returns the replacement of the constant of each atom variable by the
/// constant of its position.
fn build_atom_to_positions(atom: &BodyAtom, pos_vars: &Vec<usize>, var_cache: &Vec<CacheEntry>) -> (pairs: Vec<(usize, SmtTerm)>)
    requires
        atom_constants(atom.terms@, cache_view(var_cache@)),
    ensures
        pairs@ == atom_to_positions(atom.terms@, pos_vars@, cache_view(var_cache@)),
{
    let ghost cache = cache_view(var_cache@);
    let n = if atom.terms.len() <= pos_vars.len() { atom.terms.len() } else { pos_vars.len() };
    let mut pairs: Vec<(usize, SmtTerm)> = Vec::new();
    let mut i: usize = 0;
    while i < n
        invariant
            n == min_length(atom.terms@.len(), pos_vars@.len()),
            cache == cache_view(var_cache@),
            atom_constants(atom.terms@, cache),
            0 <= i <= n,
            pairs@ == atom_to_positions(atom.terms@, pos_vars@, cache).take(i as int),
        decreases n - i,
    {
        assert(cache_lookup(cache, atom.terms@[i as int]@) matches Some(t) && t is Var);
        let id = match lookup(var_cache, &atom.terms[i]) {
            Some(SmtTerm::Var(id)) => id,
            _ => 0,
        };
        pairs.push((id, SmtTerm::Var(pos_vars[i])));
        assert(pairs@ =~= atom_to_positions(atom.terms@, pos_vars@, cache).take(i + 1));
        i = i + 1;
    }
    assert(atom_to_positions(atom.terms@, pos_vars@, cache).take(n as int) =~= atom_to_positions(atom.terms@, pos_vars@, cache));
    pairs
}

/// Applies the substitution to each term.
pub(crate) fn substitute_all(ts: &Vec<SmtTerm>, pairs: &Vec<(usize, SmtTerm)>) -> (r: Vec<SmtTerm>)
    ensures
        r@ == substituted_all(ts@, pairs@),
{
    let mut r: Vec<SmtTerm> = Vec::new();
    let n = ts.len();
    let mut i: usize = 0;
    while i < n
        invariant
            n == ts@.len(),
            0 <= i <= n,
            r@ == substituted_all(ts@, pairs@).take(i as int),
        decreases n - i,
    {
        r.push(substitute(&ts[i], pairs));
        assert(r@ =~= substituted_all(ts@, pairs@).take(i + 1));
        i = i + 1;
    }
    assert(substituted_all(ts@, pairs@).take(n as int) =~= substituted_all(ts@, pairs@));
    r
}

impl VerificationGoal {
    /// The text that displays the goal: the texts of its terms, one after
    /// the other
    pub fn to_string(&self) -> (text: String)
        ensures
            text@ == terms_text(self.verification_goals@, ""@),
    {
        render_terms(&self.verification_goals, "")
    }

    /// creates a new VerificationGoal from the annotation for the output
    /// predicates: the annotation's conditions, with each annotation variable
    /// replaced by the fresh constant of its position
    pub fn new_from_annotation(annotation: &NormalizedGlobalAnnotation, next_var: &mut usize) -> (goal: Self)
        requires
            old(next_var) + annotation.head.terms@.len() <= usize::MAX,
            translatable_conditions(annotation.body@, position_cache(annotation.head.terms@,
                fresh_vars(*old(next_var) as nat, annotation.head.terms@.len()))),
        ensures
            *final(next_var) == *old(next_var) + annotation.head.terms@.len(),
            goal.pos_vars@ == fresh_vars(*old(next_var) as nat, annotation.head.terms@.len()),
            goal.verification_goals@ == operation_terms(annotation.body@, position_cache(annotation.head.terms@, goal.pos_vars@)),
            goal.status == VerificationStatus::Unknown,
    {
        let pos_vars = fresh_constants(annotation.head.terms.len(), next_var);
        let vars = &annotation.head.terms;
        let mut var_cache: Vec<CacheEntry> = Vec::new();
        let n = vars.len();
        let mut i: usize = 0;
        while i < n
            invariant
                n == vars@.len(),
                pos_vars@.len() == n,
                0 <= i <= n,
                cache_view(var_cache@) == position_cache(vars@, pos_vars@).take(i as int),
            decreases n - i,
        {
            let ghost before = var_cache@;
            let v = vars[i].clone();
            var_cache.push((v, SmtTerm::Var(pos_vars[i])));
            assert(cache_view(var_cache@) =~= cache_view(before).push((v@, SmtTerm::Var(pos_vars@[i as int]))));
            assert(cache_view(var_cache@) =~= position_cache(vars@, pos_vars@).take(i + 1));
            i = i + 1;
        }
        assert(position_cache(vars@, pos_vars@).take(n as int) =~= position_cache(vars@, pos_vars@));
        let translator = RuleTranslator::new();
        let goals = translator.translate_rule_operations_of(&annotation.body, &var_cache);
        VerificationGoal { pos_vars, verification_goals: goals, status: VerificationStatus::Unknown }
    }

    /// Creates a goal from unfolding a rule body: the propagated goal with
    /// each variable of the atom replaced by the fresh constant of its position
    pub fn new_from_propagation(atom: &BodyAtom, var_cache: &Vec<CacheEntry>, prop_goal: &SmtTerm, next_var: &mut usize)
        -> (goal: Self)
        requires
            old(next_var) + atom.terms@.len() <= usize::MAX,
            atom_constants(atom.terms@, cache_view(var_cache@)),
        ensures
            *final(next_var) == *old(next_var) + atom.terms@.len(),
            goal.pos_vars@ == fresh_vars(*old(next_var) as nat, atom.terms@.len()),
            goal.verification_goals@ == seq![substituted(*prop_goal, atom_to_positions(atom.terms@, goal.pos_vars@,
                cache_view(var_cache@)))],
            goal.status == VerificationStatus::Unknown,
    {
        let pos_vars = fresh_constants(atom.terms.len(), next_var);
        let substitution = build_atom_to_positions(atom, &pos_vars, var_cache);
        let verification_goal = substitute(prop_goal, &substitution);
        VerificationGoal { pos_vars, verification_goals: vec![verification_goal], status: VerificationStatus::Unknown }
    }

    /// Sets the status to verified if it hasn't been refuted
    /// returns true if the status changed
    pub fn goal_proven(&mut self) -> (changed: bool)
        ensures
            changed == (old(self).status == VerificationStatus::Unknown),
            final(self).status == (if changed { VerificationStatus::Proven } else { old(self).status }),
            final(self).pos_vars == old(self).pos_vars,
            final(self).verification_goals == old(self).verification_goals,
    {
        if self.status == VerificationStatus::Unknown {
            self.status = VerificationStatus::Proven;
            return true;
        }
        false
    }

    /// Returns true if the current status of the goal is proven
    pub fn is_proven(&self) -> (r: bool)
        ensures
            r == (self.status == VerificationStatus::Proven),
    {
        self.status == VerificationStatus::Proven
    }

    /// Sets the status to refuted, returns true if something changed
    pub fn goal_refuted(&mut self) -> (changed: bool)
        ensures
            changed == (old(self).status != VerificationStatus::Refuted),
            final(self).status == VerificationStatus::Refuted,
            final(self).pos_vars == old(self).pos_vars,
            final(self).verification_goals == old(self).verification_goals,
    {
        if self.status == VerificationStatus::Refuted {
            return false;
        }
        self.status = VerificationStatus::Refuted;
        true
    }

    /// Returns true if the goal has been refuted
    pub fn is_refuted(&self) -> (r: bool)
        ensures
            r == (self.status == VerificationStatus::Refuted),
    {
        self.status == VerificationStatus::Refuted
    }

    /// Adds a goal: the propagated goal, with each variable of the atom
    /// replaced by the constant of its position, joins the present goals
    pub fn add_propagated_goal(&mut self, atom: &BodyAtom, var_cache: &Vec<CacheEntry>, prop_goal: &SmtTerm)
        requires
            atom_constants(atom.terms@, cache_view(var_cache@)),
        ensures
            final(self).pos_vars == old(self).pos_vars,
            final(self).status == old(self).status,
            final(self).verification_goals@ == seq![
                substituted(*prop_goal, atom_to_positions(atom.terms@, old(self).pos_vars@, cache_view(var_cache@))),
                conjunction(old(self).verification_goals@),
            ],
    {
        let substitution = build_atom_to_positions(atom, &self.pos_vars, var_cache);
        let new_goal = substitute(prop_goal, &substitution);
        let present = conjoin(&self.verification_goals);
        let mut goals: Vec<SmtTerm> = Vec::new();
        goals.push(new_goal);
        goals.push(present);
        self.verification_goals = goals;
    }

    /// Returns proof goal statements for the head atom: each goal with the
    /// constant of each position replaced by the term of the head primitive
    pub fn goal_from_head_atom(&self, head_atom: &HeadAtom, var_cache: &Vec<CacheEntry>) -> (goals: Vec<SmtTerm>)
        requires
            forall|i: int| 0 <= i < head_atom.terms@.len() ==> ((#[trigger] head_atom.terms@[i])@ matches PrimitiveView::Variable(v)
                ==> cache_lookup(cache_view(var_cache@), v) is Some),
        ensures
            goals@ == substituted_all(self.verification_goals@, positions_to_head(self.pos_vars@, head_atom.terms@,
                cache_view(var_cache@))),
    {
        let ghost cache = cache_view(var_cache@);
        let translator = RuleTranslator::new();
        let n = if self.pos_vars.len() <= head_atom.terms.len() { self.pos_vars.len() } else { head_atom.terms.len() };
        let mut substitution: Vec<(usize, SmtTerm)> = Vec::new();
        let mut i: usize = 0;
        while i < n
            invariant
                n == min_length(self.pos_vars@.len(), head_atom.terms@.len()),
                cache == cache_view(var_cache@),
                forall|j: int| 0 <= j < head_atom.terms@.len() ==> ((#[trigger] head_atom.terms@[j])@ matches PrimitiveView::Variable(v)
                    ==> cache_lookup(cache, v) is Some),
                0 <= i <= n,
                substitution@ == positions_to_head(self.pos_vars@, head_atom.terms@, cache).take(i as int),
            decreases n - i,
        {
            assert(head_atom.terms@[i as int]@ matches PrimitiveView::Variable(v) ==> cache_lookup(cache, v) is Some);
            let t = translator.translate_primitive(&head_atom.terms[i], var_cache);
            substitution.push((self.pos_vars[i], t));
            assert(substitution@ =~= positions_to_head(self.pos_vars@, head_atom.terms@, cache).take(i + 1));
            i = i + 1;
        }
        assert(positions_to_head(self.pos_vars@, head_atom.terms@, cache).take(n as int)
            =~= positions_to_head(self.pos_vars@, head_atom.terms@, cache));
        substitute_all(&self.verification_goals, &substitution)
    }

    /// Returns proof goal statements for the body atom: each goal with the
    /// constant of each position replaced by the term of the body variable
    pub fn goal_from_body_atom(&self, body_atom: &BodyAtom, var_cache: &Vec<CacheEntry>) -> (goals: Vec<SmtTerm>)
        requires
            forall|i: int| 0 <= i < body_atom.terms@.len() ==> cache_lookup(cache_view(var_cache@), (#[trigger] body_atom.terms@[i])@) is Some,
        ensures
            goals@ == substituted_all(self.verification_goals@, positions_to_body(self.pos_vars@, body_atom.terms@,
                cache_view(var_cache@))),
    {
        let ghost cache = cache_view(var_cache@);
        let n = if self.pos_vars.len() <= body_atom.terms.len() { self.pos_vars.len() } else { body_atom.terms.len() };
        let mut substitution: Vec<(usize, SmtTerm)> = Vec::new();
        let mut i: usize = 0;
        while i < n
            invariant
                n == min_length(self.pos_vars@.len(), body_atom.terms@.len()),
                cache == cache_view(var_cache@),
                forall|j: int| 0 <= j < body_atom.terms@.len() ==> cache_lookup(cache, (#[trigger] body_atom.terms@[j])@) is Some,
                0 <= i <= n,
                substitution@ == positions_to_body(self.pos_vars@, body_atom.terms@, cache).take(i as int),
            decreases n - i,
        {
            assert(cache_lookup(cache, body_atom.terms@[i as int]@) is Some);
            let t = match lookup(var_cache, &body_atom.terms[i]) {
                Some(t) => t,
                None => SmtTerm::Int(0),
            };
            substitution.push((self.pos_vars[i], t));
            assert(substitution@ =~= positions_to_body(self.pos_vars@, body_atom.terms@, cache).take(i + 1));
            i = i + 1;
        }
        assert(positions_to_body(self.pos_vars@, body_atom.terms@, cache).take(n as int)
            =~= positions_to_body(self.pos_vars@, body_atom.terms@, cache));
        substitute_all(&self.verification_goals, &substitution)
    }
}

} // verus!
