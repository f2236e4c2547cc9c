//! This module defines restrictions on predicates represented as solver terms

use vstd::prelude::*;

use crate::execution::planning::normalization::atom::{BodyAtom, HeadAtom};
use crate::execution::planning::verification::smt::{
    render_terms, terms_text,
    bound_is_finite, check_sat, conjunction, disjunction, lower_bound, mentions_infinity, optimization_text,
    substitute, substituted, text_option, upper_bound, z3_lower_bound, z3_upper_bound, SatOutcome, SmtOp, SmtTerm,
};
use crate::rule_model::components::variable::{Primitive, PrimitiveView, Variable};

use super::z3_translation::{cache_lookup, cache_view, conjoin, disjoin, lookup, min_length, CacheEntry};

verus! {

/// The number of a constant term.
pub open spec fn var_id(t: SmtTerm) -> usize {
    match t {
        SmtTerm::Var(v) => v,
        _ => 0,
    }
}

/// The numbers `start`, `start + 1`, ... of `n` fresh constants.
pub open spec fn fresh_vars(start: nat, n: nat) -> Seq<usize> {
    Seq::new(n, |i: int| (start + i) as usize)
}

/// The replacement of the constant of each head variable among the first
/// `k` positions by the constant of the position.
pub open spec fn head_substitution(head_terms: Seq<Primitive>, head_vars: Seq<usize>, cache: Seq<(Seq<char>, SmtTerm)>, k: nat)
    -> Seq<(usize, SmtTerm)>
    decreases k,
{
    if k == 0 {
        Seq::empty()
    } else {
        let prev = head_substitution(head_terms, head_vars, cache, (k - 1) as nat);
        match head_terms[k - 1]@ {
            PrimitiveView::Variable(v) => prev.push((var_id(cache_lookup(cache, v).unwrap()), SmtTerm::Var(head_vars[k - 1]))),
            PrimitiveView::Ground(_) => prev,
        }
    }
}

/// The replacement of the constant of each position by the term of the body
/// variable at the position.
pub open spec fn body_substitution(head_vars: Seq<usize>, body_terms: Seq<Variable>, cache: Seq<(Seq<char>, SmtTerm)>)
    -> Seq<(usize, SmtTerm)>
{
    Seq::new(min_length(head_vars.len(), body_terms.len()),
        |i: int| (head_vars[i], cache_lookup(cache, body_terms[i]@).unwrap()))
}

/// Whether the head variables are registered as constants.
pub open spec fn head_constants(head_terms: Seq<Primitive>, cache: Seq<(Seq<char>, SmtTerm)>) -> bool {
    forall|i: int| 0 <= i < head_terms.len() ==> ((#[trigger] head_terms[i])@ matches PrimitiveView::Variable(v)
        ==> cache_lookup(cache, v) matches Some(t) && t is Var)
}

/// Represents a restriction on the positions of a predicate: the positions
/// are constants, and the restriction is the disjunction of the terms
#[derive(Debug)]
pub struct Restriction {
    /// The constants of the positions
    pub restriction_head_vars: Vec<usize>,
    /// Theory for bounds on the head
    pub restrictions: Vec<SmtTerm>,
}

/// Returns the substitution of the head variables by the constants of the positions.
fn build_head_substitution(head: &HeadAtom, head_vars: &Vec<usize>, var_cache: &Vec<CacheEntry>) -> (pairs: Vec<(usize, SmtTerm)>)
    requires
        head_constants(head.terms@, cache_view(var_cache@)),
    ensures
        pairs@ == head_substitution(head.terms@, head_vars@, cache_view(var_cache@),
            min_length(head.terms@.len(), head_vars@.len())),
{
    let ghost cache = cache_view(var_cache@);
    let n = if head.terms.len() <= head_vars.len() { head.terms.len() } else { head_vars.len() };
    let mut pairs: Vec<(usize, SmtTerm)> = Vec::new();
    let mut i: usize = 0;
    while i < n
        invariant
            n == min_length(head.terms@.len(), head_vars@.len()),
            cache == cache_view(var_cache@),
            head_constants(head.terms@, cache),
            0 <= i <= n,
            pairs@ == head_substitution(head.terms@, head_vars@, cache, i as nat),
        decreases n - i,
    {
        match &head.terms[i] {
            Primitive::Variable(v) => {
                assert(head.terms@[i as int]@ matches PrimitiveView::Variable(w) ==> cache_lookup(cache, w) matches Some(t) && t is Var);
                let id = match lookup(var_cache, v) {
                    Some(SmtTerm::Var(id)) => id,
                    _ => 0,
                };
                pairs.push((id, SmtTerm::Var(head_vars[i])));
            },
            Primitive::Ground(_) => {},
        }
        i = i + 1;
    }
    pairs
}

impl Clone for Restriction {
    fn clone(&self) -> (r: Self)
        ensures
            r.restriction_head_vars@ == self.restriction_head_vars@,
            r.restrictions@ == self.restrictions@,
    {
        let mut head_vars: Vec<usize> = Vec::new();
        let n = self.restriction_head_vars.len();
        let mut i: usize = 0;
        while i < n
            invariant
                n == self.restriction_head_vars@.len(),
                0 <= i <= n,
                head_vars@ == self.restriction_head_vars@.take(i as int),
            decreases n - i,
        {
            head_vars.push(self.restriction_head_vars[i]);
            assert(head_vars@ =~= self.restriction_head_vars@.take(i + 1));
            i = i + 1;
        }
        assert(self.restriction_head_vars@.take(n as int) =~= self.restriction_head_vars@);
        let mut restrictions: Vec<SmtTerm> = Vec::new();
        let m = self.restrictions.len();
        let mut j: usize = 0;
        while j < m
            invariant
                m == self.restrictions@.len(),
                0 <= j <= m,
                restrictions@ == self.restrictions@.take(j as int),
            decreases m - j,
        {
            restrictions.push(self.restrictions[j].clone());
            assert(restrictions@ =~= self.restrictions@.take(j + 1));
            j = j + 1;
        }
        assert(self.restrictions@.take(m as int) =~= self.restrictions@);
        Restriction { restriction_head_vars: head_vars, restrictions }
    }
}

impl Restriction {
    /// The text that displays the restriction: each of its terms followed
    /// by a comma
    pub fn to_string(&self) -> (text: String)
        ensures
            text@ == terms_text(self.restrictions@, ", "@),
    {
        render_terms(&self.restrictions, ", ")
    }

    /// Creates a new [Restriction] from a propagated formula: the variables
    /// of the head are replaced by fresh constants of the positions
    pub fn new_from_propagation(head: &HeadAtom, var_cache: &Vec<CacheEntry>, prop_restriction: &SmtTerm,
        next_var: &mut usize) -> (restriction: Self)
        requires
            old(next_var) + head.terms@.len() <= usize::MAX,
            head_constants(head.terms@, cache_view(var_cache@)),
        ensures
            *final(next_var) == *old(next_var) + head.terms@.len(),
            restriction.restriction_head_vars@ == fresh_vars(*old(next_var) as nat, head.terms@.len()),
            restriction.restrictions@ == seq![substituted(*prop_restriction, head_substitution(head.terms@,
                restriction.restriction_head_vars@, cache_view(var_cache@), head.terms@.len()))],
    {
        let arity = head.terms.len();
        let mut head_vars: Vec<usize> = Vec::new();
        let start = *next_var;
        let mut n: usize = 0;
        while n < arity
            invariant
                start + arity <= usize::MAX,
                0 <= n <= arity,
                *next_var == start + n,
                head_vars@ == fresh_vars(start as nat, n as nat),
            decreases arity - n,
        {
            head_vars.push(*next_var);
            *next_var = *next_var + 1;
            n = n + 1;
            assert(head_vars@ =~= fresh_vars(start as nat, n as nat));
        }
        let substitution = build_head_substitution(head, &head_vars, var_cache);
        let restriction = substitute(prop_restriction, &substitution);
        Restriction { restriction_head_vars: head_vars, restrictions: vec![restriction] }
    }

    /// Returns the restriction for a body atom: the disjunction of the terms
    /// with each position's constant replaced by the term of the body variable
    pub fn get_restrictions_for_body(&self, body_atom: &BodyAtom, var_cache: &Vec<CacheEntry>) -> (t: SmtTerm)
        requires
            forall|i: int| 0 <= i < body_atom.terms@.len() && i < self.restriction_head_vars@.len()
                ==> cache_lookup(cache_view(var_cache@), (#[trigger] body_atom.terms@[i])@) is Some,
        ensures
            t == disjunction(self.restrictions@.map_values(|r: SmtTerm| substituted(r,
                body_substitution(self.restriction_head_vars@, body_atom.terms@, cache_view(var_cache@))))),
    {
        let ghost cache = cache_view(var_cache@);
        let hv = &self.restriction_head_vars;
        let bt = &body_atom.terms;
        let n = if hv.len() <= bt.len() { hv.len() } else { bt.len() };
        let mut substitution: Vec<(usize, SmtTerm)> = Vec::new();
        let mut i: usize = 0;
        while i < n
            invariant
                n == min_length(hv@.len(), bt@.len()),
                cache == cache_view(var_cache@),
                forall|j: int| 0 <= j < bt@.len() && j < hv@.len() ==> cache_lookup(cache, (#[trigger] bt@[j])@) is Some,
                0 <= i <= n,
                substitution@ == body_substitution(hv@, bt@, cache).take(i as int),
            decreases n - i,
        {
            assert(cache_lookup(cache, bt@[i as int]@) is Some);
            let t = match lookup(var_cache, &bt[i]) {
                Some(t) => t,
                None => SmtTerm::Int(0),
            };
            substitution.push((hv[i], t));
            assert(substitution@ =~= body_substitution(hv@, bt@, cache).take(i + 1));
            i = i + 1;
        }
        assert(body_substitution(hv@, bt@, cache).take(n as int) =~= body_substitution(hv@, bt@, cache));
        let ghost f = |r: SmtTerm| substituted(r, body_substitution(hv@, bt@, cache));
        let mut body_res: Vec<SmtTerm> = Vec::new();
        let m = self.restrictions.len();
        let mut k: usize = 0;
        while k < m
            invariant
                m == self.restrictions@.len(),
                substitution@ == body_substitution(hv@, bt@, cache),
                f == (|r: SmtTerm| substituted(r, body_substitution(hv@, bt@, cache))),
                0 <= k <= m,
                body_res@ == self.restrictions@.map_values(f).take(k as int),
            decreases m - k,
        {
            let r = substitute(&self.restrictions[k], &substitution);
            body_res.push(r);
            assert(body_res@ =~= self.restrictions@.map_values(f).take(k + 1));
            k = k + 1;
        }
        assert(self.restrictions@.map_values(f).take(m as int) =~= self.restrictions@.map_values(f));
        disjoin(&body_res)
    }

    /// Checks whether a new restriction actually gives new entailments: the
    /// solver finds the new restriction satisfiable together with the
    /// negation of the present ones
    pub fn check_new_entailment(&self, new_restriction: &SmtTerm) -> (r: bool) {
        let present = conjoin(&self.restrictions);
        let mut assertions: Vec<SmtTerm> = Vec::new();
        assertions.push(SmtTerm::Not(Box::new(present)));
        assertions.push(new_restriction.clone());
        let outcome = check_sat(&assertions);
        new_entailment(outcome)
    }

    /// Adds a restriction to the set of restrictions, returns true if something changes, false otherwise
    pub fn add_restriction_from_propagation(&mut self, head: &HeadAtom, var_cache: &Vec<CacheEntry>, prop_restriction: &SmtTerm)
        -> (changed: bool)
        requires
            head_constants(head.terms@, cache_view(var_cache@)),
        ensures
            final(self).restriction_head_vars@ == old(self).restriction_head_vars@,
            changed ==> final(self).restrictions@ == old(self).restrictions@.push(substituted(*prop_restriction,
                head_substitution(head.terms@, old(self).restriction_head_vars@, cache_view(var_cache@),
                min_length(head.terms@.len(), old(self).restriction_head_vars@.len())))),
            !changed ==> final(self).restrictions@ == old(self).restrictions@,
    {
        let substitution = build_head_substitution(head, &self.restriction_head_vars, var_cache);
        let new_restrictions = substitute(prop_restriction, &substitution);
        if !self.check_new_entailment(&new_restrictions) {
            return false;
        }
        self.restrictions.push(new_restrictions);
        true
    }

    /// Returns true if the position has a lower bound under the restrictions,
    /// as the solver's optimizer finds it
    pub fn has_lower_bound(&self, pos: usize) -> (r: bool)
        requires
            pos < self.restriction_head_vars@.len(),
        ensures
            r == (z3_lower_bound(optimization_text(seq![disjunction(self.restrictions@)],
                SmtTerm::Var(self.restriction_head_vars@[pos as int]), false)) matches Some(s) && !mentions_infinity(s)),
    {
        let objective = SmtTerm::Var(self.restriction_head_vars[pos]);
        let mut assertions: Vec<SmtTerm> = Vec::new();
        assertions.push(disjoin(&self.restrictions));
        assert(assertions@ =~= seq![disjunction(self.restrictions@)]);
        let bound = lower_bound(&assertions, &objective);
        bound_is_finite(&bound)
    }

    /// Returns true if the position has an upper bound under the restrictions,
    /// as the solver's optimizer finds it
    pub fn has_upper_bound(&self, pos: usize) -> (r: bool)
        requires
            pos < self.restriction_head_vars@.len(),
        ensures
            r == (z3_upper_bound(optimization_text(seq![disjunction(self.restrictions@)],
                SmtTerm::Var(self.restriction_head_vars@[pos as int]), true)) matches Some(s) && !mentions_infinity(s)),
    {
        let objective = SmtTerm::Var(self.restriction_head_vars[pos]);
        let mut assertions: Vec<SmtTerm> = Vec::new();
        assertions.push(disjoin(&self.restrictions));
        assert(assertions@ =~= seq![disjunction(self.restrictions@)]);
        let bound = upper_bound(&assertions, &objective);
        bound_is_finite(&bound)
    }
}

/// Whether a check finds a new entailment: the solver found the new
/// restriction satisfiable together with the negation of the present ones.
pub fn new_entailment(outcome: SatOutcome) -> (r: bool)
    ensures
        r == (outcome == SatOutcome::Sat),
{
    match outcome {
        SatOutcome::Unsat => false,
        SatOutcome::Unknown => false,
        SatOutcome::Sat => true,
    }
}

} // verus!
