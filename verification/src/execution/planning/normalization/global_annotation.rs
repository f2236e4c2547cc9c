//! This module defines [NormalizedGlobalAnnotation]

use vstd::prelude::*;

use crate::rule_model::components::global_annotation::GlobalAnnotation;
use crate::rule_model::components::term::{contains_variable, variable_names, Term};
use crate::rule_model::components::variable::{Primitive, Variable};

use super::atom::{distinct_variables, term_variable_name, BodyAtom, HeadAtom};
use super::generator::VariableGenerator;
use super::operation::{lower_bounded_variable, normalizes_operations, upper_bounded_variable, Operation};

verus! {

/// The variables bounded from above by some operation of `body`.
pub open spec fn upper_bound_set(body: Seq<Operation>) -> Set<Seq<char>>
    decreases body.len(),
{
    if body.len() == 0 {
        Set::empty()
    } else {
        let rest = upper_bound_set(body.drop_last());
        match upper_bounded_variable(body.last()) {
            Some(v) => rest.insert(v),
            None => rest,
        }
    }
}

/// The variables bounded from below by some operation of `body`.
pub open spec fn lower_bound_set(body: Seq<Operation>) -> Set<Seq<char>>
    decreases body.len(),
{
    if body.len() == 0 {
        Set::empty()
    } else {
        let rest = lower_bound_set(body.drop_last());
        match lower_bounded_variable(body.last()) {
            Some(v) => rest.insert(v),
            None => rest,
        }
    }
}

/// The variables of `atom` at the first `n` positions where the annotation
/// atom has a variable of `bound`, in the order of the positions.
pub open spec fn bound_atom_variables(ann: Seq<Variable>, atom: Seq<Primitive>, bound: Set<Seq<char>>, n: nat) -> Seq<Seq<char>>
    decreases n,
{
    if n == 0 {
        Seq::empty()
    } else {
        let prev = bound_atom_variables(ann, atom, bound, (n - 1) as nat);
        match atom[n - 1] {
            Primitive::Variable(v) => if bound.contains(ann[n - 1]@) { prev.push(v@) } else { prev },
            Primitive::Ground(_) => prev,
        }
    }
}

/// The smaller of two lengths.
pub open spec fn min_len(a: nat, b: nat) -> nat {
    if a <= b { a } else { b }
}

/// Represents a normalized Global Annotation
#[derive(Debug)]
pub struct NormalizedGlobalAnnotation {
    /// Head atom of the annotation
    pub head: BodyAtom,
    /// Restrictions placed on the head atom
    pub body: Vec<Operation>,
}

impl NormalizedGlobalAnnotation {
    /// Return the head of the annotation
    pub fn head(&self) -> (head: &BodyAtom)
        ensures
            head == &self.head,
    {
        &self.head
    }

    /// Return the list of body operations of the annotation
    pub fn body(&self) -> (body: &Vec<Operation>)
        ensures
            body == &self.body,
    {
        &self.body
    }

    /// Returns the variables of the atom at the positions whose annotation
    /// variable is bounded from above by the restrictions.
    pub fn bound_above_vars(&self, atom: &HeadAtom) -> (vars: Vec<Variable>)
        requires
            atom.predicate@ == self.head.predicate@,
        ensures
            variable_names(vars@) == bound_atom_variables(self.head.terms@, atom.terms@,
                upper_bound_set(self.body@), min_len(self.head.terms@.len(), atom.terms@.len())),
    {
        let mut bound: Vec<Variable> = Vec::new();
        let nb = self.body.len();
        let mut k: usize = 0;
        assert(variable_names(bound@).to_set() =~= upper_bound_set(self.body@.take(0)));
        while k < nb
            invariant
                nb == self.body@.len(),
                0 <= k <= nb,
                variable_names(bound@).to_set() == upper_bound_set(self.body@.take(k as int)),
            decreases nb - k,
        {
            let ghost before = bound@;
            assert(self.body@.take(k + 1).drop_last() =~= self.body@.take(k as int));
            match self.body[k].is_upper_bound() {
                Some(v) => {
                    bound.push(v.clone());
                    assert(variable_names(bound@) =~= variable_names(before).push(v@));
                    proof { broadcast use vstd::seq_lib::group_seq_properties; }
                },
                None => {},
            }
            k = k + 1;
            assert(variable_names(bound@).to_set() =~= upper_bound_set(self.body@.take(k as int)));
        }
        assert(self.body@.take(nb as int) =~= self.body@);
        select_bound_variables(&self.head.terms, &atom.terms, &bound)
    }

    /// Returns the variables of the atom at the positions whose annotation
    /// variable is bounded from below by the restrictions.
    pub fn bound_below_vars(&self, atom: &HeadAtom) -> (vars: Vec<Variable>)
        requires
            atom.predicate@ == self.head.predicate@,
        ensures
            variable_names(vars@) == bound_atom_variables(self.head.terms@, atom.terms@,
                lower_bound_set(self.body@), min_len(self.head.terms@.len(), atom.terms@.len())),
    {
        let mut bound: Vec<Variable> = Vec::new();
        let nb = self.body.len();
        let mut k: usize = 0;
        assert(variable_names(bound@).to_set() =~= lower_bound_set(self.body@.take(0)));
        while k < nb
            invariant
                nb == self.body@.len(),
                0 <= k <= nb,
                variable_names(bound@).to_set() == lower_bound_set(self.body@.take(k as int)),
            decreases nb - k,
        {
            let ghost before = bound@;
            assert(self.body@.take(k + 1).drop_last() =~= self.body@.take(k as int));
            match self.body[k].is_lower_bound() {
                Some(v) => {
                    bound.push(v.clone());
                    assert(variable_names(bound@) =~= variable_names(before).push(v@));
                    proof { broadcast use vstd::seq_lib::group_seq_properties; }
                },
                None => {},
            }
            k = k + 1;
            assert(variable_names(bound@).to_set() =~= lower_bound_set(self.body@.take(k as int)));
        }
        assert(self.body@.take(nb as int) =~= self.body@);
        select_bound_variables(&self.head.terms, &atom.terms, &bound)
    }

    /// Normalizes the global annotation
    pub fn normalize_global_annotation(annotation: &GlobalAnnotation) -> (normalized: Self)
        requires
            distinct_variables(annotation.predicate.terms@),
            annotation.predicate.terms@.len() < usize::MAX,
        ensures
            normalized.head.predicate@ == annotation.predicate.predicate@,
            normalized.head.terms@.len() == annotation.predicate.terms@.len(),
            forall|i: int| 0 <= i < normalized.head.terms@.len() ==>
                Some(#[trigger] normalized.head.terms@[i]@) == term_variable_name(annotation.predicate.terms@[i]),
            normalizes_operations(annotation.restrictions@, normalized.body@),
    {
        let mut generator = VariableGenerator::new();
        let (head, new_operations) = BodyAtom::normalize_atom(&mut generator, &annotation.predicate);
        assert(new_operations@.len() == 0);
        let body = Operation::normalize_operations(&annotation.restrictions);
        assert forall|i: int| 0 <= i < head.terms@.len() implies
            Some(#[trigger] head.terms@[i]@) == term_variable_name(annotation.predicate.terms@[i]) by {
            assert(super::atom::first_occurrence(annotation.predicate.terms@, i));
        }
        NormalizedGlobalAnnotation { head, body }
    }

    /// Returns all variables of the annotation
    pub fn variables(&self) -> (vars: &Vec<Variable>)
        ensures
            vars == &self.head.terms,
    {
        &self.head.terms
    }
}

/// Returns the variables of `atom` at the positions where `ann` holds a
/// variable whose name occurs in `bound`.
pub fn select_bound_variables(ann: &Vec<Variable>, atom: &Vec<Primitive>, bound: &Vec<Variable>) -> (vars: Vec<Variable>)
    ensures
        variable_names(vars@) == bound_atom_variables(ann@, atom@, variable_names(bound@).to_set(),
            min_len(ann@.len(), atom@.len())),
{
    let n = if ann.len() <= atom.len() { ann.len() } else { atom.len() };
    let mut vars: Vec<Variable> = Vec::new();
    let mut i: usize = 0;
    while i < n
        invariant
            n == min_len(ann@.len(), atom@.len()),
            0 <= i <= n,
            variable_names(vars@) == bound_atom_variables(ann@, atom@, variable_names(bound@).to_set(), i as nat),
        decreases n - i,
    {
        match &atom[i] {
            Primitive::Variable(v) => {
                if contains_variable(bound, &ann[i]) {
                    let ghost before = vars@;
                    vars.push(v.clone());
                    assert(variable_names(vars@) =~= variable_names(before).push(v@));
                }
            },
            Primitive::Ground(_) => {},
        }
        i = i + 1;
    }
    vars
}

} // verus!
