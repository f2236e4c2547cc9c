//! This module defines [Atom], a predicate applied to terms.

use vstd::prelude::*;

use super::tag::Tag;
use super::term::{collect_terms_variables, terms_variables, variable_names, Term};
use super::variable::Variable;

verus! {

/// An atom of the rule model.
#[derive(Debug)]
pub struct Atom {
    /// The predicate of the atom
    pub predicate: Tag,
    /// The arguments of the atom
    pub terms: Vec<Term>,
}

impl Atom {
    /// Create a new [Atom].
    pub fn new(predicate: Tag, terms: Vec<Term>) -> (atom: Self)
        ensures
            atom.predicate == predicate,
            atom.terms == terms,
    {
        Atom { predicate, terms }
    }

    /// Return the predicate of the atom.
    pub fn predicate(&self) -> (tag: &Tag)
        ensures
            tag == &self.predicate,
    {
        &self.predicate
    }

    /// Return the arguments of the atom.
    pub fn terms(&self) -> (terms: &Vec<Term>)
        ensures
            terms == &self.terms,
    {
        &self.terms
    }

    /// Return the arity of the atom.
    pub fn arity(&self) -> (arity: usize)
        ensures
            arity == self.terms@.len(),
    {
        self.terms.len()
    }

    /// Return the distinct variables occurring in the atom.
    pub fn variables(&self) -> (vars: Vec<Variable>)
        ensures
            variable_names(vars@).no_duplicates(),
            variable_names(vars@).to_set() == terms_variables(self.terms@),
    {
        let mut vars: Vec<Variable> = Vec::new();
        assert(variable_names(vars@).to_set() =~= Set::<Seq<char>>::empty());
        collect_terms_variables(&self.terms, &mut vars);
        assert(variable_names(vars@).to_set() =~= terms_variables(self.terms@));
        vars
    }
}

} // verus!
