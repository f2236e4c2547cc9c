//! This module defines [TerminationAnnotation].

use vstd::prelude::*;

use super::atom::Atom;
use super::term::{term_variables, terms_variables, variable_names, Term};
use super::validation::{all_variables_contained, ValidationError};
use super::variable::Variable;

verus! {

/// Direction in which the measure of a termination annotation changes
#[derive(Debug, Clone, Copy, PartialEq, Eq, Structural, Hash)]
pub enum TerminationDirection {
    /// The measure increases
    Increasing,
    /// The measure decreases
    Decreasing,
}

/// An annotation that gives a measure on a predicate which changes strictly
/// along each cycle of recursive rules.
#[derive(Debug)]
pub struct TerminationAnnotation {
    /// predicate of the annotation
    pub predicate: Atom,
    /// direction of the termination
    pub direction: TerminationDirection,
    /// body of the annotation
    pub body: Term,
}

impl TerminationAnnotation {
    /// Create a new [TerminationAnnotation].
    pub fn new(predicate: Atom, body: Term, direction: TerminationDirection) -> (annotation: Self)
        ensures
            annotation.predicate == predicate,
            annotation.body == body,
            annotation.direction == direction,
    {
        TerminationAnnotation { predicate, direction, body }
    }

    /// Return a reference to the predicate that is annotated
    pub fn predicate(&self) -> (atom: &Atom)
        ensures
            atom == &self.predicate,
    {
        &self.predicate
    }

    /// Return the body of the annotation
    pub fn body(&self) -> (body: &Term)
        ensures
            body == &self.body,
    {
        &self.body
    }

    /// Return the termination direction
    pub fn direction(&self) -> (direction: &TerminationDirection)
        ensures
            *direction == self.direction,
    {
        &self.direction
    }

    /// Return a mutable reference to the body
    pub fn body_mut(&mut self) -> (body: &mut Term)
        ensures
            *body == old(self).body,
            final(self).body == *final(body),
            final(self).predicate == old(self).predicate,
            final(self).direction == old(self).direction,
    {
        &mut self.body
    }

    /// Return the set of variables in the predicate of the annotation
    pub fn predicate_variables(&self) -> (vars: Vec<Variable>)
        ensures
            variable_names(vars@).no_duplicates(),
            variable_names(vars@).to_set() == terms_variables(self.predicate.terms@),
    {
        self.predicate.variables()
    }

    /// Return the set of variables that occur in the body
    pub fn restricted_variables(&self) -> (vars: Vec<Variable>)
        ensures
            variable_names(vars@).no_duplicates(),
            variable_names(vars@).to_set() == term_variables(self.body),
    {
        self.body.variables()
    }

    /// Validate the annotation: every variable of the body has to occur in the
    /// annotated atom.
    pub fn validate(&self) -> (r: Result<(), ValidationError>)
        ensures
            r == if term_variables(self.body).subset_of(terms_variables(self.predicate.terms@)) {
                Ok(())
            } else {
                Err(ValidationError::ConflictingAnnotationVariables)
            },
    {
        let atom_vars = self.predicate_variables();
        let restricted = self.restricted_variables();
        if !all_variables_contained(&restricted, &atom_vars) {
            return Err(ValidationError::ConflictingAnnotationVariables);
        }
        Ok(())
    }
}

} // verus!
