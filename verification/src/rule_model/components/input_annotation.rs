//! This module defines [InputAnnotation].

use vstd::prelude::*;

use super::atom::Atom;
use super::global_annotation::validation_result;
use super::term::{operations_variable_list, operations_variables, terms_variables, variable_names, Operation};
use super::validation::{all_variables_contained, check_only_equalities, ValidationError};
use super::variable::Variable;

verus! {

/// An annotation that restricts the values of an input predicate.
#[derive(Debug)]
pub struct InputAnnotation {
    /// predicate of the annotation
    pub predicate: Atom,
    /// body of the annotation
    pub body: Vec<Operation>,
}

impl InputAnnotation {
    /// Create a new [InputAnnotation].
    pub fn new(predicate: Atom, body: Vec<Operation>) -> (annotation: Self)
        ensures
            annotation.predicate == predicate,
            annotation.body == body,
    {
        InputAnnotation { predicate, body }
    }

    /// Return a reference to the predicate that is annotated
    pub fn predicate(&self) -> (atom: &Atom)
        ensures
            atom == &self.predicate,
    {
        &self.predicate
    }

    /// Return the body of the annotation
    pub fn body(&self) -> (body: &Vec<Operation>)
        ensures
            body == &self.body,
    {
        &self.body
    }

    /// Return a mutable reference to the body
    pub fn body_mut(&mut self) -> (body: &mut Vec<Operation>)
        ensures
            *body == old(self).body,
            final(self).body == *final(body),
            final(self).predicate == old(self).predicate,
    {
        &mut self.body
    }

    /// Return the set of variables in the predicate of the annotation
    pub fn predicate_variables(&self) -> (vars: Vec<Variable>)
        ensures
            variable_names(vars@).no_duplicates(),
            variable_names(vars@).to_set() == terms_variables(self.predicate.terms@),
    {
        self.predicate.variables()
    }

    /// Return the set of variables that are bound in the body
    pub fn restricted_variables(&self) -> (vars: Vec<Variable>)
        ensures
            variable_names(vars@).no_duplicates(),
            variable_names(vars@).to_set() == operations_variables(self.body@),
    {
        operations_variable_list(&self.body)
    }

    /// Validate the annotation: every variable of the body has to occur in the
    /// annotated atom, and every operation of the body has to be an equality or
    /// an inequality.
    pub fn validate(&self) -> (r: Result<(), ValidationError>)
        ensures
            r == validation_result(terms_variables(self.predicate.terms@), self.body@),
    {
        let atom_vars = self.predicate_variables();
        let restricted = self.restricted_variables();
        if !all_variables_contained(&restricted, &atom_vars) {
            return Err(ValidationError::ConflictingAnnotationVariables);
        }
        if !check_only_equalities(&self.body) {
            return Err(ValidationError::UnsupportedAnnotationRestrictions);
        }
        Ok(())
    }
}

} // verus!
