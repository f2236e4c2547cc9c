//! This module defines [RuleAnnotation].

use vstd::prelude::*;

use super::term::{operations_variable_list, operations_variables, variable_names, Operation};
use super::validation::ValidationError;
use super::variable::Variable;

verus! {

/// An annotation attached to a rule that restricts the values of its variables.
#[derive(Debug)]
pub struct RuleAnnotation {
    /// Body of the annotation
    pub body: Vec<Operation>,
}

impl RuleAnnotation {
    /// Create a new [RuleAnnotation].
    pub fn new(body: Vec<Operation>) -> (annotation: Self)
        ensures
            annotation.body == body,
    {
        RuleAnnotation { body }
    }

    /// Return the body of the annotation
    pub fn body(&self) -> (body: &Vec<Operation>)
        ensures
            body == &self.body,
    {
        &self.body
    }

    /// Return a mutable reference to the body
    pub fn body_mut(&mut self) -> (body: &mut Vec<Operation>)
        ensures
            *body == old(self).body,
            final(self).body == *final(body),
    {
        &mut self.body
    }

    /// Return the set of variables that are bound in the operations
    pub fn restricted_variables(&self) -> (vars: Vec<Variable>)
        ensures
            variable_names(vars@).no_duplicates(),
            variable_names(vars@).to_set() == operations_variables(self.body@),
    {
        operations_variable_list(&self.body)
    }

    /// Validate the annotation; every rule annotation is accepted.
    pub fn validate(&self) -> (r: Result<(), ValidationError>)
        ensures
            r is Ok,
    {
        Ok(())
    }
}

} // verus!
