//! This module defines [GlobalAnnotation].

use vstd::prelude::*;

use super::atom::Atom;
use super::term::{operations_variable_list, operations_variables, terms_variables, variable_names, Operation};
use super::validation::{all_variables_contained, check_only_equalities, only_equalities, ValidationError};
use super::variable::Variable;

verus! {

/// Kinds of global annotations
#[derive(Debug, Clone, Copy, PartialEq, Eq, Structural, Hash)]
pub enum GlobalAnnotationKind {
    /// The annotation is assumed to hold
    Assert,
    /// The annotation has to be verified
    Verify,
}

/// An annotation that restricts the values of the positions of a predicate.
#[derive(Debug)]
pub struct GlobalAnnotation {
    /// Kind of Annotation
    pub kind: GlobalAnnotationKind,
    /// predicate of the annotation
    pub predicate: Atom,
    /// Restrictions on the variables
    pub restrictions: Vec<Operation>,
}

/// The outcome of validating an annotation whose atom has the variables
/// `atom_vars` and whose restrictions are `restrictions`.
pub open spec fn validation_result(atom_vars: Set<Seq<char>>, restrictions: Seq<Operation>) -> Result<(), ValidationError> {
    if !operations_variables(restrictions).subset_of(atom_vars) {
        Err(ValidationError::ConflictingAnnotationVariables)
    } else if !only_equalities(restrictions) {
        Err(ValidationError::UnsupportedAnnotationRestrictions)
    } else {
        Ok(())
    }
}

impl GlobalAnnotation {
    /// Create a new [GlobalAnnotation].
    pub fn new(kind: GlobalAnnotationKind, predicate: Atom, restrictions: Vec<Operation>) -> (annotation: Self)
        ensures
            annotation.kind == kind,
            annotation.predicate == predicate,
            annotation.restrictions == restrictions,
    {
        GlobalAnnotation { kind, predicate, restrictions }
    }

    /// Return a reference to the predicate that is annotated
    pub fn predicate(&self) -> (atom: &Atom)
        ensures
            atom == &self.predicate,
    {
        &self.predicate
    }

    /// Return the kind of the annotation
    pub fn kind(&self) -> (kind: GlobalAnnotationKind)
        ensures
            kind == self.kind,
    {
        self.kind
    }

    /// Return the restrictions of the annotation
    pub fn restrictions(&self) -> (restrictions: &Vec<Operation>)
        ensures
            restrictions == &self.restrictions,
    {
        &self.restrictions
    }

    /// Return a mutable reference to the restrictions
    pub fn restrictions_mut(&mut self) -> (restrictions: &mut Vec<Operation>)
        ensures
            *restrictions == old(self).restrictions,
            final(self).restrictions == *final(restrictions),
            final(self).kind == old(self).kind,
            final(self).predicate == old(self).predicate,
    {
        &mut self.restrictions
    }

    /// Return the set of variables in the predicate of the annotation
    pub fn predicate_variables(&self) -> (vars: Vec<Variable>)
        ensures
            variable_names(vars@).no_duplicates(),
            variable_names(vars@).to_set() == terms_variables(self.predicate.terms@),
    {
        self.predicate.variables()
    }

    /// Return the set of variables that are bound in the restrictions
    pub fn restricted_variables(&self) -> (vars: Vec<Variable>)
        ensures
            variable_names(vars@).no_duplicates(),
            variable_names(vars@).to_set() == operations_variables(self.restrictions@),
    {
        operations_variable_list(&self.restrictions)
    }

    /// Validate the annotation: every restricted variable has to occur in the
    /// annotated atom, and every restriction has to be an equality or an
    /// inequality.
    pub fn validate(&self) -> (r: Result<(), ValidationError>)
        ensures
            r == validation_result(terms_variables(self.predicate.terms@), self.restrictions@),
    {
        let atom_vars = self.predicate_variables();
        let restricted = self.restricted_variables();
        if !all_variables_contained(&restricted, &atom_vars) {
            return Err(ValidationError::ConflictingAnnotationVariables);
        }
        if !check_only_equalities(&self.restrictions) {
            return Err(ValidationError::UnsupportedAnnotationRestrictions);
        }
        Ok(())
    }
}

} // verus!
