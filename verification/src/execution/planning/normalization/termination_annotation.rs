//! This module defines [NormalizedTerminationAnnotation]

use vstd::prelude::*;

use crate::rule_model::components::termination_annotation::{
    TerminationAnnotation, TerminationDirection as ModelDirection,
};
use crate::rule_model::components::variable::Variable;

use super::atom::{distinct_variables, first_occurrence, term_variable_name, BodyAtom};
use super::generator::VariableGenerator;
use super::operation::{normalizes, Operation};

verus! {

/// Represents Direction of Termination
#[derive(Debug, Copy, Clone, PartialEq, Eq, Structural)]
pub enum TerminationDirection {
    /// Decreasing
    Decreasing,
    /// Increasing
    Increasing,
}

/// Represents a normalized termination annotation
#[derive(Debug)]
pub struct NormalizedTerminationAnnotation {
    /// Head atom of the annotation
    pub head: BodyAtom,
    /// Direction in which the measure changes
    pub direction: TerminationDirection,
    /// The measure on the head atom
    pub body: Operation,
}

impl NormalizedTerminationAnnotation {
    /// Return the head of the annotation
    pub fn head(&self) -> (head: &BodyAtom)
        ensures
            head == &self.head,
    {
        &self.head
    }

    /// Return the measure of the annotation
    pub fn body(&self) -> (body: &Operation)
        ensures
            body == &self.body,
    {
        &self.body
    }

    /// Return the direction
    pub fn direction(&self) -> (direction: TerminationDirection)
        ensures
            direction == self.direction,
    {
        self.direction
    }

    /// Normalizes the termination annotation
    pub fn normalize_termination_annotation(annotation: &TerminationAnnotation) -> (normalized: Self)
        requires
            distinct_variables(annotation.predicate.terms@),
            annotation.predicate.terms@.len() < usize::MAX,
        ensures
            normalized.head.predicate@ == annotation.predicate.predicate@,
            normalized.head.terms@.len() == annotation.predicate.terms@.len(),
            forall|i: int| 0 <= i < normalized.head.terms@.len() ==>
                Some(#[trigger] normalized.head.terms@[i]@) == term_variable_name(annotation.predicate.terms@[i]),
            normalizes(annotation.body, normalized.body),
            normalized.direction == match annotation.direction {
                ModelDirection::Increasing => TerminationDirection::Increasing,
                ModelDirection::Decreasing => TerminationDirection::Decreasing,
            },
    {
        let mut generator = VariableGenerator::new();
        let (head, new_operations) = BodyAtom::normalize_atom(&mut generator, &annotation.predicate);
        assert(new_operations@.len() == 0);
        let body = Operation::normalize_body_operation(&annotation.body);
        let direction = match annotation.direction {
            ModelDirection::Increasing => TerminationDirection::Increasing,
            ModelDirection::Decreasing => TerminationDirection::Decreasing,
        };
        assert forall|i: int| 0 <= i < head.terms@.len() implies
            Some(#[trigger] head.terms@[i]@) == term_variable_name(annotation.predicate.terms@[i]) by {
            assert(first_occurrence(annotation.predicate.terms@, i));
        }
        NormalizedTerminationAnnotation { head, direction, body }
    }

    /// Returns all variables of the annotation
    pub fn variables(&self) -> (vars: &Vec<Variable>)
        ensures
            vars == &self.head.terms,
    {
        &self.head.terms
    }
}

} // verus!
