//! This module defines [NormalizedRuleAnnotation].

use vstd::prelude::*;

use crate::rule_model::components::rule_annotation::RuleAnnotation;
use crate::rule_model::components::term::variable_names;
use crate::rule_model::components::variable::Variable;

use super::operation::{normalizes_operations, operation_list_occurrences, Operation};

verus! {

/// Represents a normalized Rule Annotation
#[derive(Debug)]
pub struct NormalizedRuleAnnotation {
    /// Restrictions placed on the associated rule
    pub body: Vec<Operation>,
}

impl NormalizedRuleAnnotation {
    /// Return the list of body operations of the annotation
    pub fn body(&self) -> (body: &Vec<Operation>)
        ensures
            body == &self.body,
    {
        &self.body
    }

    /// Return the variables of the annotation: every variable of every body
    /// operation, in order, repeats kept
    pub fn variables(&self) -> (vars: Vec<Variable>)
        ensures
            variable_names(vars@) == operation_list_occurrences(self.body@),
    {
        let mut vars: Vec<Variable> = Vec::new();
        let n = self.body.len();
        let mut i: usize = 0;
        assert(variable_names(vars@) =~= operation_list_occurrences(self.body@.take(0)));
        while i < n
            invariant
                n == self.body@.len(),
                0 <= i <= n,
                variable_names(vars@) == operation_list_occurrences(self.body@.take(i as int)),
            decreases n - i,
        {
            assert(self.body@.take(i + 1).drop_last() =~= self.body@.take(i as int));
            self.body[i].collect_occurrences(&mut vars);
            i = i + 1;
        }
        assert(self.body@.take(n as int) =~= self.body@);
        vars
    }

    /// Normalizes a rule annotation
    pub fn normalize_rule_annotation(annotation: &RuleAnnotation) -> (normalized: Self)
        ensures
            normalizes_operations(annotation.body@, normalized.body@),
    {
        NormalizedRuleAnnotation { body: Operation::normalize_operations(&annotation.body) }
    }
}

} // verus!
