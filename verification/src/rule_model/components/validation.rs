//! Errors and checks shared by the validation of annotations.

use vstd::prelude::*;

use super::operation_kind::OperationKind;
use super::term::{variable_names, Operation};
use super::variable::Variable;
use super::term::contains_variable;

verus! {

/// Errors found when validating an annotation.
#[derive(Debug, Clone, Copy, PartialEq, Eq, Structural)]
pub enum ValidationError {
    /// A restricted variable does not occur in the annotated atom
    ConflictingAnnotationVariables,
    /// A restriction is neither an equality nor an inequality
    UnsupportedAnnotationRestrictions,
}

/// Whether every operation is an equality or an inequality at its top level.
pub open spec fn only_equalities(ops: Seq<Operation>) -> bool {
    forall|i: int|
        0 <= i < ops.len() ==> (#[trigger] ops[i]).kind == OperationKind::Equal || ops[i].kind
            == OperationKind::Unequals
}

/// Return true if every name in `sub` also occurs in `sup`.
pub fn all_variables_contained(sub: &Vec<Variable>, sup: &Vec<Variable>) -> (r: bool)
    ensures
        r == variable_names(sub@).to_set().subset_of(variable_names(sup@).to_set()),
{
    let n = sub.len();
    let mut i: usize = 0;
    while i < n
        invariant
            n == sub.len(),
            0 <= i <= n,
            forall|j: int| 0 <= j < i ==> variable_names(sup@).contains(#[trigger] sub@[j]@),
        decreases n - i,
    {
        if !contains_variable(sup, &sub[i]) {
            assert(variable_names(sub@).to_set().contains(sub@[i as int]@)) by {
                assert(variable_names(sub@)[i as int] == sub@[i as int]@);
            }
            return false;
        }
        i = i + 1;
    }
    assert forall|x: Seq<char>| variable_names(sub@).to_set().contains(x) implies variable_names(sup@).to_set().contains(x) by {
        let k = choose|k: int| 0 <= k < variable_names(sub@).len() && variable_names(sub@)[k] == x;
        assert(sub@[k]@ == x);
    }
    true
}

/// Return true if every operation is an equality or an inequality at its top level.
pub fn check_only_equalities(ops: &Vec<Operation>) -> (r: bool)
    ensures
        r == only_equalities(ops@),
{
    let n = ops.len();
    let mut i: usize = 0;
    while i < n
        invariant
            n == ops.len(),
            0 <= i <= n,
            forall|j: int|
                0 <= j < i ==> (#[trigger] ops@[j]).kind == OperationKind::Equal || ops@[j].kind
                    == OperationKind::Unequals,
        decreases n - i,
    {
        let kind = ops[i].operation_kind();
        if !(kind == OperationKind::Equal || kind == OperationKind::Unequals) {
            return false;
        }
        i = i + 1;
    }
    true
}

} // verus!
