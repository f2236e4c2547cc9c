//! This module defines [RelationTypes]

use vstd::prelude::*;

use crate::rule_model::components::type_annotation::ValueDomain;

verus! {

/// The value domains allowed at each position of a predicate.
#[derive(Debug)]
pub struct RelationTypes {
    /// arity of the predicate
    arity: usize,
    /// sorts of the position
    sorts: Vec<Vec<ValueDomain>>,
}

impl RelationTypes {
    /// The arity of the predicate.
    pub closed spec fn spec_arity(&self) -> usize {
        self.arity
    }

    /// The value domains allowed at each position.
    pub closed spec fn spec_sorts(&self) -> Seq<Set<ValueDomain>> {
        self.sorts@.map_values(|s: Vec<ValueDomain>| s@.to_set())
    }

    /// Whether the object has one set of domains per position.
    pub closed spec fn well_formed(&self) -> bool {
        self.sorts@.len() == self.arity
    }

    ///Creates a new [RelationTypes] object
    pub fn new(arity: usize) -> (types: Self)
        ensures
            types.well_formed(),
            types.spec_arity() == arity,
            types.spec_sorts().len() == arity,
            forall|i: int| 0 <= i < arity ==> (#[trigger] types.spec_sorts()[i]) == Set::<ValueDomain>::empty(),
    {
        let mut sorts: Vec<Vec<ValueDomain>> = Vec::new();
        let mut i: usize = 0;
        while i < arity
            invariant
                0 <= i <= arity,
                sorts@.len() == i,
                forall|j: int| 0 <= j < i ==> (#[trigger] sorts@[j])@ == Seq::<ValueDomain>::empty(),
            decreases arity - i,
        {
            sorts.push(Vec::new());
            i = i + 1;
        }
        let types = RelationTypes { arity, sorts };
        assert forall|j: int| 0 <= j < arity implies (#[trigger] types.spec_sorts()[j]) == Set::<ValueDomain>::empty() by {
            assert(types.sorts@[j]@ == Seq::<ValueDomain>::empty());
            assert(types.sorts@[j]@.to_set() =~= Set::<ValueDomain>::empty());
        }
        types
    }

    /// Get the Type for the given position, which must lie within the arity
    pub fn types_at_position(&self, pos: usize) -> (types: &Vec<ValueDomain>)
        requires
            self.well_formed(),
            pos < self.spec_arity(),
        ensures
            types@.to_set() == self.spec_sorts()[pos as int],
    {
        &self.sorts[pos]
    }

    /// Returns true if the given type is valid for position pos
    pub fn contains_type_at_position(&self, pos: usize, sort: &ValueDomain) -> (r: bool)
        requires
            self.well_formed(),
            pos < self.spec_arity(),
        ensures
            r == self.spec_sorts()[pos as int].contains(*sort),
    {
        let domains = &self.sorts[pos];
        let n = domains.len();
        let mut i: usize = 0;
        while i < n
            invariant
                self.well_formed(),
                pos < self.spec_arity(),
                domains == &self.sorts@[pos as int],
                n == domains@.len(),
                0 <= i <= n,
                forall|j: int| 0 <= j < i ==> domains@[j] != *sort,
            decreases n - i,
        {
            if domains[i] == *sort {
                assert(self.spec_sorts()[pos as int] == domains@.to_set());
                assert(domains@.to_set().contains(domains@[i as int]));
                return true;
            }
            i = i + 1;
        }
        false
    }
}

} // verus!
