//! This module defines [Sort] and [TypeLiteral], and the value domain that
//! each sort of a type annotation stands for.

use vstd::prelude::*;

use crate::rule_model::components::type_annotation::ValueDomain;

verus! {

/// Marker that indicates the type of variable
#[derive(Debug, Clone, Copy, PartialEq, Eq, Structural)]
pub enum Sort {
    /// Integer type
    TypeInt,
    /// Float type
    TypeFloat,
    /// String type
    TypeString,
    /// Language tagged string type
    TypeLanguageTaggedString,
    /// IRI type
    TypeIri,
    /// Double type
    TypeDouble,
    /// Unsigned long type
    TypeUnsignedLong,
    /// Non-negative long type
    TypeNonNegativeLong,
    /// Unsigned int type
    TypeUnsignedInt,
    /// Non-negative int type
    TypeNonNegativeInt,
    /// Long type
    TypeLong,
    /// Tuple type
    TypeTuple,
    /// Map type
    TypeMap,
    /// Boolean type
    TypeBoolean,
    /// Null type
    TypeNull,
    /// Other type
    TypeOther,
}

/// The value domain that a sort of a type annotation stands for.
pub open spec fn sort_domain(sort: Sort) -> ValueDomain {
    match sort {
        Sort::TypeInt => ValueDomain::Int,
        Sort::TypeFloat => ValueDomain::Float,
        Sort::TypeString => ValueDomain::PlainString,
        Sort::TypeLanguageTaggedString => ValueDomain::LanguageTaggedString,
        Sort::TypeIri => ValueDomain::Iri,
        Sort::TypeDouble => ValueDomain::Double,
        Sort::TypeUnsignedLong => ValueDomain::UnsignedLong,
        Sort::TypeNonNegativeLong => ValueDomain::NonNegativeLong,
        Sort::TypeUnsignedInt => ValueDomain::UnsignedInt,
        Sort::TypeNonNegativeInt => ValueDomain::NonNegativeInt,
        Sort::TypeLong => ValueDomain::Long,
        Sort::TypeTuple => ValueDomain::Tuple,
        Sort::TypeMap => ValueDomain::MapValue,
        Sort::TypeBoolean => ValueDomain::Boolean,
        Sort::TypeNull => ValueDomain::Null,
        Sort::TypeOther => ValueDomain::Other,
    }
}

/// Different sorts stand for different value domains, and every value
/// domain is the one of some sort.
pub proof fn lemma_sort_domain_bijective(s1: Sort, s2: Sort, d: ValueDomain)
    ensures
        sort_domain(s1) == sort_domain(s2) ==> s1 == s2,
        exists|s: Sort| #[trigger] sort_domain(s) == d,
{
    match d {
        ValueDomain::Int => assert(sort_domain(Sort::TypeInt) == d),
        ValueDomain::Float => assert(sort_domain(Sort::TypeFloat) == d),
        ValueDomain::PlainString => assert(sort_domain(Sort::TypeString) == d),
        ValueDomain::LanguageTaggedString => assert(sort_domain(Sort::TypeLanguageTaggedString) == d),
        ValueDomain::Iri => assert(sort_domain(Sort::TypeIri) == d),
        ValueDomain::Double => assert(sort_domain(Sort::TypeDouble) == d),
        ValueDomain::UnsignedLong => assert(sort_domain(Sort::TypeUnsignedLong) == d),
        ValueDomain::NonNegativeLong => assert(sort_domain(Sort::TypeNonNegativeLong) == d),
        ValueDomain::UnsignedInt => assert(sort_domain(Sort::TypeUnsignedInt) == d),
        ValueDomain::NonNegativeInt => assert(sort_domain(Sort::TypeNonNegativeInt) == d),
        ValueDomain::Long => assert(sort_domain(Sort::TypeLong) == d),
        ValueDomain::Tuple => assert(sort_domain(Sort::TypeTuple) == d),
        ValueDomain::MapValue => assert(sort_domain(Sort::TypeMap) == d),
        ValueDomain::Boolean => assert(sort_domain(Sort::TypeBoolean) == d),
        ValueDomain::Null => assert(sort_domain(Sort::TypeNull) == d),
        ValueDomain::Other => assert(sort_domain(Sort::TypeOther) == d),
    }
}

impl Sort {
    /// Return the value domain that this sort stands for in a type annotation.
    pub fn value_domain(&self) -> (domain: ValueDomain)
        ensures
            domain == sort_domain(*self),
    {
        match self {
            Sort::TypeInt => ValueDomain::Int,
            Sort::TypeFloat => ValueDomain::Float,
            Sort::TypeString => ValueDomain::PlainString,
            Sort::TypeLanguageTaggedString => ValueDomain::LanguageTaggedString,
            Sort::TypeIri => ValueDomain::Iri,
            Sort::TypeDouble => ValueDomain::Double,
            Sort::TypeUnsignedLong => ValueDomain::UnsignedLong,
            Sort::TypeNonNegativeLong => ValueDomain::NonNegativeLong,
            Sort::TypeUnsignedInt => ValueDomain::UnsignedInt,
            Sort::TypeNonNegativeInt => ValueDomain::NonNegativeInt,
            Sort::TypeLong => ValueDomain::Long,
            Sort::TypeTuple => ValueDomain::Tuple,
            Sort::TypeMap => ValueDomain::MapValue,
            Sort::TypeBoolean => ValueDomain::Boolean,
            Sort::TypeNull => ValueDomain::Null,
            Sort::TypeOther => ValueDomain::Other,
        }
    }
}

/// Node representing the type of a position in a type annotation
#[derive(Debug, Clone, Copy, PartialEq, Eq, Structural)]
pub struct TypeLiteral {
    /// Type of variable
    sort: Sort,
}

impl TypeLiteral {
    /// Create a type literal of the given sort.
    pub fn new(sort: Sort) -> (literal: Self)
        ensures
            literal.spec_sort() == sort,
    {
        TypeLiteral { sort }
    }

    /// The sort of the literal.
    pub closed spec fn spec_sort(&self) -> Sort {
        self.sort
    }

    /// Return the type of variable
    pub fn sort(&self) -> (sort: Sort)
        ensures
            sort == self.spec_sort(),
    {
        self.sort
    }
}

/// The value domains of the type literals of a type annotation, in order.
pub fn literal_domains(literals: &Vec<TypeLiteral>) -> (domains: Vec<ValueDomain>)
    ensures
        domains@.len() == literals@.len(),
        forall|i: int| 0 <= i < literals@.len() ==> #[trigger] domains@[i] == sort_domain(literals@[i].spec_sort()),
{
    let mut domains: Vec<ValueDomain> = Vec::new();
    let n = literals.len();
    let mut i: usize = 0;
    while i < n
        invariant
            n == literals@.len(),
            0 <= i <= n,
            domains@.len() == i,
            forall|j: int| 0 <= j < i ==> #[trigger] domains@[j] == sort_domain(literals@[j].spec_sort()),
        decreases n - i,
    {
        domains.push(literals[i].sort().value_domain());
        i = i + 1;
    }
    domains
}

} // verus!
