//! This module defines [NormalizedTypeAnnotation]

use vstd::prelude::*;

use crate::rule_model::components::tag::Tag;
use crate::rule_model::components::type_annotation::{comma_joined, TypeAnnotation, ValueDomain};

verus! {

/// The name of the variant of a domain.
pub open spec fn variant_name(d: ValueDomain) -> Seq<char> {
    match d {
        ValueDomain::PlainString => "PlainString"@,
        ValueDomain::LanguageTaggedString => "LanguageTaggedString"@,
        ValueDomain::Iri => "Iri"@,
        ValueDomain::Float => "Float"@,
        ValueDomain::Double => "Double"@,
        ValueDomain::UnsignedLong => "UnsignedLong"@,
        ValueDomain::NonNegativeLong => "NonNegativeLong"@,
        ValueDomain::UnsignedInt => "UnsignedInt"@,
        ValueDomain::NonNegativeInt => "NonNegativeInt"@,
        ValueDomain::Long => "Long"@,
        ValueDomain::Int => "Int"@,
        ValueDomain::Tuple => "Tuple"@,
        ValueDomain::MapValue => "Map"@,
        ValueDomain::Boolean => "Boolean"@,
        ValueDomain::Null => "Null"@,
        ValueDomain::Other => "Other"@,
    }
}

/// Returns the name of the variant of a domain.
fn variant_text(d: &ValueDomain) -> (text: &'static str)
    ensures
        text@ == variant_name(*d),
{
    match d {
        ValueDomain::PlainString => "PlainString",
        ValueDomain::LanguageTaggedString => "LanguageTaggedString",
        ValueDomain::Iri => "Iri",
        ValueDomain::Float => "Float",
        ValueDomain::Double => "Double",
        ValueDomain::UnsignedLong => "UnsignedLong",
        ValueDomain::NonNegativeLong => "NonNegativeLong",
        ValueDomain::UnsignedInt => "UnsignedInt",
        ValueDomain::NonNegativeInt => "NonNegativeInt",
        ValueDomain::Long => "Long",
        ValueDomain::Int => "Int",
        ValueDomain::Tuple => "Tuple",
        ValueDomain::MapValue => "Map",
        ValueDomain::Boolean => "Boolean",
        ValueDomain::Null => "Null",
        ValueDomain::Other => "Other",
    }
}

/// The text of a normalized type annotation: `#type`, the predicate, and
/// the names of the variants of the domains.
pub open spec fn normalized_type_text(predicate: Seq<char>, sorts: Seq<ValueDomain>) -> Seq<char> {
    "#type "@ + predicate + ": "@ + comma_joined(sorts.map_values(|d: ValueDomain| variant_name(d)))
}

/// Represents a normalized type annotation
#[derive(Debug)]
pub struct NormalizedTypeAnnotation {
    /// Predicate which is type annotated
    pub predicate: Tag,
    /// arity of the predicate
    pub arity: usize,
    /// Value domain of each position
    pub sorts: Vec<ValueDomain>,
}

impl NormalizedTypeAnnotation {
    /// The text that displays the annotation: `#type`, the predicate and
    /// the names of the variants of the domains, separated by commas
    pub fn to_string(&self) -> (text: String)
        ensures
            text@ == normalized_type_text(self.predicate@, self.sorts@),
    {
        let ghost names = self.sorts@.map_values(|d: ValueDomain| variant_name(d));
        let mut text = String::new();
        text.append("#type ");
        text.append(self.predicate.name());
        text.append(": ");
        let ghost head = text@;
        let n = self.sorts.len();
        let mut i: usize = 0;
        assert(names.take(0) =~= Seq::<Seq<char>>::empty());
        while i < n
            invariant
                n == self.sorts@.len(),
                names == self.sorts@.map_values(|d: ValueDomain| variant_name(d)),
                0 <= i <= n,
                text@ == head + comma_joined(names.take(i as int)),
            decreases n - i,
        {
            if i > 0 {
                text.append(", ");
            }
            text.append(variant_text(&self.sorts[i]));
            proof {
                let t = names.take(i + 1);
                assert(t.drop_last() =~= names.take(i as int));
                assert(t.last() == variant_name(self.sorts@[i as int]));
                assert(text@ =~= head + comma_joined(t));
            }
            i = i + 1;
        }
        assert(names.take(n as int) =~= names);
        text
    }

    /// Return the annotated predicate
    pub fn predicate(&self) -> (tag: Tag)
        ensures
            tag@ == self.predicate@,
    {
        self.predicate.clone()
    }

    /// Returns the arity of the annotation
    pub fn arity(&self) -> (arity: usize)
        ensures
            arity == self.arity,
    {
        self.arity
    }

    /// Return the value domains of the positions
    pub fn sorts(&self) -> (sorts: &Vec<ValueDomain>)
        ensures
            sorts == &self.sorts,
    {
        &self.sorts
    }

    /// Normalizes the type annotation
    pub fn normalize_type_annotation(annotation: &TypeAnnotation) -> (normalized: Self)
        ensures
            normalized.predicate@ == annotation.predicate@,
            normalized.sorts@ == annotation.sorts@,
            normalized.arity == annotation.sorts@.len(),
    {
        let predicate = annotation.predicate.clone();
        let mut sorts: Vec<ValueDomain> = Vec::new();
        let n = annotation.sorts.len();
        let mut i: usize = 0;
        while i < n
            invariant
                n == annotation.sorts@.len(),
                0 <= i <= n,
                sorts@ == annotation.sorts@.take(i as int),
            decreases n - i,
        {
            sorts.push(annotation.sorts[i]);
            i = i + 1;
            assert(sorts@ =~= annotation.sorts@.take(i as int));
        }
        assert(annotation.sorts@.take(n as int) =~= annotation.sorts@);
        let arity = sorts.len();
        NormalizedTypeAnnotation { predicate, arity, sorts }
    }
}

} // verus!
