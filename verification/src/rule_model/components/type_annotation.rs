//! This module defines [TypeAnnotation] and [ValueDomain].

use vstd::prelude::*;

use super::tag::Tag;

verus! {

/// The domains of values that a position of a predicate may hold.
#[derive(Debug, Clone, Copy, PartialEq, Eq, Structural, Hash)]
pub enum ValueDomain {
    /// Plain strings
    PlainString,
    /// Language tagged strings
    LanguageTaggedString,
    /// IRIs
    Iri,
    /// Floats
    Float,
    /// Doubles
    Double,
    /// Unsigned longs
    UnsignedLong,
    /// Non-negative longs
    NonNegativeLong,
    /// Unsigned ints
    UnsignedInt,
    /// Non-negative ints
    NonNegativeInt,
    /// Longs
    Long,
    /// Ints
    Int,
    /// Tuples
    Tuple,
    /// Maps
    MapValue,
    /// Booleans
    Boolean,
    /// Null values
    Null,
    /// Any other value
    Other,
}

/// The name under which the domain is written in a type annotation.
pub open spec fn domain_name(d: ValueDomain) -> Seq<char> {
    match d {
        ValueDomain::PlainString => "string"@,
        ValueDomain::LanguageTaggedString => "language-tagged string"@,
        ValueDomain::Iri => "iri"@,
        ValueDomain::Float => "float"@,
        ValueDomain::Double => "double"@,
        ValueDomain::UnsignedLong => "unsigned long"@,
        ValueDomain::NonNegativeLong => "non-negative long"@,
        ValueDomain::UnsignedInt => "unsigned int"@,
        ValueDomain::NonNegativeInt => "non-negative int"@,
        ValueDomain::Long => "long"@,
        ValueDomain::Int => "int"@,
        ValueDomain::Tuple => "tuple"@,
        ValueDomain::MapValue => "map"@,
        ValueDomain::Boolean => "boolean"@,
        ValueDomain::Null => "null"@,
        ValueDomain::Other => "other"@,
    }
}

/// The texts joined by `", "`.
pub open spec fn comma_joined(texts: Seq<Seq<char>>) -> Seq<char>
    decreases texts.len(),
{
    if texts.len() == 0 {
        Seq::empty()
    } else if texts.len() == 1 {
        texts[0]
    } else {
        comma_joined(texts.drop_last()) + ", "@ + texts.last()
    }
}

/// The text of a type annotation: `#type`, the predicate, and the names of
/// the domains in brackets.
pub open spec fn type_annotation_text(predicate: Seq<char>, sorts: Seq<ValueDomain>) -> Seq<char> {
    "#type "@ + predicate + " ( "@ + comma_joined(sorts.map_values(|d: ValueDomain| domain_name(d))) + ")."@
}

impl ValueDomain {
    /// Return the name under which the domain is written in a type annotation.
    pub fn name(&self) -> (name: &'static str)
        ensures
            name@ == domain_name(*self),
    {
        match self {
            ValueDomain::PlainString => "string",
            ValueDomain::LanguageTaggedString => "language-tagged string",
            ValueDomain::Iri => "iri",
            ValueDomain::Float => "float",
            ValueDomain::Double => "double",
            ValueDomain::UnsignedLong => "unsigned long",
            ValueDomain::NonNegativeLong => "non-negative long",
            ValueDomain::UnsignedInt => "unsigned int",
            ValueDomain::NonNegativeInt => "non-negative int",
            ValueDomain::Long => "long",
            ValueDomain::Int => "int",
            ValueDomain::Tuple => "tuple",
            ValueDomain::MapValue => "map",
            ValueDomain::Boolean => "boolean",
            ValueDomain::Null => "null",
            ValueDomain::Other => "other",
        }
    }
}

/// An annotation giving the value domain of each position of a predicate.
#[derive(Debug)]
pub struct TypeAnnotation {
    /// predicate of the annotation
    pub predicate: Tag,
    /// sorts of the annotation
    pub sorts: Vec<ValueDomain>,
}

impl TypeAnnotation {
    /// Create a new [TypeAnnotation].
    pub fn new(predicate: Tag, sorts: Vec<ValueDomain>) -> (annotation: Self)
        ensures
            annotation.predicate == predicate,
            annotation.sorts == sorts,
    {
        TypeAnnotation { predicate, sorts }
    }

    /// Return a reference to the predicate that is annotated
    pub fn predicate(&self) -> (tag: &Tag)
        ensures
            tag == &self.predicate,
    {
        &self.predicate
    }

    /// Return the sorts of the annotation
    pub fn sorts(&self) -> (sorts: &Vec<ValueDomain>)
        ensures
            sorts == &self.sorts,
    {
        &self.sorts
    }

    /// Return a mutable reference to the sorts
    pub fn sorts_mut(&mut self) -> (sorts: &mut Vec<ValueDomain>)
        ensures
            *sorts == old(self).sorts,
            final(self).sorts == *final(sorts),
            final(self).predicate == old(self).predicate,
    {
        &mut self.sorts
    }

    /// The text that displays the annotation: `#type`, the predicate and
    /// the names of the domains, separated by commas, in brackets
    pub fn to_string(&self) -> (text: String)
        ensures
            text@ == type_annotation_text(self.predicate@, self.sorts@),
    {
        let ghost names = self.sorts@.map_values(|d: ValueDomain| domain_name(d));
        let mut text = String::new();
        text.append("#type ");
        text.append(self.predicate.name());
        text.append(" ( ");
        let ghost head = text@;
        let n = self.sorts.len();
        let mut i: usize = 0;
        assert(names.take(0) =~= Seq::<Seq<char>>::empty());
        while i < n
            invariant
                n == self.sorts@.len(),
                names == self.sorts@.map_values(|d: ValueDomain| domain_name(d)),
                0 <= i <= n,
                text@ == head + comma_joined(names.take(i as int)),
            decreases n - i,
        {
            let ghost before = text@;
            if i > 0 {
                text.append(", ");
            }
            text.append(self.sorts[i].name());
            proof {
                let t = names.take(i + 1);
                assert(t.drop_last() =~= names.take(i as int));
                assert(t.last() == domain_name(self.sorts@[i as int]));
                if i == 0 {
                    assert(t.len() == 1);
                    assert(text@ =~= head + comma_joined(t));
                } else {
                    assert(text@ =~= head + comma_joined(t));
                }
            }
            i = i + 1;
        }
        assert(names.take(n as int) =~= names);
        text.append(").");
        text
    }

    /// Validate the annotation; every type annotation is accepted.
    pub fn validate(&self) -> (r: Result<(), super::validation::ValidationError>)
        ensures
            r is Ok,
    {
        Ok(())
    }
}

} // verus!
