//! This module defines the normalized atoms [BodyAtom], [HeadAtom] and [GroundAtom].

use vstd::prelude::*;

use crate::rule_model::components::atom::Atom;
use crate::rule_model::components::operation_kind::OperationKind;
use crate::rule_model::components::tag::Tag;
use crate::rule_model::components::term::{contains_variable, push_unique, variable_names, Term};
use crate::rule_model::components::variable::{GroundTerm, Primitive, PrimitiveView, Variable};

use super::generator::VariableGenerator;
use super::operation::{normalizes, Operation};

verus! {

/// Whether the term at position `i` is a variable that does not occur at an
/// earlier position.
pub open spec fn first_occurrence(terms: Seq<Term>, i: int) -> bool {
    match terms[i] {
        Term::Primitive(Primitive::Variable(v)) => forall|j: int|
            0 <= j < i ==> !(#[trigger] terms[j] matches Term::Primitive(Primitive::Variable(w)) && w@ == v@),
        _ => false,
    }
}

/// The name of a term that is a variable.
pub open spec fn term_variable_name(term: Term) -> Option<Seq<char>> {
    match term {
        Term::Primitive(Primitive::Variable(v)) => Some(v@),
        _ => None,
    }
}

/// Whether every term is a variable that occurs only once.
pub open spec fn distinct_variables(terms: Seq<Term>) -> bool {
    forall|i: int| 0 <= i < terms.len() ==> #[trigger] first_occurrence(terms, i)
}

/// An atom in the body of a normalized rule; its terms are variables.
#[derive(Debug)]
pub struct BodyAtom {
    /// The predicate of the atom
    pub predicate: Tag,
    /// The variables of the atom
    pub terms: Vec<Variable>,
}

/// An atom in the head of a normalized rule; its terms are primitives.
#[derive(Debug)]
pub struct HeadAtom {
    /// The predicate of the atom
    pub predicate: Tag,
    /// The primitive terms of the atom
    pub terms: Vec<Primitive>,
}

/// A fact; its terms are ground values.
#[derive(Debug)]
pub struct GroundAtom {
    /// The predicate of the atom
    pub predicate: Tag,
    /// The values of the atom
    pub terms: Vec<GroundTerm>,
}

impl BodyAtom {
    /// Create a new [BodyAtom].
    pub fn new(predicate: Tag, terms: Vec<Variable>) -> (atom: Self)
        ensures
            atom.predicate == predicate,
            atom.terms == terms,
    {
        BodyAtom { predicate, terms }
    }

    /// Return the predicate of the atom.
    pub fn predicate(&self) -> (tag: Tag)
        ensures
            tag@ == self.predicate@,
    {
        self.predicate.clone()
    }

    /// Return the variables of the atom.
    pub fn terms(&self) -> (terms: &Vec<Variable>)
        ensures
            terms == &self.terms,
    {
        &self.terms
    }

    /// Return the arity of the atom.
    pub fn arity(&self) -> (arity: usize)
        ensures
            arity == self.terms@.len(),
    {
        self.terms.len()
    }

    /// Normalizes an atom of the rule model: every term that is not the first
    /// occurrence of a variable is replaced by a fresh variable, together with
    /// an operation equating the fresh variable and the normalized term.
    pub fn normalize_atom(generator: &mut VariableGenerator, atom: &Atom) -> (r: (BodyAtom, Vec<Operation>))
        requires
            old(generator).counter + atom.terms@.len() < usize::MAX,
        ensures
            r.0.predicate@ == atom.predicate@,
            r.0.terms@.len() == atom.terms@.len(),
            forall|i: int| 0 <= i < atom.terms@.len() && #[trigger] first_occurrence(atom.terms@, i)
                ==> Some(r.0.terms@[i]@) == term_variable_name(atom.terms@[i]),
            forall|j: int| 0 <= j < r.1@.len() ==> (#[trigger] r.1@[j]) is Operation,
            r.1@.len() == 0 <==> distinct_variables(atom.terms@),
            final(generator).counter <= old(generator).counter + atom.terms@.len(),
    {
        let mut terms: Vec<Variable> = Vec::new();
        let mut ops: Vec<Operation> = Vec::new();
        let n = atom.terms.len();
        let mut i: usize = 0;
        while i < n
            invariant
                n == atom.terms@.len(),
                0 <= i <= n,
                terms@.len() == i,
                generator.counter <= old(generator).counter + i,
                old(generator).counter + n < usize::MAX,
                forall|k: int| 0 <= k < i && #[trigger] first_occurrence(atom.terms@, k)
                    ==> Some(terms@[k]@) == term_variable_name(atom.terms@[k]),
                forall|j: int| 0 <= j < ops@.len() ==> (#[trigger] ops@[j]) is Operation,
                (ops@.len() == 0) == (forall|k: int| 0 <= k < i ==> #[trigger] first_occurrence(atom.terms@, k)),
            decreases n - i,
        {
            let keep = match &atom.terms[i] {
                Term::Primitive(Primitive::Variable(v)) => !Self::occurs_before(&atom.terms, i, v),
                _ => false,
            };
            if keep {
                match &atom.terms[i] {
                    Term::Primitive(Primitive::Variable(v)) => terms.push(v.clone()),
                    _ => {},
                }
                assert(first_occurrence(atom.terms@, i as int));
            } else {
                let fresh = generator.fresh_variable();
                let defined = Operation::normalize_body_operation(&atom.terms[i]);
                let mut subterms: Vec<Operation> = Vec::new();
                subterms.push(Operation::Primitive(Primitive::Variable(fresh.clone())));
                subterms.push(defined);
                ops.push(Operation::Operation { kind: OperationKind::Equal, subterms });
                terms.push(fresh);
                assert(!first_occurrence(atom.terms@, i as int));
            }
            i = i + 1;
        }
        (BodyAtom { predicate: atom.predicate.clone(), terms }, ops)
    }

    /// Returns true if the variable `v` occurs among the first `i` terms.
    fn occurs_before(terms: &Vec<Term>, i: usize, v: &Variable) -> (r: bool)
        requires
            i <= terms@.len(),
        ensures
            r == exists|j: int| 0 <= j < i && (#[trigger] terms@[j] matches Term::Primitive(Primitive::Variable(w)) && w@ == v@),
    {
        let mut j: usize = 0;
        while j < i
            invariant
                i <= terms@.len(),
                0 <= j <= i,
                forall|k: int| 0 <= k < j ==> !(#[trigger] terms@[k] matches Term::Primitive(Primitive::Variable(w)) && w@ == v@),
            decreases i - j,
        {
            match &terms[j] {
                Term::Primitive(Primitive::Variable(w)) => {
                    if *w == *v {
                        return true;
                    }
                },
                _ => {},
            }
            j = j + 1;
        }
        false
    }
}

impl HeadAtom {
    /// Create a new [HeadAtom].
    pub fn new(predicate: Tag, terms: Vec<Primitive>) -> (atom: Self)
        ensures
            atom.predicate == predicate,
            atom.terms == terms,
    {
        HeadAtom { predicate, terms }
    }

    /// Return the predicate of the atom.
    pub fn predicate(&self) -> (tag: Tag)
        ensures
            tag@ == self.predicate@,
    {
        self.predicate.clone()
    }

    /// Return the primitive terms of the atom.
    pub fn terms(&self) -> (terms: &Vec<Primitive>)
        ensures
            terms == &self.terms,
    {
        &self.terms
    }

    /// Return the arity of the atom.
    pub fn arity(&self) -> (arity: usize)
        ensures
            arity == self.terms@.len(),
    {
        self.terms.len()
    }
}

impl GroundAtom {
    /// Create a new [GroundAtom].
    pub fn new(predicate: Tag, terms: Vec<GroundTerm>) -> (atom: Self)
        ensures
            atom.predicate == predicate,
            atom.terms == terms,
    {
        GroundAtom { predicate, terms }
    }

    /// Return the predicate of the atom.
    pub fn predicate(&self) -> (tag: Tag)
        ensures
            tag@ == self.predicate@,
    {
        self.predicate.clone()
    }

    /// Return the values of the atom.
    pub fn terms(&self) -> (terms: &Vec<GroundTerm>)
        ensures
            terms == &self.terms,
    {
        &self.terms
    }

    /// Return the arity of the atom.
    pub fn arity(&self) -> (arity: usize)
        ensures
            arity == self.terms@.len(),
    {
        self.terms.len()
    }
}

} // verus!
