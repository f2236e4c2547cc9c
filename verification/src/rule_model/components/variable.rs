//! This module defines [Variable] and [GroundTerm], the primitive terms of rules.

use vstd::prelude::*;
use vstd::std_specs::cmp::PartialEqSpecImpl;

verus! {

/// A named universal variable.
#[derive(Debug)]
pub struct Variable {
    name: String,
}

impl View for Variable {
    type V = Seq<char>;

    closed spec fn view(&self) -> Seq<char> {
        self.name@
    }
}

impl Variable {
    /// Create a new universal variable with the given name.
    pub fn universal(name: &str) -> (variable: Self)
        ensures
            variable@ == name@,
    {
        Variable { name: name.to_owned() }
    }

    /// Return the name of the variable.
    pub fn name(&self) -> (name: &str)
        ensures
            name@ == self@,
    {
        self.name.as_str()
    }
}

impl Clone for Variable {
    fn clone(&self) -> (variable: Self)
        ensures
            variable@ == self@,
    {
        Variable { name: self.name.clone() }
    }
}

impl PartialEq for Variable {
    fn eq(&self, other: &Self) -> (r: bool) {
        self.name == other.name
    }
}

impl PartialEqSpecImpl for Variable {
    open spec fn obeys_eq_spec() -> bool {
        true
    }

    open spec fn eq_spec(&self, other: &Variable) -> bool {
        self@ == other@
    }
}

/// A ground value; the analyses treat every ground value as an integer.
#[derive(Debug, Clone, Copy, PartialEq, Eq, Structural)]
pub struct GroundTerm {
    value: i64,
}

impl GroundTerm {
    /// Create a ground term holding the given integer.
    pub fn new(value: i64) -> (term: Self)
        ensures
            term.spec_value() == value,
    {
        GroundTerm { value }
    }

    /// The integer held by the ground term.
    pub closed spec fn spec_value(&self) -> i64 {
        self.value
    }

    /// Return the integer held by this ground term.
    #[verifier::when_used_as_spec(spec_value)]
    pub fn value(&self) -> (value: i64)
        ensures
            value == self.spec_value(),
    {
        self.value
    }
}

/// The view of a [Primitive].
pub enum PrimitiveView {
    /// A variable, given by its name.
    Variable(Seq<char>),
    /// A ground value.
    Ground(i64),
}

/// Primitive term: a variable or a ground value.
#[derive(Debug)]
pub enum Primitive {
    /// Variable
    Variable(Variable),
    /// Ground value
    Ground(GroundTerm),
}

impl View for Primitive {
    type V = PrimitiveView;

    open spec fn view(&self) -> PrimitiveView {
        match self {
            Primitive::Variable(v) => PrimitiveView::Variable(v@),
            Primitive::Ground(g) => PrimitiveView::Ground(g.spec_value()),
        }
    }
}

impl Clone for Primitive {
    fn clone(&self) -> (p: Self)
        ensures
            p@ == self@,
    {
        match self {
            Primitive::Variable(v) => Primitive::Variable(v.clone()),
            Primitive::Ground(g) => Primitive::Ground(*g),
        }
    }
}

impl PartialEq for Primitive {
    fn eq(&self, other: &Self) -> (r: bool) {
        match (self, other) {
            (Primitive::Variable(a), Primitive::Variable(b)) => a == b,
            (Primitive::Ground(a), Primitive::Ground(b)) => a.value() == b.value(),
            _ => false,
        }
    }
}

impl PartialEqSpecImpl for Primitive {
    open spec fn obeys_eq_spec() -> bool {
        true
    }

    open spec fn eq_spec(&self, other: &Primitive) -> bool {
        self@ == other@
    }
}

impl Primitive {
    /// Return true if this primitive is the given variable.
    pub fn is_variable(&self, variable: &Variable) -> (r: bool)
        ensures
            r == (self@ == PrimitiveView::Variable(variable@)),
    {
        match self {
            Primitive::Variable(v) => v == variable,
            Primitive::Ground(_) => false,
        }
    }
}

} // verus!
