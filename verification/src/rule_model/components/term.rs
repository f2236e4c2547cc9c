//! This module defines [Term] and [Operation], the terms of the rule model.

use vstd::prelude::*;

use super::operation_kind::OperationKind;
use super::variable::{Primitive, PrimitiveView, Variable};

verus! {

/// A term of the rule model: a primitive or an operation applied to terms.
#[derive(Debug)]
pub enum Term {
    /// Primitive term
    Primitive(Primitive),
    /// Operation applied to subterms
    Operation(OperationKind, Vec<Term>),
}

/// The names of a sequence of variables.
pub open spec fn variable_names(vars: Seq<Variable>) -> Seq<Seq<char>> {
    vars.map_values(|v: Variable| v@)
}

/// The set of names of the variables occurring in a term.
pub open spec fn term_variables(term: Term) -> Set<Seq<char>>
    decreases term,
{
    match term {
        Term::Primitive(p) => match p@ {
            PrimitiveView::Variable(name) => set![name],
            PrimitiveView::Ground(_) => Set::empty(),
        },
        Term::Operation(_, subterms) => terms_variables(subterms@),
    }
}

/// The set of names of the variables occurring in a sequence of terms.
pub open spec fn terms_variables(terms: Seq<Term>) -> Set<Seq<char>>
    decreases terms,
{
    if terms.len() == 0 {
        Set::empty()
    } else {
        terms_variables(terms.drop_last()).union(term_variables(terms.last()))
    }
}

/// Append `variable` to `vars` unless a variable of the same name is already there.
pub fn push_unique(vars: &mut Vec<Variable>, variable: &Variable)
    requires
        variable_names(old(vars)@).no_duplicates(),
    ensures
        variable_names(final(vars)@).no_duplicates(),
        variable_names(final(vars)@).to_set() == variable_names(old(vars)@).to_set().insert(variable@),
        variable_names(old(vars)@).contains(variable@) ==> final(vars)@ == old(vars)@,
{
    let n = vars.len();
    let mut i: usize = 0;
    while i < n
        invariant
            n == vars.len(),
            0 <= i <= n,
            vars@ == old(vars)@,
            variable_names(vars@).no_duplicates(),
            forall|j: int| 0 <= j < i ==> vars@[j]@ != variable@,
        decreases n - i,
    {
        if vars[i] == *variable {
            proof {
                assert(variable_names(vars@)[i as int] == variable@);
                assert(variable_names(vars@).to_set() == variable_names(vars@).to_set().insert(variable@));
            }
            return;
        }
        i = i + 1;
    }
    let ghost before = vars@;
    vars.push(variable.clone());
    proof {
        assert(variable_names(vars@) == variable_names(before).push(variable@));
        assert(!variable_names(before).contains(variable@)) by {
            if variable_names(before).contains(variable@) {
                let k = choose|k: int| 0 <= k < variable_names(before).len() && variable_names(before)[k] == variable@;
                assert(before[k]@ == variable@);
            }
        }
        broadcast use vstd::seq_lib::group_seq_properties;
        assert(variable_names(vars@).to_set() =~= variable_names(before).to_set().insert(variable@));
    }
}

impl Term {
    /// Add the variables of this term to `vars`, skipping names already present.
    pub fn collect_variables(&self, vars: &mut Vec<Variable>)
        requires
            variable_names(old(vars)@).no_duplicates(),
        ensures
            variable_names(final(vars)@).no_duplicates(),
            variable_names(final(vars)@).to_set() == variable_names(old(vars)@).to_set().union(
                term_variables(*self),
            ),
        decreases self,
    {
        match self {
            Term::Primitive(Primitive::Variable(v)) => {
                push_unique(vars, v);
                proof {
                    assert(variable_names(vars@).to_set() =~= variable_names(old(vars)@).to_set().union(term_variables(*self)));
                }
            },
            Term::Primitive(Primitive::Ground(_)) => {
                assert(variable_names(vars@).to_set() =~= variable_names(old(vars)@).to_set().union(term_variables(*self)));
            },
            Term::Operation(_, subterms) => {
                let n = subterms.len();
                let mut i: usize = 0;
                while i < n
                    invariant
                        n == subterms.len(),
                        0 <= i <= n,
                        *self is Operation,
                        (*self)->1 == *subterms,
                        variable_names(vars@).no_duplicates(),
                        variable_names(vars@).to_set() == variable_names(old(vars)@).to_set().union(
                            terms_variables(subterms@.take(i as int)),
                        ),
                    decreases n - i,
                {
                    assert(subterms@.take(i + 1).drop_last() =~= subterms@.take(i as int));
                    proof {
                        assert(decreases_to!(*self => (*self)->1));
                        assert(decreases_to!(*subterms => subterms@));
                        assert(decreases_to!(subterms@ => subterms@[i as int]));
                    }
                    subterms[i].collect_variables(vars);
                    i = i + 1;
                    proof {
                        assert(variable_names(vars@).to_set() =~= variable_names(old(vars)@).to_set().union(
                            terms_variables(subterms@.take(i as int))));
                    }
                }
                assert(subterms@.take(n as int) =~= subterms@);
            },
        }
    }

    /// Return the distinct variables occurring in this term.
    pub fn variables(&self) -> (vars: Vec<Variable>)
        ensures
            variable_names(vars@).no_duplicates(),
            variable_names(vars@).to_set() == term_variables(*self),
    {
        let mut vars: Vec<Variable> = Vec::new();
        proof {
            assert(variable_names(vars@).to_set() =~= Set::<Seq<char>>::empty());
        }
        self.collect_variables(&mut vars);
        assert(variable_names(vars@).to_set() =~= term_variables(*self));
        vars
    }
}

} // verus!

verus! {

/// An operation of the rule model: a kind applied to argument terms.
#[derive(Debug)]
pub struct Operation {
    /// The kind of the operation
    pub kind: OperationKind,
    /// The arguments of the operation
    pub subterms: Vec<Term>,
}

impl Operation {
    /// Create a new [Operation].
    pub fn new(kind: OperationKind, subterms: Vec<Term>) -> (op: Self)
        ensures
            op.kind == kind,
            op.subterms == subterms,
    {
        Operation { kind, subterms }
    }

    /// Return the kind of the operation.
    pub fn operation_kind(&self) -> (kind: OperationKind)
        ensures
            kind == self.kind,
    {
        self.kind
    }

    /// Return the arguments of the operation.
    pub fn subterms(&self) -> (subterms: &Vec<Term>)
        ensures
            subterms == &self.subterms,
    {
        &self.subterms
    }

    /// Add the variables of this operation to `vars`, skipping names already present.
    pub fn collect_variables(&self, vars: &mut Vec<Variable>)
        requires
            variable_names(old(vars)@).no_duplicates(),
        ensures
            variable_names(final(vars)@).no_duplicates(),
            variable_names(final(vars)@).to_set() == variable_names(old(vars)@).to_set().union(
                terms_variables(self.subterms@),
            ),
    {
        collect_terms_variables(&self.subterms, vars);
    }

    /// Return the distinct variables occurring in this operation.
    pub fn variables(&self) -> (vars: Vec<Variable>)
        ensures
            variable_names(vars@).no_duplicates(),
            variable_names(vars@).to_set() == terms_variables(self.subterms@),
    {
        let mut vars: Vec<Variable> = Vec::new();
        assert(variable_names(vars@).to_set() =~= Set::<Seq<char>>::empty());
        self.collect_variables(&mut vars);
        assert(variable_names(vars@).to_set() =~= terms_variables(self.subterms@));
        vars
    }
}

/// Add the variables of a sequence of terms to `vars`, skipping names already present.
pub fn collect_terms_variables(terms: &Vec<Term>, vars: &mut Vec<Variable>)
    requires
        variable_names(old(vars)@).no_duplicates(),
    ensures
        variable_names(final(vars)@).no_duplicates(),
        variable_names(final(vars)@).to_set() == variable_names(old(vars)@).to_set().union(
            terms_variables(terms@),
        ),
{
    let n = terms.len();
    let mut i: usize = 0;
    assert(variable_names(vars@).to_set() =~= variable_names(old(vars)@).to_set().union(
        terms_variables(terms@.take(0))));
    while i < n
        invariant
            n == terms.len(),
            0 <= i <= n,
            variable_names(vars@).no_duplicates(),
            variable_names(vars@).to_set() == variable_names(old(vars)@).to_set().union(
                terms_variables(terms@.take(i as int)),
            ),
        decreases n - i,
    {
        assert(terms@.take(i + 1).drop_last() =~= terms@.take(i as int));
        terms[i].collect_variables(vars);
        i = i + 1;
        assert(variable_names(vars@).to_set() =~= variable_names(old(vars)@).to_set().union(
            terms_variables(terms@.take(i as int))));
    }
    assert(terms@.take(n as int) =~= terms@);
}

} // verus!

verus! {

/// The set of names of the variables occurring in a sequence of operations.
pub open spec fn operations_variables(ops: Seq<Operation>) -> Set<Seq<char>>
    decreases ops.len(),
{
    if ops.len() == 0 {
        Set::empty()
    } else {
        operations_variables(ops.drop_last()).union(terms_variables(ops.last().subterms@))
    }
}

/// Return the distinct variables occurring in a sequence of operations.
pub fn operations_variable_list(ops: &Vec<Operation>) -> (vars: Vec<Variable>)
    ensures
        variable_names(vars@).no_duplicates(),
        variable_names(vars@).to_set() == operations_variables(ops@),
{
    let mut vars: Vec<Variable> = Vec::new();
    let n = ops.len();
    let mut i: usize = 0;
    assert(variable_names(vars@).to_set() =~= operations_variables(ops@.take(0)));
    while i < n
        invariant
            n == ops.len(),
            0 <= i <= n,
            variable_names(vars@).no_duplicates(),
            variable_names(vars@).to_set() == operations_variables(ops@.take(i as int)),
        decreases n - i,
    {
        assert(ops@.take(i + 1).drop_last() =~= ops@.take(i as int));
        ops[i].collect_variables(&mut vars);
        i = i + 1;
    }
    assert(ops@.take(n as int) =~= ops@);
    vars
}

/// Return true if a variable of the same name occurs in `vars`.
pub fn contains_variable(vars: &Vec<Variable>, variable: &Variable) -> (r: bool)
    ensures
        r == variable_names(vars@).contains(variable@),
{
    let n = vars.len();
    let mut i: usize = 0;
    while i < n
        invariant
            n == vars.len(),
            0 <= i <= n,
            forall|j: int| 0 <= j < i ==> vars@[j]@ != variable@,
        decreases n - i,
    {
        if vars[i] == *variable {
            assert(variable_names(vars@)[i as int] == variable@);
            return true;
        }
        i = i + 1;
    }
    proof {
        if variable_names(vars@).contains(variable@) {
            let k = choose|k: int| 0 <= k < variable_names(vars@).len() && variable_names(vars@)[k] == variable@;
            assert(vars@[k]@ == variable@);
        }
    }
    false
}

} // verus!
