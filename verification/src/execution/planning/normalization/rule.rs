//! This module defines [NormalizedRule].

use vstd::prelude::*;

use crate::rule_model::components::tag::{Tag, TagIndexSet};
use crate::rule_model::components::term::{push_unique, variable_names};
use crate::rule_model::components::variable::{Primitive, PrimitiveView, Variable};

use super::atom::{BodyAtom, HeadAtom};
use super::operation::{collect_operation_list_variables, operation_list_variables, Operation};
use super::rule_annotation::NormalizedRuleAnnotation;

verus! {

/// The set of names of the variables of a sequence of body atoms.
pub open spec fn body_atoms_variables(atoms: Seq<BodyAtom>) -> Set<Seq<char>>
    decreases atoms.len(),
{
    if atoms.len() == 0 {
        Set::empty()
    } else {
        body_atoms_variables(atoms.drop_last()).union(variable_names(atoms.last().terms@).to_set())
    }
}

/// The set of names of the variables among a sequence of primitives.
pub open spec fn primitives_variables(terms: Seq<Primitive>) -> Set<Seq<char>>
    decreases terms.len(),
{
    if terms.len() == 0 {
        Set::empty()
    } else {
        let rest = primitives_variables(terms.drop_last());
        match terms.last()@ {
            PrimitiveView::Variable(name) => rest.insert(name),
            PrimitiveView::Ground(_) => rest,
        }
    }
}

/// The set of names of the variables of a sequence of head atoms.
pub open spec fn head_atoms_variables(atoms: Seq<HeadAtom>) -> Set<Seq<char>>
    decreases atoms.len(),
{
    if atoms.len() == 0 {
        Set::empty()
    } else {
        head_atoms_variables(atoms.drop_last()).union(primitives_variables(atoms.last().terms@))
    }
}

/// The predicates with their arities of a sequence of body atoms.
pub open spec fn body_predicates(atoms: Seq<BodyAtom>) -> Set<(Seq<char>, usize)>
    decreases atoms.len(),
{
    if atoms.len() == 0 {
        Set::empty()
    } else {
        body_predicates(atoms.drop_last()).insert((atoms.last().predicate@, atoms.last().terms@.len() as usize))
    }
}

/// The predicates with their arities of a sequence of head atoms.
pub open spec fn head_predicates(atoms: Seq<HeadAtom>) -> Set<(Seq<char>, usize)>
    decreases atoms.len(),
{
    if atoms.len() == 0 {
        Set::empty()
    } else {
        head_predicates(atoms.drop_last()).insert((atoms.last().predicate@, atoms.last().terms@.len() as usize))
    }
}

/// A normalized rule.
#[derive(Debug)]
pub struct NormalizedRule {
    /// Identifier of the rule
    pub id: usize,
    /// The head atoms
    pub head: Vec<HeadAtom>,
    /// The positive body atoms
    pub positive: Vec<BodyAtom>,
    /// The negated body atoms
    pub negative: Vec<BodyAtom>,
    /// The operations (filters and assignments) of the body
    pub operations: Vec<Operation>,
    /// The annotations of the rule
    pub annotations: Vec<NormalizedRuleAnnotation>,
}

impl NormalizedRule {
    /// Whether the rule has a head, which the analyses inspect.
    pub open spec fn has_head(&self) -> bool {
        self.head@.len() > 0
    }

    /// The set of names of the variables of the rule.
    pub open spec fn spec_variables(&self) -> Set<Seq<char>> {
        body_atoms_variables(self.positive@).union(body_atoms_variables(self.negative@)).union(
            head_atoms_variables(self.head@)).union(operation_list_variables(self.operations@))
    }

    /// Whether a predicate of the head occurs in the positive body.
    pub open spec fn spec_is_recursive(&self) -> bool {
        exists|i: int, j: int|
            0 <= i < self.head@.len() && 0 <= j < self.positive@.len() && self.head@[i].predicate@
                == self.positive@[j].predicate@
    }

    /// Create a new [NormalizedRule].
    pub fn new(
        id: usize,
        head: Vec<HeadAtom>,
        positive: Vec<BodyAtom>,
        negative: Vec<BodyAtom>,
        operations: Vec<Operation>,
        annotations: Vec<NormalizedRuleAnnotation>,
    ) -> (rule: Self)
        ensures
            rule.id == id,
            rule.head == head,
            rule.positive == positive,
            rule.negative == negative,
            rule.operations == operations,
            rule.annotations == annotations,
    {
        NormalizedRule { id, head, positive, negative, operations, annotations }
    }

    /// Return the identifier of the rule
    pub fn id(&self) -> (id: usize)
        ensures
            id == self.id,
    {
        self.id
    }

    /// Return the head atoms
    pub fn head(&self) -> (head: &Vec<HeadAtom>)
        ensures
            head == &self.head,
    {
        &self.head
    }

    /// Return the positive body atoms
    pub fn positive(&self) -> (positive: &Vec<BodyAtom>)
        ensures
            positive == &self.positive,
    {
        &self.positive
    }

    /// Return the negated body atoms
    pub fn negative(&self) -> (negative: &Vec<BodyAtom>)
        ensures
            negative == &self.negative,
    {
        &self.negative
    }

    /// Return the operations of the body
    pub fn operations(&self) -> (operations: &Vec<Operation>)
        ensures
            operations == &self.operations,
    {
        &self.operations
    }

    /// Return the annotations of the rule
    pub fn annotations(&self) -> (annotations: &Vec<NormalizedRuleAnnotation>)
        ensures
            annotations == &self.annotations,
    {
        &self.annotations
    }

    /// Returns true if a predicate of the head occurs in the positive body
    pub fn is_recursive(&self) -> (r: bool)
        ensures
            r == self.spec_is_recursive(),
    {
        let nh = self.head.len();
        let np = self.positive.len();
        let mut i: usize = 0;
        while i < nh
            invariant
                nh == self.head@.len(),
                np == self.positive@.len(),
                0 <= i <= nh,
                forall|a: int, b: int| 0 <= a < i && 0 <= b < np ==> self.head@[a].predicate@ != self.positive@[b].predicate@,
            decreases nh - i,
        {
            let mut j: usize = 0;
            while j < np
                invariant
                    nh == self.head@.len(),
                    np == self.positive@.len(),
                    0 <= i < nh,
                    0 <= j <= np,
                    forall|b: int| 0 <= b < j ==> self.head@[i as int].predicate@ != self.positive@[b].predicate@,
                decreases np - j,
            {
                if self.head[i].predicate == self.positive[j].predicate {
                    return true;
                }
                j = j + 1;
            }
            i = i + 1;
        }
        false
    }

    /// Return the distinct variables of the rule
    pub fn variables(&self) -> (vars: Vec<Variable>)
        ensures
            variable_names(vars@).no_duplicates(),
            variable_names(vars@).to_set() == self.spec_variables(),
    {
        let mut vars: Vec<Variable> = Vec::new();
        assert(variable_names(vars@).to_set() =~= Set::<Seq<char>>::empty());
        collect_body_atoms_variables(&self.positive, &mut vars);
        collect_body_atoms_variables(&self.negative, &mut vars);
        collect_head_atoms_variables(&self.head, &mut vars);
        collect_operation_list_variables(&self.operations, &mut vars);
        assert(variable_names(vars@).to_set() =~= self.spec_variables());
        vars
    }

    /// Return the predicates with their arities of the positive body
    pub fn predicates_positive(&self) -> (preds: TagIndexSet)
        ensures
            preds@ == body_predicates(self.positive@),
    {
        let mut preds = TagIndexSet::new();
        add_body_predicates(&self.positive, &mut preds);
        assert(preds@ =~= body_predicates(self.positive@));
        preds
    }

    /// Return the predicates with their arities of the head
    pub fn predicates_head(&self) -> (preds: TagIndexSet)
        ensures
            preds@ == head_predicates(self.head@),
    {
        let mut preds = TagIndexSet::new();
        add_head_predicates(&self.head, &mut preds);
        assert(preds@ =~= head_predicates(self.head@));
        preds
    }

    /// Return the predicates with their arities of the rule
    pub fn predicates(&self) -> (preds: TagIndexSet)
        ensures
            preds@ == head_predicates(self.head@).union(body_predicates(self.positive@)).union(
                body_predicates(self.negative@)),
    {
        let mut preds = TagIndexSet::new();
        add_head_predicates(&self.head, &mut preds);
        add_body_predicates(&self.positive, &mut preds);
        add_body_predicates(&self.negative, &mut preds);
        assert(preds@ =~= head_predicates(self.head@).union(body_predicates(self.positive@)).union(
                body_predicates(self.negative@)));
        preds
    }
}

/// Add the predicates with their arities of body atoms to `preds`.
pub fn add_body_predicates(atoms: &Vec<BodyAtom>, preds: &mut TagIndexSet)
    ensures
        final(preds)@ == old(preds)@.union(body_predicates(atoms@)),
{
    let n = atoms.len();
    let mut i: usize = 0;
    while i < n
        invariant
            n == atoms@.len(),
            0 <= i <= n,
            preds@ == old(preds)@.union(body_predicates(atoms@.take(i as int))),
        decreases n - i,
    {
        assert(atoms@.take(i + 1).drop_last() =~= atoms@.take(i as int));
        preds.insert(atoms[i].predicate(), atoms[i].arity());
        i = i + 1;
        assert(preds@ =~= old(preds)@.union(body_predicates(atoms@.take(i as int))));
    }
    assert(atoms@.take(n as int) =~= atoms@);
}

/// Add the predicates with their arities of head atoms to `preds`.
pub fn add_head_predicates(atoms: &Vec<HeadAtom>, preds: &mut TagIndexSet)
    ensures
        final(preds)@ == old(preds)@.union(head_predicates(atoms@)),
{
    let n = atoms.len();
    let mut i: usize = 0;
    while i < n
        invariant
            n == atoms@.len(),
            0 <= i <= n,
            preds@ == old(preds)@.union(head_predicates(atoms@.take(i as int))),
        decreases n - i,
    {
        assert(atoms@.take(i + 1).drop_last() =~= atoms@.take(i as int));
        preds.insert(atoms[i].predicate(), atoms[i].arity());
        i = i + 1;
        assert(preds@ =~= old(preds)@.union(head_predicates(atoms@.take(i as int))));
    }
    assert(atoms@.take(n as int) =~= atoms@);
}

/// Add the variables of body atoms to `vars`, skipping names already present.
pub fn collect_body_atoms_variables(atoms: &Vec<BodyAtom>, vars: &mut Vec<Variable>)
    requires
        variable_names(old(vars)@).no_duplicates(),
    ensures
        variable_names(final(vars)@).no_duplicates(),
        variable_names(final(vars)@).to_set() == variable_names(old(vars)@).to_set().union(body_atoms_variables(atoms@)),
{
    let n = atoms.len();
    let mut i: usize = 0;
    assert(variable_names(vars@).to_set() =~= variable_names(old(vars)@).to_set().union(body_atoms_variables(atoms@.take(0))));
    while i < n
        invariant
            n == atoms@.len(),
            0 <= i <= n,
            variable_names(vars@).no_duplicates(),
            variable_names(vars@).to_set() == variable_names(old(vars)@).to_set().union(body_atoms_variables(atoms@.take(i as int))),
        decreases n - i,
    {
        let terms = &atoms[i].terms;
        let m = terms.len();
        let mut j: usize = 0;
        let ghost start = variable_names(vars@).to_set();
        assert(variable_names(terms@.take(0)).to_set() =~= Set::<Seq<char>>::empty());
        while j < m
            invariant
                m == terms@.len(),
                0 <= j <= m,
                variable_names(vars@).no_duplicates(),
                variable_names(vars@).to_set() == start.union(variable_names(terms@.take(j as int)).to_set()),
            decreases m - j,
        {
            push_unique(vars, &terms[j]);
            j = j + 1;
            assert(variable_names(terms@.take(j as int)) =~= variable_names(terms@.take(j - 1)).push(terms@[j - 1]@));
            proof { broadcast use vstd::seq_lib::group_seq_properties; }
            assert(variable_names(vars@).to_set() =~= start.union(variable_names(terms@.take(j as int)).to_set()));
        }
        assert(terms@.take(m as int) =~= terms@);
        assert(atoms@.take(i + 1).drop_last() =~= atoms@.take(i as int));
        i = i + 1;
        assert(variable_names(vars@).to_set() =~= variable_names(old(vars)@).to_set().union(body_atoms_variables(atoms@.take(i as int))));
    }
    assert(atoms@.take(n as int) =~= atoms@);
}

/// Add the variables of head atoms to `vars`, skipping names already present.
pub fn collect_head_atoms_variables(atoms: &Vec<HeadAtom>, vars: &mut Vec<Variable>)
    requires
        variable_names(old(vars)@).no_duplicates(),
    ensures
        variable_names(final(vars)@).no_duplicates(),
        variable_names(final(vars)@).to_set() == variable_names(old(vars)@).to_set().union(head_atoms_variables(atoms@)),
{
    let n = atoms.len();
    let mut i: usize = 0;
    assert(variable_names(vars@).to_set() =~= variable_names(old(vars)@).to_set().union(head_atoms_variables(atoms@.take(0))));
    while i < n
        invariant
            n == atoms@.len(),
            0 <= i <= n,
            variable_names(vars@).no_duplicates(),
            variable_names(vars@).to_set() == variable_names(old(vars)@).to_set().union(head_atoms_variables(atoms@.take(i as int))),
        decreases n - i,
    {
        let terms = &atoms[i].terms;
        let m = terms.len();
        let mut j: usize = 0;
        let ghost start = variable_names(vars@).to_set();
        assert(primitives_variables(terms@.take(0)) =~= Set::<Seq<char>>::empty());
        assert(start =~= start.union(primitives_variables(terms@.take(0))));
        while j < m
            invariant
                m == terms@.len(),
                0 <= j <= m,
                variable_names(vars@).no_duplicates(),
                variable_names(vars@).to_set() == start.union(primitives_variables(terms@.take(j as int))),
            decreases m - j,
        {
            let ghost before = variable_names(vars@).to_set();
            match &terms[j] {
                Primitive::Variable(v) => push_unique(vars, v),
                Primitive::Ground(_) => {},
            }
            j = j + 1;
            assert(terms@.take(j as int).drop_last() =~= terms@.take(j - 1));
            assert(variable_names(vars@).to_set() =~= start.union(primitives_variables(terms@.take(j as int))));
        }
        assert(terms@.take(m as int) =~= terms@);
        assert(atoms@.take(i + 1).drop_last() =~= atoms@.take(i as int));
        i = i + 1;
        assert(variable_names(vars@).to_set() =~= variable_names(old(vars)@).to_set().union(head_atoms_variables(atoms@.take(i as int))));
    }
    assert(atoms@.take(n as int) =~= atoms@);
}

} // verus!
