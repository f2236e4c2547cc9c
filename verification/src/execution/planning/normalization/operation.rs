//! This module defines the normalized [Operation].

use vstd::prelude::*;

use crate::rule_model::components::operation_kind::OperationKind;
use crate::rule_model::components::term::{push_unique, variable_names, Term};
use crate::rule_model::components::variable::{GroundTerm, Primitive, PrimitiveView, Variable};

verus! {

/// A normalized operation: a primitive, or an operation applied to operations.
#[derive(Debug)]
pub enum Operation {
    /// Primitive term
    Primitive(Primitive),
    /// Operation applied to subterms
    Operation {
        /// The kind of the operation
        kind: OperationKind,
        /// The arguments of the operation
        subterms: Vec<Operation>,
    },
}

/// The set of names of the variables occurring in an operation.
pub open spec fn operation_variables(op: Operation) -> Set<Seq<char>>
    decreases op,
{
    match op {
        Operation::Primitive(p) => match p@ {
            PrimitiveView::Variable(name) => set![name],
            PrimitiveView::Ground(_) => Set::empty(),
        },
        Operation::Operation { kind: _, subterms } => operation_list_variables(subterms@),
    }
}

/// The set of names of the variables occurring in a sequence of operations.
pub open spec fn operation_list_variables(ops: Seq<Operation>) -> Set<Seq<char>>
    decreases ops,
{
    if ops.len() == 0 {
        Set::empty()
    } else {
        operation_list_variables(ops.drop_last()).union(operation_variables(ops.last()))
    }
}

/// The names of the variables of an operation, every occurrence, from left
/// to right.
pub open spec fn operation_occurrences(op: Operation) -> Seq<Seq<char>>
    decreases op,
{
    match op {
        Operation::Primitive(p) => match p@ {
            PrimitiveView::Variable(name) => seq![name],
            PrimitiveView::Ground(_) => Seq::empty(),
        },
        Operation::Operation { kind: _, subterms } => operation_list_occurrences(subterms@),
    }
}

/// The names of the variables of the operations, every occurrence, in order.
pub open spec fn operation_list_occurrences(ops: Seq<Operation>) -> Seq<Seq<char>>
    decreases ops,
{
    if ops.len() == 0 {
        Seq::empty()
    } else {
        operation_list_occurrences(ops.drop_last()) + operation_occurrences(ops.last())
    }
}

/// Whether `op` is the normalization of the rule model term `term`: both
/// have the same shape, the same kinds and the same primitives.
pub open spec fn normalizes(term: Term, op: Operation) -> bool
    decreases term,
{
    match (term, op) {
        (Term::Primitive(p), Operation::Primitive(q)) => p@ == q@,
        (Term::Operation(k, ts), Operation::Operation { kind, subterms }) => {
            &&& k == kind
            &&& ts.len() == subterms.len()
            &&& forall|i: int| 0 <= i < ts.len() ==> normalizes(#[trigger] ts@[i], subterms@[i])
        },
        _ => false,
    }
}

/// The variable bounded from above by a comparison between a variable and a
/// ground value, if the operation is such a comparison.
pub open spec fn upper_bounded_variable(op: Operation) -> Option<Seq<char>> {
    match op {
        Operation::Operation { kind, subterms } => if subterms.len() == 2 {
            match (subterms@[0], subterms@[1]) {
                (Operation::Primitive(Primitive::Variable(v)), Operation::Primitive(Primitive::Ground(_))) =>
                    if kind == OperationKind::NumericLessthan || kind == OperationKind::NumericLessthaneq
                        || kind == OperationKind::Equal { Some(v@) } else { None },
                (Operation::Primitive(Primitive::Ground(_)), Operation::Primitive(Primitive::Variable(v))) =>
                    if kind == OperationKind::NumericGreaterthan || kind == OperationKind::NumericGreaterthaneq
                        || kind == OperationKind::Equal { Some(v@) } else { None },
                _ => None,
            }
        } else {
            None
        },
        _ => None,
    }
}

/// The variable bounded from below by a comparison between a variable and a
/// ground value, if the operation is such a comparison.
pub open spec fn lower_bounded_variable(op: Operation) -> Option<Seq<char>> {
    match op {
        Operation::Operation { kind, subterms } => if subterms.len() == 2 {
            match (subterms@[0], subterms@[1]) {
                (Operation::Primitive(Primitive::Variable(v)), Operation::Primitive(Primitive::Ground(_))) =>
                    if kind == OperationKind::NumericGreaterthan || kind == OperationKind::NumericGreaterthaneq
                        || kind == OperationKind::Equal { Some(v@) } else { None },
                (Operation::Primitive(Primitive::Ground(_)), Operation::Primitive(Primitive::Variable(v))) =>
                    if kind == OperationKind::NumericLessthan || kind == OperationKind::NumericLessthaneq
                        || kind == OperationKind::Equal { Some(v@) } else { None },
                _ => None,
            }
        } else {
            None
        },
        _ => None,
    }
}

impl Operation {
    /// Appends every occurrence of a variable in this operation, from left to right.
    pub fn collect_occurrences(&self, vars: &mut Vec<Variable>)
        ensures
            variable_names(final(vars)@) == variable_names(old(vars)@) + operation_occurrences(*self),
        decreases self,
    {
        match self {
            Operation::Primitive(Primitive::Variable(v)) => {
                vars.push(v.clone());
                assert(variable_names(vars@) =~= variable_names(old(vars)@) + operation_occurrences(*self));
            },
            Operation::Primitive(Primitive::Ground(_)) => {
                assert(variable_names(vars@) =~= variable_names(old(vars)@) + operation_occurrences(*self));
            },
            Operation::Operation { kind: _, subterms } => {
                let n = subterms.len();
                let mut i: usize = 0;
                assert(variable_names(vars@) =~= variable_names(old(vars)@) + operation_list_occurrences(subterms@.take(0)));
                while i < n
                    invariant
                        n == subterms.len(),
                        0 <= i <= n,
                        *self is Operation,
                        (*self)->subterms == *subterms,
                        variable_names(vars@) == variable_names(old(vars)@) + operation_list_occurrences(subterms@.take(i as int)),
                    decreases n - i,
                {
                    assert(subterms@.take(i + 1).drop_last() =~= subterms@.take(i as int));
                    proof {
                        assert(decreases_to!(*self => (*self)->subterms));
                        assert(decreases_to!(*subterms => subterms@));
                        assert(decreases_to!(subterms@ => subterms@[i as int]));
                    }
                    subterms[i].collect_occurrences(vars);
                    i = i + 1;
                    assert(variable_names(vars@) =~= variable_names(old(vars)@) + operation_list_occurrences(subterms@.take(i as int)));
                }
                assert(subterms@.take(n as int) =~= subterms@);
            },
        }
    }

    /// Add the variables of this operation to `vars`, skipping names already present.
    pub fn collect_variables(&self, vars: &mut Vec<Variable>)
        requires
            variable_names(old(vars)@).no_duplicates(),
        ensures
            variable_names(final(vars)@).no_duplicates(),
            variable_names(final(vars)@).to_set() == variable_names(old(vars)@).to_set().union(
                operation_variables(*self),
            ),
        decreases self,
    {
        match self {
            Operation::Primitive(Primitive::Variable(v)) => {
                push_unique(vars, v);
                assert(variable_names(vars@).to_set() =~= variable_names(old(vars)@).to_set().union(
                    operation_variables(*self)));
            },
            Operation::Primitive(Primitive::Ground(_)) => {
                assert(variable_names(vars@).to_set() =~= variable_names(old(vars)@).to_set().union(
                    operation_variables(*self)));
            },
            Operation::Operation { kind: _, subterms } => {
                let n = subterms.len();
                let mut i: usize = 0;
                assert(variable_names(vars@).to_set() =~= variable_names(old(vars)@).to_set().union(
                    operation_list_variables(subterms@.take(0))));
                while i < n
                    invariant
                        n == subterms.len(),
                        0 <= i <= n,
                        *self is Operation,
                        (*self)->subterms == *subterms,
                        variable_names(vars@).no_duplicates(),
                        variable_names(vars@).to_set() == variable_names(old(vars)@).to_set().union(
                            operation_list_variables(subterms@.take(i as int)),
                        ),
                    decreases n - i,
                {
                    assert(subterms@.take(i + 1).drop_last() =~= subterms@.take(i as int));
                    proof {
                        assert(decreases_to!(*self => (*self)->subterms));
                        assert(decreases_to!(*subterms => subterms@));
                        assert(decreases_to!(subterms@ => subterms@[i as int]));
                    }
                    subterms[i].collect_variables(vars);
                    i = i + 1;
                    assert(variable_names(vars@).to_set() =~= variable_names(old(vars)@).to_set().union(
                        operation_list_variables(subterms@.take(i as int))));
                }
                assert(subterms@.take(n as int) =~= subterms@);
            },
        }
    }

    /// Return the distinct variables occurring in this operation.
    pub fn variables(&self) -> (vars: Vec<Variable>)
        ensures
            variable_names(vars@).no_duplicates(),
            variable_names(vars@).to_set() == operation_variables(*self),
    {
        let mut vars: Vec<Variable> = Vec::new();
        assert(variable_names(vars@).to_set() =~= Set::<Seq<char>>::empty());
        self.collect_variables(&mut vars);
        assert(variable_names(vars@).to_set() =~= operation_variables(*self));
        vars
    }

    /// Normalizes an operation of the rule model.
    pub fn normalize_body_operation(term: &Term) -> (op: Self)
        ensures
            normalizes(*term, op),
        decreases term,
    {
        match term {
            Term::Primitive(p) => Operation::Primitive(p.clone()),
            Term::Operation(kind, terms) => {
                let mut subterms: Vec<Operation> = Vec::new();
                let n = terms.len();
                let mut i: usize = 0;
                while i < n
                    invariant
                        n == terms.len(),
                        0 <= i <= n,
                        *term is Operation,
                        (*term)->1 == *terms,
                        subterms@.len() == i,
                        forall|j: int| 0 <= j < i ==> normalizes(#[trigger] terms@[j], subterms@[j]),
                    decreases n - i,
                {
                    proof {
                        assert(decreases_to!(*term => (*term)->1));
                        assert(decreases_to!(*terms => terms@));
                        assert(decreases_to!(terms@ => terms@[i as int]));
                    }
                    let op = Operation::normalize_body_operation(&terms[i]);
                    subterms.push(op);
                    i = i + 1;
                }
                Operation::Operation { kind: *kind, subterms }
            },
        }
    }

    /// Returns the variable that receives an upper bound, if the operation
    /// compares a variable with a ground value such that the variable is
    /// bounded from above.
    pub fn is_upper_bound(&self) -> (r: Option<&Variable>)
        ensures
            match r {
                Some(v) => upper_bounded_variable(*self) == Some(v@),
                None => upper_bounded_variable(*self) is None,
            },
    {
        match self {
            Operation::Operation { kind, subterms } => {
                if subterms.len() != 2 {
                    return None;
                }
                match (&subterms[0], &subterms[1]) {
                    (Operation::Primitive(Primitive::Variable(v)), Operation::Primitive(Primitive::Ground(_))) => {
                        if *kind == OperationKind::NumericLessthan || *kind == OperationKind::NumericLessthaneq
                            || *kind == OperationKind::Equal {
                            Some(v)
                        } else {
                            None
                        }
                    },
                    (Operation::Primitive(Primitive::Ground(_)), Operation::Primitive(Primitive::Variable(v))) => {
                        if *kind == OperationKind::NumericGreaterthan || *kind == OperationKind::NumericGreaterthaneq
                            || *kind == OperationKind::Equal {
                            Some(v)
                        } else {
                            None
                        }
                    },
                    _ => None,
                }
            },
            _ => None,
        }
    }

    /// Returns the variable that receives a lower bound, if the operation
    /// compares a variable with a ground value such that the variable is
    /// bounded from below.
    pub fn is_lower_bound(&self) -> (r: Option<&Variable>)
        ensures
            match r {
                Some(v) => lower_bounded_variable(*self) == Some(v@),
                None => lower_bounded_variable(*self) is None,
            },
    {
        match self {
            Operation::Operation { kind, subterms } => {
                if subterms.len() != 2 {
                    return None;
                }
                match (&subterms[0], &subterms[1]) {
                    (Operation::Primitive(Primitive::Variable(v)), Operation::Primitive(Primitive::Ground(_))) => {
                        if *kind == OperationKind::NumericGreaterthan || *kind == OperationKind::NumericGreaterthaneq
                            || *kind == OperationKind::Equal {
                            Some(v)
                        } else {
                            None
                        }
                    },
                    (Operation::Primitive(Primitive::Ground(_)), Operation::Primitive(Primitive::Variable(v))) => {
                        if *kind == OperationKind::NumericLessthan || *kind == OperationKind::NumericLessthaneq
                            || *kind == OperationKind::Equal {
                            Some(v)
                        } else {
                            None
                        }
                    },
                    _ => None,
                }
            },
            _ => None,
        }
    }
}

} // verus!

verus! {

/// Whether each operation of `ops` is the normalization of the corresponding
/// operation of the rule model.
pub open spec fn normalizes_operations(rule_ops: Seq<crate::rule_model::components::term::Operation>, ops: Seq<Operation>) -> bool {
    &&& rule_ops.len() == ops.len()
    &&& forall|i: int| 0 <= i < ops.len() ==> normalizes(
        Term::Operation(rule_ops[i].kind, rule_ops[i].subterms), #[trigger] ops[i])
}

/// Add the variables of a sequence of operations to `vars`, skipping names already present.
pub fn collect_operation_list_variables(ops: &Vec<Operation>, vars: &mut Vec<Variable>)
    requires
        variable_names(old(vars)@).no_duplicates(),
    ensures
        variable_names(final(vars)@).no_duplicates(),
        variable_names(final(vars)@).to_set() == variable_names(old(vars)@).to_set().union(
            operation_list_variables(ops@),
        ),
{
    let n = ops.len();
    let mut i: usize = 0;
    assert(variable_names(vars@).to_set() =~= variable_names(old(vars)@).to_set().union(
        operation_list_variables(ops@.take(0))));
    while i < n
        invariant
            n == ops.len(),
            0 <= i <= n,
            variable_names(vars@).no_duplicates(),
            variable_names(vars@).to_set() == variable_names(old(vars)@).to_set().union(
                operation_list_variables(ops@.take(i as int)),
            ),
        decreases n - i,
    {
        assert(ops@.take(i + 1).drop_last() =~= ops@.take(i as int));
        ops[i].collect_variables(vars);
        i = i + 1;
        assert(variable_names(vars@).to_set() =~= variable_names(old(vars)@).to_set().union(
            operation_list_variables(ops@.take(i as int))));
    }
    assert(ops@.take(n as int) =~= ops@);
}

impl Operation {
    /// Normalizes a sequence of operations of the rule model.
    pub fn normalize_operations(rule_ops: &Vec<crate::rule_model::components::term::Operation>) -> (ops: Vec<Operation>)
        ensures
            normalizes_operations(rule_ops@, ops@),
    {
        let mut ops: Vec<Operation> = Vec::new();
        let n = rule_ops.len();
        let mut i: usize = 0;
        while i < n
            invariant
                n == rule_ops@.len(),
                0 <= i <= n,
                ops@.len() == i,
                forall|j: int| 0 <= j < i ==> normalizes(
                    Term::Operation(rule_ops@[j].kind, rule_ops@[j].subterms), #[trigger] ops@[j]),
            decreases n - i,
        {
            let op = Self::normalize_rule_operation(&rule_ops[i]);
            ops.push(op);
            i = i + 1;
        }
        ops
    }

    /// Normalizes one operation of the rule model.
    pub fn normalize_rule_operation(rule_op: &crate::rule_model::components::term::Operation) -> (op: Operation)
        ensures
            normalizes(Term::Operation(rule_op.kind, rule_op.subterms), op),
    {
        let mut subterms: Vec<Operation> = Vec::new();
        let n = rule_op.subterms.len();
        let mut i: usize = 0;
        while i < n
            invariant
                n == rule_op.subterms@.len(),
                0 <= i <= n,
                subterms@.len() == i,
                forall|j: int| 0 <= j < i ==> normalizes(#[trigger] rule_op.subterms@[j], subterms@[j]),
            decreases n - i,
        {
            let op = Operation::normalize_body_operation(&rule_op.subterms[i]);
            subterms.push(op);
            i = i + 1;
        }
        let r = Operation::Operation { kind: rule_op.kind, subterms };
        assert(normalizes(Term::Operation(rule_op.kind, rule_op.subterms), r));
        r
    }
}

} // verus!
