//! Defines [EdbAnalyzer], which finds the predicate positions that only hold
//! values of the extensional database.

use vstd::prelude::*;

use crate::execution::planning::normalization::atom::{BodyAtom, HeadAtom};
use crate::execution::planning::normalization::program::{
    contains_tag, facts_predicates, head_atom_tags, rules_head_predicates, rules_predicates, tag_views,
    NormalizedProgram,
};
use crate::execution::planning::normalization::operation::{operation_variables, Operation};
use crate::execution::planning::normalization::rule::NormalizedRule;
use crate::rule_model::components::operation_kind::OperationKind;
use crate::rule_model::components::tag::TagIndexSet;
use crate::rule_model::components::term::{push_unique, variable_names};
use crate::rule_model::components::variable::{Primitive, Variable};

use crate::execution::planning::normalization::generator::decimal;

use super::annotation_analysis::graph_algorithms::partitions;
use super::annotation_analysis::rule_selection::{below, RuleAnalysisGraph};
use super::smt::append_decimal;

verus! {

/// A set of predicate positions, each a predicate name and an index.
pub type Positions = Set<(Seq<char>, usize)>;

/// Whether the operation may assign a new value to a variable: an equality
/// that is not between two primitives.
pub open spec fn critical(op: Operation) -> bool {
    match op {
        Operation::Operation { kind, subterms } => kind == OperationKind::Equal
            && !(subterms@[0] is Primitive && subterms@[1] is Primitive),
        _ => false,
    }
}

/// Only an equality can be critical, and an equality is critical exactly
/// when one of its two sides is not a primitive, whichever side that is:
/// swapping the sides keeps the answer.
pub proof fn lemma_critical_equality(o1: Operation, o2: Operation)
    requires
        well_formed_equality(o1),
        well_formed_equality(o2),
    ensures
        critical(o1) ==> o1 is Operation && o1->kind == OperationKind::Equal,
        o1 is Operation && o1->kind == OperationKind::Equal ==> (critical(o1) <==> (!(o1->subterms@[0] is Primitive)
            || !(o1->subterms@[1] is Primitive))),
        o1 is Operation && o2 is Operation && o1->kind == OperationKind::Equal && o2->kind == OperationKind::Equal
            && o1->subterms@[0] == o2->subterms@[1] && o1->subterms@[1] == o2->subterms@[0] ==> critical(o1) == critical(o2),
{
}

/// Whether an equality operation has the two sides that it compares.
pub open spec fn well_formed_equality(op: Operation) -> bool {
    match op {
        Operation::Operation { kind, subterms } => kind == OperationKind::Equal ==> subterms@.len() >= 2,
        _ => true,
    }
}

/// Whether the variable named `v` occurs in some atom at a position of `positions`.
pub open spec fn occurs_at(atoms: Seq<BodyAtom>, v: Seq<char>, positions: Positions) -> bool {
    exists|b: int, j: int| 0 <= b < atoms.len() && 0 <= j < atoms[b].terms@.len()
        && (#[trigger] atoms[b].terms@[j])@ == v && positions.contains((atoms[b].predicate@, j as usize))
}

/// Whether the variable named `v` occurs in a critical operation.
pub open spec fn in_critical_operation(ops: Seq<Operation>, v: Seq<char>) -> bool {
    exists|k: int| 0 <= k < ops.len() && operation_variables(#[trigger] ops[k]).contains(v) && critical(ops[k])
}

/// The position `i` of the first head atom of the rule.
pub open spec fn head_position(rule: NormalizedRule, i: int) -> (Seq<char>, usize) {
    (rule.head@[0].predicate@, i as usize)
}

/// One step of the propagation through a rule: the update of the edb
/// positions, the rejected positions and the change flag at position `i` of
/// the first head atom, where `rejected_before` are the positions rejected
/// when the propagation through the rule started.
pub open spec fn propagation_step(
    rule: NormalizedRule,
    rejected_before: Positions,
    state: (Positions, Positions, bool),
    i: int,
) -> (Positions, Positions, bool) {
    let pos = head_position(rule, i);
    let (edb, rejected, delta) = state;
    if rejected_before.contains(pos) {
        state
    } else {
        match rule.head@[0].terms@[i] {
            Primitive::Variable(v) => if occurs_at(rule.positive@, v@, edb) {
                (edb.insert(pos), rejected, delta || !edb.contains(pos))
            } else if occurs_at(rule.positive@, v@, rejected) || in_critical_operation(rule.operations@, v@) {
                (edb.remove(pos), rejected.insert(pos), delta || !rejected.contains(pos))
            } else {
                state
            },
            Primitive::Ground(_) => (edb.insert(pos), rejected, delta || !edb.contains(pos)),
        }
    }
}

/// The propagation through the first `n` positions of the first head atom.
pub open spec fn propagation(
    rule: NormalizedRule,
    rejected_before: Positions,
    state: (Positions, Positions, bool),
    n: nat,
) -> (Positions, Positions, bool)
    decreases n,
{
    if n == 0 {
        state
    } else {
        propagation_step(rule, rejected_before, propagation(rule, rejected_before, state, (n - 1) as nat), n - 1)
    }
}

/// The propagation of edb positions through the whole first head atom.
pub open spec fn propagate(rule: NormalizedRule, edb: Positions, rejected: Positions) -> (Positions, Positions, bool) {
    propagation(rule, rejected, (edb, rejected, false), rule.head@[0].terms@.len())
}

/// Whether the rule can be analyzed: it has a head and each of its
/// equalities compares two sides.
pub open spec fn analyzable_rule(rule: NormalizedRule) -> bool {
    &&& rule.head@.len() > 0
    &&& forall|k: int| 0 <= k < rule.operations@.len() ==> well_formed_equality(#[trigger] rule.operations@[k])
}


/// Whether the position changed from neither edb nor rejected to one of
/// them, or from not rejected to rejected.
pub open spec fn position_changed(e0: Positions, r0: Positions, e: Positions, r: Positions, pos: (Seq<char>, usize)) -> bool {
    ||| !r0.contains(pos) && r.contains(pos)
    ||| !e0.union(r0).contains(pos) && e.union(r).contains(pos)
}

/// The positions of the first head atom of the rule.
pub open spec fn rule_head_positions(rule: NormalizedRule) -> Positions {
    below(rule.head@[0].terms@.len()).map(|i: usize| (rule.head@[0].predicate@, i))
}

/// The positions of the first head atoms of the rules.
pub open spec fn all_head_positions(rules: Seq<NormalizedRule>) -> Positions
    decreases rules.len(),
{
    if rules.len() == 0 {
        Set::empty()
    } else {
        all_head_positions(rules.drop_last()).union(rule_head_positions(rules.last()))
    }
}

/// A measure of the positions of `all` that may still change: those not
/// rejected, and those neither edb nor rejected.
pub open spec fn potential(all: Positions, edb: Positions, rejected: Positions) -> nat {
    all.difference(rejected).len() + all.difference(edb.union(rejected)).len()
}

proof fn lemma_all_head_positions(rules: Seq<NormalizedRule>)
    ensures
        all_head_positions(rules).finite(),
        forall|k: int| 0 <= k < rules.len() ==> rule_head_positions(#[trigger] rules[k]).subset_of(all_head_positions(rules)),
    decreases rules.len(),
{
    broadcast use vstd::set::group_set_axioms;
    if rules.len() > 0 {
        lemma_all_head_positions(rules.drop_last());
        let last = rules.last();
        broadcast use vstd::set_lib::full_set_properties;
        assert(Set::<usize>::full().finite());
        assert(below(last.head@[0].terms@.len()).subset_of(Set::<usize>::full()));
        vstd::set_lib::lemma_set_subset_finite(Set::<usize>::full(), below(last.head@[0].terms@.len()));
        below(last.head@[0].terms@.len()).lemma_map_finite(|i: usize| (last.head@[0].predicate@, i));
        assert forall|k: int| 0 <= k < rules.len() implies rule_head_positions(#[trigger] rules[k]).subset_of(all_head_positions(rules)) by {
            if k < rules.len() - 1 {
                assert(rules[k] == rules.drop_last()[k]);
            }
        }
    }
}

proof fn lemma_in_rule_head_positions(rule: NormalizedRule, i: int)
    requires
        0 <= i < rule.head@[0].terms@.len(),
    ensures
        rule_head_positions(rule).contains(head_position(rule, i)),
{
    let f = |j: usize| (rule.head@[0].predicate@, j);
    assert(below(rule.head@[0].terms@.len()).contains(i as usize));
    assert(f(i as usize) == head_position(rule, i));
}

/// The propagation through a rule never unrejects a position, never turns an
/// edb or rejected position into neither, leaves the positions it has not
/// reached unchanged, and reports a change only where a position changed.
proof fn lemma_propagation(rule: NormalizedRule, e0: Positions, r0: Positions, k: nat)
    requires
        rule.head@.len() > 0,
        k <= rule.head@[0].terms@.len(),
    ensures
        r0.subset_of(propagation(rule, r0, (e0, r0, false), k).1),
        e0.union(r0).subset_of(propagation(rule, r0, (e0, r0, false), k).0.union(propagation(rule, r0, (e0, r0, false), k).1)),
        forall|i: int| k <= i < rule.head@[0].terms@.len() ==>
            (propagation(rule, r0, (e0, r0, false), k).0.contains(#[trigger] head_position(rule, i)) == e0.contains(head_position(rule, i))
            && propagation(rule, r0, (e0, r0, false), k).1.contains(head_position(rule, i)) == r0.contains(head_position(rule, i))),
        propagation(rule, r0, (e0, r0, false), k).2 ==> exists|i: int| 0 <= i < k && #[trigger] position_changed(e0, r0,
            propagation(rule, r0, (e0, r0, false), k).0, propagation(rule, r0, (e0, r0, false), k).1, head_position(rule, i)),
    decreases k,
{
    broadcast use vstd::set::group_set_axioms;
    broadcast use vstd::std_specs::vec::axiom_spec_len;
    assert(rule.head@[0].terms.len() == rule.head@[0].terms@.len());
    if k > 0 {
        lemma_propagation(rule, e0, r0, (k - 1) as nat);
        let prev = propagation(rule, r0, (e0, r0, false), (k - 1) as nat);
        let cur = propagation(rule, r0, (e0, r0, false), k);
        let pos = head_position(rule, k - 1);
        assert(cur == propagation_step(rule, r0, prev, k - 1));
        assert forall|i: int| k <= i < rule.head@[0].terms@.len() implies
            (cur.0.contains(#[trigger] head_position(rule, i)) == e0.contains(head_position(rule, i))
            && cur.1.contains(head_position(rule, i)) == r0.contains(head_position(rule, i))) by {
            assert(head_position(rule, i) != pos);
            assert(prev.0.contains(head_position(rule, i)) == e0.contains(head_position(rule, i)));
        }
        assert(prev.0.contains(pos) == e0.contains(pos) && prev.1.contains(pos) == r0.contains(pos)) by {
            assert(k - 1 < rule.head@[0].terms@.len());
        }
        if cur.2 {
            if prev.2 {
                let i = choose|i: int| 0 <= i < k - 1 && #[trigger] position_changed(e0, r0, prev.0, prev.1, head_position(rule, i));
                assert(position_changed(e0, r0, cur.0, cur.1, head_position(rule, i)));
            } else {
                assert(position_changed(e0, r0, cur.0, cur.1, pos));
            }
        }
    }
}

/// A propagation that reports no change leaves both sets as they were.
proof fn lemma_propagation_unchanged(rule: NormalizedRule, e0: Positions, r0: Positions, k: nat)
    requires
        rule.head@.len() > 0,
        k <= rule.head@[0].terms@.len(),
    ensures
        !propagation(rule, r0, (e0, r0, false), k).2 ==> propagation(rule, r0, (e0, r0, false), k).0 == e0
            && propagation(rule, r0, (e0, r0, false), k).1 == r0,
    decreases k,
{
    if k > 0 {
        lemma_propagation_unchanged(rule, e0, r0, (k - 1) as nat);
        let prev = propagation(rule, r0, (e0, r0, false), (k - 1) as nat);
        let cur = propagation(rule, r0, (e0, r0, false), k);
        let pos = head_position(rule, k - 1);
        if !cur.2 {
            assert(!prev.2);
            if prev.0.contains(pos) {
                assert(prev.0.insert(pos) =~= prev.0);
            }
        }
    }
}

/// Growing the rejected positions and the positions that are edb or
/// rejected lowers the potential, strictly where a position of `all` changed.
proof fn lemma_potential(all: Positions, e0: Positions, r0: Positions, e: Positions, r: Positions)
    requires
        all.finite(),
        r0.subset_of(r),
        e0.union(r0).subset_of(e.union(r)),
    ensures
        potential(all, e, r) <= potential(all, e0, r0),
        (exists|pos: (Seq<char>, usize)| all.contains(pos) && #[trigger] position_changed(e0, r0, e, r, pos))
            ==> potential(all, e, r) < potential(all, e0, r0),
{
    broadcast use vstd::set::group_set_axioms;
    let a1 = all.difference(r0);
    let b1 = all.difference(r);
    let a2 = all.difference(e0.union(r0));
    let b2 = all.difference(e.union(r));
    assert(b1.subset_of(a1));
    assert(b2.subset_of(a2));
    vstd::set_lib::lemma_len_subset(b1, a1);
    vstd::set_lib::lemma_len_subset(b2, a2);
    if exists|pos: (Seq<char>, usize)| all.contains(pos) && #[trigger] position_changed(e0, r0, e, r, pos) {
        let pos = choose|pos: (Seq<char>, usize)| all.contains(pos) && #[trigger] position_changed(e0, r0, e, r, pos);
        if !r0.contains(pos) && r.contains(pos) {
            assert(b1.subset_of(a1.remove(pos)));
            vstd::set_lib::lemma_len_subset(b1, a1.remove(pos));
        } else {
            assert(b2.subset_of(a2.remove(pos)));
            vstd::set_lib::lemma_len_subset(b2, a2.remove(pos));
        }
    }
}

/// The propagation through a rule of the program lowers the potential of the
/// head positions of the program, strictly if it reports a change.
proof fn lemma_propagate_potential(rules: Seq<NormalizedRule>, k: int, e: Positions, r: Positions)
    requires
        0 <= k < rules.len(),
        rules[k].head@.len() > 0,
    ensures
        potential(all_head_positions(rules), propagate(rules[k], e, r).0, propagate(rules[k], e, r).1)
            <= potential(all_head_positions(rules), e, r),
        propagate(rules[k], e, r).2 ==> potential(all_head_positions(rules), propagate(rules[k], e, r).0, propagate(rules[k], e, r).1)
            < potential(all_head_positions(rules), e, r),
{
    let rule = rules[k];
    let n = rule.head@[0].terms@.len();
    let res = propagate(rule, e, r);
    lemma_propagation(rule, e, r, n);
    lemma_all_head_positions(rules);
    if res.2 {
        let i = choose|i: int| 0 <= i < n && #[trigger] position_changed(e, r, res.0, res.1, head_position(rule, i));
        lemma_in_rule_head_positions(rule, i);
        assert(all_head_positions(rules).contains(head_position(rule, i)));
    }
    lemma_potential(all_head_positions(rules), e, r, res.0, res.1);
}

/// One round of propagation through the rules of a component: the change
/// flag tells whether some rule reported a change.
pub open spec fn scc_round(rules: Seq<NormalizedRule>, scc: Seq<usize>, edb: Positions, rejected: Positions) -> (Positions, Positions, bool)
    decreases scc.len(),
{
    if scc.len() == 0 {
        (edb, rejected, false)
    } else {
        let prev = scc_round(rules, scc.drop_last(), edb, rejected);
        let next = propagate(rules[scc.last() as int], prev.0, prev.1);
        (next.0, next.1, prev.2 || next.2)
    }
}

/// The rounds of propagation through a component, repeated until a whole
/// round changes neither set. (A change always lowers the potential, which the
/// condition on it states for the sake of termination.)
pub open spec fn scc_closure(rules: Seq<NormalizedRule>, scc: Seq<usize>, edb: Positions, rejected: Positions) -> (Positions, Positions)
    decreases potential(all_head_positions(rules), edb, rejected),
{
    let next = scc_round(rules, scc, edb, rejected);
    if next.2 && potential(all_head_positions(rules), next.0, next.1) < potential(all_head_positions(rules), edb, rejected) {
        scc_closure(rules, scc, next.0, next.1)
    } else {
        (next.0, next.1)
    }
}

/// The closures of the components, one after the other.
pub open spec fn sccs_closure(rules: Seq<NormalizedRule>, sccs: Seq<Vec<usize>>, edb: Positions, rejected: Positions) -> (Positions, Positions)
    decreases sccs.len(),
{
    if sccs.len() == 0 {
        (edb, rejected)
    } else {
        let prev = sccs_closure(rules, sccs.drop_last(), edb, rejected);
        scc_closure(rules, sccs.last()@, prev.0, prev.1)
    }
}

/// The closures of components read only the components' index sequences.
pub proof fn lemma_sccs_closure_views(rules: Seq<NormalizedRule>, s1: Seq<Vec<usize>>, s2: Seq<Vec<usize>>, edb: Positions,
    rejected: Positions)
    requires
        s1.len() == s2.len(),
        forall|i: int| 0 <= i < s1.len() ==> (#[trigger] s1[i])@ == s2[i]@,
    ensures
        sccs_closure(rules, s1, edb, rejected) == sccs_closure(rules, s2, edb, rejected),
    decreases s1.len(),
{
    if s1.len() > 0 {
        lemma_sccs_closure_views(rules, s1.drop_last(), s2.drop_last(), edb, rejected);
        assert(s1.last()@ == s2.last()@);
    }
}

/// Propagation through a rule changes only positions of the predicate of
/// its first head atom.
proof fn lemma_propagation_frame(rule: NormalizedRule, rejected_before: Positions, state: (Positions, Positions, bool), n: nat,
    pos: (Seq<char>, usize))
    requires
        pos.0 != rule.head@[0].predicate@,
    ensures
        propagation(rule, rejected_before, state, n).0.contains(pos) == state.0.contains(pos),
        propagation(rule, rejected_before, state, n).1.contains(pos) == state.1.contains(pos),
    decreases n,
{
    if n > 0 {
        lemma_propagation_frame(rule, rejected_before, state, (n - 1) as nat, pos);
        assert(head_position(rule, n - 1) != pos);
    }
}

/// A round through a component changes only positions of the predicates of
/// the first head atoms of its rules.
proof fn lemma_scc_round_frame(rules: Seq<NormalizedRule>, scc: Seq<usize>, edb: Positions, rejected: Positions,
    pos: (Seq<char>, usize))
    requires
        forall|k: int| 0 <= k < scc.len() ==> pos.0 != rules[#[trigger] scc[k] as int].head@[0].predicate@,
    ensures
        scc_round(rules, scc, edb, rejected).0.contains(pos) == edb.contains(pos),
        scc_round(rules, scc, edb, rejected).1.contains(pos) == rejected.contains(pos),
    decreases scc.len(),
{
    if scc.len() > 0 {
        lemma_scc_round_frame(rules, scc.drop_last(), edb, rejected, pos);
        let prev = scc_round(rules, scc.drop_last(), edb, rejected);
        assert(pos.0 != rules[scc[scc.len() - 1] as int].head@[0].predicate@);
        let rule = rules[scc.last() as int];
        lemma_propagation_frame(rule, prev.1, (prev.0, prev.1, false), rule.head@[0].terms@.len(), pos);
    }
}

/// The closure of a component changes only positions of the predicates of
/// the first head atoms of its rules.
proof fn lemma_scc_closure_frame(rules: Seq<NormalizedRule>, scc: Seq<usize>, edb: Positions, rejected: Positions,
    pos: (Seq<char>, usize))
    requires
        forall|k: int| 0 <= k < scc.len() ==> pos.0 != rules[#[trigger] scc[k] as int].head@[0].predicate@,
    ensures
        scc_closure(rules, scc, edb, rejected).0.contains(pos) == edb.contains(pos),
        scc_closure(rules, scc, edb, rejected).1.contains(pos) == rejected.contains(pos),
    decreases potential(all_head_positions(rules), edb, rejected),
{
    let next = scc_round(rules, scc, edb, rejected);
    lemma_scc_round_frame(rules, scc, edb, rejected, pos);
    if next.2 && potential(all_head_positions(rules), next.0, next.1) < potential(all_head_positions(rules), edb, rejected) {
        lemma_scc_closure_frame(rules, scc, next.0, next.1, pos);
    }
}

/// The closures of components change only positions of the predicates of
/// the first head atoms of their rules.
proof fn lemma_sccs_closure_frame(rules: Seq<NormalizedRule>, sccs: Seq<Vec<usize>>, edb: Positions, rejected: Positions,
    pos: (Seq<char>, usize))
    requires
        forall|c: int, k: int| 0 <= c < sccs.len() && 0 <= k < sccs[c]@.len() ==> pos.0
            != rules[#[trigger] sccs[c]@[k] as int].head@[0].predicate@,
    ensures
        sccs_closure(rules, sccs, edb, rejected).0.contains(pos) == edb.contains(pos),
        sccs_closure(rules, sccs, edb, rejected).1.contains(pos) == rejected.contains(pos),
    decreases sccs.len(),
{
    if sccs.len() > 0 {
        lemma_sccs_closure_frame(rules, sccs.drop_last(), edb, rejected, pos);
        let prev = sccs_closure(rules, sccs.drop_last(), edb, rejected);
        let last = sccs.last()@;
        assert forall|k: int| 0 <= k < last.len() implies pos.0 != rules[#[trigger] last[k] as int].head@[0].predicate@ by {
            assert(sccs[sccs.len() - 1]@[k] == last[k]);
        }
        lemma_scc_closure_frame(rules, last, prev.0, prev.1, pos);
    }
}

/// The predicate of the first head atom of a rule is a head predicate.
proof fn lemma_rule_head_predicate(rules: Seq<NormalizedRule>, r: int)
    requires
        0 <= r < rules.len(),
        rules[r].head@.len() > 0,
    ensures
        rules_head_predicates(rules).contains(rules[r].head@[0].predicate@),
    decreases rules.len(),
{
    if r < rules.len() - 1 {
        lemma_rule_head_predicate(rules.drop_last(), r);
        assert(rules.drop_last()[r] == rules[r]);
    } else {
        lemma_head_atom_tag(rules[r].head@, 0);
    }
}

/// The predicate of a head atom is among the tags of the head.
proof fn lemma_head_atom_tag(head: Seq<HeadAtom>, h: int)
    requires
        0 <= h < head.len(),
    ensures
        head_atom_tags(head).contains(head[h].predicate@),
    decreases head.len(),
{
    if h < head.len() - 1 {
        lemma_head_atom_tag(head.drop_last(), h);
        assert(head.drop_last()[h] == head[h]);
    }
}

/// The edb analysis never rejects a position of a predicate that occurs in
/// no rule head: every such position of the program stays an edb position.
pub proof fn lemma_initial_positions_stay(program: NormalizedProgram, sccs: Seq<Vec<usize>>)
    requires
        analyzable_program(program),
        sccs_within(sccs, program.rules@.len()),
    ensures
        initial_edb_positions(program).subset_of(edb_analysis(program, sccs)),
{
    let rules = program.rules@;
    assert forall|pos: (Seq<char>, usize)| initial_edb_positions(program).contains(pos) implies
        edb_analysis(program, sccs).contains(pos) by {
        assert forall|c: int, k: int| 0 <= c < sccs.len() && 0 <= k < sccs[c]@.len() implies pos.0
            != rules[#[trigger] sccs[c]@[k] as int].head@[0].predicate@ by {
            let r = sccs[c]@[k] as int;
            assert(analyzable_rule(rules[r]));
            lemma_rule_head_predicate(rules, r);
        }
        lemma_sccs_closure_frame(rules, sccs, initial_edb_positions(program), Set::empty(), pos);
    }
}

/// The positions of the first `n` places of the rule's first head atom.
pub open spec fn head_positions_below(rule: NormalizedRule, n: nat) -> Positions {
    Set::new(|p: (Seq<char>, usize)| exists|j: int| 0 <= j < n && p == #[trigger] head_position(rule, j))
}

/// Propagation through a rule keeps the edb positions apart from the
/// rejected ones, and rejects only positions of its first head atom.
proof fn lemma_propagation_disjoint(rule: NormalizedRule, edb: Positions, rejected: Positions, n: nat)
    requires
        edb.disjoint(rejected),
        n <= rule.head@[0].terms@.len(),
    ensures
        propagation(rule, rejected, (edb, rejected, false), n).0.disjoint(propagation(rule, rejected, (edb, rejected, false), n).1),
        propagation(rule, rejected, (edb, rejected, false), n).1.subset_of(rejected.union(head_positions_below(rule, n))),
    decreases n,
{
    if n > 0 {
        lemma_propagation_disjoint(rule, edb, rejected, (n - 1) as nat);
        let prev = propagation(rule, rejected, (edb, rejected, false), (n - 1) as nat);
        let pos = head_position(rule, n - 1);
        if !rejected.contains(pos) {
            assert(!head_positions_below(rule, (n - 1) as nat).contains(pos)) by {
                if head_positions_below(rule, (n - 1) as nat).contains(pos) {
                    let j = choose|j: int| 0 <= j < n - 1 && pos == #[trigger] head_position(rule, j);
                    vstd::std_specs::vec::axiom_spec_len(&rule.head@[0].terms);
                    assert(n <= usize::MAX);
                    assert(j as usize == j);
                    assert((n - 1) as usize == n - 1);
                }
            }
            assert(!prev.1.contains(pos));
        }
        let next = propagation(rule, rejected, (edb, rejected, false), n);
        assert(next.1.subset_of(rejected.union(head_positions_below(rule, n)))) by {
            assert forall|p: (Seq<char>, usize)| next.1.contains(p) implies rejected.union(head_positions_below(rule, n)).contains(p) by {
                if p != pos {
                    assert(prev.1.contains(p));
                    if head_positions_below(rule, (n - 1) as nat).contains(p) {
                        let j = choose|j: int| 0 <= j < n - 1 && p == #[trigger] head_position(rule, j);
                        assert(head_positions_below(rule, n).contains(p));
                    }
                } else {
                    assert(head_positions_below(rule, n).contains(head_position(rule, n - 1)));
                }
            }
        }
    }
}

/// A round through a component keeps the edb positions apart from the
/// rejected ones.
proof fn lemma_scc_round_disjoint(rules: Seq<NormalizedRule>, scc: Seq<usize>, edb: Positions, rejected: Positions)
    requires
        edb.disjoint(rejected),
        forall|k: int| 0 <= k < scc.len() ==> (#[trigger] rules[scc[k] as int]).head@.len() > 0,
    ensures
        scc_round(rules, scc, edb, rejected).0.disjoint(scc_round(rules, scc, edb, rejected).1),
    decreases scc.len(),
{
    if scc.len() > 0 {
        lemma_scc_round_disjoint(rules, scc.drop_last(), edb, rejected);
        let prev = scc_round(rules, scc.drop_last(), edb, rejected);
        assert(rules[scc[scc.len() - 1] as int].head@.len() > 0);
        let rule = rules[scc.last() as int];
        lemma_propagation_disjoint(rule, prev.0, prev.1, rule.head@[0].terms@.len());
    }
}

/// The closure of a component keeps the edb positions apart from the
/// rejected ones.
proof fn lemma_scc_closure_disjoint(rules: Seq<NormalizedRule>, scc: Seq<usize>, edb: Positions, rejected: Positions)
    requires
        edb.disjoint(rejected),
        forall|k: int| 0 <= k < scc.len() ==> (#[trigger] rules[scc[k] as int]).head@.len() > 0,
    ensures
        scc_closure(rules, scc, edb, rejected).0.disjoint(scc_closure(rules, scc, edb, rejected).1),
    decreases potential(all_head_positions(rules), edb, rejected),
{
    let next = scc_round(rules, scc, edb, rejected);
    lemma_scc_round_disjoint(rules, scc, edb, rejected);
    if next.2 && potential(all_head_positions(rules), next.0, next.1) < potential(all_head_positions(rules), edb, rejected) {
        lemma_scc_closure_disjoint(rules, scc, next.0, next.1);
    }
}

/// The edb analysis never counts a position as both an edb position and a
/// rejected one.
pub proof fn lemma_sccs_closure_disjoint(rules: Seq<NormalizedRule>, sccs: Seq<Vec<usize>>, edb: Positions, rejected: Positions)
    requires
        edb.disjoint(rejected),
        forall|c: int, k: int| 0 <= c < sccs.len() && 0 <= k < sccs[c]@.len() ==> (#[trigger] rules[sccs[c]@[k] as int]).head@.len() > 0,
    ensures
        sccs_closure(rules, sccs, edb, rejected).0.disjoint(sccs_closure(rules, sccs, edb, rejected).1),
    decreases sccs.len(),
{
    if sccs.len() > 0 {
        lemma_sccs_closure_disjoint(rules, sccs.drop_last(), edb, rejected);
        let prev = sccs_closure(rules, sccs.drop_last(), edb, rejected);
        let last = sccs.last()@;
        assert forall|k: int| 0 <= k < last.len() implies (#[trigger] rules[last[k] as int]).head@.len() > 0 by {
            assert(sccs[sccs.len() - 1]@[k] == last[k]);
        }
        lemma_scc_closure_disjoint(rules, last, prev.0, prev.1);
    }
}

/// The positions of the predicates that occur in no rule head.
pub open spec fn initial_edb_positions(program: NormalizedProgram) -> Positions {
    Set::new(|p: (Seq<char>, usize)| exists|arity: usize|
        #[trigger] program_predicates(program).contains((p.0, arity)) && !rules_head_predicates(program.rules@).contains(p.0) && p.1 < arity)
}

/// The predicates with their arities occurring in the rules and facts.
pub open spec fn program_predicates(program: NormalizedProgram) -> Set<(Seq<char>, usize)> {
    rules_predicates(program.rules@).union(facts_predicates(program.facts@))
}

/// Whether every rule of the program can be analyzed.
pub open spec fn analyzable_program(program: NormalizedProgram) -> bool {
    forall|k: int| 0 <= k < program.rules@.len() ==> analyzable_rule(#[trigger] program.rules@[k])
}

/// Whether the components list indices of rules of the program.
pub open spec fn sccs_within(sccs: Seq<Vec<usize>>, n: nat) -> bool {
    forall|c: int, k: int| 0 <= c < sccs.len() && 0 <= k < sccs[c]@.len() ==> #[trigger] sccs[c]@[k] < n
}

/// The edb positions of the program: the positions of the predicates that
/// occur in no rule head, propagated through the components in their order.
pub open spec fn edb_analysis(program: NormalizedProgram, sccs: Seq<Vec<usize>>) -> Positions {
    sccs_closure(program.rules@, sccs, initial_edb_positions(program), Set::empty()).0
}


/// A round of propagation through a component lowers the potential,
/// strictly if it reports a change.
proof fn lemma_scc_round_potential(rules: Seq<NormalizedRule>, scc: Seq<usize>, e: Positions, r: Positions)
    requires
        forall|j: int| 0 <= j < scc.len() ==> #[trigger] scc[j] < rules.len(),
        forall|k: int| 0 <= k < rules.len() ==> (#[trigger] rules[k]).head@.len() > 0,
    ensures
        potential(all_head_positions(rules), scc_round(rules, scc, e, r).0, scc_round(rules, scc, e, r).1)
            <= potential(all_head_positions(rules), e, r),
        scc_round(rules, scc, e, r).2 ==> potential(all_head_positions(rules), scc_round(rules, scc, e, r).0,
            scc_round(rules, scc, e, r).1) < potential(all_head_positions(rules), e, r),
    decreases scc.len(),
{
    if scc.len() > 0 {
        let prev = scc_round(rules, scc.drop_last(), e, r);
        lemma_scc_round_potential(rules, scc.drop_last(), e, r);
        assert(scc.last() < rules.len());
        lemma_propagate_potential(rules, scc.last() as int, prev.0, prev.1);
    }
}

/// The positions of the predicates of the first `k` entries that are not
/// among the derived predicates.
pub open spec fn initial_positions(entries: Seq<(Seq<char>, usize)>, derived: Set<Seq<char>>) -> Positions {
    Set::new(|p: (Seq<char>, usize)| exists|j: int|
        0 <= j < entries.len() && (#[trigger] entries[j]).0 == p.0 && !derived.contains(p.0) && p.1 < entries[j].1)
}


/// The names of the variables that occur in some atom at a position of `positions`.
pub open spec fn variables_at(atoms: Seq<BodyAtom>, positions: Positions) -> Set<Seq<char>> {
    Set::new(|v: Seq<char>| occurs_at(atoms, v, positions))
}

/// The listing of positions: each as its predicate and its index in
/// brackets, followed by a comma.
pub open spec fn positions_text(entries: Seq<(Seq<char>, usize)>) -> Seq<char>
    decreases entries.len(),
{
    if entries.len() == 0 {
        Seq::empty()
    } else {
        positions_text(entries.drop_last()) + "("@ + entries.last().0 + ", "@ + decimal(entries.last().1 as nat) + "), "@
    }
}

/// Tool to check which predicate positions contain only edb values
#[derive(Debug)]
pub struct EdbAnalyzer {
    /// The positions that only hold values of the extensional database
    pub edb_positions: TagIndexSet,
}

/// Returns true if a variable named like `v` occurs in some atom at a
/// position of `positions`.
fn occurs_in_positions(atoms: &Vec<BodyAtom>, v: &Variable, positions: &TagIndexSet) -> (r: bool)
    ensures
        r == occurs_at(atoms@, v@, positions@),
{
    let n = atoms.len();
    let mut b: usize = 0;
    while b < n
        invariant
            n == atoms@.len(),
            0 <= b <= n,
            forall|x: int, j: int| 0 <= x < b && 0 <= j < atoms@[x].terms@.len() && (#[trigger] atoms@[x].terms@[j])@ == v@
                ==> !positions@.contains((atoms@[x].predicate@, j as usize)),
        decreases n - b,
    {
        let atom = &atoms[b];
        let m = atom.terms.len();
        let mut j: usize = 0;
        while j < m
            invariant
                n == atoms@.len(),
                0 <= b < n,
                atom == &atoms@[b as int],
                m == atom.terms@.len(),
                0 <= j <= m,
                forall|y: int| 0 <= y < j && (#[trigger] atom.terms@[y])@ == v@
                    ==> !positions@.contains((atom.predicate@, y as usize)),
            decreases m - j,
        {
            if atom.terms[j] == *v && positions.contains(&atom.predicate, j) {
                assert(atoms@[b as int].terms@[j as int]@ == v@);
                return true;
            }
            j = j + 1;
        }
        b = b + 1;
    }
    false
}

/// Returns true if a variable named like `v` occurs in a critical operation.
fn occurs_in_critical_operation(ops: &Vec<Operation>, v: &Variable) -> (r: bool)
    requires
        forall|k: int| 0 <= k < ops@.len() ==> well_formed_equality(#[trigger] ops@[k]),
    ensures
        r == in_critical_operation(ops@, v@),
{
    let n = ops.len();
    let mut k: usize = 0;
    while k < n
        invariant
            n == ops@.len(),
            0 <= k <= n,
            forall|x: int| 0 <= x < n ==> well_formed_equality(#[trigger] ops@[x]),
            forall|x: int| 0 <= x < k ==> !(operation_variables(#[trigger] ops@[x]).contains(v@) && critical(ops@[x])),
        decreases n - k,
    {
        let vars = ops[k].variables();
        let m = vars.len();
        let mut found = false;
        let mut j: usize = 0;
        while j < m
            invariant
                m == vars@.len(),
                0 <= j <= m,
                found == exists|y: int| 0 <= y < j && (#[trigger] vars@[y])@ == v@,
            decreases m - j,
        {
            if vars[j] == *v {
                found = true;
            }
            j = j + 1;
        }
        proof {
            assert(found == variable_names(vars@).contains(v@)) by {
                if found {
                    let y = choose|y: int| 0 <= y < m && (#[trigger] vars@[y])@ == v@;
                    assert(variable_names(vars@)[y] == v@);
                }
                if variable_names(vars@).contains(v@) {
                    let y = choose|y: int| 0 <= y < variable_names(vars@).len() && variable_names(vars@)[y] == v@;
                    assert(vars@[y]@ == v@);
                }
            }
            assert(variable_names(vars@).contains(v@) == variable_names(vars@).to_set().contains(v@));
        }
        if found && EdbAnalyzer::critical_operation(&ops[k]) {
            return true;
        }
        k = k + 1;
    }
    false
}

impl EdbAnalyzer {
    /// Propagate the ebd positions through the rule
    /// returns true if something changed
    pub fn propagate_positions(
        edb_positions: &mut TagIndexSet,
        rejected_positions: &mut TagIndexSet,
        rule: &NormalizedRule,
    ) -> (delta: bool)
        requires
            analyzable_rule(*rule),
        ensures
            final(edb_positions)@ == propagate(*rule, old(edb_positions)@, old(rejected_positions)@).0,
            final(rejected_positions)@ == propagate(*rule, old(edb_positions)@, old(rejected_positions)@).1,
            delta == propagate(*rule, old(edb_positions)@, old(rejected_positions)@).2,
            delta == (final(edb_positions)@ != old(edb_positions)@ || final(rejected_positions)@ != old(rejected_positions)@),
    {
        let ghost e0 = edb_positions@;
        let ghost r0 = rejected_positions@;
        let mut delta = false;
        let head = &rule.head[0];
        let rejected_before = rejected_positions.clone();
        let n = head.terms.len();
        let mut i: usize = 0;
        while i < n
            invariant
                analyzable_rule(*rule),
                head == &rule.head@[0],
                n == head.terms@.len(),
                rejected_before@ == r0,
                0 <= i <= n,
                edb_positions@ == propagation(*rule, r0, (e0, r0, false), i as nat).0,
                rejected_positions@ == propagation(*rule, r0, (e0, r0, false), i as nat).1,
                delta == propagation(*rule, r0, (e0, r0, false), i as nat).2,
            decreases n - i,
        {
            if !rejected_before.contains(&head.predicate, i) {
                match &head.terms[i] {
                    Primitive::Variable(var_h) => {
                        if occurs_in_positions(&rule.positive, var_h, edb_positions) {
                            let inserted = edb_positions.insert(head.predicate(), i);
                            delta = inserted || delta;
                        } else if occurs_in_positions(&rule.positive, var_h, rejected_positions) {
                            let inserted = rejected_positions.insert(head.predicate(), i);
                            delta = inserted || delta;
                            edb_positions.remove(&head.predicate, i);
                        } else if occurs_in_critical_operation(&rule.operations, var_h) {
                            let inserted = rejected_positions.insert(head.predicate(), i);
                            delta = inserted || delta;
                            edb_positions.remove(&head.predicate, i);
                        }
                    },
                    Primitive::Ground(_) => {
                        let inserted = edb_positions.insert(head.predicate(), i);
                        delta = inserted || delta;
                    },
                }
            }
            i = i + 1;
        }
        proof {
            lemma_propagation(*rule, e0, r0, n as nat);
            lemma_propagation_unchanged(*rule, e0, r0, n as nat);
            if delta {
                let j = choose|j: int| 0 <= j < n && #[trigger] position_changed(e0, r0, edb_positions@, rejected_positions@,
                    head_position(*rule, j));
                let pos = head_position(*rule, j);
                if !r0.contains(pos) && rejected_positions@.contains(pos) {
                    assert(!r0.contains(pos));
                } else {
                    assert(!e0.union(r0).contains(pos) && edb_positions@.union(rejected_positions@).contains(pos));
                }
            }
        }
        delta
    }

    /// Creates a new [EdbAnalyzer]: the positions of the predicates that
    /// occur in no rule head are edb positions, and they are propagated
    /// through the rules of each component of `rule_graph`, in order, until
    /// a whole pass over the component changes neither set.
    pub fn new(program: &NormalizedProgram, rule_graph: RuleAnalysisGraph) -> (analyzer: Self)
        requires
            analyzable_program(*program),
            sccs_within(rule_graph.spec_sccs(), program.rules@.len()),
            rule_graph.spec_sccs().len() < usize::MAX,
        ensures
            analyzer.edb_positions@ == edb_analysis(*program, rule_graph.spec_sccs()),
    {
        let ghost rules = program.rules@;
        let ghost sccs = rule_graph.spec_sccs();
        let mut rule_graph = rule_graph;
        rule_graph.reset_scc_count();
        let mut edb_positions = TagIndexSet::new();
        let mut rejected_positions = TagIndexSet::new();
        let derived_predicates = program.derived_predicates();
        let ghost derived = tag_views(derived_predicates@).to_set();
        let preds = program.predicates();
        let count = preds.entry_count();
        let ghost entries = preds.spec_entries();
        let mut k: usize = 0;
        assert(edb_positions@ =~= initial_positions(entries.take(0), derived));
        while k < count
            invariant
                count == entries.len(),
                entries == preds.spec_entries(),
                derived == tag_views(derived_predicates@).to_set(),
                0 <= k <= count,
                edb_positions@ == initial_positions(entries.take(k as int), derived),
                rejected_positions@ == Set::<(Seq<char>, usize)>::empty(),
            decreases count - k,
        {
            let (tag, arity) = preds.get(k);
            let ghost start = edb_positions@;
            if !contains_tag(&derived_predicates, tag) {
                let mut i: usize = 0;
                assert(edb_positions@ =~= start.union(Set::new(|p: (Seq<char>, usize)| p.0 == tag@ && p.1 < 0)));
                while i < arity
                    invariant
                        0 <= i <= arity,
                        edb_positions@ == start.union(Set::new(|p: (Seq<char>, usize)| p.0 == tag@ && p.1 < i)),
                        rejected_positions@ == Set::<(Seq<char>, usize)>::empty(),
                    decreases arity - i,
                {
                    edb_positions.insert(tag.clone(), i);
                    i = i + 1;
                    assert(edb_positions@ =~= start.union(Set::new(|p: (Seq<char>, usize)| p.0 == tag@ && p.1 < i)));
                }
            }
            proof {
                assert(entries.take(k + 1).drop_last() =~= entries.take(k as int));
                assert(entries[k as int] == (tag@, arity));
                assert forall|p: (Seq<char>, usize)| initial_positions(entries.take(k + 1), derived).contains(p)
                    implies #[trigger] edb_positions@.contains(p) by {
                    let j = choose|j: int| 0 <= j < k + 1 && (#[trigger] entries.take(k + 1)[j]).0 == p.0
                        && !derived.contains(p.0) && p.1 < entries.take(k + 1)[j].1;
                    if j < k {
                        assert(entries.take(k as int)[j] == entries.take(k + 1)[j]);
                        assert(initial_positions(entries.take(k as int), derived).contains(p));
                    }
                }
                assert forall|p: (Seq<char>, usize)| #[trigger] edb_positions@.contains(p)
                    implies initial_positions(entries.take(k + 1), derived).contains(p) by {
                    if start.contains(p) {
                        let j = choose|j: int| 0 <= j < k && (#[trigger] entries.take(k as int)[j]).0 == p.0
                            && !derived.contains(p.0) && p.1 < entries.take(k as int)[j].1;
                        assert(entries.take(k + 1)[j] == entries.take(k as int)[j]);
                    } else if edb_positions@.contains(p) {
                        assert(entries.take(k + 1)[k as int] == (tag@, arity));
                    }
                }
                assert(edb_positions@ =~= initial_positions(entries.take(k + 1), derived));
            }
            k = k + 1;
        }
        proof {
            assert(entries.take(count as int) =~= entries);
            assert(initial_positions(entries, derived) =~= initial_edb_positions(*program)) by {
                assert forall|p: (Seq<char>, usize)| initial_positions(entries, derived).contains(p)
                    <==> #[trigger] initial_edb_positions(*program).contains(p) by {
                    if initial_positions(entries, derived).contains(p) {
                        let j = choose|j: int| 0 <= j < entries.len() && (#[trigger] entries[j]).0 == p.0
                            && !derived.contains(p.0) && p.1 < entries[j].1;
                        assert(entries.to_set().contains(entries[j]));
                        assert(program_predicates(*program).contains((p.0, entries[j].1)));
                    }
                    if initial_edb_positions(*program).contains(p) {
                        let arity = choose|arity: usize| #[trigger] program_predicates(*program).contains((p.0, arity))
                            && !rules_head_predicates(program.rules@).contains(p.0) && p.1 < arity;
                        assert(entries.to_set().contains((p.0, arity)));
                        let j = choose|j: int| 0 <= j < entries.len() && entries[j] == (p.0, arity);
                        assert(entries[j].0 == p.0);
                    }
                }
            }
        }
        let ghost e0 = edb_positions@;
        loop
            invariant_except_break
                rule_graph.spec_index() <= sccs.len(),
                edb_positions@ == sccs_closure(rules, sccs.take(rule_graph.spec_index() as int), e0, Set::empty()).0,
                rejected_positions@ == sccs_closure(rules, sccs.take(rule_graph.spec_index() as int), e0, Set::empty()).1,
            invariant
                rules == program.rules@,
                analyzable_program(*program),
                sccs_within(sccs, rules.len()),
                sccs.len() < usize::MAX,
                rule_graph.spec_sccs() == sccs,
            ensures
                edb_positions@ == sccs_closure(rules, sccs, e0, Set::empty()).0,
            decreases sccs.len() - rule_graph.spec_index(),
        {
            let ghost index = rule_graph.spec_index();
            match rule_graph.next_scc() {
                Some(scc) => {
                    let ghost s0 = (edb_positions@, rejected_positions@);
                    proof {
                        assert forall|j: int| 0 <= j < scc@.len() implies #[trigger] scc@[j] < rules.len() by {
                            assert(sccs[index as int]@[j] == scc@[j]);
                        }
                    }
                    loop
                        invariant_except_break
                            scc_closure(rules, scc@, edb_positions@, rejected_positions@) == scc_closure(rules, scc@, s0.0, s0.1),
                        invariant
                            rules == program.rules@,
                            analyzable_program(*program),
                            forall|j: int| 0 <= j < scc@.len() ==> #[trigger] scc@[j] < rules.len(),
                        ensures
                            edb_positions@ == scc_closure(rules, scc@, s0.0, s0.1).0,
                            rejected_positions@ == scc_closure(rules, scc@, s0.0, s0.1).1,
                        decreases potential(all_head_positions(rules), edb_positions@, rejected_positions@),
                    {
                        let ghost before = (edb_positions@, rejected_positions@);
                        let mut delta = false;
                        let m = scc.len();
                        let mut j: usize = 0;
                        while j < m
                            invariant
                                rules == program.rules@,
                                analyzable_program(*program),
                                m == scc@.len(),
                                forall|x: int| 0 <= x < scc@.len() ==> #[trigger] scc@[x] < rules.len(),
                                0 <= j <= m,
                                edb_positions@ == scc_round(rules, scc@.take(j as int), before.0, before.1).0,
                                rejected_positions@ == scc_round(rules, scc@.take(j as int), before.0, before.1).1,
                                delta == scc_round(rules, scc@.take(j as int), before.0, before.1).2,
                            decreases m - j,
                        {
                            assert(scc@[j as int] < rules.len());
                            let rule = &program.rules[scc[j]];
                            assert(analyzable_rule(rules[scc@[j as int] as int]));
                            let changed = EdbAnalyzer::propagate_positions(&mut edb_positions, &mut rejected_positions, rule);
                            delta = changed || delta;
                            assert(scc@.take(j + 1).drop_last() =~= scc@.take(j as int));
                            j = j + 1;
                        }
                        proof {
                            assert(scc@.take(m as int) =~= scc@);
                            assert forall|x: int| 0 <= x < rules.len() implies (#[trigger] rules[x]).head@.len() > 0 by {
                                assert(analyzable_rule(rules[x]));
                            }
                            lemma_scc_round_potential(rules, scc@, before.0, before.1);
                        }
                        if !delta {
                            break;
                        }
                    }
                    proof {
                        assert(sccs.take(index + 1).drop_last() =~= sccs.take(index as int));
                        assert(sccs.take(index + 1).last()@ == scc@);
                    }
                },
                None => {
                    assert(sccs.take(index as int) =~= sccs);
                    break;
                },
            }
        }
        EdbAnalyzer { edb_positions }
    }

    /// The text that displays the analysis: the edb positions, in the order
    /// in which they were found
    pub fn to_string(&self) -> (text: String)
        ensures
            text@ == "edb positions: "@ + positions_text(self.edb_positions.spec_entries()),
    {
        let ghost entries = self.edb_positions.spec_entries();
        let mut text = String::new();
        text.append("edb positions: ");
        let ghost head = text@;
        let n = self.edb_positions.entry_count();
        let mut k: usize = 0;
        assert(entries.take(0) =~= Seq::<(Seq<char>, usize)>::empty());
        while k < n
            invariant
                n == entries.len(),
                entries == self.edb_positions.spec_entries(),
                0 <= k <= n,
                text@ == head + positions_text(entries.take(k as int)),
            decreases n - k,
        {
            let (tag, position) = self.edb_positions.get(k);
            text.append("(");
            text.append(tag.name());
            text.append(", ");
            append_decimal(&mut text, position as u64);
            text.append("), ");
            proof {
                let t = entries.take(k + 1);
                assert(t.drop_last() =~= entries.take(k as int));
                assert(t.last() == entries[k as int]);
                assert(text@ =~= head + positions_text(t));
            }
            k = k + 1;
        }
        assert(entries.take(n as int) =~= entries);
        text
    }

    /// Returns all variables that contain values directly from the edb in them
    pub fn edb_vars_in_rule(&self, rule: &NormalizedRule) -> (vars: Vec<Variable>)
        ensures
            variable_names(vars@).no_duplicates(),
            variable_names(vars@).to_set() == variables_at(rule.positive@, self.edb_positions@),
    {
        let atoms = &rule.positive;
        let mut vars: Vec<Variable> = Vec::new();
        let n = atoms.len();
        let mut b: usize = 0;
        assert(variable_names(vars@).to_set() =~= Set::<Seq<char>>::empty());
        while b < n
            invariant
                atoms == &rule.positive,
                n == atoms@.len(),
                0 <= b <= n,
                variable_names(vars@).no_duplicates(),
                variable_names(vars@).to_set() == variables_at(atoms@.take(b as int), self.edb_positions@),
            decreases n - b,
        {
            let atom = &atoms[b];
            let m = atom.terms.len();
            let ghost start = variable_names(vars@).to_set();
            let mut j: usize = 0;
            while j < m
                invariant
                    atom == &atoms@[b as int],
                    m == atom.terms@.len(),
                    0 <= j <= m,
                    variable_names(vars@).no_duplicates(),
                    variable_names(vars@).to_set() == start.union(Set::new(|v: Seq<char>| exists|y: int|
                        0 <= y < j && (#[trigger] atom.terms@[y])@ == v && self.edb_positions@.contains((atom.predicate@, y as usize)))),
                decreases m - j,
            {
                let ghost before = variable_names(vars@).to_set();
                if self.edb_positions.contains(&atom.predicate, j) {
                    push_unique(&mut vars, &atom.terms[j]);
                }
                proof {
                    let next = Set::new(|v: Seq<char>| exists|y: int|
                        0 <= y < j + 1 && (#[trigger] atom.terms@[y])@ == v && self.edb_positions@.contains((atom.predicate@, y as usize)));
                    assert forall|v: Seq<char>| variable_names(vars@).to_set().contains(v)
                        <==> #[trigger] start.union(next).contains(v) by {
                        if next.contains(v) {
                            let y = choose|y: int| 0 <= y < j + 1 && (#[trigger] atom.terms@[y])@ == v
                                && self.edb_positions@.contains((atom.predicate@, y as usize));
                            if y == j {
                                assert(variable_names(vars@).to_set().contains(v));
                            }
                        }
                    }
                    assert(variable_names(vars@).to_set() =~= start.union(next));
                }
                j = j + 1;
            }
            proof {
                let cur = Set::new(|v: Seq<char>| exists|y: int|
                    0 <= y < m && (#[trigger] atom.terms@[y])@ == v && self.edb_positions@.contains((atom.predicate@, y as usize)));
                assert(atoms@.take(b + 1).drop_last() =~= atoms@.take(b as int));
                assert forall|v: Seq<char>| #[trigger] variables_at(atoms@.take(b + 1), self.edb_positions@).contains(v)
                    <==> start.union(cur).contains(v) by {
                    let s1 = atoms@.take(b + 1);
                    if variables_at(s1, self.edb_positions@).contains(v) {
                        let (x, y) = choose|x: int, y: int| 0 <= x < s1.len() && 0 <= y < s1[x].terms@.len()
                            && (#[trigger] s1[x].terms@[y])@ == v && self.edb_positions@.contains((s1[x].predicate@, y as usize));
                        if x < b {
                            assert(atoms@.take(b as int)[x].terms@[y] == s1[x].terms@[y]);
                            assert(occurs_at(atoms@.take(b as int), v, self.edb_positions@));
                        } else {
                            assert(atom.terms@[y]@ == v);
                            assert(cur.contains(v));
                        }
                    }
                    if start.contains(v) {
                        let s0 = atoms@.take(b as int);
                        let (x, y) = choose|x: int, y: int| 0 <= x < s0.len() && 0 <= y < s0[x].terms@.len()
                            && (#[trigger] s0[x].terms@[y])@ == v && self.edb_positions@.contains((s0[x].predicate@, y as usize));
                        assert(s1[x].terms@[y] == s0[x].terms@[y]);
                        assert(occurs_at(s1, v, self.edb_positions@));
                    }
                    if cur.contains(v) {
                        let y = choose|y: int| 0 <= y < m && (#[trigger] atom.terms@[y])@ == v
                            && self.edb_positions@.contains((atom.predicate@, y as usize));
                        assert(s1[b as int].terms@[y]@ == v);
                        assert(occurs_at(s1, v, self.edb_positions@));
                    }
                }
                assert(variables_at(atoms@.take(b + 1), self.edb_positions@) =~= start.union(cur));
            }
            b = b + 1;
        }
        assert(atoms@.take(n as int) =~= atoms@);
        vars
    }

    /// Returns true if the operation potentially creates a new value for the variable
    pub fn critical_operation(op: &Operation) -> (r: bool)
        requires
            well_formed_equality(*op),
        ensures
            r == critical(*op),
    {
        match op {
            Operation::Operation { kind, subterms } => {
                if *kind == OperationKind::Equal {
                    let left = &subterms[0];
                    let right = &subterms[1];
                    match (left, right) {
                        (Operation::Primitive(_), Operation::Primitive(_)) => false,
                        _ => true,
                    }
                } else {
                    false
                }
            },
            _ => false,
        }
    }
}

} // verus!
