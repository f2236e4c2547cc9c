//! This module defines restrictions coming from assertion annotations

use std::collections::HashMap;
use std::ops::Range;

use vstd::std_specs::iter::IteratorSpec;

use vstd::prelude::*;

use crate::execution::planning::normalization::atom::GroundAtom;
use crate::execution::planning::normalization::global_annotation::NormalizedGlobalAnnotation;
use crate::execution::planning::normalization::operation::Operation;
use crate::rule_model::components::operation_kind::OperationKind;
use crate::rule_model::components::variable::{Primitive, Variable};

verus! {

broadcast use vstd::std_specs::hash::group_hash_axioms;

/// The range containing every value that the analysis distinguishes.
pub open spec fn spec_range_inf() -> Range<i32> {
    Range { start: i32::MIN, end: i32::MAX }
}

/// Returns the range containing every value that the analysis distinguishes.
pub fn range_inf() -> (r: Range<i32>)
    ensures
        r == spec_range_inf(),
{
    i32::MIN..i32::MAX
}

/// Whether a range contains no value.
pub open spec fn range_is_empty(r: Range<i32>) -> bool {
    r.start >= r.end
}

/// Whether a range contains the value `v`.
pub open spec fn range_contains(r: Range<i32>, v: int) -> bool {
    r.start <= v < r.end
}

/// Whether every value of `inner` lies in `outer`.
pub open spec fn range_within(inner: Range<i32>, outer: Range<i32>) -> bool {
    forall|v: int| range_contains(inner, v) ==> #[trigger] range_contains(outer, v)
}

/// A range lies within another exactly when it is empty or its bounds lie
/// within the other's.
pub proof fn lemma_range_within(inner: Range<i32>, outer: Range<i32>)
    ensures
        range_within(inner, outer) <==> (inner.start >= inner.end || (outer.start <= inner.start
            && inner.end <= outer.end)),
{
    if inner.start < inner.end {
        if outer.start > inner.start {
            assert(range_contains(inner, inner.start as int) && !range_contains(outer, inner.start as int));
        }
        if inner.end > outer.end {
            assert(range_contains(inner, inner.end - 1) && !range_contains(outer, inner.end - 1));
        }
    }
}

/// The intersection of two ranges.
pub open spec fn spec_intersect_range(r1: Range<i32>, r2: Range<i32>) -> Range<i32> {
    Range {
        start: if r1.start >= r2.start { r1.start } else { r2.start },
        end: if r1.end <= r2.end { r1.end } else { r2.end },
    }
}

/// The smallest range containing two ranges, ignoring empty ranges; the empty
/// range `0..0` if both are empty.
pub open spec fn spec_combine_range(r1: Range<i32>, r2: Range<i32>) -> Range<i32> {
    if range_is_empty(r1) && range_is_empty(r2) {
        Range { start: 0, end: 0 }
    } else if range_is_empty(r1) {
        r2
    } else if range_is_empty(r2) {
        r1
    } else {
        Range {
            start: if r1.start <= r2.start { r1.start } else { r2.start },
            end: if r1.end >= r2.end { r1.end } else { r2.end },
        }
    }
}

/// The intersection of two ranges holds exactly the values that both hold,
/// whatever their order.
pub proof fn lemma_intersect_range(r1: Range<i32>, r2: Range<i32>, v: int)
    ensures
        range_contains(spec_intersect_range(r1, r2), v) <==> range_contains(r1, v) && range_contains(r2, v),
        spec_intersect_range(r1, r2) == spec_intersect_range(r2, r1),
{
}

/// Combining two ranges gives a range that holds every value of each of
/// them, whatever their order.
pub proof fn lemma_combine_range(r1: Range<i32>, r2: Range<i32>, v: int)
    ensures
        range_contains(r1, v) ==> range_contains(spec_combine_range(r1, r2), v),
        range_contains(r2, v) ==> range_contains(spec_combine_range(r1, r2), v),
        spec_combine_range(r1, r2) == spec_combine_range(r2, r1),
{
}

/// Combining two non-empty ranges gives the range from the smaller start to
/// the larger end; an empty range leaves the other one as it is, and two
/// empty ones give the empty range `0..0`; and a
/// range combined with itself, or with a range inside it, stays the same.
pub proof fn lemma_combine_range_bounds(r1: Range<i32>, r2: Range<i32>)
    ensures
        r1.start < r1.end && r2.start < r2.end ==> {
            let r = spec_combine_range(r1, r2);
            &&& r.start <= r1.start && r.start <= r2.start && (r.start == r1.start || r.start == r2.start)
            &&& r.end >= r1.end && r.end >= r2.end && (r.end == r1.end || r.end == r2.end)
        },
        r1.start >= r1.end && r2.start >= r2.end ==> spec_combine_range(r1, r2) == (Range { start: 0i32, end: 0i32 }),
        r1.start >= r1.end && r2.start < r2.end ==> spec_combine_range(r1, r2) == r2,
        r1.start < r1.end && r2.start >= r2.end ==> spec_combine_range(r1, r2) == r1,
        r1.start < r1.end ==> spec_combine_range(r1, r1) == r1,
        r1.start < r1.end && r1.start <= r2.start && r2.end <= r1.end ==> spec_combine_range(r1, r2) == r1,
{
}

/// Combining a range into the result of combining it again changes nothing,
/// so a second union of the same range at a position reports no change.
pub proof fn lemma_combine_range_again(r1: Range<i32>, r2: Range<i32>)
    ensures
        spec_combine_range(spec_combine_range(r1, r2), r2) == spec_combine_range(r1, r2),
{
}

/// The range of values allowed by comparing a variable with `value` by `kind`,
/// where the variable is the left operand.
pub open spec fn comparison_range(kind: OperationKind, value: int) -> Range<i32> {
    if kind == OperationKind::NumericGreaterthaneq {
        Range { start: value as i32, end: i32::MAX }
    } else if kind == OperationKind::NumericGreaterthan {
        Range { start: (value + 1) as i32, end: i32::MAX }
    } else if kind == OperationKind::NumericLessthaneq {
        Range { start: i32::MIN, end: (value + 1) as i32 }
    } else {
        Range { start: i32::MIN, end: value as i32 }
    }
}

/// Whether `term` is a ground value that `kind` can compare with a variable
/// without leaving the range of `i32`.
pub open spec fn supported_bound(term: Operation, kind: OperationKind) -> bool {
    &&& kind.spec_is_order_comparison()
    &&& term matches Operation::Primitive(Primitive::Ground(g))
    &&& i32::MIN <= g.spec_value() <= i32::MAX
    &&& (kind == OperationKind::NumericGreaterthan || kind == OperationKind::NumericLessthaneq)
        ==> g.spec_value() < i32::MAX
}

/// The value of a ground operation.
pub open spec fn ground_value(term: Operation) -> int {
    match term {
        Operation::Primitive(Primitive::Ground(g)) => g.spec_value() as int,
        _ => 0,
    }
}

/// The new range of a variable whose previous range was `previous`, after
/// the comparison `kind` with `value`.
pub open spec fn updated_range(previous: Option<Range<i32>>, kind: OperationKind, value: int) -> Range<i32> {
    match previous {
        Some(r) => spec_intersect_range(r, comparison_range(kind, value)),
        None => comparison_range(kind, value),
    }
}

/// The names of the variables in a sequence of variable ranges.
pub open spec fn range_entry_names(entries: Seq<(Variable, Range<i32>)>) -> Seq<Seq<char>> {
    entries.map_values(|e: (Variable, Range<i32>)| e.0@)
}

/// The map from variable names to the ranges of a sequence of entries with
/// distinct names.
pub open spec fn range_entries_map(entries: Seq<(Variable, Range<i32>)>) -> Map<Seq<char>, Range<i32>>
    decreases entries.len(),
{
    if entries.len() == 0 {
        Map::empty()
    } else {
        range_entries_map(entries.drop_last()).insert(entries.last().0@, entries.last().1)
    }
}

/// A map from variables to the range of values they may take.
#[derive(Debug)]
pub struct VariableRanges {
    entries: Vec<(Variable, Range<i32>)>,
}

impl View for VariableRanges {
    type V = Map<Seq<char>, Range<i32>>;

    closed spec fn view(&self) -> Map<Seq<char>, Range<i32>> {
        range_entries_map(self.entries@)
    }
}

proof fn lemma_range_entries_map(entries: Seq<(Variable, Range<i32>)>)
    ensures
        range_entries_map(entries).dom() == range_entry_names(entries).to_set(),
        forall|i: int| 0 <= i < entries.len() && range_entry_names(entries).no_duplicates()
            ==> range_entries_map(entries)[#[trigger] entries[i].0@] == entries[i].1,
    decreases entries.len(),
{
    broadcast use vstd::seq_lib::group_seq_properties;
    if entries.len() > 0 {
        lemma_range_entries_map(entries.drop_last());
        assert(range_entry_names(entries) =~= range_entry_names(entries.drop_last()).push(entries.last().0@));
        assert forall|i: int| 0 <= i < entries.len() && range_entry_names(entries).no_duplicates()
            implies range_entries_map(entries)[#[trigger] entries[i].0@] == entries[i].1 by {
            if i < entries.len() - 1 {
                assert(range_entry_names(entries)[i] != range_entry_names(entries)[entries.len() - 1]);
                assert(entries.drop_last()[i] == entries[i]);
                assert(range_entry_names(entries.drop_last()).no_duplicates()) by {
                    assert forall|a: int, b: int| 0 <= a < b < range_entry_names(entries.drop_last()).len()
                        implies range_entry_names(entries.drop_last())[a] != range_entry_names(entries.drop_last())[b] by {
                        assert(range_entry_names(entries)[a] != range_entry_names(entries)[b]);
                    }
                }
            }
        }
        assert(range_entries_map(entries).dom() =~= range_entry_names(entries).to_set());
    } else {
        assert(range_entries_map(entries).dom() =~= range_entry_names(entries).to_set());
    }
}

impl VariableRanges {
    #[verifier::type_invariant]
    closed spec fn distinct_names(&self) -> bool {
        range_entry_names(self.entries@).no_duplicates()
    }

    /// Create a map without any range.
    pub fn new() -> (ranges: Self)
        ensures
            ranges@ == Map::<Seq<char>, Range<i32>>::empty(),
    {
        let ranges = VariableRanges { entries: Vec::new() };
        assert(range_entry_names(ranges.entries@) =~= Seq::<Seq<char>>::empty());
        ranges
    }

    fn find(&self, variable: &Variable) -> (r: Option<usize>)
        ensures
            match r {
                Some(k) => k < self.entries@.len() && self.entries@[k as int].0@ == variable@,
                None => !self@.contains_key(variable@),
            },
    {
        proof { lemma_range_entries_map(self.entries@); }
        let n = self.entries.len();
        let mut i: usize = 0;
        while i < n
            invariant
                n == self.entries@.len(),
                0 <= i <= n,
                range_entries_map(self.entries@).dom() == range_entry_names(self.entries@).to_set(),
                forall|j: int| 0 <= j < i ==> self.entries@[j].0@ != variable@,
            decreases n - i,
        {
            if self.entries[i].0 == *variable {
                return Some(i);
            }
            i = i + 1;
        }
        proof {
            if self@.contains_key(variable@) {
                let k = choose|k: int| 0 <= k < range_entry_names(self.entries@).len() && range_entry_names(self.entries@)[k] == variable@;
                assert(self.entries@[k].0@ == variable@);
            }
        }
        None
    }

    /// Return the range of the variable, if it has one.
    pub fn get(&self, variable: &Variable) -> (r: Option<&Range<i32>>)
        ensures
            match r {
                Some(range) => self@.contains_key(variable@) && self@[variable@] == *range,
                None => !self@.contains_key(variable@),
            },
    {
        proof {
            use_type_invariant(self);
            lemma_range_entries_map(self.entries@);
        }
        match self.find(variable) {
            Some(k) => {
                assert(range_entry_names(self.entries@)[k as int] == variable@);
                Some(&self.entries[k].1)
            },
            None => None,
        }
    }

    /// Set the range of the variable.
    pub fn insert(&mut self, variable: Variable, range: Range<i32>)
        ensures
            final(self)@ == old(self)@.insert(variable@, range),
    {
        proof {
            use_type_invariant(&*self);
            lemma_range_entries_map(self.entries@);
        }
        let ghost before = self.entries@;
        let mut entries: Vec<(Variable, Range<i32>)> = Vec::new();
        std::mem::swap(&mut entries, &mut self.entries);
        match self.find_in(&entries, &variable) {
            Some(k) => {
                entries.set(k, (variable, range));
                proof {
                    assert(range_entry_names(entries@) =~= range_entry_names(before));
                    lemma_range_entries_map(entries@);
                    assert(range_entries_map(entries@).dom() =~= range_entries_map(before).insert(variable@, range).dom()) by {
                        assert(range_entry_names(before)[k as int] == variable@);
                    }
                    assert(range_entries_map(entries@) =~= range_entries_map(before).insert(variable@, range)) by {
                        assert forall|name| #[trigger] range_entries_map(entries@).contains_key(name) implies
                            range_entries_map(entries@)[name] == range_entries_map(before).insert(variable@, range)[name] by {
                            let j = choose|j: int| 0 <= j < range_entry_names(entries@).len() && range_entry_names(entries@)[j] == name;
                            assert(entries@[j].0@ == name);
                            assert(range_entry_names(entries@).no_duplicates());
                            if j != k {
                                assert(entries@[j] == before[j]);
                                assert(range_entry_names(before)[j] != range_entry_names(before)[k as int]);
                                assert(range_entries_map(before)[before[j].0@] == before[j].1);
                            } else {
                                assert(range_entries_map(entries@)[entries@[j].0@] == entries@[j].1);
                            }
                        }
                    }
                }
            },
            None => {
                entries.push((variable, range));
                proof {
                    assert(range_entry_names(entries@) =~= range_entry_names(before).push(variable@));
                    assert(entries@.drop_last() =~= before);
                    broadcast use vstd::seq_lib::group_seq_properties;
                }
            },
        }
        self.entries = entries;
    }

    fn find_in(&self, entries: &Vec<(Variable, Range<i32>)>, variable: &Variable) -> (r: Option<usize>)
        ensures
            match r {
                Some(k) => k < entries@.len() && entries@[k as int].0@ == variable@,
                None => !range_entry_names(entries@).contains(variable@),
            },
    {
        let n = entries.len();
        let mut i: usize = 0;
        while i < n
            invariant
                n == entries@.len(),
                0 <= i <= n,
                forall|j: int| 0 <= j < i ==> entries@[j].0@ != variable@,
            decreases n - i,
        {
            if entries[i].0 == *variable {
                return Some(i);
            }
            i = i + 1;
        }
        proof {
            if range_entry_names(entries@).contains(variable@) {
                let k = choose|k: int| 0 <= k < range_entry_names(entries@).len() && range_entry_names(entries@)[k] == variable@;
                assert(entries@[k].0@ == variable@);
            }
        }
        None
    }
}

} // verus!

verus! {


/// The comparison with its operands swapped: `a < b` is `b > a`.
pub open spec fn flipped_kind(kind: OperationKind) -> OperationKind {
    if kind == OperationKind::NumericLessthan {
        OperationKind::NumericGreaterthan
    } else if kind == OperationKind::NumericGreaterthan {
        OperationKind::NumericLessthan
    } else if kind == OperationKind::NumericLessthaneq {
        OperationKind::NumericGreaterthaneq
    } else if kind == OperationKind::NumericGreaterthaneq {
        OperationKind::NumericLessthaneq
    } else {
        kind
    }
}

/// Returns the comparison with its operands swapped.
pub fn flip_kind(kind: &OperationKind) -> (r: OperationKind)
    ensures
        r == flipped_kind(*kind),
{
    match kind {
        OperationKind::NumericLessthan => OperationKind::NumericGreaterthan,
        OperationKind::NumericGreaterthan => OperationKind::NumericLessthan,
        OperationKind::NumericLessthaneq => OperationKind::NumericGreaterthaneq,
        OperationKind::NumericGreaterthaneq => OperationKind::NumericLessthaneq,
        _ => *kind,
    }
}

/// Whether every operation of an annotation body is supported by
/// [RangeRestriction::from_global_annotation]: it compares two operands, and
/// whenever a variable stands on one side, the other side is a ground value
/// that the comparison can bound.
pub open spec fn supported_annotation_body(body: Seq<Operation>) -> bool {
    forall|i: int| 0 <= i < body.len() ==> #[trigger] supported_annotation_operation(body[i])
}

/// Whether one operation is supported by [RangeRestriction::from_global_annotation].
pub open spec fn supported_annotation_operation(op: Operation) -> bool {
    match op {
        Operation::Operation { kind, subterms } => {
            &&& subterms@.len() >= 2
            &&& (subterms@[0] matches Operation::Primitive(Primitive::Variable(_))
                ==> supported_bound(subterms@[1], kind))
            &&& ((!(subterms@[0] matches Operation::Primitive(Primitive::Variable(_)))
                && (subterms@[1] matches Operation::Primitive(Primitive::Variable(_))))
                ==> supported_bound(subterms@[0], flipped_kind(kind)))
        },
        _ => false,
    }
}

/// The variable that an operation of an annotation body restricts, with the
/// comparison and the operand it is compared with. A variable on the right
/// is moved to the left, with the comparison swapped: `0 < ?X` is `?X > 0`.
pub open spec fn restricted_variable(op: Operation) -> Option<(Seq<char>, OperationKind, int)> {
    match op {
        Operation::Operation { kind, subterms } => match (subterms@[0], subterms@[1]) {
            (Operation::Primitive(Primitive::Variable(v)), right) => Some((v@, kind, ground_value(right))),
            (left, Operation::Primitive(Primitive::Variable(v))) => Some((v@, flipped_kind(kind), ground_value(left))),
            _ => None,
        },
        _ => None,
    }
}

/// The ranges of the variables after processing the first `n` operations of
/// an annotation body.
pub open spec fn annotation_variable_ranges(body: Seq<Operation>, n: nat) -> Map<Seq<char>, Range<i32>>
    decreases n,
{
    if n == 0 {
        Map::empty()
    } else {
        let prev = annotation_variable_ranges(body, (n - 1) as nat);
        match restricted_variable(body[n - 1]) {
            Some((v, kind, value)) => prev.insert(v, updated_range(if prev.contains_key(v) { Some(prev[v]) } else { None }, kind, value)),
            None => prev,
        }
    }
}

/// Represents a range restriction on the positions of a predicate
#[derive(Debug)]
pub struct RangeRestriction {
    /// Maps positions in a predicate to the range of values allowed there
    range_res: HashMap<usize, Range<i32>>,
}

impl View for RangeRestriction {
    type V = Map<usize, Range<i32>>;

    closed spec fn view(&self) -> Map<usize, Range<i32>> {
        self.range_res@
    }
}

impl Clone for RangeRestriction {
    fn clone(&self) -> (r: Self)
        ensures
            r@ == self@,
    {
        RangeRestriction { range_res: self.range_res.clone() }
    }
}

impl Default for RangeRestriction {
    fn default() -> (r: Self)
        ensures
            r@ == Map::<usize, Range<i32>>::empty(),
    {
        RangeRestriction { range_res: HashMap::new() }
    }
}

impl RangeRestriction {
    /// Returns the Map of restrictions
    pub fn range_res(&self) -> (map: &HashMap<usize, Range<i32>>)
        ensures
            map@ == self@,
    {
        &self.range_res
    }

    /// Get the range of a single position within a predicate
    pub fn restriction_at_pos(&self, position: &usize) -> (r: Option<&Range<i32>>)
        ensures
            match r {
                Some(range) => self@.contains_key(*position) && self@[*position] == *range,
                None => !self@.contains_key(*position),
            },
    {
        self.range_res.get(position)
    }

    /// Creates a new set of range restrictions without any restrictions
    pub fn new() -> (r: Self)
        ensures
            r@ == Map::<usize, Range<i32>>::empty(),
    {
        RangeRestriction { range_res: HashMap::new() }
    }

    /// Creates a new range restriction from a map of positions to ranges
    pub fn new_from_map(range_map: &HashMap<usize, Range<i32>>) -> (r: Self)
        ensures
            r@ == range_map@,
    {
        RangeRestriction { range_res: range_map.clone() }
    }

    /// Insert the given range at the position
    pub fn insert_range(&mut self, position: usize, range: Range<i32>)
        ensures
            final(self)@ == old(self)@.insert(position, range),
    {
        self.range_res.insert(position, range);
    }

    /// Updates the range of `variable` by the comparison `kind` with the ground
    /// value `term`: the previous range of the variable, if any, is intersected
    /// with the values allowed by the comparison.
    pub fn update_range_from_op(
        ranges: &mut VariableRanges,
        variable: &Variable,
        term: &Operation,
        kind: &OperationKind,
    )
        requires
            supported_bound(*term, *kind),
        ensures
            final(ranges)@ == old(ranges)@.insert(variable@, updated_range(
                if old(ranges)@.contains_key(variable@) { Some(old(ranges)@[variable@]) } else { None },
                *kind, ground_value(*term))),
    {
        let data_value: i32 = match term {
            Operation::Primitive(Primitive::Ground(ground_term)) => ground_term.value() as i32,
            _ => 0,
        };
        match ranges.get(variable) {
            Some(restriction) => {
                let bound = match kind {
                    OperationKind::NumericGreaterthaneq => data_value..restriction.end,
                    OperationKind::NumericGreaterthan => (data_value + 1)..restriction.end,
                    OperationKind::NumericLessthaneq => restriction.start..(data_value + 1),
                    _ => restriction.start..data_value,
                };
                let new_range = RangeRestriction::intersect_range(restriction, &bound);
                ranges.insert(variable.clone(), new_range);
            },
            None => {
                let new_range = match kind {
                    OperationKind::NumericGreaterthaneq => data_value..i32::MAX,
                    OperationKind::NumericGreaterthan => (data_value + 1)..i32::MAX,
                    OperationKind::NumericLessthaneq => i32::MIN..(data_value + 1),
                    _ => i32::MIN..data_value,
                };
                ranges.insert(variable.clone(), new_range);
            },
        }
    }

    /// Return the intersection of two ranges, which may be empty
    pub fn intersect_range(range_1: &Range<i32>, range_2: &Range<i32>) -> (r: Range<i32>)
        ensures
            r == spec_intersect_range(*range_1, *range_2),
    {
        let start = if range_1.start >= range_2.start { range_1.start } else { range_2.start };
        let end = if range_1.end <= range_2.end { range_1.end } else { range_2.end };
        start..end
    }

    /// Combines two ranges inclusively, or the empty range `0..0` if both are empty
    pub fn combine_range(range_1: &Range<i32>, range_2: &Range<i32>) -> (r: Range<i32>)
        ensures
            r == spec_combine_range(*range_1, *range_2),
    {
        let empty_1 = range_1.start >= range_1.end;
        let empty_2 = range_2.start >= range_2.end;
        if empty_1 && empty_2 {
            0..0
        } else if empty_1 {
            range_2.start..range_2.end
        } else if empty_2 {
            range_1.start..range_1.end
        } else {
            let start = if range_1.start <= range_2.start { range_1.start } else { range_2.start };
            let end = if range_1.end >= range_2.end { range_1.end } else { range_2.end };
            start..end
        }
    }

    /// Intersects the restriction with another one: positions restricted by
    /// both get the intersection, positions restricted by one keep its range.
    pub fn range_intersection(&mut self, other: &RangeRestriction)
        ensures
            final(self)@.dom() == old(self)@.dom().union(other@.dom()),
            forall|pos: usize| #[trigger] final(self)@.contains_key(pos) ==> final(self)@[pos] == (
                if old(self)@.contains_key(pos) && other@.contains_key(pos) {
                    spec_intersect_range(old(self)@[pos], other@[pos])
                } else if other@.contains_key(pos) {
                    other@[pos]
                } else {
                    old(self)@[pos]
                }),
    {
        let ghost start = self@;
        let ghost keys = vstd::std_specs::hash::spec_keys_iter(&other.range_res).remaining().unref();
        let ghost mut done: int = 0;
        for pos in it: other.range_res.keys()
            invariant
                it.seq().unref() == keys,
                done == it.index(),
                keys.to_set() == other@.dom(),
                keys.no_duplicates(),
                0 <= done <= keys.len(),
                self@.dom() == start.dom().union(keys.take(done).to_set()),
                forall|p: usize| #[trigger] self@.contains_key(p) ==> self@[p] == (
                    if keys.take(done).contains(p) {
                        if start.contains_key(p) { spec_intersect_range(start[p], other@[p]) } else { other@[p] }
                    } else {
                        start[p]
                    }),
        {
            let ghost before = self@;
            let p = *pos;
            assert(keys[done] == p);
            assert(keys.to_set().contains(p));
            match other.range_res.get(&p) {
                Some(other_range) => {
                    let new_range = match self.range_res.get(&p) {
                        Some(old_range) => RangeRestriction::intersect_range(old_range, other_range),
                        None => other_range.start..other_range.end,
                    };
                    self.range_res.insert(p, new_range);
                },
                None => {},
            }
            proof {
                broadcast use vstd::seq_lib::group_seq_properties;
                assert(keys.take(done + 1) =~= keys.take(done).push(p));
                assert(!keys.take(done).contains(p)) by {
                    if keys.take(done).contains(p) {
                        let j = choose|j: int| 0 <= j < done && keys.take(done)[j] == p;
                        assert(keys[j] == keys[done]);
                    }
                }
                done = done + 1;
                assert(self@.dom() =~= start.dom().union(keys.take(done).to_set()));
            }
        }
        proof {
            assert(keys.take(done) =~= keys);
        }
    }

    /// Sets the range at `position` to the combination of its previous range
    /// and `new_range`; returns true if the restriction changed.
    pub fn range_union(&mut self, position: usize, new_range: &Range<i32>) -> (changed: bool)
        ensures
            old(self)@.contains_key(position) ==> {
                let combined = spec_combine_range(old(self)@[position], *new_range);
                &&& final(self)@ == old(self)@.insert(position, combined)
                &&& changed == !(old(self)@[position] == combined
                    || (range_is_empty(old(self)@[position]) && range_is_empty(combined)))
            },
            !old(self)@.contains_key(position) ==> {
                &&& final(self)@ == old(self)@.insert(position, *new_range)
                &&& changed
            },
    {
        let old_range = self.range_res.insert(position, new_range.start..new_range.end);
        match old_range {
            Some(range) => {
                let combined = RangeRestriction::combine_range(&range, new_range);
                self.range_res.insert(position, combined.start..combined.end);
                if (range.start == combined.start && range.end == combined.end)
                    || (range.start >= range.end && combined.start >= combined.end) {
                    false
                } else {
                    true
                }
            },
            None => true,
        }
    }

    /// Returns true if every value of the fact lies in the range of its position
    pub fn verify_ground_atom(&self, atom: &GroundAtom) -> (r: bool)
        requires
            forall|pos: usize| pos < atom.terms@.len() && #[trigger] self@.contains_key(pos)
                ==> i32::MIN <= atom.terms@[pos as int].spec_value() <= i32::MAX,
        ensures
            r == forall|pos: usize| pos < atom.terms@.len() && #[trigger] self@.contains_key(pos)
                ==> range_contains(self@[pos], atom.terms@[pos as int].spec_value() as int),
    {
        let n = atom.terms.len();
        let mut position: usize = 0;
        while position < n
            invariant
                n == atom.terms@.len(),
                0 <= position <= n,
                forall|pos: usize| pos < atom.terms@.len() && #[trigger] self@.contains_key(pos)
                    ==> i32::MIN <= atom.terms@[pos as int].spec_value() <= i32::MAX,
                forall|pos: usize| pos < position && #[trigger] self@.contains_key(pos)
                    ==> range_contains(self@[pos], atom.terms@[pos as int].spec_value() as int),
            decreases n - position,
        {
            match self.range_res.get(&position) {
                Some(range) => {
                    assert(self@.contains_key(position));
                    let data_value: i32 = atom.terms[position].value() as i32;
                    if !(range.start <= data_value && data_value < range.end) {
                        return false;
                    }
                },
                None => {},
            }
            position = position + 1;
        }
        true
    }

    /// Checks whether the second range restriction fits inside the first:
    /// at every position restricted here, every value of the other
    /// restriction's range lies in the range here, and a position that the
    /// other restriction does not restrict is not restricted here either.
    pub fn verify_compatibility(&self, other: &RangeRestriction) -> (r: bool)
        ensures
            r == forall|pos: usize| #[trigger] self@.contains_key(pos) ==> (
                if other@.contains_key(pos) {
                    range_within(other@[pos], self@[pos])
                } else {
                    self@[pos] == spec_range_inf()
                }),
    {
        let ghost keys = vstd::std_specs::hash::spec_keys_iter(&self.range_res).remaining().unref();
        let ghost mut done: int = 0;
        for pos in it: self.range_res.keys()
            invariant
                it.seq().unref() == keys,
                done == it.index(),
                keys.to_set() == self@.dom(),
                0 <= done <= keys.len(),
                forall|j: int| 0 <= j < done ==> ({
                    let p = #[trigger] keys[j];
                    if other@.contains_key(p) {
                        range_within(other@[p], self@[p])
                    } else {
                        self@[p] == spec_range_inf()
                    }
                }),
        {
            let p = *pos;
            assert(keys[done] == p);
            assert(keys.to_set().contains(p));
            match self.range_res.get(&p) {
                Some(range_1) => {
                    match other.range_res.get(&p) {
                        Some(range_2) => {
                            proof { lemma_range_within(*range_2, *range_1); }
                            if !(range_2.start >= range_2.end || (range_1.start <= range_2.start
                                && range_2.end <= range_1.end)) {
                                return false;
                            }
                        },
                        None => {
                            if !(range_1.start == i32::MIN && range_1.end == i32::MAX) {
                                return false;
                            }
                        },
                    }
                },
                None => {},
            }
            proof { done = done + 1; }
        }
        proof {
            assert forall|p: usize| #[trigger] self@.contains_key(p) implies (
                if other@.contains_key(p) {
                    range_within(other@[p], self@[p])
                } else {
                    self@[p] == spec_range_inf()
                }) by {
                assert(keys.to_set().contains(p));
                let j = choose|j: int| 0 <= j < keys.len() && keys[j] == p;
            }
        }
        true
    }

    /// Returns true if no position is restricted to an empty range
    pub fn verify_no_empty_term(&self) -> (r: bool)
        ensures
            r == forall|pos: usize| #[trigger] self@.contains_key(pos) ==> !range_is_empty(self@[pos]),
    {
        let ghost keys = vstd::std_specs::hash::spec_keys_iter(&self.range_res).remaining().unref();
        let ghost mut done: int = 0;
        for pos in it: self.range_res.keys()
            invariant
                it.seq().unref() == keys,
                done == it.index(),
                keys.to_set() == self@.dom(),
                0 <= done <= keys.len(),
                forall|j: int| 0 <= j < done ==> !range_is_empty(self@[#[trigger] keys[j]]),
        {
            let p = *pos;
            assert(keys[done] == p);
            assert(keys.to_set().contains(p));
            match self.range_res.get(&p) {
                Some(range) => {
                    if range.start >= range.end {
                        return false;
                    }
                },
                None => {},
            }
            proof { done = done + 1; }
        }
        proof {
            assert forall|p: usize| #[trigger] self@.contains_key(p) implies !range_is_empty(self@[p]) by {
                assert(keys.to_set().contains(p));
                let j = choose|j: int| 0 <= j < keys.len() && keys[j] == p;
            }
        }
        true
    }

    /// Creates a new range restriction from a global annotation: each
    /// comparison of a variable with a ground value, on either side, narrows
    /// the range of the variable, and each position of the annotated atom receives the range of
    /// its variable, if the variable has one.
    pub fn from_global_annotation(annotation: &NormalizedGlobalAnnotation) -> (r: Self)
        requires
            supported_annotation_body(annotation.body@),
        ensures
            forall|pos: usize| #[trigger] r@.contains_key(pos) <==> pos < annotation.head.terms@.len()
                && annotation_variable_ranges(annotation.body@, annotation.body@.len()).contains_key(
                    annotation.head.terms@[pos as int]@),
            forall|pos: usize| #[trigger] r@.contains_key(pos) ==> r@[pos] == annotation_variable_ranges(
                annotation.body@, annotation.body@.len())[annotation.head.terms@[pos as int]@],
    {
        let mut range_res: HashMap<usize, Range<i32>> = HashMap::new();
        let mut ranges = VariableRanges::new();
        let body = &annotation.body;
        let n = body.len();
        let mut i: usize = 0;
        while i < n
            invariant
                n == body@.len(),
                0 <= i <= n,
                supported_annotation_body(body@),
                ranges@ == annotation_variable_ranges(body@, i as nat),
            decreases n - i,
        {
            assert(supported_annotation_operation(body@[i as int]));
            match &body[i] {
                Operation::Operation { kind, subterms } => {
                    let left = &subterms[0];
                    let right = &subterms[1];
                    match left {
                        Operation::Primitive(Primitive::Variable(variable)) => {
                            RangeRestriction::update_range_from_op(&mut ranges, variable, right, kind);
                        },
                        _ => {
                            match right {
                                Operation::Primitive(Primitive::Variable(variable)) => {
                                    let swapped = flip_kind(kind);
                                    RangeRestriction::update_range_from_op(&mut ranges, variable, left, &swapped);
                                },
                                _ => {},
                            }
                        },
                    }
                },
                Operation::Primitive(_) => {},
            }
            i = i + 1;
        }
        let terms = &annotation.head.terms;
        let m = terms.len();
        let mut position: usize = 0;
        while position < m
            invariant
                m == terms@.len(),
                0 <= position <= m,
                ranges@ == annotation_variable_ranges(body@, n as nat),
                forall|pos: usize| #[trigger] range_res@.contains_key(pos) <==> pos < position
                    && ranges@.contains_key(terms@[pos as int]@),
                forall|pos: usize| #[trigger] range_res@.contains_key(pos) ==> range_res@[pos] == ranges@[terms@[pos as int]@],
            decreases m - position,
        {
            match ranges.get(&terms[position]) {
                Some(range) => {
                    range_res.insert(position, range.start..range.end);
                },
                None => {},
            }
            position = position + 1;
        }
        RangeRestriction { range_res }
    }
}

} // verus!
