use std::collections::HashMap;

use nemo::execution::planning::normalization::atom::{BodyAtom, GroundAtom};
use nemo::execution::planning::normalization::global_annotation::NormalizedGlobalAnnotation;
use nemo::execution::planning::normalization::operation::Operation;
use nemo::execution::planning::verification::restriction::{range_inf, RangeRestriction};
use nemo::rule_model::components::operation_kind::OperationKind;
use nemo::rule_model::components::tag::Tag;
use nemo::rule_model::components::variable::{GroundTerm, Primitive, Variable};

fn var(name: &str) -> Operation {
    Operation::Primitive(Primitive::Variable(Variable::universal(name)))
}

fn lit(value: i64) -> Operation {
    Operation::Primitive(Primitive::Ground(GroundTerm::new(value)))
}

fn op(kind: OperationKind, a: Operation, b: Operation) -> Operation {
    Operation::Operation { kind, subterms: vec![a, b] }
}

#[test]
fn intersect_range_keeps_common_values() {
    assert_eq!(RangeRestriction::intersect_range(&(0..10), &(5..20)), 5..10);
    assert_eq!(RangeRestriction::intersect_range(&(5..20), &(0..10)), 5..10);
    let disjoint = RangeRestriction::intersect_range(&(0..3), &(5..8));
    assert!(disjoint.start >= disjoint.end);
}

#[test]
fn combine_range_covers_both() {
    assert_eq!(RangeRestriction::combine_range(&(0..3), &(5..8)), 0..8);
    assert_eq!(RangeRestriction::combine_range(&(5..8), &(0..3)), 0..8);
    assert_eq!(RangeRestriction::combine_range(&(4..4), &(5..8)), 5..8);
    assert_eq!(RangeRestriction::combine_range(&(5..8), &(9..2)), 5..8);
    assert_eq!(RangeRestriction::combine_range(&(4..4), &(9..2)), 0..0);
}

#[test]
fn range_union_reports_changes() {
    let mut r = RangeRestriction::new();
    assert!(r.range_union(0, &(2..5)));
    assert_eq!(r.restriction_at_pos(&0), Some(&(2..5)));
    assert!(!r.range_union(0, &(3..4)));
    assert!(r.range_union(0, &(4..9)));
    assert_eq!(r.restriction_at_pos(&0), Some(&(2..9)));
}

#[test]
fn range_intersection_of_restrictions() {
    let mut a = RangeRestriction::new();
    a.insert_range(0, 0..10);
    a.insert_range(1, 3..4);
    let mut map = HashMap::new();
    map.insert(0, 5..20);
    map.insert(2, 7..8);
    let b = RangeRestriction::new_from_map(&map);
    a.range_intersection(&b);
    assert_eq!(a.restriction_at_pos(&0), Some(&(5..10)));
    assert_eq!(a.restriction_at_pos(&1), Some(&(3..4)));
    assert_eq!(a.restriction_at_pos(&2), Some(&(7..8)));
    assert_eq!(a.range_res().len(), 3);
}

#[test]
fn ground_atoms_are_checked_against_ranges() {
    let mut r = RangeRestriction::new();
    r.insert_range(1, 0..10);
    let inside = GroundAtom::new(Tag::new("p"), vec![GroundTerm::new(100), GroundTerm::new(9)]);
    let outside = GroundAtom::new(Tag::new("p"), vec![GroundTerm::new(100), GroundTerm::new(10)]);
    assert!(r.verify_ground_atom(&inside));
    assert!(!r.verify_ground_atom(&outside));
}

#[test]
fn compatibility_and_empty_terms() {
    let mut wide = RangeRestriction::new();
    wide.insert_range(0, 0..100);
    let mut narrow = RangeRestriction::new();
    narrow.insert_range(0, 10..20);
    assert!(wide.verify_compatibility(&narrow));
    assert!(!narrow.verify_compatibility(&wide));
    assert!(wide.verify_no_empty_term());
    let mut empty = RangeRestriction::new();
    empty.insert_range(3, 5..5);
    assert!(!empty.verify_no_empty_term());
    let mut unbounded = RangeRestriction::new();
    unbounded.insert_range(1, range_inf());
    assert!(unbounded.verify_compatibility(&RangeRestriction::new()));
    assert!(!wide.verify_compatibility(&RangeRestriction::new()));
}

#[test]
fn ranges_from_a_global_annotation() {
    // #assert p(?X, ?Y): ?X > 3, ?X <= 7, ?Y < 0.
    let annotation = NormalizedGlobalAnnotation {
        head: BodyAtom::new(Tag::new("p"), vec![Variable::universal("X"), Variable::universal("Y")]),
        body: vec![
            op(OperationKind::NumericGreaterthan, var("X"), lit(3)),
            op(OperationKind::NumericLessthaneq, var("X"), lit(7)),
            op(OperationKind::NumericLessthan, var("Y"), lit(0)),
        ],
    };
    let r = RangeRestriction::from_global_annotation(&annotation);
    assert_eq!(r.restriction_at_pos(&0), Some(&(4..8)));
    assert_eq!(r.restriction_at_pos(&1), Some(&(i32::MIN..0)));
    assert_eq!(r.restriction_at_pos(&2), None);
}

#[test]
fn empty_range_fits_inside() {
    let mut wide = RangeRestriction::new();
    wide.insert_range(0, 0..100);
    let mut empty = RangeRestriction::new();
    empty.insert_range(0, 0..0);
    assert!(wide.verify_compatibility(&empty));
    let mut outside_empty = RangeRestriction::new();
    outside_empty.insert_range(0, 200..200);
    assert!(wide.verify_compatibility(&outside_empty));
}

#[test]
fn variable_on_the_right_flips_the_bound() {
    // #assert bla(?X): 0 < ?X, ?X < 10.
    let annotation = NormalizedGlobalAnnotation {
        head: BodyAtom::new(Tag::new("bla"), vec![Variable::universal("X")]),
        body: vec![
            op(OperationKind::NumericLessthan, lit(0), var("X")),
            op(OperationKind::NumericLessthan, var("X"), lit(10)),
        ],
    };
    let r = RangeRestriction::from_global_annotation(&annotation);
    assert_eq!(r.restriction_at_pos(&0), Some(&(1..10)));
    assert_eq!(r.range_res().len(), 1);
}
