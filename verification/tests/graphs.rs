use nemo::execution::planning::normalization::atom::{BodyAtom, HeadAtom};
use nemo::execution::planning::normalization::operation::Operation;
use nemo::execution::planning::normalization::program::NormalizedProgram;
use nemo::execution::planning::normalization::rule::NormalizedRule;
use nemo::execution::planning::verification::annotation_analysis::propagation_graph::PropagationGraph;
use nemo::execution::planning::verification::annotation_analysis::rule_selection::RuleAnalysisGraph;
use nemo::rule_model::components::operation_kind::OperationKind;
use nemo::rule_model::components::tag::Tag;
use nemo::rule_model::components::variable::{GroundTerm, Primitive, Variable};

fn copy_rule(id: usize, from: &str, to: &str) -> NormalizedRule {
    NormalizedRule::new(
        id,
        vec![HeadAtom::new(Tag::new(to), vec![Primitive::Variable(Variable::universal("X"))])],
        vec![BodyAtom::new(Tag::new(from), vec![Variable::universal("X")])],
        vec![],
        vec![],
        vec![],
    )
}

fn successor_rule(id: usize, from: &str, to: &str) -> NormalizedRule {
    let x = Operation::Primitive(Primitive::Variable(Variable::universal("X")));
    let y = Operation::Primitive(Primitive::Variable(Variable::universal("Y")));
    let one = Operation::Primitive(Primitive::Ground(GroundTerm::new(1)));
    let sum = Operation::Operation { kind: OperationKind::NumericSum, subterms: vec![x, one] };
    NormalizedRule::new(
        id,
        vec![HeadAtom::new(Tag::new(to), vec![Primitive::Variable(Variable::universal("Y"))])],
        vec![BodyAtom::new(Tag::new(from), vec![Variable::universal("X")])],
        vec![],
        vec![Operation::Operation { kind: OperationKind::Equal, subterms: vec![y, sum] }],
        vec![],
    )
}

fn program(rules: Vec<NormalizedRule>) -> NormalizedProgram {
    NormalizedProgram::new(rules, vec![], vec![], vec![], vec![])
}

#[test]
fn components_come_in_dependency_order() {
    let p = program(vec![copy_rule(0, "p", "q"), copy_rule(1, "q", "r"), copy_rule(2, "r", "q")]);
    let mut graph = RuleAnalysisGraph::new(p.rules().iter().collect());
    assert_eq!(graph.next_scc(), Some(vec![0]));
    assert_eq!(graph.next_scc(), Some(vec![1, 2]));
    assert_eq!(graph.next_scc(), None);
    graph.reset_scc_count();
    assert_eq!(graph.next_scc(), Some(vec![0]));
    let mut copy = graph.clone();
    assert_eq!(copy.next_scc(), Some(vec![1, 2]));
}

#[test]
fn components_of_independent_rules() {
    let p = program(vec![copy_rule(0, "b", "c"), copy_rule(1, "a", "b")]);
    let mut graph = RuleAnalysisGraph::new(p.rules().iter().collect());
    assert_eq!(graph.next_scc(), Some(vec![1]));
    assert_eq!(graph.next_scc(), Some(vec![0]));
    assert_eq!(graph.next_scc(), None);
}

#[test]
fn copying_cycle_is_weakly_acyclic() {
    let p = program(vec![copy_rule(0, "p", "q"), copy_rule(1, "q", "r"), copy_rule(2, "r", "q")]);
    let graph = PropagationGraph::build_graph(&p, &vec![1, 2]);
    assert_eq!(graph.nodes.len(), 2);
    assert_eq!(graph.edges.len(), 2);
    assert!(graph.is_weakly_acyclic());
    let cycles = graph.all_rule_cycles();
    assert_eq!(cycles.len(), 1);
    let mut cycle = cycles[0].clone();
    cycle.sort();
    assert_eq!(cycle, vec![1, 2]);
}

#[test]
fn successor_cycle_is_not_weakly_acyclic() {
    let p = program(vec![successor_rule(0, "n", "n")]);
    let graph = PropagationGraph::build_graph(&p, &vec![0]);
    assert_eq!(graph.nodes.len(), 1);
    let (tag, position) = graph.node_predicate_pos(0);
    assert_eq!(tag.name(), "n");
    assert_eq!(position, 0);
    assert_eq!(graph.edges.len(), 1);
    assert!(graph.edges[0].3);
    assert!(!graph.is_weakly_acyclic());
    assert_eq!(graph.all_rule_cycles(), vec![vec![0]]);
    let rule_graph = graph.rule_graph_from_propagation_graph();
    assert_eq!(rule_graph.nodes, vec![0]);
    assert_eq!(rule_graph.edges, vec![(0, 0, true)]);
}

#[test]
fn two_rule_successor_cycle_lists_one_cycle() {
    let p = program(vec![successor_rule(0, "a", "b"), copy_rule(1, "b", "a")]);
    let graph = PropagationGraph::build_graph(&p, &vec![0, 1]);
    assert!(!graph.is_weakly_acyclic());
    let cycles = graph.all_rule_cycles();
    assert_eq!(cycles.len(), 1);
    let mut cycle = cycles[0].clone();
    cycle.sort();
    assert_eq!(cycle, vec![0, 1]);
}

#[test]
fn critical_outgoing_edge_makes_rule_edge_critical() {
    // b(?X) :- a(?X). copies; a(?Y) :- b(?X), ?Y = ?X + 1. creates a value.
    let p = program(vec![copy_rule(0, "a", "b"), successor_rule(1, "b", "a")]);
    let graph = PropagationGraph::build_graph(&p, &vec![0, 1]);
    let rule_graph = graph.rule_graph_from_propagation_graph();
    assert_eq!(rule_graph.nodes.len(), 2);
    assert_eq!(rule_graph.edges.len(), 2);
    for (from, to, critical) in &rule_graph.edges {
        assert_ne!(from, to);
        assert!(*critical);
    }
}

#[test]
fn every_rule_cycle_is_listed() {
    // b(?X) :- a(?X).  a(?X) :- b(?X).  a(?X) :- a(?X).
    let p = program(vec![copy_rule(0, "a", "b"), copy_rule(1, "b", "a"), copy_rule(2, "a", "a")]);
    let graph = PropagationGraph::build_graph(&p, &vec![0, 1, 2]);
    let mut shapes: Vec<Vec<usize>> = graph
        .all_rule_cycles()
        .into_iter()
        .map(|mut c| {
            c.sort();
            c
        })
        .collect();
    shapes.sort();
    assert_eq!(shapes, vec![vec![0, 1], vec![0, 1, 2], vec![2]]);
    assert!(graph.is_weakly_acyclic());
}
