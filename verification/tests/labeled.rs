use graph_simulation::algorithm::simulation::Simulation;
use graph_simulation::graph::base::{Graph, IdPair, Label as Shown, SingleId};
use graph_simulation::graph::labeled_graph::{
    HyperLabelGraph, Label, LabelNode, Labeled, LabeledAdjacency, LabeledEdge, SingleLabel,
    StandardLabeledGraph,
};
use std::collections::{HashMap, HashSet};

fn graph(nodes: &[(u64, &str)], edges: &[(u64, u64)]) -> StandardLabeledGraph {
    let mut g = StandardLabeledGraph::new();
    for (id, label) in nodes {
        g.add_node(*id, label.to_string());
    }
    for (src, dst) in edges {
        g.add_edge(*src, *dst);
    }
    g
}

#[test]
fn nodes_and_edges_show_their_parts() {
    let node = LabelNode { id: 7, label: "seven".to_string() };
    assert_eq!(node.id(), 7);
    assert_eq!(Shown::label(&node), "seven");
    let edge = LabeledEdge { src: 1, dst: 2, label: SingleLabel(()) };
    assert_eq!(edge.pair(), (1, 2));
    assert_eq!(Shown::label(&edge), "");
    assert_eq!(Label::label(&SingleLabel(())), "");
    assert_eq!(Label::label(&"text".to_string()), "text");
    assert!(SingleLabel(()) == SingleLabel(()));
}

#[test]
fn labels_are_compared_as_text() {
    let g = graph(&[(1, "a"), (2, "a"), (3, "b")], &[(1, 2), (2, 3)]);
    let nodes = g.nodes();
    let edges = g.edges();
    assert!(g.label_same(&nodes[0], &nodes[1]));
    assert!(!g.label_same(&nodes[0], &nodes[2]));
    assert_eq!(g.get_label(&nodes[2]), "b");
    assert!(g.edge_label_same(&edges[0], &edges[1]));
    assert!(g.edge_node_label_same(&nodes[0], &edges[0], &nodes[1], &nodes[1], &edges[1], &nodes[2]));
    let with_labels: Vec<(u64, u64)> =
        g.get_edges_pair_label().iter().map(|(a, b, _)| (a.id, b.id)).collect();
    assert_eq!(with_labels, vec![(1, 2), (2, 3)]);
}

#[test]
fn labeled_successors_come_with_their_edges() {
    let g = graph(&[(1, "a"), (2, "b"), (3, "c")], &[(2, 1), (1, 3), (1, 2), (1, 3)]);
    let adj = g.get_labeled_adj();
    let post: Vec<(u64, (u64, u64))> = g
        .get_labeled_post(&adj, &g.nodes()[0])
        .iter()
        .map(|(n, e)| (n.id, (e.src, e.dst)))
        .collect();
    assert_eq!(post, vec![(3, (1, 3)), (2, (1, 2)), (3, (1, 3))]);
    assert_eq!(adj.len(), 3);
    assert_eq!(adj.row(0), &vec![(2, 1), (1, 2), (2, 3)]);
    assert_eq!(adj.position_of(3), Some(2));
    assert_eq!(adj.position_of(9), None);
}

type Same = fn(&SingleLabel, &SingleLabel) -> bool;

fn always(_a: &SingleLabel, _b: &SingleLabel) -> bool {
    true
}

#[test]
fn hyper_label_graph_compares_by_the_predicate_it_was_given() {
    let mut g1: HyperLabelGraph<SingleLabel, Same> = HyperLabelGraph::new();
    g1.set_same_label_fn(always);
    let mut g2: HyperLabelGraph<SingleLabel, Same> = HyperLabelGraph::new();
    g2.set_same_label_fn(always);
    for (g, ids, ends) in [
        (&mut g1, vec![1u64, 2], vec![(1u64, 2u64)]),
        (&mut g2, vec![10, 20, 30], vec![(10, 20), (20, 30)]),
    ] {
        for id in ids {
            g.add_node(LabelNode { id, label: SingleLabel(()) });
        }
        for (src, dst) in ends {
            g.add_edge(LabeledEdge { src, dst, label: SingleLabel(()) });
        }
    }
    assert!(g1.label_same(&g1.nodes()[0], &g2.nodes()[2]));
    let sim = g1.get_simulation_inter(&g2);
    let expected: HashMap<u64, HashSet<u64>> = [
        (1u64, [10u64, 20].into_iter().collect::<HashSet<u64>>()),
        (2, [10, 20, 30].into_iter().collect()),
    ]
    .into_iter()
    .collect();
    assert_eq!(sim, expected);
}
