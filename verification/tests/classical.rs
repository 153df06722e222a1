use graph_simulation::algorithm::simulation::Simulation;
use graph_simulation::graph::base::{
    check_well_formed, Adjacency, AdjacencyInv, Degree, Graph, GraphError,
};
use graph_simulation::graph::labeled_graph::StandardLabeledGraph;
use std::collections::{HashMap, HashSet};

fn graph(nodes: &[(u64, &str)], edges: &[(u64, u64)]) -> StandardLabeledGraph {
    let mut g = StandardLabeledGraph::new();
    for (id, label) in nodes {
        g.add_node(*id, label.to_string());
    }
    for (src, dst) in edges {
        g.add_edge(*src, *dst);
    }
    g
}

fn relation(pairs: &[(u64, &[u64])]) -> HashMap<u64, HashSet<u64>> {
    pairs
        .iter()
        .map(|(u, vs)| (*u, vs.iter().copied().collect()))
        .collect()
}

#[test]
fn self_loop_needs_a_successor_on_the_right() {
    let g1 = graph(&[(1, "a")], &[(1, 1)]);
    let g2 = graph(&[(7, "a")], &[]);
    assert_eq!(check_well_formed(&g1), Ok(()));
    assert_eq!(check_well_formed(&g2), Ok(()));
    let sim = g1.get_simulation_inter(&g2);
    assert_eq!(sim, relation(&[(1, &[])]));
    assert!(!StandardLabeledGraph::has_simulation(sim));
    let sim = g1.get_simulation_native(&g2);
    assert_eq!(sim, relation(&[(1, &[])]));
}

#[test]
fn isolated_node_matches_isolated_node() {
    let g1 = graph(&[(1, "a")], &[]);
    let g2 = graph(&[(7, "a")], &[]);
    let sim = g1.get_simulation_inter(&g2);
    assert_eq!(sim, relation(&[(1, &[7])]));
    assert!(StandardLabeledGraph::has_simulation(sim));
}

#[test]
fn edge_into_longer_path() {
    let g1 = graph(&[(1, "a"), (2, "b")], &[(1, 2)]);
    let g2 = graph(&[(10, "a"), (20, "b"), (30, "b")], &[(10, 20), (20, 30)]);
    let expected = relation(&[(1, &[10]), (2, &[20, 30])]);
    assert_eq!(g1.get_simulation_inter(&g2), expected);
    assert_eq!(g1.get_simulation_native(&g2), expected);
}

#[test]
fn path_into_cycle() {
    let g1 = graph(&[(1, "a"), (2, "b"), (3, "c")], &[(1, 2), (2, 3)]);
    let g2 = graph(&[(10, "a"), (20, "b"), (30, "c")], &[(10, 20), (20, 30), (30, 10)]);
    let expected = relation(&[(1, &[10]), (2, &[20]), (3, &[30])]);
    assert_eq!(g1.get_simulation_inter(&g2), expected);
    assert_eq!(g1.get_simulation_native(&g2), expected);
}

#[test]
fn self_loop_on_the_left_against_a_dead_end() {
    let g1 = graph(&[(1, "a")], &[(1, 1)]);
    let g2 = graph(&[(10, "a"), (20, "a"), (30, "a")], &[(10, 20), (20, 30)]);
    let expected = relation(&[(1, &[])]);
    assert_eq!(g1.get_simulation_inter(&g2), expected);
    assert_eq!(g1.get_simulation_native(&g2), expected);
}

#[test]
fn simulation_of_a_graph_by_itself() {
    let g = graph(&[(1, "a"), (2, "a"), (3, "b"), (4, "c")], &[(1, 3), (2, 4)]);
    let expected = relation(&[(1, &[1]), (2, &[2]), (3, &[3]), (4, &[4])]);
    assert_eq!(g.get_simulation(), expected);
}

#[test]
fn missing_endpoint_is_named() {
    let g = graph(&[(1, "a")], &[(1, 9)]);
    assert_eq!(check_well_formed(&g), Err(GraphError::MissingEndpoint(9)));
    let g = graph(&[(1, "a"), (1, "b")], &[]);
    assert_eq!(check_well_formed(&g), Err(GraphError::DuplicateId(1)));
}

#[test]
fn adjacency_lists_follow_edge_order() {
    let g = graph(&[(1, "a"), (2, "b"), (3, "c")], &[(1, 3), (1, 2), (3, 1)]);
    let adj = g.get_adj();
    let adj_inv = g.get_adj_inv();
    let nodes = g.nodes();
    let post: Vec<u64> = g.get_post(&adj, &nodes[0]).iter().map(|n| n.id).collect();
    assert_eq!(post, vec![3, 2]);
    let pre: Vec<u64> = g.get_pre(&adj_inv, &nodes[0]).iter().map(|n| n.id).collect();
    assert_eq!(pre, vec![3]);
    let pairs: Vec<(u64, u64)> = g.get_edges_pair().iter().map(|(a, b)| (a.id, b.id)).collect();
    assert_eq!(pairs, vec![(1, 3), (1, 2), (3, 1)]);
}

#[test]
fn add_sums() {
    assert_eq!(graph_simulation::add(2, 3), 5);
}

fn pairs_of(sim: &HashMap<u64, HashSet<u64>>) -> HashSet<(u64, u64)> {
    sim.iter().flat_map(|(u, vs)| vs.iter().map(move |v| (*u, *v))).collect()
}

fn label_of(g: &StandardLabeledGraph, id: u64) -> String {
    g.nodes().iter().find(|n| n.id == id).unwrap().label.clone()
}

fn post_of(g: &StandardLabeledGraph, id: u64) -> Vec<u64> {
    g.edges().iter().filter(|e| e.src == id).map(|e| e.dst).collect()
}

fn is_simulation(g1: &StandardLabeledGraph, g2: &StandardLabeledGraph, s: &HashSet<(u64, u64)>) -> bool {
    s.iter().all(|(u, v)| {
        label_of(g1, *u) == label_of(g2, *v)
            && post_of(g1, *u)
                .iter()
                .all(|u2| post_of(g2, *v).iter().any(|v2| s.contains(&(*u2, *v2))))
    })
}

fn corpus() -> Vec<(StandardLabeledGraph, StandardLabeledGraph)> {
    vec![
        (
            graph(&[(1, "a"), (2, "b"), (3, "b")], &[(1, 2), (1, 3), (2, 3)]),
            graph(&[(10, "a"), (20, "b"), (30, "b"), (40, "a")], &[(10, 20), (20, 30), (40, 30)]),
        ),
        (
            graph(&[(1, "a"), (2, "a")], &[(1, 2), (2, 1)]),
            graph(&[(10, "a"), (20, "a"), (30, "a")], &[(10, 20), (20, 30), (30, 30)]),
        ),
        (
            graph(&[(1, "x"), (2, "y"), (3, "z")], &[(1, 2), (2, 3), (3, 1), (1, 1)]),
            graph(&[(5, "x"), (6, "y"), (7, "z"), (8, "y")], &[(5, 6), (6, 7), (7, 5), (5, 8), (5, 5)]),
        ),
        (graph(&[], &[]), graph(&[(1, "a")], &[])),
        (graph(&[(1, "a")], &[]), graph(&[], &[])),
        (
            graph(&[(1, "a"), (2, "b")], &[(1, 2), (1, 2)]),
            graph(&[(10, "a"), (20, "b"), (30, "c")], &[(10, 30), (10, 20)]),
        ),
    ]
}

#[test]
fn related_nodes_carry_the_same_label() {
    for (g1, g2) in corpus() {
        for (u, v) in pairs_of(&g1.get_simulation_inter(&g2)) {
            assert_eq!(label_of(&g1, u), label_of(&g2, v));
        }
    }
}

#[test]
fn every_successor_has_a_witness() {
    for (g1, g2) in corpus() {
        let s = pairs_of(&g1.get_simulation_inter(&g2));
        assert!(is_simulation(&g1, &g2, &s));
        let s = pairs_of(&g1.get_simulation_native(&g2));
        assert!(is_simulation(&g1, &g2, &s));
    }
}

#[test]
fn successors_on_the_left_need_successors_on_the_right() {
    for (g1, g2) in corpus() {
        for (u, v) in pairs_of(&g1.get_simulation_inter(&g2)) {
            if !post_of(&g1, u).is_empty() {
                assert!(!post_of(&g2, v).is_empty());
            }
        }
    }
}

#[test]
fn both_engines_give_the_same_relation() {
    for (g1, g2) in corpus() {
        assert_eq!(g1.get_simulation_inter(&g2), g1.get_simulation_native(&g2));
        assert_eq!(g1.get_simulation(), g1.get_simulation_native(&g1));
    }
}

#[test]
fn every_simulation_lies_within_the_result() {
    let (g1, g2) = corpus().remove(1);
    let result = pairs_of(&g1.get_simulation_inter(&g2));
    let small: HashSet<(u64, u64)> = [(1, 30), (2, 30)].into_iter().collect();
    assert!(is_simulation(&g1, &g2, &small));
    assert!(small.is_subset(&result));
    let expected: HashSet<(u64, u64)> =
        [(1, 10), (1, 20), (1, 30), (2, 10), (2, 20), (2, 30)].into_iter().collect();
    assert_eq!(result, expected);
}

#[test]
fn result_lies_within_the_pairs_of_the_same_label() {
    for (g1, g2) in corpus() {
        let sim = g1.get_simulation_native(&g2);
        for n in g1.nodes() {
            let all: HashSet<u64> =
                g2.nodes().iter().filter(|m| m.label == n.label).map(|m| m.id).collect();
            assert!(sim[&n.id].is_subset(&all));
        }
    }
}

#[test]
fn has_simulation_asks_for_every_image() {
    assert!(StandardLabeledGraph::has_simulation(relation(&[])));
    assert!(StandardLabeledGraph::has_simulation(relation(&[(1, &[2]), (3, &[4, 5])])));
    assert!(!StandardLabeledGraph::has_simulation(relation(&[(1, &[2]), (3, &[])])));
}

#[test]
fn graph_keeps_insertion_order() {
    let g = graph(&[(3, "c"), (1, "a")], &[(3, 1), (1, 3)]);
    let ids: Vec<u64> = g.nodes().iter().map(|n| n.id).collect();
    assert_eq!(ids, vec![3, 1]);
    let ends: Vec<(u64, u64)> = g.edges().iter().map(|e| (e.src, e.dst)).collect();
    assert_eq!(ends, vec![(3, 1), (1, 3)]);
    let triples: Vec<(u64, (u64, u64), u64)> = g
        .get_edges_pair_with_edge()
        .iter()
        .map(|(a, e, b)| (a.id, (e.src, e.dst), b.id))
        .collect();
    assert_eq!(triples, vec![(3, (3, 1), 1), (1, (1, 3), 3)]);
}

#[test]
fn graph_takes_nodes_and_edges_as_values() {
    let mut g = StandardLabeledGraph::new();
    Graph::add_node(&mut g, graph(&[(4, "d")], &[]).nodes()[0].clone());
    Graph::add_edge(&mut g, graph(&[], &[(4, 4)]).edges()[0].clone());
    assert_eq!(g.nodes().len(), 1);
    assert_eq!(g.edges().len(), 1);
    assert_eq!(check_well_formed(&g), Ok(()));
}

#[test]
fn out_degrees_count_the_edges_that_leave() {
    let g = graph(&[(1, "a"), (2, "b"), (3, "c")], &[(1, 3), (1, 2), (3, 1), (1, 3)]);
    let degrees = g.get_out_degree();
    let found: Vec<usize> = g.nodes().iter().map(|n| g.out_degree(&degrees, n)).collect();
    assert_eq!(found, vec![3, 0, 1]);
    assert_eq!(degrees.len(), 3);
    assert_eq!(degrees.at(2), 1);
}

#[test]
fn adjacency_index_finds_positions_by_id() {
    let g = graph(&[(5, "a"), (9, "b")], &[(9, 5)]);
    let adj = g.get_adj();
    assert_eq!(adj.len(), 2);
    assert_eq!(adj.row(1), &vec![0]);
    assert_eq!(adj.row(0), &Vec::<usize>::new());
    assert_eq!(adj.position_of(9), Some(1));
    assert_eq!(adj.position_of(1), None);
}
