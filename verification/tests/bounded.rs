use graph_simulation::algorithm::bounded::{
    all_distances, Bounded, BoundedLabeledGraph, BoundedSimulation,
};
use graph_simulation::graph::base::{check_well_formed, Adjacency, Graph};
use std::collections::{HashMap, HashSet};

fn graph(bound: usize, nodes: &[(u64, &str)], edges: &[(u64, u64)]) -> BoundedLabeledGraph {
    let mut g = BoundedLabeledGraph::new(bound);
    for (id, label) in nodes {
        g.add_node(*id, label.to_string());
    }
    for (src, dst) in edges {
        g.add_edge(*src, *dst);
    }
    g
}

fn relation(pairs: &[(u64, &[u64])]) -> HashMap<u64, HashSet<u64>> {
    pairs.iter().map(|(u, vs)| (*u, vs.iter().copied().collect())).collect()
}

#[test]
fn edge_answered_by_a_path_of_two() {
    let g1 = graph(2, &[(1, "a"), (3, "c")], &[(1, 3)]);
    let g2 = graph(2, &[(10, "a"), (20, "b"), (30, "c")], &[(10, 20), (20, 30)]);
    assert_eq!(check_well_formed(&g1), Ok(()));
    assert_eq!(check_well_formed(&g2), Ok(()));
    let sim = g1.get_bounded_simulation(&g2);
    assert_eq!(sim, relation(&[(1, &[10]), (3, &[30])]));
}

#[test]
fn distances_are_shortest_paths() {
    let g = graph(1, &[(1, "a"), (2, "b"), (3, "c"), (4, "d")], &[(1, 2), (2, 3), (1, 3), (3, 1)]);
    let adj = g.get_adj();
    let dist = all_distances(&adj);
    assert_eq!(dist[0], vec![Some(0), Some(1), Some(1), None]);
    assert_eq!(dist[1], vec![Some(2), Some(0), Some(1), None]);
    assert_eq!(dist[2], vec![Some(1), Some(2), Some(0), None]);
    assert_eq!(dist[3], vec![None, None, None, Some(0)]);
}

#[test]
fn bounds_are_looked_up_by_endpoints() {
    let mut g = graph(2, &[(1, "a"), (2, "b"), (3, "c")], &[(1, 3), (2, 3)]);
    g.set_bound(2, 3, 5);
    g.set_bound(2, 3, 7);
    let nodes = g.nodes();
    assert_eq!(g.get_bound(&nodes[0], &nodes[2]), 2);
    assert_eq!(g.get_bound(&nodes[1], &nodes[2]), 7);
}

#[test]
fn candidates_on_a_self_loop_need_a_successor() {
    let g1 = graph(1, &[(1, "a")], &[(1, 1)]);
    let g2 = graph(1, &[(10, "a"), (20, "b"), (30, "a")], &[(10, 20)]);
    let sim = g1.get_bounded_simulation(&g2);
    assert_eq!(sim, relation(&[(1, &[10])]));
}

#[test]
fn edges_into_one_node_with_different_bounds() {
    let mut g1 = graph(1, &[(1, "a"), (2, "b"), (3, "c")], &[(1, 3), (2, 3)]);
    g1.set_bound(2, 3, 3);
    let g2 = graph(
        1,
        &[(10, "a"), (20, "b"), (30, "c"), (40, "x"), (50, "c")],
        &[(10, 30), (20, 40), (40, 50)],
    );
    let sim = g1.get_bounded_simulation(&g2);
    assert_eq!(sim, relation(&[(1, &[10]), (2, &[20]), (3, &[30, 50])]));
}

#[test]
fn bound_too_small_gives_the_empty_map() {
    let g1 = graph(1, &[(1, "a"), (2, "c")], &[(1, 2)]);
    let g2 = graph(1, &[(1, "a"), (2, "b"), (3, "c")], &[(1, 2), (2, 3)]);
    let sim = g1.get_bounded_simulation(&g2);
    assert!(sim.is_empty());
}

#[test]
fn node_without_candidates_gives_the_empty_map() {
    let g1 = graph(3, &[(1, "a"), (2, "z")], &[(1, 2)]);
    let g2 = graph(3, &[(10, "a"), (20, "b")], &[(10, 20)]);
    assert!(g1.get_bounded_simulation(&g2).is_empty());
}

#[test]
fn partner_out_of_reach_leaves_the_relation() {
    let g1 = graph(1, &[(1, "a"), (2, "c")], &[(1, 2)]);
    let g2 = graph(
        1,
        &[(10, "a"), (30, "c"), (40, "a"), (50, "b"), (60, "c")],
        &[(10, 30), (40, 50), (50, 60)],
    );
    let sim = g1.get_bounded_simulation(&g2);
    assert_eq!(sim, relation(&[(1, &[10]), (2, &[30, 60])]));
}

#[test]
fn every_kept_pair_has_a_kept_partner_within_the_bound() {
    let mut g1 = graph(2, &[(1, "a"), (2, "b"), (3, "a")], &[(1, 2), (2, 3), (3, 1)]);
    g1.set_bound(2, 3, 1);
    let g2 = graph(
        2,
        &[(10, "a"), (20, "x"), (30, "b"), (40, "a"), (50, "b")],
        &[(10, 20), (20, 30), (30, 40), (40, 50), (50, 10)],
    );
    let sim = g1.get_bounded_simulation(&g2);
    assert!(!sim.is_empty());
    let adj = g2.get_adj();
    let dist = all_distances(&adj);
    let place = |id: u64| g2.nodes().iter().position(|n| n.id == id).unwrap();
    for edge in g1.edges() {
        let src = g1.nodes().iter().find(|n| n.id == edge.src).unwrap();
        let dst = g1.nodes().iter().find(|n| n.id == edge.dst).unwrap();
        let bound = g1.get_bound(src, dst);
        for v in &sim[&edge.src] {
            assert!(sim[&edge.dst]
                .iter()
                .any(|v2| matches!(dist[place(*v)][place(*v2)], Some(d) if d <= bound)));
        }
    }
}

#[test]
fn empty_left_graph_gives_the_empty_map() {
    let g1 = graph(1, &[], &[]);
    let g2 = graph(1, &[(10, "a")], &[]);
    assert!(g1.get_bounded_simulation(&g2).is_empty());
}
