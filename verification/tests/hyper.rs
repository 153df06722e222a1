use graph_simulation::algorithm::hyper_simulation::{
    HyperSimulation, HyperSimulationError, LMatch, LPredicate,
};
use graph_simulation::graph::hypergraph::{
    ContainedHyperedge, Hyperedge, Hypergraph, Typed, TypedHypergraph,
};
use graph_simulation::utils::predicate::MatchTable;
use std::collections::{HashMap, HashSet};

fn net(nodes: &[(u64, u64)], edges: &[(u64, u64, &[u64])]) -> TypedHypergraph {
    let mut g = TypedHypergraph::new();
    for (id, kind) in nodes {
        g.add_node(*id, *kind);
    }
    for (id, kind, ids) in edges {
        g.add_hyperedge(*id, *kind, ids.to_vec());
    }
    g
}

fn table(lines: &[(u64, u64, u64, &[u64])]) -> MatchTable {
    let mut t = MatchTable::new();
    for (left, right, node, images) in lines {
        t.record(*left, *right, *node, images.iter().copied().collect());
    }
    t
}

fn relation(pairs: &[(u64, &[u64])]) -> HashMap<u64, HashSet<u64>> {
    pairs.iter().map(|(u, vs)| (*u, vs.iter().copied().collect())).collect()
}

#[test]
fn node_of_the_domain_answered_outside_the_image_takes_the_pair_out() {
    // The match sends 2 to 20 only, and 20 is no candidate of 1: so nothing
    // upholds the pair (1, 10), though the match offers 10 for 1.
    let left = net(&[(1, 0), (2, 1)], &[(5, 9, &[1, 2])]);
    let right = net(&[(10, 0), (20, 1), (30, 1)], &[(6, 9, &[10, 20, 30])]);
    let mut t = table(&[(5, 6, 1, &[10]), (5, 6, 2, &[20])]);
    let sim = left.get_simulation_naive(&right, &mut t);
    assert_eq!(sim, relation(&[(1, &[]), (2, &[])]));
}

#[test]
fn match_that_answers_every_node_within_the_image() {
    // Every node of the domain must be answered within the image of the node
    // under test, so a match that sends both left nodes to one right node holds.
    let left = net(&[(1, 0), (2, 0)], &[(5, 9, &[1, 2])]);
    let right = net(&[(10, 0), (20, 0)], &[(6, 9, &[10, 20])]);
    let mut t = table(&[(5, 6, 1, &[10]), (5, 6, 2, &[10])]);
    let sim = left.get_simulation_naive(&right, &mut t);
    assert_eq!(sim, relation(&[(1, &[10]), (2, &[10])]));
    let soft = left.get_soft_simulation_naive(&right, &mut t);
    assert_eq!(soft, relation(&[(1, &[10]), (2, &[10])]));
}

#[test]
fn match_is_restricted_to_nodes_of_the_same_type() {
    let left = net(&[(1, 0), (2, 1)], &[(5, 9, &[1, 2])]);
    let right = net(&[(10, 0), (20, 0)], &[(6, 9, &[10, 20])]);
    let mut t = table(&[(5, 6, 1, &[10, 20]), (5, 6, 2, &[10, 20])]);
    let sim = left.get_simulation_naive(&right, &mut t);
    assert_eq!(sim, relation(&[(1, &[10, 20]), (2, &[])]));
}

#[test]
fn single_hyperedge_pair_gives_its_match() {
    let left = net(&[(1, 0)], &[(5, 9, &[1])]);
    let right = net(&[(10, 0), (20, 0), (30, 1)], &[(6, 9, &[10, 20, 30])]);
    let mut t = table(&[(5, 6, 1, &[10, 30])]);
    let sim = left.get_simulation_naive(&right, &mut t);
    assert_eq!(sim, relation(&[(1, &[10])]));
}

#[test]
fn node_on_no_hyperedge_has_no_candidates_unless_soft() {
    let left = net(&[(1, 0)], &[]);
    let right = net(&[(10, 0), (20, 1)], &[]);
    let mut t = MatchTable::new();
    let sim = left.get_simulation_naive(&right, &mut t);
    assert_eq!(sim, relation(&[(1, &[])]));
    let soft = left.get_soft_simulation_naive(&right, &mut t);
    assert_eq!(soft, relation(&[(1, &[10])]));
}

#[test]
fn hyperedges_of_other_types_do_not_constrain_the_soft_variant() {
    let left = net(&[(1, 0)], &[(5, 9, &[1])]);
    let right = net(&[(10, 0)], &[(6, 8, &[10])]);
    let mut t = MatchTable::new();
    assert_eq!(left.get_simulation_naive(&right, &mut t), relation(&[(1, &[])]));
    assert_eq!(left.get_soft_simulation_naive(&right, &mut t), relation(&[(1, &[10])]));
}

#[test]
fn engines_without_definition_say_so() {
    let left = net(&[(1, 0)], &[]);
    let right = net(&[(10, 0)], &[]);
    let mut t = MatchTable::new();
    assert_eq!(
        left.get_simulation_fixpoint(&right, &mut t),
        Err(HyperSimulationError::NotImplemented)
    );
    assert_eq!(
        left.get_simulation_recursive(&right, &mut t),
        Err(HyperSimulationError::NotImplemented)
    );
}

#[test]
fn contained_hyperedges_are_listed_in_order() {
    let g = net(&[(1, 0), (2, 0)], &[(5, 0, &[1]), (6, 0, &[2]), (7, 0, &[2, 1])]);
    let list = g.get_hyperedges_list();
    let ids: Vec<u64> =
        g.contained_hyperedges(&list, &g.nodes()[0]).iter().map(|e| e.id).collect();
    assert_eq!(ids, vec![5, 7]);
    assert_eq!(g.get_node_by_id(2), Some(&g.nodes()[1]));
    assert_eq!(g.get_node_by_id(3), None);
    assert!(g.type_same(&g.nodes()[0], &g.nodes()[1]));
    assert!(g.hyperedges()[2].joins(1));
    assert!(!g.hyperedges()[0].joins(2));
    assert_eq!(g.hyperedges()[2].id_set(), [1u64, 2].into_iter().collect::<HashSet<u64>>());
}

#[test]
fn match_table_answers_from_its_first_line() {
    let g = net(&[], &[(5, 0, &[]), (6, 0, &[])]);
    let e = &g.hyperedges()[0];
    let f = &g.hyperedges()[1];
    let mut t = table(&[(5, 6, 1, &[10]), (5, 6, 2, &[20]), (5, 6, 1, &[30]), (6, 5, 9, &[1])]);
    assert_eq!(t.l_match_with_node(e, f, 1), &[10u64].into_iter().collect::<HashSet<u64>>());
    assert_eq!(t.l_match_with_node_mut(e, f, 2), &[20u64].into_iter().collect::<HashSet<u64>>());
    assert!(t.l_match_with_node(e, f, 3).is_empty());
    assert_eq!(t.dom(e, f), vec![1, 2, 1]);
    assert_eq!(t.dom(f, e), vec![9]);
    assert!(g.l_predicate_edge(e, f));
    assert!(g.l_predicate_set(&e.id_set(), &f.id_set()));
}
