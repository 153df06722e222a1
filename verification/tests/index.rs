use graph_simulation::algorithm::bounded::{
    all_distances, bounds_of, distances_from, has_near, near, prune_bounded_edge, refine_bounded,
    row_is_empty, BoundedLabeledGraph,
};
use graph_simulation::algorithm::relation::{get_entry, new_grid, new_row, set_entry};
use graph_simulation::algorithm::simulation::{
    copy_grid, find_pending, has_witness, initial_candidates, initial_remove, label_matrix,
    prune_edge, refine_by_passes, refine_with_remove_sets, take_row, to_map,
};
use graph_simulation::graph::base::{
    collect_rows, find_missing_endpoint, index_nodes, resolve_arcs, Adjacency, AdjacencyInv, Graph,
    GraphError,
};
use graph_simulation::graph::labeled_graph::StandardLabeledGraph;

fn graph(nodes: &[(u64, &str)], edges: &[(u64, u64)]) -> StandardLabeledGraph {
    let mut g = StandardLabeledGraph::new();
    for (id, label) in nodes {
        g.add_node(*id, label.to_string());
    }
    for (src, dst) in edges {
        g.add_edge(*src, *dst);
    }
    g
}

#[test]
fn grids_are_set_and_read_by_entry() {
    let mut m = new_grid(2, 3, false);
    assert_eq!(m, vec![vec![false; 3]; 2]);
    set_entry(&mut m, 1, 2, true);
    assert!(get_entry(&m, 1, 2));
    assert!(!get_entry(&m, 0, 2));
    assert_eq!(copy_grid(&m), m);
    assert_eq!(new_row(2, true), vec![true, true]);
    assert_eq!(find_pending(&m), Some(1));
    assert_eq!(take_row(&mut m, 1), vec![false, false, true]);
    assert_eq!(m, vec![vec![false; 3]; 2]);
    assert_eq!(find_pending(&m), None);
    assert!(row_is_empty(&m[0]));
    assert!(!row_is_empty(&vec![false, true]));
}

#[test]
fn ids_are_resolved_to_positions() {
    let g = graph(&[(7, "a"), (3, "b"), (5, "c")], &[(3, 5), (5, 7), (3, 7)]);
    let table = index_nodes(g.nodes()).unwrap();
    assert_eq!(table.get(&3), Some(&1));
    assert_eq!(table.len(), 3);
    assert_eq!(find_missing_endpoint(g.nodes(), g.edges(), &table), None);
    let arcs = resolve_arcs(g.nodes(), g.edges(), &table);
    assert_eq!(arcs, vec![(1, 2), (2, 0), (1, 0)]);
    assert_eq!(collect_rows(3, &arcs, true), vec![vec![], vec![2, 0], vec![0]]);
    assert_eq!(collect_rows(3, &arcs, false), vec![vec![2, 1], vec![], vec![1]]);
    let twice = graph(&[(1, "a"), (2, "b"), (1, "c")], &[]);
    assert_eq!(index_nodes(twice.nodes()).err(), Some(GraphError::DuplicateId(1)));
    let dangling = graph(&[(1, "a")], &[(1, 1), (4, 1)]);
    let table = index_nodes(dangling.nodes()).unwrap();
    assert_eq!(find_missing_endpoint(dangling.nodes(), dangling.edges(), &table), Some(4));
}

#[test]
fn remove_sets_start_from_nodes_with_successors_but_no_candidate_successor() {
    let g1 = graph(&[(1, "a"), (2, "b")], &[(1, 2)]);
    let g2 = graph(&[(10, "a"), (20, "b"), (30, "a"), (40, "c")], &[(10, 20), (30, 40), (20, 10)]);
    let adj1 = g1.get_adj();
    let adj2 = g2.get_adj();
    let labels = label_matrix(&g1, &g2);
    assert_eq!(labels, vec![vec![true, false, true, false], vec![false, true, false, false]]);
    let sim = initial_candidates(&adj1, &adj2, &labels);
    assert_eq!(sim, labels);
    let remove = initial_remove(&adj2, &sim);
    assert_eq!(remove, vec![vec![true, false, true, false], vec![false, true, true, false]]);
    assert!(has_witness(&vec![1, 3], &vec![false, false, false, true]));
    assert!(!has_witness(&vec![1, 3], &vec![true, false, true, false]));
    assert!(!has_witness(&vec![], &vec![true]));
}

#[test]
fn both_refinements_agree_on_a_relation_that_is_no_equivalence() {
    let g1 = graph(&[(1, "x"), (2, "y"), (3, "z")], &[(1, 2), (2, 3), (3, 3)]);
    let g2 = graph(&[(10, "p"), (20, "q"), (30, "r"), (40, "s")], &[(10, 20), (20, 30), (30, 40)]);
    let compat = vec![
        vec![true, true, false, false],
        vec![false, true, true, true],
        vec![false, false, true, true],
    ];
    let adj1 = g1.get_adj();
    let adj_inv1 = g1.get_adj_inv();
    let adj2 = g2.get_adj();
    let adj_inv2 = g2.get_adj_inv();
    let by_sets = refine_with_remove_sets(&adj1, &adj_inv1, &adj2, &adj_inv2, &compat);
    let table = index_nodes(g1.nodes()).unwrap();
    let arcs1 = resolve_arcs(g1.nodes(), g1.edges(), &table);
    let by_passes = refine_by_passes(3, &arcs1, &adj2, &compat);
    assert_eq!(by_sets, by_passes);
    assert_eq!(by_sets, vec![vec![false; 4]; 3]);
    let map = to_map(g1.nodes(), g2.nodes(), &by_sets);
    assert_eq!(map.len(), 3);
    assert!(map[&1].is_empty());
}

#[test]
fn pruning_along_an_edge_takes_out_what_has_no_witness() {
    let g2 = graph(&[(10, "a"), (20, "b"), (30, "a")], &[(10, 20)]);
    let adj2 = g2.get_adj();
    let mut sim = vec![vec![true, false, true], vec![false, true, false]];
    assert!(prune_edge(&mut sim, &adj2, 0, 1));
    assert_eq!(sim, vec![vec![true, false, false], vec![false, true, false]]);
    assert!(!prune_edge(&mut sim, &adj2, 0, 1));
}

#[test]
fn bounded_refinement_takes_out_what_reaches_no_partner_in_time() {
    let g1 = graph(&[(1, "x"), (2, "y")], &[(1, 2), (2, 2)]);
    let g2 = graph(&[(10, "p"), (20, "q"), (30, "r")], &[(10, 20), (20, 30)]);
    let labels = vec![vec![true, true, true], vec![true, false, true]];
    let adj1 = g1.get_adj();
    let adj2 = g2.get_adj();
    let bounds = vec![vec![1], vec![2]];
    let kept = refine_bounded(&adj1, &bounds, &adj2, &labels);
    assert_eq!(kept, Some(vec![vec![true, false, false], vec![true, false, false]]));
    let nobody = vec![vec![false, true, false], vec![false, false, true]];
    assert_eq!(refine_bounded(&adj1, &bounds, &adj2, &nobody), None);
}

#[test]
fn pruning_along_a_bounded_edge_looks_as_far_as_the_bound() {
    let g2 = graph(&[(10, "a"), (20, "b"), (30, "c")], &[(10, 20), (20, 30)]);
    let adj2 = g2.get_adj();
    let dist = all_distances(&adj2);
    let mut sim = vec![vec![true, true, true], vec![false, false, true]];
    assert!(prune_bounded_edge(&mut sim, &adj2, &dist, 0, 1, 1));
    assert_eq!(sim, vec![vec![false, true, true], vec![false, false, true]]);
    assert!(!prune_bounded_edge(&mut sim, &adj2, &dist, 0, 1, 1));
    let mut sim = vec![vec![true, true, true], vec![false, false, true]];
    assert!(!prune_bounded_edge(&mut sim, &adj2, &dist, 0, 1, 2));
    assert!(has_near(&dist[0], &vec![false, false, true], 2));
    assert!(!has_near(&dist[0], &vec![false, false, true], 1));
    assert!(!has_near(&dist[2], &vec![true, true, false], 9));
}

#[test]
fn bounds_follow_the_successor_lists() {
    let mut g = BoundedLabeledGraph::new(4);
    for (id, label) in [(1u64, "a"), (2, "b"), (3, "c")] {
        g.add_node(id, label.to_string());
    }
    for (src, dst) in [(1u64, 3u64), (1, 2), (3, 1)] {
        g.add_edge(src, dst);
    }
    g.set_bound(1, 2, 7);
    let adj = g.get_adj();
    assert_eq!(bounds_of(&g, &adj), vec![vec![4, 7], vec![], vec![4]]);
}

#[test]
fn distances_count_arcs() {
    let g = graph(&[(1, "a"), (2, "a"), (3, "a")], &[(1, 2), (2, 3), (3, 1), (1, 1)]);
    let adj = g.get_adj();
    assert_eq!(distances_from(&adj, 2), vec![Some(1), Some(2), Some(0)]);
    assert!(near(&Some(2), 2));
    assert!(!near(&Some(3), 2));
    assert!(!near(&None, 9));
}
