use graph_simulation::algorithm::cluster_simulation::{ClusterSimulation, DMatch, Delta};
use graph_simulation::algorithm::trace::{EventKind, TraceEvent, TraceLog};
use graph_simulation::graph::hypergraph::{Hypergraph, TypedHypergraph};
use graph_simulation::utils::predicate::{ClusterTable, SupportTable};
use std::collections::{HashMap, HashSet};

fn net(nodes: &[(u64, u64)]) -> TypedHypergraph {
    let mut g = TypedHypergraph::new();
    for (id, kind) in nodes {
        g.add_node(*id, *kind);
    }
    g
}

fn clusters(lines: &[(u64, u64, u64, u64)]) -> ClusterTable {
    let mut t = ClusterTable::new();
    for (u, v, cu, cv) in lines {
        t.record(*u, *v, *cu, *cv);
    }
    t
}

fn support(lines: &[(u64, u64, u64, u64)]) -> SupportTable {
    let mut t = SupportTable::new();
    for (cu, cv, a, b) in lines {
        t.record(*cu, *cv, *a, *b);
    }
    t
}

fn relation(pairs: &[(u64, &[u64])]) -> HashMap<u64, HashSet<u64>> {
    pairs.iter().map(|(u, vs)| (*u, vs.iter().copied().collect())).collect()
}

fn event(kind: EventKind, cluster_id: u64, pairs: &[(u64, u64)]) -> TraceEvent {
    TraceEvent { kind, cluster_id, pairs: pairs.to_vec() }
}

fn scene() -> (TypedHypergraph, TypedHypergraph, ClusterTable, SupportTable) {
    let left = net(&[(1, 0), (2, 0)]);
    let right = net(&[(10, 0), (20, 0), (30, 1)]);
    let delta = clusters(&[(1, 10, 100, 200), (2, 20, 101, 201), (1, 20, 102, 202)]);
    let d_match = support(&[
        (100, 200, 1, 10),
        (100, 200, 2, 20),
        (101, 201, 2, 20),
        (101, 201, 1, 20),
        (102, 202, 9, 9),
    ]);
    (left, right, delta, d_match)
}

#[test]
fn pairs_leave_when_their_clusters_lose_support() {
    let (left, right, delta, d_match) = scene();
    let (sim, trace) = left.get_cluster_simulation(&right, &delta, &d_match);
    assert_eq!(sim, relation(&[(1, &[]), (2, &[10])]));
    let mut expected = TraceLog::new();
    expected.append(event(EventKind::Base, 102, &[(9, 9)]));
    expected.append(event(EventKind::Derivation, 101, &[(1, 20)]));
    expected.append(event(EventKind::Derivation, 100, &[(2, 20)]));
    assert_eq!(trace, expected);
}

#[test]
fn two_runs_give_the_same_trace_bytes() {
    let (left, right, delta, d_match) = scene();
    let (_, first) = left.get_cluster_simulation(&right, &delta, &d_match);
    let (_, second) = left.get_cluster_simulation(&right, &delta, &d_match);
    assert_eq!(first.to_bytes(), second.to_bytes());
    assert_eq!(TraceLog::from_bytes(&first.to_bytes()), Some(second));
}

#[test]
fn pairs_without_clusters_need_only_the_same_type() {
    let left = net(&[(1, 0), (2, 1)]);
    let right = net(&[(10, 0), (20, 1), (30, 1)]);
    let (sim, trace) =
        left.get_cluster_simulation(&right, &ClusterTable::new(), &SupportTable::new());
    assert_eq!(sim, relation(&[(1, &[10]), (2, &[20, 30])]));
    assert_eq!(trace.len(), 0);
}

#[test]
fn clusters_that_support_each_other_stay() {
    let left = net(&[(1, 0), (2, 0)]);
    let right = net(&[(10, 0), (20, 0)]);
    let delta = clusters(&[(1, 10, 7, 8), (2, 20, 7, 8), (1, 20, 5, 6)]);
    let d_match = support(&[(7, 8, 1, 10), (7, 8, 2, 20), (5, 6, 1, 10)]);
    let (sim, trace) = left.get_cluster_simulation(&right, &delta, &d_match);
    assert_eq!(sim, relation(&[(1, &[10]), (2, &[10, 20])]));
    let mut expected = TraceLog::new();
    expected.append(event(EventKind::Base, 5, &[(1, 10)]));
    assert_eq!(trace, expected);
}

#[test]
fn tables_answer_in_the_order_of_their_lines() {
    let (left, right, delta, d_match) = scene();
    let found = delta.get_sematic_clusters(&left.nodes()[0], &right.nodes()[0]);
    let ids: Vec<(u64, u64)> = found.iter().map(|(a, b)| (a.id, b.id)).collect();
    assert_eq!(ids, vec![(100, 200)]);
    assert_eq!(d_match.d_match(&found[0].0, &found[0].1), vec![(1, 10), (2, 20)]);
    assert!(delta.get_sematic_clusters(&left.nodes()[1], &right.nodes()[0]).is_empty());
}
