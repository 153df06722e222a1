//! Simulation between hypergraphs by semantic clusters: a pair of nodes
//! stays related as long as every pair of clusters under which it could be
//! matched finds all the pairs it supports in the relation. What leaves the
//! relation is written to a trace.

use crate::algorithm::relation::{
    get_entry, grid, grid_weight, is_grid, lemma_grid_weight_bounds, lemma_weight_with_entry,
    new_grid, pairs, related, set_entry, with_entry, within,
};
use crate::algorithm::hyper_simulation::scanned;
use crate::algorithm::simulation::{presents, to_map, unit_weights};
use crate::algorithm::trace::{
    decode_events, encode_events, EventKind, EventView, TraceEvent, TraceLog,
};
use crate::graph::base::{
    distinct_ids, index_nodes, is_index_of, lemma_index_gives_position,
    lemma_position_of_id, SingleId,
};
use crate::graph::hypergraph::{Hypergraph, Typed};
use std::collections::HashMap;
use std::collections::HashSet;
use vstd::prelude::*;

verus! {

/// A semantic cluster: a batch of hyperedges under one id.
pub struct SemanticCluster<E> {
    pub id: u64,
    pub hyperedges: Vec<E>,
}

/// For a pair of nodes, the pairs of clusters under which the two could be
/// matched. What it answers does not change.
pub trait Delta {
    type Node;

    type Edge;

    /// The ids of the pairs of clusters for `(u, v)`, in order.
    spec fn cluster_ids(&self, u: &Self::Node, v: &Self::Node) -> Seq<(u64, u64)>;

    fn get_sematic_clusters(&self, u: &Self::Node, v: &Self::Node) -> (r: Vec<
        (SemanticCluster<Self::Edge>, SemanticCluster<Self::Edge>),
    >)
        ensures
            r@.len() == self.cluster_ids(u, v).len(),
            forall|k: int|
                0 <= k < r@.len() ==> (#[trigger] r@[k]).0.id == self.cluster_ids(u, v)[k].0
                    && r@[k].1.id == self.cluster_ids(u, v)[k].1,
    ;
}

/// For a pair of clusters, the pairs of node ids that it supports. What it
/// answers depends on the ids of the clusters alone, and does not change.
pub trait DMatch {
    type Edge;

    /// The pairs of node ids that the clusters `cu` and `cv` support.
    spec fn supported(&self, cu: u64, cv: u64) -> Seq<(u64, u64)>;

    fn d_match(&self, cu: &SemanticCluster<Self::Edge>, cv: &SemanticCluster<Self::Edge>) -> (r: Vec<
        (u64, u64),
    >)
        ensures
            r@ == self.supported(cu.id, cv.id),
    ;
}

/// The pairs of node ids that the `k`-th pair of clusters for the positions
/// `(u, v)` supports.
pub open spec fn evidence<G: Hypergraph, D: Delta<Node = G::Node>, M: DMatch>(
    g1: &G,
    g2: &G,
    delta: &D,
    dm: &M,
    u: int,
    v: int,
    k: int,
) -> Seq<(u64, u64)> {
    dm.supported(
        delta.cluster_ids(&g1.node_seq()[u], &g2.node_seq()[v])[k].0,
        delta.cluster_ids(&g1.node_seq()[u], &g2.node_seq()[v])[k].1,
    )
}

/// The number of pairs of clusters for the positions `(u, v)`.
pub open spec fn reasons<G: Hypergraph, D: Delta<Node = G::Node>>(
    g1: &G,
    g2: &G,
    delta: &D,
    u: int,
    v: int,
) -> int {
    delta.cluster_ids(&g1.node_seq()[u], &g2.node_seq()[v]).len() as int
}

/// The pair of ids of the positions `(u, v)`.
pub open spec fn id_pair<G: Hypergraph>(g1: &G, g2: &G, u: int, v: int) -> (u64, u64) {
    (g1.node_seq()[u].spec_id(), g2.node_seq()[v].spec_id())
}

/// The `k`-th pair of clusters for `(u, v)` supports the pair itself.
pub open spec fn passes<G: Hypergraph, D: Delta<Node = G::Node>, M: DMatch>(
    g1: &G,
    g2: &G,
    delta: &D,
    dm: &M,
    u: int,
    v: int,
    k: int,
) -> bool {
    evidence(g1, g2, delta, dm, u, v, k).contains(id_pair(g1, g2, u, v))
}

/// The cluster test: the two nodes have the same type, and every pair of
/// clusters for them supports them.
pub open spec fn cluster_candidate<G: Typed, D: Delta<Node = G::Node>, M: DMatch>(
    g1: &G,
    g2: &G,
    delta: &D,
    dm: &M,
    u: int,
    v: int,
) -> bool {
    &&& 0 <= u < g1.node_seq().len()
    &&& 0 <= v < g2.node_seq().len()
    &&& g1.same_type(&g1.node_seq()[u], &g2.node_seq()[v])
    &&& forall|k: int|
        0 <= k < reasons(g1, g2, delta, u, v) ==> #[trigger] passes(g1, g2, delta, dm, u, v, k)
}

/// The relation `s` holds the pair of ids `p`.
pub open spec fn holds_ids<G: Hypergraph>(g1: &G, g2: &G, s: Set<(int, int)>, p: (u64, u64)) -> bool {
    exists|u: int, v: int|
        0 <= u < g1.node_seq().len() && 0 <= v < g2.node_seq().len() && #[trigger] s.contains(
            (u, v),
        ) && id_pair(g1, g2, u, v) == p
}

/// The relation `s` holds every pair that the `k`-th pair of clusters for
/// `(u, v)` supports.
pub open spec fn backed_by<G: Hypergraph, D: Delta<Node = G::Node>, M: DMatch>(
    g1: &G,
    g2: &G,
    delta: &D,
    dm: &M,
    s: Set<(int, int)>,
    u: int,
    v: int,
    k: int,
) -> bool {
    forall|i: int|
        0 <= i < evidence(g1, g2, delta, dm, u, v, k).len() ==> holds_ids(
            g1,
            g2,
            s,
            #[trigger] evidence(g1, g2, delta, dm, u, v, k)[i],
        )
}

/// Every pair of `s` passes the cluster test and finds in `s` all that its
/// pairs of clusters support.
pub open spec fn cluster_consistent<G: Typed, D: Delta<Node = G::Node>, M: DMatch>(
    g1: &G,
    g2: &G,
    delta: &D,
    dm: &M,
    s: Set<(int, int)>,
) -> bool {
    forall|u: int, v: int| #[trigger]
        s.contains((u, v)) ==> cluster_candidate(g1, g2, delta, dm, u, v) && forall|k: int|
            0 <= k < reasons(g1, g2, delta, u, v) ==> #[trigger] backed_by(
                g1,
                g2,
                delta,
                dm,
                s,
                u,
                v,
                k,
            )
}

/// The cluster simulation of `g1` by `g2`: the union of all consistent
/// relations.
pub open spec fn cluster_simulation<G: Typed, D: Delta<Node = G::Node>, M: DMatch>(
    g1: &G,
    g2: &G,
    delta: &D,
    dm: &M,
) -> Set<(int, int)> {
    Set::new(
        |p: (int, int)|
            exists|s: Set<(int, int)>| #[trigger]
                cluster_consistent(g1, g2, delta, dm, s) && s.contains(p),
    )
}

/// What `small` holds by id, `large` holds too.
pub proof fn lemma_holds_ids_grows<G: Hypergraph>(
    g1: &G,
    g2: &G,
    small: Set<(int, int)>,
    large: Set<(int, int)>,
    p: (u64, u64),
)
    requires
        small.subset_of(large),
        holds_ids(g1, g2, small, p),
    ensures
        holds_ids(g1, g2, large, p),
{
    let (u, v) = choose|u: int, v: int|
        0 <= u < g1.node_seq().len() && 0 <= v < g2.node_seq().len() && #[trigger] small.contains(
            (u, v),
        ) && id_pair(g1, g2, u, v) == p;
    assert(large.contains((u, v)));
}

/// The cluster simulation is consistent.
pub proof fn lemma_cluster_simulation_is_consistent<G: Typed, D: Delta<Node = G::Node>, M: DMatch>(
    g1: &G,
    g2: &G,
    delta: &D,
    dm: &M,
)
    ensures
        cluster_consistent(g1, g2, delta, dm, cluster_simulation(g1, g2, delta, dm)),
{
    let gs = cluster_simulation(g1, g2, delta, dm);
    assert forall|u: int, v: int| #[trigger] gs.contains((u, v)) implies cluster_candidate(
        g1,
        g2,
        delta,
        dm,
        u,
        v,
    ) && forall|k: int|
        0 <= k < reasons(g1, g2, delta, u, v) ==> #[trigger] backed_by(g1, g2, delta, dm, gs, u, v, k) by {
        let s = choose|s: Set<(int, int)>| #[trigger]
            cluster_consistent(g1, g2, delta, dm, s) && s.contains((u, v));
        assert(s.contains((u, v)));
        assert forall|k: int| 0 <= k < reasons(g1, g2, delta, u, v) implies #[trigger] backed_by(
            g1,
            g2,
            delta,
            dm,
            gs,
            u,
            v,
            k,
        ) by {
            assert(backed_by(g1, g2, delta, dm, s, u, v, k));
            let ev = evidence(g1, g2, delta, dm, u, v, k);
            assert forall|i: int| 0 <= i < ev.len() implies holds_ids(g1, g2, gs, #[trigger] ev[i]) by {
                assert(holds_ids(g1, g2, s, ev[i]));
                assert(s.subset_of(gs));
                lemma_holds_ids_grows(g1, g2, s, gs, ev[i]);
            }
        }
    }
}

/// The pairs of `ev` that the relation `s` does not hold, in the order of
/// `ev`.
pub open spec fn lacking<G: Hypergraph>(
    g1: &G,
    g2: &G,
    s: Set<(int, int)>,
    ev: Seq<(u64, u64)>,
) -> Seq<(u64, u64)>
    decreases ev.len(),
{
    if ev.len() == 0 {
        Seq::empty()
    } else if holds_ids(g1, g2, s, ev.last()) {
        lacking(g1, g2, s, ev.drop_last())
    } else {
        lacking(g1, g2, s, ev.drop_last()).push(ev.last())
    }
}

/// Nothing is lacking exactly where the relation holds every pair.
pub proof fn lemma_nothing_lacking<G: Hypergraph>(
    g1: &G,
    g2: &G,
    s: Set<(int, int)>,
    ev: Seq<(u64, u64)>,
)
    ensures
        lacking(g1, g2, s, ev).len() == 0 <==> forall|i: int|
            0 <= i < ev.len() ==> holds_ids(g1, g2, s, #[trigger] ev[i]),
    decreases ev.len(),
{
    if ev.len() > 0 {
        let rest = ev.drop_last();
        lemma_nothing_lacking(g1, g2, s, rest);
        if lacking(g1, g2, s, ev).len() == 0 {
            assert forall|i: int| 0 <= i < ev.len() implies holds_ids(g1, g2, s, #[trigger] ev[i]) by {
                if i < rest.len() {
                    assert(rest[i] == ev[i]);
                }
            }
        }
        if forall|i: int| 0 <= i < ev.len() ==> holds_ids(g1, g2, s, #[trigger] ev[i]) {
            assert(holds_ids(g1, g2, s, ev[ev.len() - 1]));
            assert forall|i: int| 0 <= i < rest.len() implies holds_ids(
                g1,
                g2,
                s,
                #[trigger] rest[i],
            ) by {
                assert(rest[i] == ev[i]);
            }
        }
    }
}

/// Whether `ev` holds the pair `p`.
pub fn contains_pair(ev: &Vec<(u64, u64)>, p: (u64, u64)) -> (r: bool)
    ensures
        r == ev@.contains(p),
{
    let mut i: usize = 0;
    while i < ev.len()
        invariant
            i <= ev@.len(),
            forall|a: int| 0 <= a < i ==> ev@[a] != p,
        decreases ev@.len() - i,
    {
        let q = ev[i];
        if q.0 == p.0 && q.1 == p.1 {
            assert(ev@[i as int] == p);
            return true;
        }
        i = i + 1;
    }
    false
}

/// Whether the relation `sim` holds the pair of ids `p`.
pub fn holds_pair<G: Hypergraph>(
    g1: &G,
    g2: &G,
    table1: &HashMap<u64, usize>,
    table2: &HashMap<u64, usize>,
    sim: &Vec<Vec<bool>>,
    p: (u64, u64),
) -> (r: bool)
    requires
        distinct_ids(g1.node_seq()),
        distinct_ids(g2.node_seq()),
        is_index_of(table1@, g1.node_seq()),
        is_index_of(table2@, g2.node_seq()),
        is_grid(grid(*sim), g1.node_seq().len() as int, g2.node_seq().len() as int),
    ensures
        r == holds_ids(g1, g2, pairs(grid(*sim)), p),
{
    let ghost s = pairs(grid(*sim));
    proof {
        lemma_index_gives_position(table1@, g1.node_seq(), p.0);
        lemma_index_gives_position(table2@, g2.node_seq(), p.1);
    }
    let found = match table1.get(&p.0) {
        Some(u) => match table2.get(&p.1) {
            Some(v) => {
                assert(grid(*sim)[*u as int].len() == g2.node_seq().len());
                let yes = get_entry(sim, *u, *v);
                proof {
                    if yes {
                        assert(related(grid(*sim), *u as int, *v as int));
                        assert(s.contains((*u as int, *v as int)));
                        assert(id_pair(g1, g2, *u as int, *v as int) == p);
                    }
                }
                yes
            },
            None => false,
        },
        None => false,
    };
    proof {
        if holds_ids(g1, g2, s, p) {
            let (u, v) = choose|u: int, v: int|
                0 <= u < g1.node_seq().len() && 0 <= v < g2.node_seq().len() && #[trigger] s.contains(
                    (u, v),
                ) && id_pair(g1, g2, u, v) == p;
            lemma_position_of_id(g1.node_seq(), u);
            lemma_position_of_id(g2.node_seq(), v);
            assert(related(grid(*sim), u, v));
            assert(found);
        }
    }
    found
}

/// The pairs of `ev` that the relation `sim` does not hold.
pub fn missing_pairs<G: Hypergraph>(
    g1: &G,
    g2: &G,
    table1: &HashMap<u64, usize>,
    table2: &HashMap<u64, usize>,
    sim: &Vec<Vec<bool>>,
    ev: &Vec<(u64, u64)>,
) -> (r: Vec<(u64, u64)>)
    requires
        distinct_ids(g1.node_seq()),
        distinct_ids(g2.node_seq()),
        is_index_of(table1@, g1.node_seq()),
        is_index_of(table2@, g2.node_seq()),
        is_grid(grid(*sim), g1.node_seq().len() as int, g2.node_seq().len() as int),
    ensures
        r@ == lacking(g1, g2, pairs(grid(*sim)), ev@),
{
    let mut r: Vec<(u64, u64)> = Vec::new();
    let mut i: usize = 0;
    while i < ev.len()
        invariant
            i <= ev@.len(),
            distinct_ids(g1.node_seq()),
            distinct_ids(g2.node_seq()),
            is_index_of(table1@, g1.node_seq()),
            is_index_of(table2@, g2.node_seq()),
            is_grid(grid(*sim), g1.node_seq().len() as int, g2.node_seq().len() as int),
            r@ == lacking(g1, g2, pairs(grid(*sim)), ev@.take(i as int)),
        decreases ev@.len() - i,
    {
        let p = ev[i];
        proof {
            assert(ev@.take(i as int + 1).drop_last() =~= ev@.take(i as int));
            assert(ev@.take(i as int + 1).last() == ev@[i as int]);
        }
        if !holds_pair(g1, g2, table1, table2, sim, p) {
            r.push(p);
        }
        i = i + 1;
    }
    proof {
        assert(ev@.take(i as int) =~= ev@);
    }
    r
}

/// The event `e` says that `(u, v)` failed the cluster test at its `k`-th
/// pair of clusters, the first that does not support it.
pub open spec fn base_cause<G: Typed, D: Delta<Node = G::Node>, M: DMatch>(
    g1: &G,
    g2: &G,
    delta: &D,
    dm: &M,
    u: int,
    v: int,
    k: int,
    e: EventView,
) -> bool {
    &&& 0 <= u < g1.node_seq().len()
    &&& 0 <= v < g2.node_seq().len()
    &&& g1.same_type(&g1.node_seq()[u], &g2.node_seq()[v])
    &&& 0 <= k < reasons(g1, g2, delta, u, v)
    &&& forall|j: int| 0 <= j < k ==> #[trigger] passes(g1, g2, delta, dm, u, v, j)
    &&& !passes(g1, g2, delta, dm, u, v, k)
    &&& e.kind == EventKind::Base
    &&& e.cluster_id == delta.cluster_ids(&g1.node_seq()[u], &g2.node_seq()[v])[k].0
    &&& e.pairs == evidence(g1, g2, delta, dm, u, v, k)
}

/// The event `e` says that `(u, v)`, which passed the cluster test, left
/// the relation when it stood at `then`, because its `k`-th pair of
/// clusters supports pairs that `then` did not hold; and `s`, what the
/// relation is now, lies within `then`.
pub open spec fn derivation_cause<G: Typed, D: Delta<Node = G::Node>, M: DMatch>(
    g1: &G,
    g2: &G,
    delta: &D,
    dm: &M,
    s: Set<(int, int)>,
    then: Set<(int, int)>,
    u: int,
    v: int,
    k: int,
    e: EventView,
) -> bool {
    &&& cluster_candidate(g1, g2, delta, dm, u, v)
    &&& !s.contains((u, v))
    &&& then.contains((u, v))
    &&& s.subset_of(then)
    &&& 0 <= k < reasons(g1, g2, delta, u, v)
    &&& e.kind == EventKind::Derivation
    &&& e.cluster_id == delta.cluster_ids(&g1.node_seq()[u], &g2.node_seq()[v])[k].0
    &&& e.pairs == lacking(g1, g2, then, evidence(g1, g2, delta, dm, u, v, k))
    &&& e.pairs.len() > 0
}

/// The event `e` has a cause: a pair that failed the cluster test, or a
/// pair that left the relation later.
pub open spec fn explained<G: Typed, D: Delta<Node = G::Node>, M: DMatch>(
    g1: &G,
    g2: &G,
    delta: &D,
    dm: &M,
    s: Set<(int, int)>,
    e: EventView,
) -> bool {
    ||| exists|u: int, v: int, k: int| #[trigger] base_cause(g1, g2, delta, dm, u, v, k, e)
    ||| exists|then: Set<(int, int)>, u: int, v: int, k: int| #[trigger]
        derivation_cause(g1, g2, delta, dm, s, then, u, v, k, e)
}

/// Every event of the trace `t` has a cause.
pub open spec fn all_explained<G: Typed, D: Delta<Node = G::Node>, M: DMatch>(
    g1: &G,
    g2: &G,
    delta: &D,
    dm: &M,
    s: Set<(int, int)>,
    t: Seq<EventView>,
) -> bool {
    forall|i: int| 0 <= i < t.len() ==> explained(g1, g2, delta, dm, s, #[trigger] t[i])
}

/// Every pair of nodes of the same type that failed the cluster test has a
/// Base event in the trace `t`.
pub open spec fn failures_told<G: Typed, D: Delta<Node = G::Node>, M: DMatch>(
    g1: &G,
    g2: &G,
    delta: &D,
    dm: &M,
    t: Seq<EventView>,
) -> bool {
    forall|u: int, v: int|
        0 <= u < g1.node_seq().len() && 0 <= v < g2.node_seq().len() && g1.same_type(
            &g1.node_seq()[u],
            &g2.node_seq()[v],
        ) && !#[trigger] cluster_candidate(g1, g2, delta, dm, u, v) ==> exists|i: int, k: int|
            0 <= i < t.len() && #[trigger] base_cause(g1, g2, delta, dm, u, v, k, t[i])
}

/// Every pair that passed the cluster test and is not in `s` has a
/// Derivation event in the trace `t`.
pub open spec fn removals_told<G: Typed, D: Delta<Node = G::Node>, M: DMatch>(
    g1: &G,
    g2: &G,
    delta: &D,
    dm: &M,
    s: Set<(int, int)>,
    t: Seq<EventView>,
) -> bool {
    forall|u: int, v: int|
        cluster_candidate(g1, g2, delta, dm, u, v) && !#[trigger] s.contains((u, v)) ==> exists|
            i: int,
            then: Set<(int, int)>,
            k: int,
        |
            0 <= i < t.len() && #[trigger] derivation_cause(
                g1,
                g2,
                delta,
                dm,
                s,
                then,
                u,
                v,
                k,
                t[i],
            )
}

/// The first `bases` events of the trace `t` are its Base events.
pub open spec fn bases_first(t: Seq<EventView>, bases: int) -> bool {
    &&& 0 <= bases <= t.len()
    &&& forall|i: int| 0 <= i < t.len() ==> ((#[trigger] t[i]).kind == EventKind::Base <==> i < bases)
}

/// The trace `t` tells what left the relation `s`: every event has a cause;
/// every pair of nodes of the same type that failed the cluster test has a
/// Base event, every pair that passed it and is not in `s` a Derivation
/// event; and the Base events, `bases` of them, come first.
pub open spec fn tells<G: Typed, D: Delta<Node = G::Node>, M: DMatch>(
    g1: &G,
    g2: &G,
    delta: &D,
    dm: &M,
    s: Set<(int, int)>,
    t: Seq<EventView>,
    bases: int,
) -> bool {
    &&& bases_first(t, bases)
    &&& all_explained(g1, g2, delta, dm, s, t)
    &&& failures_told(g1, g2, delta, dm, t)
    &&& removals_told(g1, g2, delta, dm, s, t)
}

/// The `k`-th pair of clusters of `(u, v)` is the first that does not
/// support the pair.
pub open spec fn is_first_failing<G: Hypergraph, D: Delta<Node = G::Node>, M: DMatch>(
    g1: &G,
    g2: &G,
    delta: &D,
    dm: &M,
    u: int,
    v: int,
    k: int,
) -> bool {
    &&& 0 <= k < reasons(g1, g2, delta, u, v)
    &&& !passes(g1, g2, delta, dm, u, v, k)
    &&& forall|j: int| 0 <= j < k ==> #[trigger] passes(g1, g2, delta, dm, u, v, j)
}

/// The Base event of the pair `(u, v)`: for nodes of the same type that fail
/// the cluster test, the first pair of clusters that does not support them,
/// by the id of its left cluster, with all that it supports.
pub open spec fn base_event<G: Typed, D: Delta<Node = G::Node>, M: DMatch>(
    g1: &G,
    g2: &G,
    delta: &D,
    dm: &M,
    u: int,
    v: int,
) -> Option<EventView> {
    if g1.same_type(&g1.node_seq()[u], &g2.node_seq()[v]) && exists|k: int|
        is_first_failing(g1, g2, delta, dm, u, v, k) {
        let k = choose|k: int| is_first_failing(g1, g2, delta, dm, u, v, k);
        Some(
            EventView {
                kind: EventKind::Base,
                cluster_id: delta.cluster_ids(&g1.node_seq()[u], &g2.node_seq()[v])[k].0,
                pairs: evidence(g1, g2, delta, dm, u, v, k),
            },
        )
    } else {
        None
    }
}

/// The Base events of the pairs `(u, 0)` to `(u, upto - 1)`, in order.
pub open spec fn bases_in_row<G: Typed, D: Delta<Node = G::Node>, M: DMatch>(
    g1: &G,
    g2: &G,
    delta: &D,
    dm: &M,
    u: int,
    upto: nat,
) -> Seq<EventView>
    decreases upto,
{
    if upto == 0 {
        Seq::empty()
    } else {
        let before = bases_in_row(g1, g2, delta, dm, u, (upto - 1) as nat);
        match base_event(g1, g2, delta, dm, u, upto - 1) {
            Some(e) => before.push(e),
            None => before,
        }
    }
}

/// The Base events of all pairs whose left position is below `upto`, row by
/// row.
pub open spec fn bases_in_rows<G: Typed, D: Delta<Node = G::Node>, M: DMatch>(
    g1: &G,
    g2: &G,
    delta: &D,
    dm: &M,
    upto: nat,
) -> Seq<EventView>
    decreases upto,
{
    if upto == 0 {
        Seq::empty()
    } else {
        bases_in_rows(g1, g2, delta, dm, (upto - 1) as nat) + bases_in_row(
            g1,
            g2,
            delta,
            dm,
            upto - 1,
            g2.node_seq().len(),
        )
    }
}

/// The `k`-th pair of clusters of `(u, v)` is the first that supports a
/// pair which the relation `s` does not hold.
pub open spec fn is_first_lacking<G: Hypergraph, D: Delta<Node = G::Node>, M: DMatch>(
    g1: &G,
    g2: &G,
    delta: &D,
    dm: &M,
    s: Set<(int, int)>,
    u: int,
    v: int,
    k: int,
) -> bool {
    &&& 0 <= k < reasons(g1, g2, delta, u, v)
    &&& lacking(g1, g2, s, evidence(g1, g2, delta, dm, u, v, k)).len() > 0
    &&& forall|j: int|
        0 <= j < k ==> (#[trigger] lacking(g1, g2, s, evidence(g1, g2, delta, dm, u, v, j))).len()
            == 0
}

/// The Derivation event with which the pair `(u, v)` leaves the relation
/// `sim`: for a pair of the relation, the first pair of clusters that
/// supports something the relation does not hold, by the id of its left
/// cluster, with what is not held.
pub open spec fn derivation_event<G: Hypergraph, D: Delta<Node = G::Node>, M: DMatch>(
    g1: &G,
    g2: &G,
    delta: &D,
    dm: &M,
    sim: Seq<Seq<bool>>,
    u: int,
    v: int,
) -> Option<EventView> {
    if related(sim, u, v) && exists|k: int|
        is_first_lacking(g1, g2, delta, dm, pairs(sim), u, v, k) {
        let k = choose|k: int| is_first_lacking(g1, g2, delta, dm, pairs(sim), u, v, k);
        Some(
            EventView {
                kind: EventKind::Derivation,
                cluster_id: delta.cluster_ids(&g1.node_seq()[u], &g2.node_seq()[v])[k].0,
                pairs: lacking(g1, g2, pairs(sim), evidence(g1, g2, delta, dm, u, v, k)),
            },
        )
    } else {
        None
    }
}

/// The state of a refinement by clusters: the relation and the trace.
pub struct ClusterState {
    pub sim: Seq<Seq<bool>>,
    pub trace: Seq<EventView>,
}

/// The state made of a relation and a trace.
pub open spec fn state_with(sim: Seq<Seq<bool>>, trace: Seq<EventView>) -> ClusterState {
    ClusterState { sim, trace }
}

/// The state after the pair `(u, v)` was looked at: where it has a
/// Derivation event, it leaves the relation and the event joins the trace.
pub open spec fn visit<G: Hypergraph, D: Delta<Node = G::Node>, M: DMatch>(
    g1: &G,
    g2: &G,
    delta: &D,
    dm: &M,
    st: ClusterState,
    u: int,
    v: int,
) -> ClusterState {
    match derivation_event(g1, g2, delta, dm, st.sim, u, v) {
        Some(e) => ClusterState { sim: with_entry(st.sim, u, v, false), trace: st.trace.push(e) },
        None => st,
    }
}

/// The state after the pairs `(u, 0)` to `(u, upto - 1)` were looked at, in
/// order.
pub open spec fn visit_row<G: Hypergraph, D: Delta<Node = G::Node>, M: DMatch>(
    g1: &G,
    g2: &G,
    delta: &D,
    dm: &M,
    st: ClusterState,
    u: int,
    upto: nat,
) -> ClusterState
    decreases upto,
{
    if upto == 0 {
        st
    } else {
        visit(g1, g2, delta, dm, visit_row(g1, g2, delta, dm, st, u, (upto - 1) as nat), u, upto - 1)
    }
}

/// The state after all pairs whose left position is below `upto` were
/// looked at, row by row.
pub open spec fn visit_rows<G: Hypergraph, D: Delta<Node = G::Node>, M: DMatch>(
    g1: &G,
    g2: &G,
    delta: &D,
    dm: &M,
    st: ClusterState,
    upto: nat,
) -> ClusterState
    decreases upto,
{
    if upto == 0 {
        st
    } else {
        visit_row(
            g1,
            g2,
            delta,
            dm,
            visit_rows(g1, g2, delta, dm, st, (upto - 1) as nat),
            upto - 1,
            g2.node_seq().len(),
        )
    }
}

/// The state after `n` passes over all pairs, from the state `st`.
pub open spec fn after_passes<G: Hypergraph, D: Delta<Node = G::Node>, M: DMatch>(
    g1: &G,
    g2: &G,
    delta: &D,
    dm: &M,
    st: ClusterState,
    n: nat,
) -> ClusterState
    decreases n,
{
    if n == 0 {
        st
    } else {
        visit_rows(
            g1,
            g2,
            delta,
            dm,
            after_passes(g1, g2, delta, dm, st, (n - 1) as nat),
            g1.node_seq().len(),
        )
    }
}

/// The refinement from `st` comes to rest at `fin`: `fin` is the state after
/// some number of passes, and one more pass leaves it as it is.
pub open spec fn settles_at<G: Hypergraph, D: Delta<Node = G::Node>, M: DMatch>(
    g1: &G,
    g2: &G,
    delta: &D,
    dm: &M,
    st: ClusterState,
    fin: ClusterState,
) -> bool {
    exists|n: nat| #[trigger]
        after_passes(g1, g2, delta, dm, st, n) == fin && visit_rows(
            g1,
            g2,
            delta,
            dm,
            fin,
            g1.node_seq().len(),
        ) == fin
}

/// The state that the refinement by clusters starts from: the pairs that
/// pass the cluster test, and the Base events of those of the same type that
/// fail it.
pub open spec fn cluster_start<G: Typed, D: Delta<Node = G::Node>, M: DMatch>(
    g1: &G,
    g2: &G,
    delta: &D,
    dm: &M,
) -> ClusterState {
    ClusterState {
        sim: Seq::new(
            g1.node_seq().len(),
            |u: int|
                Seq::new(g2.node_seq().len(), |v: int| cluster_candidate(g1, g2, delta, dm, u, v)),
        ),
        trace: bases_in_rows(g1, g2, delta, dm, g1.node_seq().len()),
    }
}

/// Once at rest, the refinement stays where it is.
pub proof fn lemma_settled_stays<G: Hypergraph, D: Delta<Node = G::Node>, M: DMatch>(
    g1: &G,
    g2: &G,
    delta: &D,
    dm: &M,
    st: ClusterState,
    n: nat,
    m: nat,
)
    requires
        n <= m,
        visit_rows(g1, g2, delta, dm, after_passes(g1, g2, delta, dm, st, n), g1.node_seq().len())
            == after_passes(g1, g2, delta, dm, st, n),
    ensures
        after_passes(g1, g2, delta, dm, st, m) == after_passes(g1, g2, delta, dm, st, n),
    decreases m - n,
{
    if n < m {
        lemma_settled_stays(g1, g2, delta, dm, st, n, (m - 1) as nat);
    }
}

/// The refinement comes to rest at one state only.
pub proof fn lemma_settles_once<G: Hypergraph, D: Delta<Node = G::Node>, M: DMatch>(
    g1: &G,
    g2: &G,
    delta: &D,
    dm: &M,
    st: ClusterState,
    a: ClusterState,
    b: ClusterState,
)
    requires
        settles_at(g1, g2, delta, dm, st, a),
        settles_at(g1, g2, delta, dm, st, b),
    ensures
        a == b,
{
    let n = choose|n: nat| #[trigger]
        after_passes(g1, g2, delta, dm, st, n) == a && visit_rows(
            g1,
            g2,
            delta,
            dm,
            a,
            g1.node_seq().len(),
        ) == a;
    let m = choose|m: nat| #[trigger]
        after_passes(g1, g2, delta, dm, st, m) == b && visit_rows(
            g1,
            g2,
            delta,
            dm,
            b,
            g1.node_seq().len(),
        ) == b;
    if n <= m {
        lemma_settled_stays(g1, g2, delta, dm, st, n, m);
    } else {
        lemma_settled_stays(g1, g2, delta, dm, st, m, n);
    }
}

/// Applies the cluster test to the nodes at `(u, v)`: says whether they pass
/// it, and gives the Base event for them where they have the same type and
/// fail it.
pub fn cluster_test<G: Typed, D: Delta<Node = G::Node, Edge = G::Edge>, M: DMatch<Edge = G::Edge>>(
    g1: &G,
    g2: &G,
    delta: &D,
    dm: &M,
    u: usize,
    v: usize,
) -> (r: (bool, Option<TraceEvent>))
    requires
        u < g1.node_seq().len(),
        v < g2.node_seq().len(),
    ensures
        r.0 == cluster_candidate(g1, g2, delta, dm, u as int, v as int),
        r.1 is Some <==> g1.same_type(&g1.node_seq()[u as int], &g2.node_seq()[v as int]) && !r.0,
        r.1 matches Some(e) ==> exists|k: int| #[trigger]
            base_cause(g1, g2, delta, dm, u as int, v as int, k, e@),
        match r.1 {
            Some(e) => base_event(g1, g2, delta, dm, u as int, v as int) == Some(e@),
            None => base_event(g1, g2, delta, dm, u as int, v as int) is None,
        },
{
    let nodes1 = g1.nodes();
    let nodes2 = g2.nodes();
    let ghost ui = u as int;
    let ghost vi = v as int;
    if !g1.type_same(&nodes1[u], &nodes2[v]) {
        return (false, None);
    }
    let own = (nodes1[u].id(), nodes2[v].id());
    let clusters = delta.get_sematic_clusters(&nodes1[u], &nodes2[v]);
    let mut k: usize = 0;
    while k < clusters.len()
        invariant
            k <= clusters@.len(),
            ui == u,
            vi == v,
            u < g1.node_seq().len(),
            v < g2.node_seq().len(),
            nodes1@ == g1.node_seq(),
            nodes2@ == g2.node_seq(),
            own == id_pair(g1, g2, ui, vi),
            g1.same_type(&g1.node_seq()[ui], &g2.node_seq()[vi]),
            clusters@.len() == reasons(g1, g2, delta, ui, vi),
            forall|j: int|
                0 <= j < clusters@.len() ==> (#[trigger] clusters@[j]).0.id == delta.cluster_ids(
                    &g1.node_seq()[ui],
                    &g2.node_seq()[vi],
                )[j].0 && clusters@[j].1.id == delta.cluster_ids(
                    &g1.node_seq()[ui],
                    &g2.node_seq()[vi],
                )[j].1,
            forall|j: int| 0 <= j < k ==> #[trigger] passes(g1, g2, delta, dm, ui, vi, j),
        decreases clusters@.len() - k,
    {
        let pair = &clusters[k];
        let ev = dm.d_match(&pair.0, &pair.1);
        assert(ev@ == evidence(g1, g2, delta, dm, ui, vi, k as int));
        if !contains_pair(&ev, own) {
            let e = TraceEvent { kind: EventKind::Base, cluster_id: pair.0.id, pairs: ev };
            proof {
                assert(!passes(g1, g2, delta, dm, ui, vi, k as int));
                assert(base_cause(g1, g2, delta, dm, ui, vi, k as int, e@));
                assert(is_first_failing(g1, g2, delta, dm, ui, vi, k as int));
                let c = choose|c: int| is_first_failing(g1, g2, delta, dm, ui, vi, c);
                if c < k {
                    assert(passes(g1, g2, delta, dm, ui, vi, c));
                } else if k < c {
                    assert(passes(g1, g2, delta, dm, ui, vi, k as int));
                }
            }
            return (false, Some(e));
        }
        assert(passes(g1, g2, delta, dm, ui, vi, k as int));
        k = k + 1;
    }
    proof {
        if exists|c: int| is_first_failing(g1, g2, delta, dm, ui, vi, c) {
            let c = choose|c: int| is_first_failing(g1, g2, delta, dm, ui, vi, c);
            assert(passes(g1, g2, delta, dm, ui, vi, c));
        }
    }
    (true, None)
}

/// The relation that the refinement starts from, the pairs that pass the
/// cluster test, and the trace of the pairs of the same type that fail it.
pub fn initial_relation<
    G: Typed,
    D: Delta<Node = G::Node, Edge = G::Edge>,
    M: DMatch<Edge = G::Edge>,
>(g1: &G, g2: &G, delta: &D, dm: &M) -> (r: (Vec<Vec<bool>>, TraceLog))
    ensures
        is_grid(grid(r.0), g1.node_seq().len() as int, g2.node_seq().len() as int),
        forall|u: int, v: int|
            0 <= u < g1.node_seq().len() && 0 <= v < g2.node_seq().len() ==> #[trigger] grid(
                r.0,
            )[u][v] == cluster_candidate(g1, g2, delta, dm, u, v),
        tells(g1, g2, delta, dm, pairs(grid(r.0)), r.1@, r.1@.len() as int),
        state_with(grid(r.0), r.1@) == cluster_start(g1, g2, delta, dm),
{
    let n1 = g1.nodes().len();
    let n2 = g2.nodes().len();
    let mut sim = new_grid(n1, n2, false);
    let mut trace = TraceLog::new();
    let mut u: usize = 0;
    while u < n1
        invariant
            u <= n1,
            n1 == g1.node_seq().len(),
            n2 == g2.node_seq().len(),
            is_grid(grid(sim), n1 as int, n2 as int),
            trace@ == bases_in_rows(g1, g2, delta, dm, u as nat),
            forall|a: int, b: int|
                0 <= a < u && 0 <= b < n2 ==> #[trigger] grid(sim)[a][b] == cluster_candidate(
                    g1,
                    g2,
                    delta,
                    dm,
                    a,
                    b,
                ),
            forall|i: int|
                0 <= i < trace@.len() ==> (#[trigger] trace@[i]).kind == EventKind::Base && exists|
                    a: int,
                    b: int,
                    k: int,
                | #[trigger] base_cause(g1, g2, delta, dm, a, b, k, trace@[i]),
            forall|a: int, b: int|
                0 <= a < u && 0 <= b < n2 && g1.same_type(&g1.node_seq()[a], &g2.node_seq()[b])
                    && !#[trigger] cluster_candidate(g1, g2, delta, dm, a, b) ==> exists|
                    i: int,
                    k: int,
                | 0 <= i < trace@.len() && #[trigger] base_cause(g1, g2, delta, dm, a, b, k, trace@[i]),
        decreases n1 - u,
    {
        let mut v: usize = 0;
        proof {
            assert(trace@ =~= bases_in_rows(g1, g2, delta, dm, u as nat) + bases_in_row(
                g1,
                g2,
                delta,
                dm,
                u as int,
                0,
            ));
        }
        while v < n2
            invariant
                v <= n2,
                u < n1,
                n1 == g1.node_seq().len(),
                n2 == g2.node_seq().len(),
                is_grid(grid(sim), n1 as int, n2 as int),
                trace@ == bases_in_rows(g1, g2, delta, dm, u as nat) + bases_in_row(
                    g1,
                    g2,
                    delta,
                    dm,
                    u as int,
                    v as nat,
                ),
                forall|a: int, b: int|
                    0 <= a < u && 0 <= b < n2 ==> #[trigger] grid(sim)[a][b] == cluster_candidate(
                        g1,
                        g2,
                        delta,
                        dm,
                        a,
                        b,
                    ),
                forall|b: int|
                    0 <= b < v ==> #[trigger] grid(sim)[u as int][b] == cluster_candidate(
                        g1,
                        g2,
                        delta,
                        dm,
                        u as int,
                        b,
                    ),
                forall|i: int|
                    0 <= i < trace@.len() ==> (#[trigger] trace@[i]).kind == EventKind::Base
                        && exists|a: int, b: int, k: int| #[trigger]
                        base_cause(g1, g2, delta, dm, a, b, k, trace@[i]),
                forall|a: int, b: int|
                    scanned(u as int, v as int, a, b) && b < n2 && g1.same_type(
                        &g1.node_seq()[a],
                        &g2.node_seq()[b],
                    ) && !#[trigger] cluster_candidate(g1, g2, delta, dm, a, b) ==> exists|
                        i: int,
                        k: int,
                    |
                        0 <= i < trace@.len() && #[trigger] base_cause(
                            g1,
                            g2,
                            delta,
                            dm,
                            a,
                            b,
                            k,
                            trace@[i],
                        ),
            decreases n2 - v,
        {
            let ghost t0 = trace@;
            let (yes, event) = cluster_test(g1, g2, delta, dm, u, v);
            assert(grid(sim)[u as int].len() == n2);
            set_entry(&mut sim, u, v, yes);
            match event {
                Some(e) => {
                    let ghost ev = e@;
                    trace.append(e);
                    proof {
                        let t1 = trace@;
                        assert(t1 =~= bases_in_rows(g1, g2, delta, dm, u as nat) + bases_in_row(
                            g1,
                            g2,
                            delta,
                            dm,
                            u as int,
                            (v + 1) as nat,
                        ));
                        let k = choose|k: int| #[trigger]
                            base_cause(g1, g2, delta, dm, u as int, v as int, k, ev);
                        assert(t1[t0.len() as int] == ev);
                        assert forall|i: int| 0 <= i < t1.len() implies (#[trigger] t1[i]).kind
                            == EventKind::Base && exists|a: int, b: int, k: int| #[trigger]
                            base_cause(g1, g2, delta, dm, a, b, k, t1[i]) by {
                            if i < t0.len() {
                                assert(t1[i] == t0[i]);
                            } else {
                                assert(base_cause(g1, g2, delta, dm, u as int, v as int, k, t1[i]));
                            }
                        }
                        assert forall|a: int, b: int|
                            scanned(u as int, v as int + 1, a, b) && b < n2 && g1.same_type(
                                &g1.node_seq()[a],
                                &g2.node_seq()[b],
                            ) && !#[trigger] cluster_candidate(g1, g2, delta, dm, a, b) implies exists|
                            i: int,
                            k: int,
                        |
                            0 <= i < t1.len() && #[trigger] base_cause(
                                g1,
                                g2,
                                delta,
                                dm,
                                a,
                                b,
                                k,
                                t1[i],
                            ) by {
                            if scanned(u as int, v as int, a, b) {
                                let (i, k0) = choose|i: int, k0: int|
                                    0 <= i < t0.len() && #[trigger] base_cause(
                                        g1,
                                        g2,
                                        delta,
                                        dm,
                                        a,
                                        b,
                                        k0,
                                        t0[i],
                                    );
                                assert(t1[i] == t0[i]);
                                assert(base_cause(g1, g2, delta, dm, a, b, k0, t1[i]));
                            } else {
                                assert(base_cause(
                                    g1,
                                    g2,
                                    delta,
                                    dm,
                                    a,
                                    b,
                                    k,
                                    t1[t0.len() as int],
                                ));
                            }
                        }
                    }
                },
                None => {},
            }
            v = v + 1;
        }
        proof {
            assert forall|a: int, b: int|
                0 <= a < u + 1 && 0 <= b < n2 implies scanned(u as int, n2 as int, a, b) by {}
        }
        u = u + 1;
    }
    proof {
        assert(grid(sim) =~= cluster_start(g1, g2, delta, dm).sim) by {
            assert forall|a: int| 0 <= a < n1 implies #[trigger] grid(sim)[a] =~= cluster_start(
                g1,
                g2,
                delta,
                dm,
            ).sim[a] by {}
        }
        let s = pairs(grid(sim));
        let t = trace@;
        assert forall|i: int| 0 <= i < t.len() implies explained(g1, g2, delta, dm, s, #[trigger] t[i]) by {
            let (a, b, k) = choose|a: int, b: int, k: int| #[trigger]
                base_cause(g1, g2, delta, dm, a, b, k, t[i]);
            assert(base_cause(g1, g2, delta, dm, a, b, k, t[i]));
        }
        assert forall|a: int, b: int|
            cluster_candidate(g1, g2, delta, dm, a, b) && !#[trigger] s.contains((a, b)) implies exists|
            i: int,
            then: Set<(int, int)>,
            k: int,
        |
            0 <= i < t.len() && #[trigger] derivation_cause(
                g1,
                g2,
                delta,
                dm,
                s,
                then,
                a,
                b,
                k,
                t[i],
            ) by {
            assert(grid(sim)[a][b] == cluster_candidate(g1, g2, delta, dm, a, b));
            assert(related(grid(sim), a, b));
        }
    }
    (sim, trace)
}

/// Looks for a pair of clusters of `(u, v)` that supports a pair the
/// relation does not hold, and gives the Derivation event for the first.
pub fn check_pair<G: Typed, D: Delta<Node = G::Node, Edge = G::Edge>, M: DMatch<Edge = G::Edge>>(
    g1: &G,
    g2: &G,
    delta: &D,
    dm: &M,
    table1: &HashMap<u64, usize>,
    table2: &HashMap<u64, usize>,
    sim: &Vec<Vec<bool>>,
    u: usize,
    v: usize,
) -> (r: Option<TraceEvent>)
    requires
        distinct_ids(g1.node_seq()),
        distinct_ids(g2.node_seq()),
        is_index_of(table1@, g1.node_seq()),
        is_index_of(table2@, g2.node_seq()),
        is_grid(grid(*sim), g1.node_seq().len() as int, g2.node_seq().len() as int),
        u < g1.node_seq().len(),
        v < g2.node_seq().len(),
        related(grid(*sim), u as int, v as int),
    ensures
        match r {
            Some(e) => derivation_event(g1, g2, delta, dm, grid(*sim), u as int, v as int) == Some(
                e@,
            ),
            None => derivation_event(g1, g2, delta, dm, grid(*sim), u as int, v as int) is None,
        },
        match r {
            None => forall|k: int|
                0 <= k < reasons(g1, g2, delta, u as int, v as int) ==> #[trigger] backed_by(
                    g1,
                    g2,
                    delta,
                    dm,
                    pairs(grid(*sim)),
                    u as int,
                    v as int,
                    k,
                ),
            Some(e) => exists|k: int| #[trigger]
                lacks(g1, g2, delta, dm, pairs(grid(*sim)), u as int, v as int, k, e@),
        },
{
    let nodes1 = g1.nodes();
    let nodes2 = g2.nodes();
    let ghost ui = u as int;
    let ghost vi = v as int;
    let ghost s = pairs(grid(*sim));
    let clusters = delta.get_sematic_clusters(&nodes1[u], &nodes2[v]);
    let mut k: usize = 0;
    while k < clusters.len()
        invariant
            k <= clusters@.len(),
            ui == u,
            vi == v,
            s == pairs(grid(*sim)),
            distinct_ids(g1.node_seq()),
            distinct_ids(g2.node_seq()),
            is_index_of(table1@, g1.node_seq()),
            is_index_of(table2@, g2.node_seq()),
            is_grid(grid(*sim), g1.node_seq().len() as int, g2.node_seq().len() as int),
            clusters@.len() == reasons(g1, g2, delta, ui, vi),
            forall|j: int|
                0 <= j < clusters@.len() ==> (#[trigger] clusters@[j]).0.id == delta.cluster_ids(
                    &g1.node_seq()[ui],
                    &g2.node_seq()[vi],
                )[j].0 && clusters@[j].1.id == delta.cluster_ids(
                    &g1.node_seq()[ui],
                    &g2.node_seq()[vi],
                )[j].1,
            related(grid(*sim), ui, vi),
            forall|j: int| 0 <= j < k ==> #[trigger] backed_by(g1, g2, delta, dm, s, ui, vi, j),
            forall|j: int|
                0 <= j < k ==> (#[trigger] lacking(
                    g1,
                    g2,
                    s,
                    evidence(g1, g2, delta, dm, ui, vi, j),
                )).len() == 0,
        decreases clusters@.len() - k,
    {
        let pair = &clusters[k];
        let ev = dm.d_match(&pair.0, &pair.1);
        assert(ev@ == evidence(g1, g2, delta, dm, ui, vi, k as int));
        let missing = missing_pairs(g1, g2, table1, table2, sim, &ev);
        proof {
            lemma_nothing_lacking(g1, g2, s, ev@);
        }
        if missing.len() > 0 {
            let e = TraceEvent { kind: EventKind::Derivation, cluster_id: pair.0.id, pairs: missing };
            proof {
                assert(lacks(g1, g2, delta, dm, s, ui, vi, k as int, e@));
                assert(is_first_lacking(g1, g2, delta, dm, s, ui, vi, k as int));
                let c = choose|c: int| is_first_lacking(g1, g2, delta, dm, s, ui, vi, c);
                if c < k {
                    assert(lacking(g1, g2, s, evidence(g1, g2, delta, dm, ui, vi, c)).len() == 0);
                } else if k < c {
                    assert(lacking(g1, g2, s, evidence(g1, g2, delta, dm, ui, vi, k as int)).len()
                        == 0);
                }
                assert(c == k);
                assert(e@.pairs == lacking(g1, g2, s, evidence(g1, g2, delta, dm, ui, vi, c)));
                assert(e@.cluster_id == delta.cluster_ids(
                    &g1.node_seq()[ui],
                    &g2.node_seq()[vi],
                )[c].0);
                assert(derivation_event(g1, g2, delta, dm, grid(*sim), ui, vi) == Some(e@));
            }
            return Some(e);
        }
        assert(backed_by(g1, g2, delta, dm, s, ui, vi, k as int));
        k = k + 1;
    }
    proof {
        if exists|c: int| is_first_lacking(g1, g2, delta, dm, s, ui, vi, c) {
            let c = choose|c: int| is_first_lacking(g1, g2, delta, dm, s, ui, vi, c);
            assert(lacking(g1, g2, s, evidence(g1, g2, delta, dm, ui, vi, c)).len() == 0);
        }
    }
    None
}

/// The event `e` names the `k`-th pair of clusters of `(u, v)` and holds
/// what it supports and the relation `s` does not hold, which is something.
pub open spec fn lacks<G: Hypergraph, D: Delta<Node = G::Node>, M: DMatch>(
    g1: &G,
    g2: &G,
    delta: &D,
    dm: &M,
    s: Set<(int, int)>,
    u: int,
    v: int,
    k: int,
    e: EventView,
) -> bool {
    &&& 0 <= k < reasons(g1, g2, delta, u, v)
    &&& e.kind == EventKind::Derivation
    &&& e.cluster_id == delta.cluster_ids(&g1.node_seq()[u], &g2.node_seq()[v])[k].0
    &&& e.pairs == lacking(g1, g2, s, evidence(g1, g2, delta, dm, u, v, k))
    &&& e.pairs.len() > 0
}

/// A pair one of whose pairs of clusters supports something that a relation
/// does not hold stands in no consistent relation within it.
pub proof fn lemma_lacking_pair_is_outside<G: Typed, D: Delta<Node = G::Node>, M: DMatch>(
    g1: &G,
    g2: &G,
    delta: &D,
    dm: &M,
    s: Set<(int, int)>,
    u: int,
    v: int,
    k: int,
)
    requires
        cluster_simulation(g1, g2, delta, dm).subset_of(s),
        0 <= k < reasons(g1, g2, delta, u, v),
        lacking(g1, g2, s, evidence(g1, g2, delta, dm, u, v, k)).len() > 0,
    ensures
        !cluster_simulation(g1, g2, delta, dm).contains((u, v)),
{
    let gs = cluster_simulation(g1, g2, delta, dm);
    if gs.contains((u, v)) {
        lemma_cluster_simulation_is_consistent(g1, g2, delta, dm);
        assert(backed_by(g1, g2, delta, dm, gs, u, v, k));
        let ev = evidence(g1, g2, delta, dm, u, v, k);
        assert forall|i: int| 0 <= i < ev.len() implies holds_ids(g1, g2, s, #[trigger] ev[i]) by {
            assert(holds_ids(g1, g2, gs, ev[i]));
            lemma_holds_ids_grows(g1, g2, gs, s, ev[i]);
        }
        lemma_nothing_lacking(g1, g2, s, ev);
    }
}

/// A cause of a Derivation event stays one when the relation shrinks.
pub proof fn lemma_cause_survives<G: Typed, D: Delta<Node = G::Node>, M: DMatch>(
    g1: &G,
    g2: &G,
    delta: &D,
    dm: &M,
    s: Set<(int, int)>,
    s2: Set<(int, int)>,
    then: Set<(int, int)>,
    a: int,
    b: int,
    j: int,
    e: EventView,
)
    requires
        derivation_cause(g1, g2, delta, dm, s, then, a, b, j, e),
        s2.subset_of(s),
    ensures
        derivation_cause(g1, g2, delta, dm, s2, then, a, b, j, e),
{
}

/// An event that has a cause keeps one when the relation shrinks.
pub proof fn lemma_explained_survives<G: Typed, D: Delta<Node = G::Node>, M: DMatch>(
    g1: &G,
    g2: &G,
    delta: &D,
    dm: &M,
    s: Set<(int, int)>,
    s2: Set<(int, int)>,
    e: EventView,
)
    requires
        explained(g1, g2, delta, dm, s, e),
        s2.subset_of(s),
    ensures
        explained(g1, g2, delta, dm, s2, e),
{
    if exists|a: int, b: int, j: int| #[trigger] base_cause(g1, g2, delta, dm, a, b, j, e) {
    } else {
        let (then, a, b, j) = choose|then: Set<(int, int)>, a: int, b: int, j: int| #[trigger]
            derivation_cause(g1, g2, delta, dm, s, then, a, b, j, e);
        lemma_cause_survives(g1, g2, delta, dm, s, s2, then, a, b, j, e);
    }
}

/// With one more event that has a cause, every event has a cause, also when
/// the relation shrinks.
pub proof fn lemma_all_explained_push<G: Typed, D: Delta<Node = G::Node>, M: DMatch>(
    g1: &G,
    g2: &G,
    delta: &D,
    dm: &M,
    s: Set<(int, int)>,
    s2: Set<(int, int)>,
    t: Seq<EventView>,
    e: EventView,
)
    requires
        all_explained(g1, g2, delta, dm, s, t),
        s2.subset_of(s),
        explained(g1, g2, delta, dm, s2, e),
    ensures
        all_explained(g1, g2, delta, dm, s2, t.push(e)),
{
    let t2 = t.push(e);
    assert forall|i: int| 0 <= i < t2.len() implies explained(g1, g2, delta, dm, s2, #[trigger] t2[i]) by {
        if i < t.len() {
            assert(t2[i] == t[i]);
            lemma_explained_survives(g1, g2, delta, dm, s, s2, t[i]);
        } else {
            assert(t2[i] == e);
        }
    }
}

/// What a trace tells of the failures, it tells with one more event.
pub proof fn lemma_failures_told_push<G: Typed, D: Delta<Node = G::Node>, M: DMatch>(
    g1: &G,
    g2: &G,
    delta: &D,
    dm: &M,
    t: Seq<EventView>,
    e: EventView,
)
    requires
        failures_told(g1, g2, delta, dm, t),
    ensures
        failures_told(g1, g2, delta, dm, t.push(e)),
{
    let t2 = t.push(e);
    assert forall|a: int, b: int|
        0 <= a < g1.node_seq().len() && 0 <= b < g2.node_seq().len() && g1.same_type(
            &g1.node_seq()[a],
            &g2.node_seq()[b],
        ) && !#[trigger] cluster_candidate(g1, g2, delta, dm, a, b) implies exists|i: int, j: int|
        0 <= i < t2.len() && #[trigger] base_cause(g1, g2, delta, dm, a, b, j, t2[i]) by {
        let (i, j) = choose|i: int, j: int|
            0 <= i < t.len() && #[trigger] base_cause(g1, g2, delta, dm, a, b, j, t[i]);
        assert(t2[i] == t[i]);
        assert(base_cause(g1, g2, delta, dm, a, b, j, t2[i]));
    }
}

/// When `(u, v)` leaves the relation with an event that it causes, the
/// trace with the event at its end tells of every removal.
pub proof fn lemma_removals_told_push<G: Typed, D: Delta<Node = G::Node>, M: DMatch>(
    g1: &G,
    g2: &G,
    delta: &D,
    dm: &M,
    s: Set<(int, int)>,
    t: Seq<EventView>,
    u: int,
    v: int,
    k: int,
    e: EventView,
)
    requires
        removals_told(g1, g2, delta, dm, s, t),
        derivation_cause(g1, g2, delta, dm, s.remove((u, v)), s, u, v, k, e),
    ensures
        removals_told(g1, g2, delta, dm, s.remove((u, v)), t.push(e)),
{
    let s2 = s.remove((u, v));
    let t2 = t.push(e);
    assert forall|a: int, b: int|
        cluster_candidate(g1, g2, delta, dm, a, b) && !#[trigger] s2.contains((a, b)) implies exists|
        i: int,
        then: Set<(int, int)>,
        j: int,
    |
        0 <= i < t2.len() && #[trigger] derivation_cause(g1, g2, delta, dm, s2, then, a, b, j, t2[i]) by {
        if a == u && b == v {
            assert(t2[t.len() as int] == e);
            assert(derivation_cause(g1, g2, delta, dm, s2, s, a, b, k, t2[t.len() as int]));
        } else {
            assert(!s.contains((a, b)));
            let (i, then, j) = choose|i: int, then: Set<(int, int)>, j: int|
                0 <= i < t.len() && #[trigger] derivation_cause(
                    g1,
                    g2,
                    delta,
                    dm,
                    s,
                    then,
                    a,
                    b,
                    j,
                    t[i],
                );
            assert(t2[i] == t[i]);
            lemma_cause_survives(g1, g2, delta, dm, s, s2, then, a, b, j, t[i]);
            assert(derivation_cause(g1, g2, delta, dm, s2, then, a, b, j, t2[i]));
        }
    }
}

/// When `(u, v)` leaves the relation with the event `e`, the trace with `e`
/// at its end tells what has left the relation.
pub proof fn lemma_tells_after_removal<G: Typed, D: Delta<Node = G::Node>, M: DMatch>(
    g1: &G,
    g2: &G,
    delta: &D,
    dm: &M,
    s: Set<(int, int)>,
    t: Seq<EventView>,
    bases: int,
    u: int,
    v: int,
    k: int,
    e: EventView,
)
    requires
        tells(g1, g2, delta, dm, s, t, bases),
        s.contains((u, v)),
        cluster_candidate(g1, g2, delta, dm, u, v),
        lacks(g1, g2, delta, dm, s, u, v, k, e),
    ensures
        tells(g1, g2, delta, dm, s.remove((u, v)), t.push(e), bases),
{
    let s2 = s.remove((u, v));
    let t2 = t.push(e);
    assert(derivation_cause(g1, g2, delta, dm, s2, s, u, v, k, e));
    assert(explained(g1, g2, delta, dm, s2, e));
    lemma_all_explained_push(g1, g2, delta, dm, s, s2, t, e);
    lemma_failures_told_push(g1, g2, delta, dm, t, e);
    lemma_removals_told_push(g1, g2, delta, dm, s, t, u, v, k, e);
    assert(bases_first(t2, bases)) by {
        assert forall|i: int| 0 <= i < t2.len() implies ((#[trigger] t2[i]).kind == EventKind::Base
            <==> i < bases) by {
            if i < t.len() {
                assert(t2[i] == t[i]);
            }
        }
    }
}

/// Every pair of the relation finds in it all that its pairs of clusters
/// support.
pub open spec fn pair_settled<G: Hypergraph, D: Delta<Node = G::Node>, M: DMatch>(
    g1: &G,
    g2: &G,
    delta: &D,
    dm: &M,
    sim: Seq<Seq<bool>>,
    u: int,
    v: int,
) -> bool {
    related(sim, u, v) ==> forall|k: int|
        0 <= k < reasons(g1, g2, delta, u, v) ==> #[trigger] backed_by(
            g1,
            g2,
            delta,
            dm,
            pairs(sim),
            u,
            v,
            k,
        )
}

/// The refinement by clusters: pass by pass through the pairs of the
/// relation, each pair leaves that has a pair of clusters which supports
/// something the relation does not hold, and an event for it goes to the
/// trace; until a whole pass takes nothing out.
pub fn refine_by_clusters<
    G: Typed,
    D: Delta<Node = G::Node, Edge = G::Edge>,
    M: DMatch<Edge = G::Edge>,
>(
    g1: &G,
    g2: &G,
    delta: &D,
    dm: &M,
    table1: &HashMap<u64, usize>,
    table2: &HashMap<u64, usize>,
    sim: &mut Vec<Vec<bool>>,
    trace: &mut TraceLog,
)
    requires
        distinct_ids(g1.node_seq()),
        distinct_ids(g2.node_seq()),
        is_index_of(table1@, g1.node_seq()),
        is_index_of(table2@, g2.node_seq()),
        is_grid(grid(*old(sim)), g1.node_seq().len() as int, g2.node_seq().len() as int),
        forall|u: int, v: int|
            0 <= u < g1.node_seq().len() && 0 <= v < g2.node_seq().len() ==> #[trigger] grid(
                *old(sim),
            )[u][v] == cluster_candidate(g1, g2, delta, dm, u, v),
        tells(g1, g2, delta, dm, pairs(grid(*old(sim))), old(trace)@, old(trace)@.len() as int),
    ensures
        is_grid(grid(*final(sim)), g1.node_seq().len() as int, g2.node_seq().len() as int),
        within(grid(*final(sim)), grid(*old(sim))),
        pairs(grid(*final(sim))) == cluster_simulation(g1, g2, delta, dm),
        tells(
            g1,
            g2,
            delta,
            dm,
            pairs(grid(*final(sim))),
            final(trace)@,
            old(trace)@.len() as int,
        ),
        settles_at(
            g1,
            g2,
            delta,
            dm,
            state_with(grid(*old(sim)), old(trace)@),
            state_with(grid(*final(sim)), final(trace)@),
        ),
{
    let n1 = g1.nodes().len();
    let n2 = g2.nodes().len();
    let ghost ones = unit_weights(n2 as int);
    let ghost first = grid(*sim);
    let ghost st0 = ClusterState { sim: grid(*sim), trace: trace@ };
    let ghost mut n: nat = 0;
    let ghost bases = trace@.len() as int;
    let ghost gs = cluster_simulation(g1, g2, delta, dm);
    proof {
        lemma_cluster_simulation_is_consistent(g1, g2, delta, dm);
        assert forall|u: int, v: int| #[trigger] gs.contains((u, v)) implies related(first, u, v) by {
            assert(cluster_candidate(g1, g2, delta, dm, u, v));
            assert(first[u][v] == cluster_candidate(g1, g2, delta, dm, u, v));
        }
        assert forall|u: int, v: int| #[trigger] related(first, u, v) implies cluster_candidate(
            g1,
            g2,
            delta,
            dm,
            u,
            v,
        ) by {
            assert(first[u][v] == cluster_candidate(g1, g2, delta, dm, u, v));
        }
    }
    let mut changed = true;
    while changed
        invariant
            n1 == g1.node_seq().len(),
            n2 == g2.node_seq().len(),
            ones == unit_weights(n2 as int),
            gs == cluster_simulation(g1, g2, delta, dm),
            distinct_ids(g1.node_seq()),
            distinct_ids(g2.node_seq()),
            is_index_of(table1@, g1.node_seq()),
            is_index_of(table2@, g2.node_seq()),
            is_grid(grid(*sim), n1 as int, n2 as int),
            within(grid(*sim), first),
            forall|u: int, v: int| #[trigger]
                related(grid(*sim), u, v) ==> cluster_candidate(g1, g2, delta, dm, u, v),
            forall|u: int, v: int| #[trigger] gs.contains((u, v)) ==> related(grid(*sim), u, v),
            tells(g1, g2, delta, dm, pairs(grid(*sim)), trace@, bases),
            state_with(grid(*sim), trace@) == after_passes(
                g1,
                g2,
                delta,
                dm,
                st0,
                n,
            ),
            !changed ==> visit_rows(
                g1,
                g2,
                delta,
                dm,
                state_with(grid(*sim), trace@),
                n1 as nat,
            ) == state_with(grid(*sim), trace@),
            !changed ==> forall|u: int, v: int|
                0 <= u < n1 && 0 <= v < n2 ==> #[trigger] pair_settled(
                    g1,
                    g2,
                    delta,
                    dm,
                    grid(*sim),
                    u,
                    v,
                ),
        decreases
                grid_weight(grid(*sim), ones) + if changed {
                    1int
                } else {
                    0int
                },
    {
        let ghost start = grid(*sim);
        let ghost begun = ClusterState { sim: grid(*sim), trace: trace@ };
        proof {
            lemma_grid_weight_bounds(start, ones, n2 as int);
        }
        changed = false;
        let mut u: usize = 0;
        while u < n1
            invariant
                u <= n1,
                state_with(grid(*sim), trace@) == visit_rows(
                    g1,
                    g2,
                    delta,
                    dm,
                    begun,
                    u as nat,
                ),
                !changed ==> state_with(grid(*sim), trace@) == begun,
                n1 == g1.node_seq().len(),
                n2 == g2.node_seq().len(),
                ones == unit_weights(n2 as int),
                gs == cluster_simulation(g1, g2, delta, dm),
                distinct_ids(g1.node_seq()),
                distinct_ids(g2.node_seq()),
                is_index_of(table1@, g1.node_seq()),
                is_index_of(table2@, g2.node_seq()),
                is_grid(grid(*sim), n1 as int, n2 as int),
                within(grid(*sim), first),
                forall|a: int, b: int| #[trigger]
                    related(grid(*sim), a, b) ==> cluster_candidate(g1, g2, delta, dm, a, b),
                forall|a: int, b: int| #[trigger] gs.contains((a, b)) ==> related(grid(*sim), a, b),
                tells(g1, g2, delta, dm, pairs(grid(*sim)), trace@, bases),
                changed ==> grid_weight(grid(*sim), ones) < grid_weight(start, ones),
                !changed ==> grid(*sim) == start,
                !changed ==> forall|a: int, b: int|
                    0 <= a < u && 0 <= b < n2 ==> #[trigger] pair_settled(
                        g1,
                        g2,
                        delta,
                        dm,
                        grid(*sim),
                        a,
                        b,
                    ),
            decreases n1 - u,
        {
            let mut v: usize = 0;
            while v < n2
                invariant
                    v <= n2,
                    u < n1,
                    n1 == g1.node_seq().len(),
                    n2 == g2.node_seq().len(),
                    ones == unit_weights(n2 as int),
                    gs == cluster_simulation(g1, g2, delta, dm),
                    state_with(grid(*sim), trace@) == visit_row(
                        g1,
                        g2,
                        delta,
                        dm,
                        visit_rows(g1, g2, delta, dm, begun, u as nat),
                        u as int,
                        v as nat,
                    ),
                    !changed ==> state_with(grid(*sim), trace@) == begun,
                    distinct_ids(g1.node_seq()),
                    distinct_ids(g2.node_seq()),
                    is_index_of(table1@, g1.node_seq()),
                    is_index_of(table2@, g2.node_seq()),
                    is_grid(grid(*sim), n1 as int, n2 as int),
                    within(grid(*sim), first),
                    forall|a: int, b: int| #[trigger]
                        related(grid(*sim), a, b) ==> cluster_candidate(g1, g2, delta, dm, a, b),
                    forall|a: int, b: int| #[trigger]
                        gs.contains((a, b)) ==> related(grid(*sim), a, b),
                    tells(g1, g2, delta, dm, pairs(grid(*sim)), trace@, bases),
                    changed ==> grid_weight(grid(*sim), ones) < grid_weight(start, ones),
                    !changed ==> grid(*sim) == start,
                    !changed ==> forall|a: int, b: int|
                        0 <= a < u && 0 <= b < n2 ==> #[trigger] pair_settled(
                            g1,
                            g2,
                            delta,
                            dm,
                            grid(*sim),
                            a,
                            b,
                        ),
                    !changed ==> forall|b: int|
                        0 <= b < v ==> #[trigger] pair_settled(
                            g1,
                            g2,
                            delta,
                            dm,
                            grid(*sim),
                            u as int,
                            b,
                        ),
                decreases n2 - v,
            {
                assert(grid(*sim)[u as int].len() == n2);
                if get_entry(sim, u, v) {
                    match check_pair(g1, g2, delta, dm, table1, table2, sim, u, v) {
                        Some(e) => {
                            let ghost s1 = grid(*sim);
                            let ghost t1 = trace@;
                            let ghost ev = e@;
                            set_entry(sim, u, v, false);
                            trace.append(e);
                            proof {
                                let s2 = grid(*sim);
                                let k = choose|k: int| #[trigger]
                                    lacks(g1, g2, delta, dm, pairs(s1), u as int, v as int, k, ev);
                                assert(related(s1, u as int, v as int));
                                assert(gs.subset_of(pairs(s1))) by {
                                    assert forall|p: (int, int)| gs.contains(p) implies pairs(
                                        s1,
                                    ).contains(p) by {
                                        assert(gs.contains((p.0, p.1)));
                                        assert(related(s1, p.0, p.1));
                                    }
                                }
                                lemma_lacking_pair_is_outside(
                                    g1,
                                    g2,
                                    delta,
                                    dm,
                                    pairs(s1),
                                    u as int,
                                    v as int,
                                    k,
                                );
                                lemma_tells_after_removal(
                                    g1,
                                    g2,
                                    delta,
                                    dm,
                                    pairs(s1),
                                    t1,
                                    bases,
                                    u as int,
                                    v as int,
                                    k,
                                    ev,
                                );
                                assert(pairs(s2) =~= pairs(s1).remove((u as int, v as int)));
                                lemma_weight_with_entry(s1, ones, u as int, v as int, false);
                                assert(ones[v as int] == 1);
                                assert forall|a: int, b: int| #[trigger]
                                    related(s2, a, b) implies related(first, a, b)
                                    && cluster_candidate(g1, g2, delta, dm, a, b) by {
                                    assert(related(s1, a, b));
                                }
                                assert forall|a: int, b: int| #[trigger]
                                    gs.contains((a, b)) implies related(s2, a, b) by {
                                    assert(related(s1, a, b));
                                }
                            }
                            changed = true;
                        },
                        None => {},
                    }
                }
                v = v + 1;
            }
            u = u + 1;
        }
        proof {
            lemma_grid_weight_bounds(grid(*sim), ones, n2 as int);
            n = n + 1;
        }
    }
    proof {
        let s = pairs(grid(*sim));
        let fin = ClusterState { sim: grid(*sim), trace: trace@ };
        assert(after_passes(g1, g2, delta, dm, st0, n) == fin && visit_rows(
            g1,
            g2,
            delta,
            dm,
            fin,
            g1.node_seq().len(),
        ) == fin);
        assert forall|u: int, v: int| #[trigger] s.contains((u, v)) implies cluster_candidate(
            g1,
            g2,
            delta,
            dm,
            u,
            v,
        ) && forall|k: int|
            0 <= k < reasons(g1, g2, delta, u, v) ==> #[trigger] backed_by(
                g1,
                g2,
                delta,
                dm,
                s,
                u,
                v,
                k,
            ) by {
            assert(related(grid(*sim), u, v));
            assert(pair_settled(g1, g2, delta, dm, grid(*sim), u, v));
        }
        assert(cluster_consistent(g1, g2, delta, dm, s));
        assert forall|p: (int, int)| gs.contains(p) implies s.contains(p) by {
            assert(gs.contains((p.0, p.1)));
            assert(related(grid(*sim), p.0, p.1));
        }
        assert(s =~= gs);
    }
}

/// Type soundness: the cluster simulation relates only nodes of the same
/// type that pass the cluster test.
pub proof fn lemma_cluster_type_soundness<G: Typed, D: Delta<Node = G::Node>, M: DMatch>(
    g1: &G,
    g2: &G,
    delta: &D,
    dm: &M,
    u: int,
    v: int,
)
    requires
        cluster_simulation(g1, g2, delta, dm).contains((u, v)),
    ensures
        g1.same_type(&g1.node_seq()[u], &g2.node_seq()[v]),
        cluster_candidate(g1, g2, delta, dm, u, v),
{
    lemma_cluster_simulation_is_consistent(g1, g2, delta, dm);
}

/// Greatest fixed point: every consistent relation lies within the cluster
/// simulation.
pub proof fn lemma_cluster_greatest_fixed_point<G: Typed, D: Delta<Node = G::Node>, M: DMatch>(
    g1: &G,
    g2: &G,
    delta: &D,
    dm: &M,
    s: Set<(int, int)>,
)
    requires
        cluster_consistent(g1, g2, delta, dm, s),
    ensures
        s.subset_of(cluster_simulation(g1, g2, delta, dm)),
{
}

/// The trace `t` tells what left the relation `s`, its Base events first.
pub open spec fn traced<G: Typed, D: Delta<Node = G::Node>, M: DMatch>(
    g1: &G,
    g2: &G,
    delta: &D,
    dm: &M,
    s: Set<(int, int)>,
    t: Seq<EventView>,
) -> bool {
    exists|bases: int| tells(g1, g2, delta, dm, s, t, bases)
}

/// A hypergraph that can be matched against another by semantic clusters.
pub trait ClusterSimulation: Typed {
    /// The cluster simulation of the graph by `other`, and the trace of what
    /// left the relation on the way: first the pairs of the same type that
    /// failed the cluster test, then the pairs that refinement took out.
    /// Reading the bytes of the trace gives the trace back.
    fn get_cluster_simulation<
        D: Delta<Node = Self::Node, Edge = Self::Edge>,
        M: DMatch<Edge = Self::Edge>,
    >(&self, other: &Self, delta: &D, d_match: &M) -> (r: (HashMap<u64, HashSet<u64>>, TraceLog))
        requires
            distinct_ids(self.node_seq()),
            distinct_ids(other.node_seq()),
        ensures
            presents(
                r.0@,
                self.node_seq(),
                other.node_seq(),
                cluster_simulation(self, other, delta, d_match),
            ),
            traced(self, other, delta, d_match, cluster_simulation(self, other, delta, d_match), r.1@),
            exists|fin: ClusterState| #[trigger]
                settles_at(
                    self,
                    other,
                    delta,
                    d_match,
                    cluster_start(self, other, delta, d_match),
                    fin,
                ) && fin.trace == r.1@ && pairs(fin.sim) == cluster_simulation(
                    self,
                    other,
                    delta,
                    d_match,
                ),
            decode_events(encode_events(r.1@)) == Some(r.1@),
    ;
}

impl<H: Typed> ClusterSimulation for H {
    fn get_cluster_simulation<
        D: Delta<Node = Self::Node, Edge = Self::Edge>,
        M: DMatch<Edge = Self::Edge>,
    >(&self, other: &Self, delta: &D, d_match: &M) -> (r: (HashMap<u64, HashSet<u64>>, TraceLog)) {
        let (mut sim, mut trace) = initial_relation(self, other, delta, d_match);
        let ghost bases = trace@.len() as int;
        match index_nodes(self.nodes()) {
            Ok(table1) => match index_nodes(other.nodes()) {
                Ok(table2) => {
                    refine_by_clusters(
                        self,
                        other,
                        delta,
                        d_match,
                        &table1,
                        &table2,
                        &mut sim,
                        &mut trace,
                    );
                    let map = to_map(self.nodes(), other.nodes(), &sim);
                    proof {
                        trace.lemma_round_trip();
                        let fin = ClusterState { sim: grid(sim), trace: trace@ };
                        assert(settles_at(
                            self,
                            other,
                            delta,
                            d_match,
                            cluster_start(self, other, delta, d_match),
                            fin,
                        ) && fin.trace == trace@);
                        assert(tells(
                            self,
                            other,
                            delta,
                            d_match,
                            cluster_simulation(self, other, delta, d_match),
                            trace@,
                            bases,
                        ));
                    }
                    (map, trace)
                },
                Err(_) => (HashMap::new(), trace),
            },
            Err(_) => (HashMap::new(), trace),
        }
    }
}

} // verus!
