//! Simulation between hypergraphs, driven by a predicate on pairs of
//! hyperedges and a match between the nodes of such a pair.

use crate::algorithm::relation::{
    get_entry, grid, grid_weight, is_grid, lemma_grid_weight_bounds, lemma_weight_with_entry,
    new_grid, new_row, pairs, related, set_entry, within,
};
use crate::algorithm::simulation::{presents, to_map, unit_weights};
use crate::graph::base::{distinct_ids, names, SingleId};
use crate::graph::hypergraph::{
    lemma_containing_members, ContainedHyperedge, ContainedHyperedgeList, Hyperedge,
    Hypergraph, Typed,
};
use std::collections::HashMap;
use std::collections::HashSet;
use vstd::prelude::*;

verus! {

/// A match between the nodes of pairs of hyperedges: for a left hyperedge
/// `e`, a right hyperedge `e_prime` and the id of a left node, the ids of
/// the right nodes that may stand for it. What it answers does not change.
pub trait LMatch: Sized {
    type Edge;

    /// The ids that the match of `(e, e_prime)` offers for the left node `u`.
    spec fn offers(&self, e: &Self::Edge, e_prime: &Self::Edge, u: u64) -> Set<u64>;

    /// The ids of the left nodes that the match of `(e, e_prime)` speaks of.
    spec fn domain(&self, e: &Self::Edge, e_prime: &Self::Edge) -> Seq<u64>;

    fn new() -> Self;

    fn l_match_with_node_mut(&mut self, e: &Self::Edge, e_prime: &Self::Edge, u: u64) -> (r:
        &HashSet<u64>)
        ensures
            r@ == old(self).offers(e, e_prime, u),
            forall|a: &Self::Edge, b: &Self::Edge, x: u64| #[trigger]
                final(self).offers(a, b, x) == old(self).offers(a, b, x),
            forall|a: &Self::Edge, b: &Self::Edge| #[trigger]
                final(self).domain(a, b) == old(self).domain(a, b),
    ;

    fn l_match_with_node(&self, e: &Self::Edge, e_prime: &Self::Edge, u: u64) -> (r: &HashSet<u64>)
        ensures
            r@ == self.offers(e, e_prime, u),
    ;

    fn dom(&self, e: &Self::Edge, e_prime: &Self::Edge) -> (r: Vec<u64>)
        ensures
            r@ == self.domain(e, e_prime),
    ;
}

/// A hypergraph with predicates on pairs of nodes, of hyperedges and of node
/// sets. What they answer does not change.
pub trait LPredicate: Hypergraph {
    spec fn node_predicate(&self, u: &Self::Node, v: &Self::Node) -> bool;

    spec fn edge_predicate(&self, e: &Self::Edge, e_prime: &Self::Edge) -> bool;

    spec fn set_predicate(&self, x: Set<u64>, y: Set<u64>) -> bool;

    fn l_predicate_node(&self, u: &Self::Node, v: &Self::Node) -> (r: bool)
        ensures
            r == self.node_predicate(u, v),
    ;

    fn l_predicate_edge(&self, e: &Self::Edge, e_prime: &Self::Edge) -> (r: bool)
        ensures
            r == self.edge_predicate(e, e_prime),
    ;

    fn l_predicate_set(&self, x: &HashSet<u64>, y: &HashSet<u64>) -> (r: bool)
        ensures
            r == self.set_predicate(x@, y@),
    ;
}

/// Why an engine gave no relation.
#[derive(Debug, Clone, Copy, PartialEq, Eq, Structural)]
pub enum HyperSimulationError {
    /// The engine has no definition yet.
    NotImplemented,
}

/// The two matches answer alike.
pub open spec fn agrees<M: LMatch>(a: &M, b: &M) -> bool {
    &&& forall|e: &M::Edge, f: &M::Edge, x: u64| #[trigger] a.offers(e, f, x) == b.offers(e, f, x)
    &&& forall|e: &M::Edge, f: &M::Edge| #[trigger] a.domain(e, f) == b.domain(e, f)
}

/// The hyperedge at `a` joins the node at `u`.
pub open spec fn joins_at<G: Hypergraph>(g: &G, a: int, u: int) -> bool {
    &&& 0 <= a < g.hyperedge_seq().len()
    &&& 0 <= u < g.node_seq().len()
    &&& g.hyperedge_seq()[a].spec_id_set().contains(g.node_seq()[u].spec_id())
}

/// The hyperedges at `a` and `b` join the nodes at `u` and `v`, and the
/// predicate holds of them.
pub open spec fn links<G: LPredicate>(g1: &G, g2: &G, a: int, b: int, u: int, v: int) -> bool {
    &&& joins_at(g1, a, u)
    &&& joins_at(g2, b, v)
    &&& g1.edge_predicate(&g1.hyperedge_seq()[a], &g2.hyperedge_seq()[b])
}

/// Some pair of hyperedges links `u` and `v`.
pub open spec fn linked<G: LPredicate>(g1: &G, g2: &G, u: int, v: int) -> bool {
    exists|a: int, b: int| #[trigger] links(g1, g2, a, b, u, v)
}

/// The match of the hyperedges at `a` and `b` offers the right node at `v`
/// for the left node `d`.
pub open spec fn offered<G: Hypergraph, M: LMatch<Edge = G::Edge>>(
    g1: &G,
    g2: &G,
    lm: &M,
    a: int,
    b: int,
    d: u64,
    v: int,
) -> bool {
    &&& 0 <= v < g2.node_seq().len()
    &&& lm.offers(&g1.hyperedge_seq()[a], &g2.hyperedge_seq()[b], d).contains(
        g2.node_seq()[v].spec_id(),
    )
}

/// The match of the hyperedges at `a` and `b` offers, for the `k`-th node
/// of its domain, a right node in `x`.
pub open spec fn answers_node<G: Hypergraph, M: LMatch<Edge = G::Edge>>(
    g1: &G,
    g2: &G,
    lm: &M,
    a: int,
    b: int,
    k: int,
    x: Set<int>,
) -> bool {
    exists|v2: int|
        x.contains(v2) && #[trigger] offered(
            g1,
            g2,
            lm,
            a,
            b,
            lm.domain(&g1.hyperedge_seq()[a], &g2.hyperedge_seq()[b])[k],
            v2,
        )
}

/// The match of the hyperedges at `a` and `b` offers a right node in `x`
/// for every node of its domain.
pub open spec fn answers_domain<G: Hypergraph, M: LMatch<Edge = G::Edge>>(
    g1: &G,
    g2: &G,
    lm: &M,
    a: int,
    b: int,
    x: Set<int>,
) -> bool {
    forall|k: int|
        0 <= k < lm.domain(&g1.hyperedge_seq()[a], &g2.hyperedge_seq()[b]).len()
            ==> #[trigger] answers_node(g1, g2, lm, a, b, k, x)
}

/// Some pair of hyperedges that links `u` and `v` has its whole domain
/// answered within `x`.
pub open spec fn upheld<G: LPredicate, M: LMatch<Edge = G::Edge>>(
    g1: &G,
    g2: &G,
    lm: &M,
    u: int,
    v: int,
    x: Set<int>,
) -> bool {
    exists|a: int, b: int| #[trigger] links(g1, g2, a, b, u, v) && answers_domain(g1, g2, lm, a, b, x)
}

/// What keeps `v` among the candidates `x` of `u`: it is upheld; in the soft
/// variant also where no pair of hyperedges links the two.
pub open spec fn holds<G: LPredicate, M: LMatch<Edge = G::Edge>>(
    soft: bool,
    g1: &G,
    g2: &G,
    lm: &M,
    u: int,
    v: int,
    x: Set<int>,
) -> bool {
    upheld(g1, g2, lm, u, v, x) || (soft && !linked(g1, g2, u, v))
}

/// Some hyperedge that joins `v` is linked to the one at `a` and offers `v`
/// for `u`.
pub open spec fn edge_offers<G: LPredicate, M: LMatch<Edge = G::Edge>>(
    g1: &G,
    g2: &G,
    lm: &M,
    a: int,
    u: int,
    v: int,
) -> bool {
    exists|b: int| #[trigger]
        links(g1, g2, a, b, u, v) && offered(g1, g2, lm, a, b, g1.node_seq()[u].spec_id(), v)
}

/// The candidates that the refinement starts from.
///
/// Plain: `u` and `v` have the same type, `u` lies on a hyperedge, and for
/// every hyperedge on which `u` lies the matches with the linked hyperedges
/// of `v` together offer `v` for `u`.
///
/// Soft: `u` and `v` have the same type, and every pair of hyperedges that
/// links them offers `v` for `u`.
pub open spec fn candidate<G: Typed + LPredicate, M: LMatch<Edge = G::Edge>>(
    soft: bool,
    g1: &G,
    g2: &G,
    lm: &M,
    u: int,
    v: int,
) -> bool {
    &&& 0 <= u < g1.node_seq().len()
    &&& 0 <= v < g2.node_seq().len()
    &&& g1.same_type(&g1.node_seq()[u], &g2.node_seq()[v])
    &&& if soft {
        forall|a: int, b: int| #[trigger]
            links(g1, g2, a, b, u, v) ==> offered(g1, g2, lm, a, b, g1.node_seq()[u].spec_id(), v)
    } else {
        &&& exists|a: int| #[trigger] joins_at(g1, a, u)
        &&& forall|a: int| #[trigger] joins_at(g1, a, u) ==> edge_offers(g1, g2, lm, a, u, v)
    }
}

/// `x` is a set of candidates of `u` each of which it keeps.
pub open spec fn stable<G: Typed + LPredicate, M: LMatch<Edge = G::Edge>>(
    soft: bool,
    g1: &G,
    g2: &G,
    lm: &M,
    u: int,
    x: Set<int>,
) -> bool {
    forall|v: int| #[trigger]
        x.contains(v) ==> candidate(soft, g1, g2, lm, u, v) && holds(soft, g1, g2, lm, u, v, x)
}

/// The greatest stable set of candidates of `u`: the union of all of them.
pub open spec fn greatest_row<G: Typed + LPredicate, M: LMatch<Edge = G::Edge>>(
    soft: bool,
    g1: &G,
    g2: &G,
    lm: &M,
    u: int,
) -> Set<int> {
    Set::new(|v: int| exists|x: Set<int>| #[trigger] stable(soft, g1, g2, lm, u, x) && x.contains(v))
}

/// The hyper-simulation of `g1` by `g2` under the match `lm`: each left
/// position with its greatest stable set.
pub open spec fn hyper_simulation<G: Typed + LPredicate, M: LMatch<Edge = G::Edge>>(
    soft: bool,
    g1: &G,
    g2: &G,
    lm: &M,
) -> Set<(int, int)> {
    Set::new(
        |p: (int, int)|
            0 <= p.0 < g1.node_seq().len() && greatest_row(soft, g1, g2, lm, p.0).contains(p.1),
    )
}

/// The right positions that stand in row `u` of `g`.
pub open spec fn row_set(g: Seq<Seq<bool>>, u: int) -> Set<int> {
    Set::new(|v: int| related(g, u, v))
}

/// The right positions that `row` holds.
pub open spec fn held(row: Seq<bool>) -> Set<int> {
    Set::new(|v: int| 0 <= v < row.len() && row[v])
}

/// What is answered within a set is answered within a larger one.
pub proof fn lemma_holds_grows<G: LPredicate, M: LMatch<Edge = G::Edge>>(
    soft: bool,
    g1: &G,
    g2: &G,
    lm: &M,
    u: int,
    v: int,
    x: Set<int>,
    y: Set<int>,
)
    requires
        holds(soft, g1, g2, lm, u, v, x),
        x.subset_of(y),
    ensures
        holds(soft, g1, g2, lm, u, v, y),
{
    if upheld(g1, g2, lm, u, v, x) {
        let (a, b) = choose|a: int, b: int| #[trigger]
            links(g1, g2, a, b, u, v) && answers_domain(g1, g2, lm, a, b, x);
        let dom = lm.domain(&g1.hyperedge_seq()[a], &g2.hyperedge_seq()[b]);
        assert forall|k: int| 0 <= k < dom.len() implies #[trigger] answers_node(
            g1,
            g2,
            lm,
            a,
            b,
            k,
            y,
        ) by {
            assert(answers_node(g1, g2, lm, a, b, k, x));
            let v2 = choose|v2: int| x.contains(v2) && #[trigger] offered(g1, g2, lm, a, b, dom[k], v2);
            assert(y.contains(v2));
        }
        assert(links(g1, g2, a, b, u, v) && answers_domain(g1, g2, lm, a, b, y));
    }
}

/// Matches that answer alike give the same candidates.
pub proof fn lemma_candidate_agrees<G: Typed + LPredicate, M: LMatch<Edge = G::Edge>>(
    soft: bool,
    g1: &G,
    g2: &G,
    lm1: &M,
    lm2: &M,
    u: int,
    v: int,
)
    requires
        agrees(lm1, lm2),
    ensures
        candidate(soft, g1, g2, lm1, u, v) == candidate(soft, g1, g2, lm2, u, v),
{
    lemma_candidate_carries(soft, g1, g2, lm1, lm2, u, v);
    assert(agrees(lm2, lm1)) by {
        assert forall|e: &M::Edge, f: &M::Edge, x: u64| #[trigger]
            lm2.offers(e, f, x) == lm1.offers(e, f, x) by {
            assert(lm1.offers(e, f, x) == lm2.offers(e, f, x));
        }
        assert forall|e: &M::Edge, f: &M::Edge| #[trigger] lm2.domain(e, f) == lm1.domain(e, f) by {
            assert(lm1.domain(e, f) == lm2.domain(e, f));
        }
    }
    lemma_candidate_carries(soft, g1, g2, lm2, lm1, u, v);
}

/// A candidate under one match is a candidate under a match that answers
/// alike.
pub proof fn lemma_candidate_carries<G: Typed + LPredicate, M: LMatch<Edge = G::Edge>>(
    soft: bool,
    g1: &G,
    g2: &G,
    lm1: &M,
    lm2: &M,
    u: int,
    v: int,
)
    requires
        agrees(lm1, lm2),
    ensures
        candidate(soft, g1, g2, lm1, u, v) ==> candidate(soft, g1, g2, lm2, u, v),
{
    if candidate(soft, g1, g2, lm1, u, v) {
        let id = g1.node_seq()[u].spec_id();
        if soft {
            assert forall|a: int, b: int| #[trigger] links(g1, g2, a, b, u, v) implies offered(
                g1,
                g2,
                lm2,
                a,
                b,
                id,
                v,
            ) by {
                assert(offered(g1, g2, lm1, a, b, id, v));
                assert(lm1.offers(&g1.hyperedge_seq()[a], &g2.hyperedge_seq()[b], id) == lm2.offers(
                    &g1.hyperedge_seq()[a],
                    &g2.hyperedge_seq()[b],
                    id,
                ));
            }
        } else {
            assert forall|a: int| #[trigger] joins_at(g1, a, u) implies edge_offers(
                g1,
                g2,
                lm2,
                a,
                u,
                v,
            ) by {
                assert(edge_offers(g1, g2, lm1, a, u, v));
                let b = choose|b: int| #[trigger]
                    links(g1, g2, a, b, u, v) && offered(g1, g2, lm1, a, b, id, v);
                assert(lm1.offers(&g1.hyperedge_seq()[a], &g2.hyperedge_seq()[b], id) == lm2.offers(
                    &g1.hyperedge_seq()[a],
                    &g2.hyperedge_seq()[b],
                    id,
                ));
                assert(links(g1, g2, a, b, u, v) && offered(g1, g2, lm2, a, b, id, v));
            }
        }
    }
}

/// Whether the match of the hyperedges at `a` and `b` offers, for every node
/// of its domain, a right node that `row` holds.
pub fn domain_answered<G: Hypergraph, M: LMatch<Edge = G::Edge>>(
    g1: &G,
    g2: &G,
    lm: &M,
    a: usize,
    b: usize,
    row: &Vec<bool>,
) -> (r: bool)
    requires
        a < g1.hyperedge_seq().len(),
        b < g2.hyperedge_seq().len(),
        row@.len() == g2.node_seq().len(),
    ensures
        r == answers_domain(g1, g2, lm, a as int, b as int, held(row@)),
{
    let e = &g1.hyperedges()[a];
    let f = &g2.hyperedges()[b];
    let nodes2 = g2.nodes();
    let dom = lm.dom(e, f);
    let ghost x = held(row@);
    let mut k: usize = 0;
    while k < dom.len()
        invariant
            k <= dom@.len(),
            x == held(row@),
            *e == g1.hyperedge_seq()[a as int],
            *f == g2.hyperedge_seq()[b as int],
            nodes2@ == g2.node_seq(),
            row@.len() == nodes2@.len(),
            dom@ == lm.domain(e, f),
            forall|i: int| 0 <= i < k ==> #[trigger] answers_node(g1, g2, lm, a as int, b as int, i, x),
        decreases dom@.len() - k,
    {
        let d = dom[k];
        let set = lm.l_match_with_node(e, f, d);
        let mut found = false;
        let mut v2: usize = 0;
        while v2 < nodes2.len()
            invariant
                v2 <= nodes2@.len(),
                x == held(row@),
                *e == g1.hyperedge_seq()[a as int],
                *f == g2.hyperedge_seq()[b as int],
                nodes2@ == g2.node_seq(),
                row@.len() == nodes2@.len(),
                set@ == lm.offers(e, f, d),
                found == exists|c: int|
                    0 <= c < v2 && x.contains(c) && #[trigger] offered(
                        g1,
                        g2,
                        lm,
                        a as int,
                        b as int,
                        d,
                        c,
                    ),
            decreases nodes2@.len() - v2,
        {
            if row[v2] && set.contains(&nodes2[v2].id()) {
                assert(x.contains(v2 as int) && offered(g1, g2, lm, a as int, b as int, d, v2 as int));
                found = true;
            }
            v2 = v2 + 1;
        }
        if !found {
            proof {
                if answers_node(g1, g2, lm, a as int, b as int, k as int, x) {
                    let c = choose|c: int|
                        x.contains(c) && #[trigger] offered(g1, g2, lm, a as int, b as int, d, c);
                    assert(0 <= c < v2);
                }
            }
            return false;
        }
        proof {
            let c = choose|c: int|
                0 <= c < v2 && x.contains(c) && #[trigger] offered(
                    g1,
                    g2,
                    lm,
                    a as int,
                    b as int,
                    d,
                    c,
                );
            assert(answers_node(g1, g2, lm, a as int, b as int, k as int, x));
        }
        k = k + 1;
    }
    true
}

/// The pair `(x, y)` of list positions comes before `(i, j)`.
pub open spec fn scanned(i: int, j: int, x: int, y: int) -> bool {
    0 <= x && 0 <= y && (x < i || (x == i && y < j))
}

/// Whether `row`, the candidates of `u`, keeps `v`.
pub fn is_upheld<G: LPredicate + ContainedHyperedge, M: LMatch<Edge = G::Edge>>(
    soft: bool,
    g1: &G,
    g2: &G,
    lm: &M,
    cont1: &ContainedHyperedgeList,
    cont2: &ContainedHyperedgeList,
    u: usize,
    v: usize,
    row: &Vec<bool>,
) -> (r: bool)
    requires
        cont1.lists_hyperedges_of(g1),
        cont2.lists_hyperedges_of(g2),
        u < g1.node_seq().len(),
        v < g2.node_seq().len(),
        row@.len() == g2.node_seq().len(),
    ensures
        r == holds(soft, g1, g2, lm, u as int, v as int, held(row@)),
{
    let edges1 = g1.hyperedges();
    let edges2 = g2.hyperedges();
    let ca = cont1.row(u);
    let cb = cont2.row(v);
    let ghost x = held(row@);
    let ghost ui = u as int;
    let ghost vi = v as int;
    let count1 = edges1.len();
    let count2 = edges2.len();
    proof {
        lemma_containing_members(g1.hyperedge_seq(), g1.node_seq()[ui].spec_id());
        lemma_containing_members(g2.hyperedge_seq(), g2.node_seq()[vi].spec_id());
    }
    let mut any = false;
    let mut i: usize = 0;
    while i < ca.len()
        invariant
            i <= ca@.len(),
            ui == u,
            vi == v,
            x == held(row@),
            row@.len() == g2.node_seq().len(),
            edges1@ == g1.hyperedge_seq(),
            edges2@ == g2.hyperedge_seq(),
            forall|k: int|
                0 <= k < ca@.len() ==> #[trigger] ca@[k] < edges1@.len() && joins_at(
                    g1,
                    ca@[k] as int,
                    ui,
                ),
            forall|k: int|
                0 <= k < cb@.len() ==> #[trigger] cb@[k] < edges2@.len() && joins_at(
                    g2,
                    cb@[k] as int,
                    vi,
                ),
            any == exists|p: int, q: int|
                scanned(i as int, 0, p, q) && q < cb@.len() && #[trigger] links(
                    g1,
                    g2,
                    ca@[p] as int,
                    cb@[q] as int,
                    ui,
                    vi,
                ),
            forall|p: int, q: int|
                scanned(i as int, 0, p, q) && q < cb@.len() ==> !(#[trigger] links(
                    g1,
                    g2,
                    ca@[p] as int,
                    cb@[q] as int,
                    ui,
                    vi,
                ) && answers_domain(g1, g2, lm, ca@[p] as int, cb@[q] as int, x)),
        decreases ca@.len() - i,
    {
        let mut j: usize = 0;
        while j < cb.len()
            invariant
                j <= cb@.len(),
                i < ca@.len(),
                ui == u,
                vi == v,
                x == held(row@),
                row@.len() == g2.node_seq().len(),
                edges1@ == g1.hyperedge_seq(),
                edges2@ == g2.hyperedge_seq(),
                forall|k: int|
                    0 <= k < ca@.len() ==> #[trigger] ca@[k] < edges1@.len() && joins_at(
                        g1,
                        ca@[k] as int,
                        ui,
                    ),
                forall|k: int|
                    0 <= k < cb@.len() ==> #[trigger] cb@[k] < edges2@.len() && joins_at(
                        g2,
                        cb@[k] as int,
                        vi,
                    ),
                any == exists|p: int, q: int|
                    scanned(i as int, j as int, p, q) && q < cb@.len() && #[trigger] links(
                        g1,
                        g2,
                        ca@[p] as int,
                        cb@[q] as int,
                        ui,
                        vi,
                    ),
                forall|p: int, q: int|
                    scanned(i as int, j as int, p, q) && q < cb@.len() ==> !(#[trigger] links(
                        g1,
                        g2,
                        ca@[p] as int,
                        cb@[q] as int,
                        ui,
                        vi,
                    ) && answers_domain(g1, g2, lm, ca@[p] as int, cb@[q] as int, x)),
            decreases cb@.len() - j,
        {
            let a = ca[i];
            let b = cb[j];
            assert(ca@[i as int] < edges1@.len());
            assert(cb@[j as int] < edges2@.len());
            let ghost was = any;
            if g1.l_predicate_edge(&edges1[a], &edges2[b]) {
                assert(links(g1, g2, ca@[i as int] as int, cb@[j as int] as int, ui, vi));
                assert(scanned(i as int, j as int + 1, i as int, j as int));
                any = true;
                if domain_answered(g1, g2, lm, a, b, row) {
                    return true;
                }
            }
            proof {
                if was {
                    let (p, q) = choose|p: int, q: int|
                        scanned(i as int, j as int, p, q) && q < cb@.len() && #[trigger] links(
                            g1,
                            g2,
                            ca@[p] as int,
                            cb@[q] as int,
                            ui,
                            vi,
                        );
                    assert(scanned(i as int, j as int + 1, p, q));
                }
                assert forall|p: int, q: int|
                    scanned(i as int, j as int + 1, p, q) && q < cb@.len() && #[trigger] links(
                        g1,
                        g2,
                        ca@[p] as int,
                        cb@[q] as int,
                        ui,
                        vi,
                    ) implies any by {
                    if scanned(i as int, j as int, p, q) {
                    } else {
                        assert(p == i && q == j);
                    }
                }
            }
            j = j + 1;
        }
        proof {
            assert forall|p: int, q: int|
                scanned(i as int + 1, 0, p, q) && q < cb@.len() implies scanned(
                i as int,
                j as int,
                p,
                q,
            ) by {}
            if any {
                let (p, q) = choose|p: int, q: int|
                    scanned(i as int, j as int, p, q) && q < cb@.len() && #[trigger] links(
                        g1,
                        g2,
                        ca@[p] as int,
                        cb@[q] as int,
                        ui,
                        vi,
                    );
                assert(scanned(i as int + 1, 0, p, q));
            }
        }
        i = i + 1;
    }
    proof {
        if upheld(g1, g2, lm, ui, vi, x) {
            let (a, b) = choose|a: int, b: int| #[trigger]
                links(g1, g2, a, b, ui, vi) && answers_domain(g1, g2, lm, a, b, x);
            assert(names(ca@, a));
            assert(names(cb@, b));
            let p = choose|p: int| 0 <= p < ca@.len() && (#[trigger] ca@[p]) as int == a;
            let q = choose|q: int| 0 <= q < cb@.len() && (#[trigger] cb@[q]) as int == b;
            assert(scanned(i as int, 0, p, q));
            assert(links(g1, g2, ca@[p] as int, cb@[q] as int, ui, vi));
            assert(false);
        }
        if linked(g1, g2, ui, vi) {
            let (a, b) = choose|a: int, b: int| #[trigger] links(g1, g2, a, b, ui, vi);
            assert(names(ca@, a));
            assert(names(cb@, b));
            let p = choose|p: int| 0 <= p < ca@.len() && (#[trigger] ca@[p]) as int == a;
            let q = choose|q: int| 0 <= q < cb@.len() && (#[trigger] cb@[q]) as int == b;
            assert(scanned(i as int, 0, p, q));
            assert(links(g1, g2, ca@[p] as int, cb@[q] as int, ui, vi));
            assert(any);
        }
    }
    soft && !any
}

/// Asks the match of the hyperedges at `a` and `b` whether it offers the
/// right node at `v` for the left node `d`.
pub fn is_offered<G: Hypergraph, M: LMatch<Edge = G::Edge>>(
    g1: &G,
    g2: &G,
    lm: &mut M,
    a: usize,
    b: usize,
    d: u64,
    v: usize,
) -> (r: bool)
    requires
        a < g1.hyperedge_seq().len(),
        b < g2.hyperedge_seq().len(),
        v < g2.node_seq().len(),
    ensures
        r == offered(g1, g2, old(lm), a as int, b as int, d, v as int),
        agrees(final(lm), old(lm)),
{
    let id = g2.nodes()[v].id();
    let set = lm.l_match_with_node_mut(&g1.hyperedges()[a], &g2.hyperedges()[b], d);
    let r = set.contains(&id);
    r
}

/// Matches that answer like a third answer like each other.
pub proof fn lemma_agrees_chain<M: LMatch>(a: &M, b: &M, c: &M)
    requires
        agrees(a, b),
        agrees(b, c),
    ensures
        agrees(a, c),
{
    assert forall|e: &M::Edge, f: &M::Edge, x: u64| #[trigger] a.offers(e, f, x) == c.offers(e, f, x) by {
        assert(a.offers(e, f, x) == b.offers(e, f, x));
        assert(b.offers(e, f, x) == c.offers(e, f, x));
    }
    assert forall|e: &M::Edge, f: &M::Edge| #[trigger] a.domain(e, f) == c.domain(e, f) by {
        assert(a.domain(e, f) == b.domain(e, f));
        assert(b.domain(e, f) == c.domain(e, f));
    }
}

/// Whether the right node at `v` is a candidate for the left node at `u`
/// when the refinement starts.
pub fn is_candidate<G: Typed + LPredicate + ContainedHyperedge, M: LMatch<Edge = G::Edge>>(
    soft: bool,
    g1: &G,
    g2: &G,
    lm: &mut M,
    cont1: &ContainedHyperedgeList,
    cont2: &ContainedHyperedgeList,
    u: usize,
    v: usize,
) -> (r: bool)
    requires
        cont1.lists_hyperedges_of(g1),
        cont2.lists_hyperedges_of(g2),
        u < g1.node_seq().len(),
        v < g2.node_seq().len(),
    ensures
        r == candidate(soft, g1, g2, old(lm), u as int, v as int),
        agrees(final(lm), old(lm)),
{
    let ghost lm0 = *lm;
    let ghost ui = u as int;
    let ghost vi = v as int;
    let nodes1 = g1.nodes();
    let nodes2 = g2.nodes();
    let edges1 = g1.hyperedges();
    let edges2 = g2.hyperedges();
    let count1 = edges1.len();
    let count2 = edges2.len();
    if !g1.type_same(&nodes1[u], &nodes2[v]) {
        return false;
    }
    let id = nodes1[u].id();
    let ca = cont1.row(u);
    let cb = cont2.row(v);
    proof {
        lemma_containing_members(g1.hyperedge_seq(), g1.node_seq()[ui].spec_id());
        lemma_containing_members(g2.hyperedge_seq(), g2.node_seq()[vi].spec_id());
    }
    if !soft && ca.len() == 0 {
        proof {
            if exists|a: int| #[trigger] joins_at(g1, a, ui) {
                let a = choose|a: int| #[trigger] joins_at(g1, a, ui);
                assert(names(ca@, a));
            }
        }
        return false;
    }
    let mut i: usize = 0;
    while i < ca.len()
        invariant
            i <= ca@.len(),
            ui == u,
            vi == v,
            u < g1.node_seq().len(),
            v < g2.node_seq().len(),
            id == g1.node_seq()[ui].spec_id(),
            lm0 == *old(lm),
            agrees(lm, &lm0),
            forall|e: int| #[trigger] joins_at(g1, e, ui) ==> names(ca@, e),
            forall|e: int| #[trigger] joins_at(g2, e, vi) ==> names(cb@, e),
            edges1@ == g1.hyperedge_seq(),
            edges2@ == g2.hyperedge_seq(),
            forall|k: int|
                0 <= k < ca@.len() ==> #[trigger] ca@[k] < edges1@.len() && joins_at(
                    g1,
                    ca@[k] as int,
                    ui,
                ),
            forall|k: int|
                0 <= k < cb@.len() ==> #[trigger] cb@[k] < edges2@.len() && joins_at(
                    g2,
                    cb@[k] as int,
                    vi,
                ),
            soft ==> forall|p: int, q: int|
                scanned(i as int, 0, p, q) && q < cb@.len() && #[trigger] links(
                    g1,
                    g2,
                    ca@[p] as int,
                    cb@[q] as int,
                    ui,
                    vi,
                ) ==> offered(g1, g2, &lm0, ca@[p] as int, cb@[q] as int, id, vi),
            !soft ==> forall|p: int|
                0 <= p < i ==> edge_offers(g1, g2, &lm0, (#[trigger] ca@[p]) as int, ui, vi),
        decreases ca@.len() - i,
    {
        let a = ca[i];
        let mut found = false;
        let mut j: usize = 0;
        while j < cb.len()
            invariant
                j <= cb@.len(),
                i < ca@.len(),
                a == ca@[i as int],
                ui == u,
                vi == v,
                u < g1.node_seq().len(),
                v < g2.node_seq().len(),
                id == g1.node_seq()[ui].spec_id(),
                lm0 == *old(lm),
                agrees(lm, &lm0),
                forall|e: int| #[trigger] joins_at(g1, e, ui) ==> names(ca@, e),
                forall|e: int| #[trigger] joins_at(g2, e, vi) ==> names(cb@, e),
                edges1@ == g1.hyperedge_seq(),
                edges2@ == g2.hyperedge_seq(),
                forall|k: int|
                    0 <= k < ca@.len() ==> #[trigger] ca@[k] < edges1@.len() && joins_at(
                        g1,
                        ca@[k] as int,
                        ui,
                    ),
                forall|k: int|
                    0 <= k < cb@.len() ==> #[trigger] cb@[k] < edges2@.len() && joins_at(
                        g2,
                        cb@[k] as int,
                        vi,
                    ),
                soft ==> forall|p: int, q: int|
                    scanned(i as int, j as int, p, q) && q < cb@.len() && #[trigger] links(
                        g1,
                        g2,
                        ca@[p] as int,
                        cb@[q] as int,
                        ui,
                        vi,
                    ) ==> offered(g1, g2, &lm0, ca@[p] as int, cb@[q] as int, id, vi),
                found == exists|q: int|
                    0 <= q < j && #[trigger] links(g1, g2, a as int, cb@[q] as int, ui, vi)
                        && offered(g1, g2, &lm0, a as int, cb@[q] as int, id, vi),
            decreases cb@.len() - j,
        {
            let b = cb[j];
            assert(ca@[i as int] < edges1@.len());
            assert(cb@[j as int] < edges2@.len());
            if g1.l_predicate_edge(&edges1[a], &edges2[b]) {
                assert(links(g1, g2, a as int, cb@[j as int] as int, ui, vi));
                let ghost mid = *lm;
                let yes = is_offered(g1, g2, lm, a, b, id, v);
                proof {
                    lemma_agrees_chain(lm, &mid, &lm0);
                    assert(mid.offers(&g1.hyperedge_seq()[a as int], &g2.hyperedge_seq()[b as int], id)
                        == lm0.offers(&g1.hyperedge_seq()[a as int], &g2.hyperedge_seq()[b as int], id));
                    assert(yes == offered(g1, g2, &lm0, a as int, b as int, id, vi));
                }
                if yes {
                    found = true;
                } else if soft {
                    proof {
                        assert(scanned(ca@.len() as int, 0, i as int, j as int));
                        assert(!candidate(soft, g1, g2, &lm0, ui, vi));
                    }
                    return false;
                }
            }
            j = j + 1;
        }
        if !soft && !found {
            proof {
                if edge_offers(g1, g2, &lm0, a as int, ui, vi) {
                    let b = choose|b: int| #[trigger]
                        links(g1, g2, a as int, b, ui, vi) && offered(g1, g2, &lm0, a as int, b, id, vi);
                    assert(names(cb@, b));
                    let q = choose|q: int| 0 <= q < cb@.len() && (#[trigger] cb@[q]) as int == b;
                    assert(links(g1, g2, a as int, cb@[q] as int, ui, vi));
                    assert(false);
                }
                assert(joins_at(g1, ca@[i as int] as int, ui));
            }
            return false;
        }
        proof {
            if !soft {
                let q = choose|q: int|
                    0 <= q < j && #[trigger] links(g1, g2, a as int, cb@[q] as int, ui, vi) && offered(
                        g1,
                        g2,
                        &lm0,
                        a as int,
                        cb@[q] as int,
                        id,
                        vi,
                    );
                assert(edge_offers(g1, g2, &lm0, ca@[i as int] as int, ui, vi));
            }
            assert forall|p: int, q: int|
                scanned(i as int + 1, 0, p, q) && q < cb@.len() implies scanned(
                i as int,
                j as int,
                p,
                q,
            ) by {}
        }
        i = i + 1;
    }
    proof {
        if soft {
            assert forall|a: int, b: int| #[trigger] links(g1, g2, a, b, ui, vi) implies offered(
                g1,
                g2,
                &lm0,
                a,
                b,
                id,
                vi,
            ) by {
                assert(names(ca@, a));
                assert(names(cb@, b));
                let p = choose|p: int| 0 <= p < ca@.len() && (#[trigger] ca@[p]) as int == a;
                let q = choose|q: int| 0 <= q < cb@.len() && (#[trigger] cb@[q]) as int == b;
                assert(scanned(i as int, 0, p, q));
                assert(links(g1, g2, ca@[p] as int, cb@[q] as int, ui, vi));
            }
        } else {
            assert(joins_at(g1, ca@[0] as int, ui));
            assert forall|a: int| #[trigger] joins_at(g1, a, ui) implies edge_offers(
                g1,
                g2,
                &lm0,
                a,
                ui,
                vi,
            ) by {
                assert(names(ca@, a));
                let p = choose|p: int| 0 <= p < ca@.len() && (#[trigger] ca@[p]) as int == a;
                assert(edge_offers(g1, g2, &lm0, ca@[p] as int, ui, vi));
            }
        }
    }
    true
}

/// The candidates that the refinement starts from, as a grid.
pub fn hyper_candidates<G: Typed + LPredicate + ContainedHyperedge, M: LMatch<Edge = G::Edge>>(
    soft: bool,
    g1: &G,
    g2: &G,
    lm: &mut M,
    cont1: &ContainedHyperedgeList,
    cont2: &ContainedHyperedgeList,
) -> (sim: Vec<Vec<bool>>)
    requires
        cont1.lists_hyperedges_of(g1),
        cont2.lists_hyperedges_of(g2),
    ensures
        agrees(final(lm), old(lm)),
        is_grid(grid(sim), g1.node_seq().len() as int, g2.node_seq().len() as int),
        forall|u: int, v: int|
            0 <= u < g1.node_seq().len() && 0 <= v < g2.node_seq().len() ==> #[trigger] grid(
                sim,
            )[u][v] == candidate(soft, g1, g2, final(lm), u, v),
{
    let n1 = g1.nodes().len();
    let n2 = g2.nodes().len();
    let mut sim = new_grid(n1, n2, false);
    let mut u: usize = 0;
    while u < n1
        invariant
            u <= n1,
            n1 == g1.node_seq().len(),
            n2 == g2.node_seq().len(),
            cont1.lists_hyperedges_of(g1),
            cont2.lists_hyperedges_of(g2),
            agrees(lm, old(lm)),
            is_grid(grid(sim), n1 as int, n2 as int),
            forall|a: int, b: int|
                0 <= a < u && 0 <= b < n2 ==> #[trigger] grid(sim)[a][b] == candidate(
                    soft,
                    g1,
                    g2,
                    lm,
                    a,
                    b,
                ),
        decreases n1 - u,
    {
        let mut v: usize = 0;
        while v < n2
            invariant
                v <= n2,
                u < n1,
                n1 == g1.node_seq().len(),
                n2 == g2.node_seq().len(),
                cont1.lists_hyperedges_of(g1),
                cont2.lists_hyperedges_of(g2),
                agrees(lm, old(lm)),
                is_grid(grid(sim), n1 as int, n2 as int),
                forall|a: int, b: int|
                    0 <= a < u && 0 <= b < n2 ==> #[trigger] grid(sim)[a][b] == candidate(
                        soft,
                        g1,
                        g2,
                        lm,
                        a,
                        b,
                    ),
                forall|b: int|
                    0 <= b < v ==> #[trigger] grid(sim)[u as int][b] == candidate(
                        soft,
                        g1,
                        g2,
                        lm,
                        u as int,
                        b,
                    ),
            decreases n2 - v,
        {
            let ghost mid = *lm;
            let ghost before = grid(sim);
            let yes = is_candidate(soft, g1, g2, lm, cont1, cont2, u, v);
            assert(grid(sim)[u as int].len() == n2);
            set_entry(&mut sim, u, v, yes);
            proof {
                lemma_agrees_chain(lm, &mid, old(lm));
                assert forall|a: int, b: int|
                    0 <= a < n1 && 0 <= b < n2 implies candidate(soft, g1, g2, &mid, a, b)
                    == candidate(soft, g1, g2, lm, a, b) by {
                    lemma_candidate_agrees(soft, g1, g2, lm, &mid, a, b);
                }
                assert forall|a: int, b: int| 0 <= a < u && 0 <= b < n2 implies #[trigger] grid(
                    sim,
                )[a][b] == candidate(soft, g1, g2, lm, a, b) by {
                    assert(grid(sim)[a][b] == before[a][b]);
                }
                assert forall|b: int| 0 <= b < v + 1 implies #[trigger] grid(sim)[u as int][b]
                    == candidate(soft, g1, g2, lm, u as int, b) by {
                    if b < v {
                        assert(grid(sim)[u as int][b] == before[u as int][b]);
                    }
                }
            }
            v = v + 1;
        }
        u = u + 1;
    }
    sim
}

/// Takes out of the candidates of the left node at `u` every right node
/// that they do not keep. Says whether anything was taken out.
pub fn prune_row<G: Typed + LPredicate + ContainedHyperedge, M: LMatch<Edge = G::Edge>>(
    soft: bool,
    g1: &G,
    g2: &G,
    lm: &M,
    cont1: &ContainedHyperedgeList,
    cont2: &ContainedHyperedgeList,
    sim: &mut Vec<Vec<bool>>,
    u: usize,
) -> (removed: bool)
    requires
        cont1.lists_hyperedges_of(g1),
        cont2.lists_hyperedges_of(g2),
        u < g1.node_seq().len(),
        is_grid(grid(*old(sim)), g1.node_seq().len() as int, g2.node_seq().len() as int),
    ensures
        is_grid(grid(*final(sim)), g1.node_seq().len() as int, g2.node_seq().len() as int),
        within(grid(*final(sim)), grid(*old(sim))),
        forall|i: int|
            0 <= i < g1.node_seq().len() && i != u ==> #[trigger] grid(*final(sim))[i] == grid(
                *old(sim),
            )[i],
        forall|v: int|
            0 <= v < g2.node_seq().len() ==> #[trigger] grid(*final(sim))[u as int][v] == (grid(
                *old(sim),
            )[u as int][v] && holds(
                soft,
                g1,
                g2,
                lm,
                u as int,
                v,
                row_set(grid(*old(sim)), u as int),
            )),
        removed ==> grid_weight(grid(*final(sim)), unit_weights(g2.node_seq().len() as int))
            < grid_weight(grid(*old(sim)), unit_weights(g2.node_seq().len() as int)),
        !removed ==> grid(*final(sim)) == grid(*old(sim)),
{
    let n2 = g2.nodes().len();
    let ghost n1 = g1.node_seq().len() as int;
    let ghost s0 = grid(*sim);
    let ghost x = row_set(s0, u as int);
    let ghost ones = unit_weights(n2 as int);
    let mut doomed = new_row(n2, false);
    let mut removed = false;
    let mut v: usize = 0;
    while v < n2
        invariant
            v <= n2,
            n2 == g2.node_seq().len(),
            n1 == g1.node_seq().len(),
            u < n1,
            cont1.lists_hyperedges_of(g1),
            cont2.lists_hyperedges_of(g2),
            grid(*sim) == s0,
            x == row_set(s0, u as int),
            is_grid(s0, n1, n2 as int),
            doomed@.len() == n2,
            forall|b: int|
                0 <= b < v ==> #[trigger] doomed@[b] == (s0[u as int][b] && !holds(
                    soft,
                    g1,
                    g2,
                    lm,
                    u as int,
                    b,
                    x,
                )),
            forall|b: int| v <= b < n2 ==> !#[trigger] doomed@[b],
            removed == exists|b: int| 0 <= b < v && #[trigger] doomed@[b],
        decreases n2 - v,
    {
        assert(s0[u as int].len() == n2);
        if get_entry(sim, u, v) {
            let kept = is_upheld(soft, g1, g2, lm, cont1, cont2, u, v, &sim[u]);
            proof {
                assert(held(sim[u as int]@) =~= x);
            }
            if !kept {
                let ghost d0 = doomed@;
                doomed.set(v, true);
                proof {
                    if removed {
                        let b = choose|b: int| 0 <= b < v && #[trigger] d0[b];
                        assert(doomed@[b]);
                    }
                    assert(doomed@[v as int]);
                }
                removed = true;
            }
        }
        v = v + 1;
    }
    let mut v: usize = 0;
    while v < n2
        invariant
            v <= n2,
            n2 == g2.node_seq().len(),
            n1 == g1.node_seq().len(),
            ones == unit_weights(n2 as int),
            is_grid(s0, n1, n2 as int),
            is_grid(grid(*sim), n1, n2 as int),
            u < n1,
            doomed@.len() == n2,
            forall|b: int|
                0 <= b < n2 ==> #[trigger] doomed@[b] == (s0[u as int][b] && !holds(
                    soft,
                    g1,
                    g2,
                    lm,
                    u as int,
                    b,
                    x,
                )),
            forall|i: int| 0 <= i < n1 && i != u ==> #[trigger] grid(*sim)[i] == s0[i],
            forall|b: int|
                0 <= b < v ==> #[trigger] grid(*sim)[u as int][b] == (s0[u as int][b]
                    && !doomed@[b]),
            forall|b: int| v <= b < n2 ==> #[trigger] grid(*sim)[u as int][b] == s0[u as int][b],
            (exists|b: int| 0 <= b < v && #[trigger] doomed@[b]) ==> grid_weight(grid(*sim), ones)
                < grid_weight(s0, ones),
            !(exists|b: int| 0 <= b < v && #[trigger] doomed@[b]) ==> grid(*sim) == s0,
        decreases n2 - v,
    {
        assert(grid(*sim)[u as int].len() == n2);
        if doomed[v] {
            let ghost s1 = grid(*sim);
            set_entry(sim, u, v, false);
            proof {
                lemma_weight_with_entry(s1, ones, u as int, v as int, false);
                assert(ones[v as int] == 1);
                assert(s1[u as int][v as int]);
                assert(doomed@[v as int]);
            }
        } else {
            proof {
                if exists|b: int| 0 <= b < v + 1 && #[trigger] doomed@[b] {
                    let b = choose|b: int| 0 <= b < v + 1 && #[trigger] doomed@[b];
                    assert(b < v);
                }
            }
        }
        v = v + 1;
    }
    proof {
        let s2 = grid(*sim);
        assert forall|i: int, j: int| #[trigger] related(s2, i, j) implies related(s0, i, j) by {
            if i != u {
                assert(s2[i] == s0[i]);
            }
        }
    }
    removed
}

/// Every candidate in row `u` is kept by the row.
pub open spec fn row_settled<G: Typed + LPredicate, M: LMatch<Edge = G::Edge>>(
    soft: bool,
    g1: &G,
    g2: &G,
    lm: &M,
    sim: Seq<Seq<bool>>,
    u: int,
) -> bool {
    forall|v: int| #[trigger]
        related(sim, u, v) ==> holds(soft, g1, g2, lm, u, v, row_set(sim, u))
}

/// The grid holds the greatest stable set of every left node, and nothing
/// that was not a candidate at the start.
pub open spec fn hyper_refining<G: Typed + LPredicate, M: LMatch<Edge = G::Edge>>(
    soft: bool,
    g1: &G,
    g2: &G,
    lm: &M,
    sim: Seq<Seq<bool>>,
) -> bool {
    &&& is_grid(sim, g1.node_seq().len() as int, g2.node_seq().len() as int)
    &&& forall|u: int, v: int| #[trigger] related(sim, u, v) ==> candidate(soft, g1, g2, lm, u, v)
    &&& forall|u: int, v: int|
        0 <= u < g1.node_seq().len() && #[trigger] greatest_row(soft, g1, g2, lm, u).contains(v)
            ==> related(sim, u, v)
}

/// What `prune_row` takes out stands in no stable set.
pub proof fn lemma_prune_row_keeps_greatest<G: Typed + LPredicate, M: LMatch<Edge = G::Edge>>(
    soft: bool,
    g1: &G,
    g2: &G,
    lm: &M,
    sim: Seq<Seq<bool>>,
    sim2: Seq<Seq<bool>>,
    u: int,
)
    requires
        hyper_refining(soft, g1, g2, lm, sim),
        0 <= u < g1.node_seq().len(),
        is_grid(sim2, g1.node_seq().len() as int, g2.node_seq().len() as int),
        forall|i: int| 0 <= i < g1.node_seq().len() && i != u ==> #[trigger] sim2[i] == sim[i],
        forall|v: int|
            0 <= v < g2.node_seq().len() ==> #[trigger] sim2[u][v] == (sim[u][v] && holds(
                soft,
                g1,
                g2,
                lm,
                u,
                v,
                row_set(sim, u),
            )),
    ensures
        hyper_refining(soft, g1, g2, lm, sim2),
{
    assert forall|a: int, v: int| #[trigger] related(sim2, a, v) implies candidate(
        soft,
        g1,
        g2,
        lm,
        a,
        v,
    ) by {
        if a != u {
            assert(sim2[a] == sim[a]);
        } else {
            assert(sim2[u][v] == (sim[u][v] && holds(soft, g1, g2, lm, u, v, row_set(sim, u))));
        }
        assert(related(sim, a, v));
    }
    assert forall|a: int, v: int|
        0 <= a < g1.node_seq().len() && #[trigger] greatest_row(soft, g1, g2, lm, a).contains(
            v,
        ) implies related(sim2, a, v) by {
        assert(related(sim, a, v));
        if a == u {
            let x = choose|x: Set<int>| #[trigger] stable(soft, g1, g2, lm, u, x) && x.contains(v);
            assert forall|w: int| x.contains(w) implies row_set(sim, u).contains(w) by {
                assert(greatest_row(soft, g1, g2, lm, u).contains(w));
                assert(related(sim, u, w));
            }
            lemma_holds_grows(soft, g1, g2, lm, u, v, x, row_set(sim, u));
            assert(sim2[u][v] == (sim[u][v] && holds(soft, g1, g2, lm, u, v, row_set(sim, u))));
        } else {
            assert(sim2[a] == sim[a]);
        }
    }
}

/// Once every row is settled, the grid is the hyper-simulation.
pub proof fn lemma_settled_rows_are_greatest<G: Typed + LPredicate, M: LMatch<Edge = G::Edge>>(
    soft: bool,
    g1: &G,
    g2: &G,
    lm: &M,
    sim: Seq<Seq<bool>>,
)
    requires
        hyper_refining(soft, g1, g2, lm, sim),
        forall|u: int| 0 <= u < g1.node_seq().len() ==> #[trigger] row_settled(soft, g1, g2, lm, sim, u),
    ensures
        pairs(sim) == hyper_simulation(soft, g1, g2, lm),
{
    let hs = hyper_simulation(soft, g1, g2, lm);
    assert forall|p: (int, int)| pairs(sim).contains(p) <==> hs.contains(p) by {
        let u = p.0;
        let v = p.1;
        if related(sim, u, v) {
            let x = row_set(sim, u);
            assert(row_settled(soft, g1, g2, lm, sim, u));
            assert forall|w: int| #[trigger] x.contains(w) implies candidate(soft, g1, g2, lm, u, w)
                && holds(soft, g1, g2, lm, u, w, x) by {
                assert(related(sim, u, w));
            }
            assert(stable(soft, g1, g2, lm, u, x) && x.contains(v));
        }
        if hs.contains(p) {
            assert(greatest_row(soft, g1, g2, lm, u).contains(v));
        }
    }
    assert(pairs(sim) =~= hs);
}

/// The hyper-simulation, by the plain fixed point: start from the
/// candidates, and go through the left nodes, pruning the row of each, until
/// a whole pass prunes nothing.
pub fn refine_rows<G: Typed + LPredicate + ContainedHyperedge, M: LMatch<Edge = G::Edge>>(
    soft: bool,
    g1: &G,
    g2: &G,
    lm: &M,
    cont1: &ContainedHyperedgeList,
    cont2: &ContainedHyperedgeList,
    sim: &mut Vec<Vec<bool>>,
)
    requires
        cont1.lists_hyperedges_of(g1),
        cont2.lists_hyperedges_of(g2),
        is_grid(grid(*old(sim)), g1.node_seq().len() as int, g2.node_seq().len() as int),
        forall|u: int, v: int|
            0 <= u < g1.node_seq().len() && 0 <= v < g2.node_seq().len() ==> #[trigger] grid(
                *old(sim),
            )[u][v] == candidate(soft, g1, g2, lm, u, v),
    ensures
        is_grid(grid(*final(sim)), g1.node_seq().len() as int, g2.node_seq().len() as int),
        within(grid(*final(sim)), grid(*old(sim))),
        pairs(grid(*final(sim))) == hyper_simulation(soft, g1, g2, lm),
{
    let n1 = g1.nodes().len();
    let ghost n2 = g2.node_seq().len() as int;
    let ghost ones = unit_weights(n2);
    let ghost first = grid(*sim);
    proof {
        assert forall|u: int, v: int| #[trigger] related(first, u, v) implies candidate(
            soft,
            g1,
            g2,
            lm,
            u,
            v,
        ) by {
            assert(first[u][v] == candidate(soft, g1, g2, lm, u, v));
        }
        assert forall|u: int, v: int|
            0 <= u < g1.node_seq().len() && #[trigger] greatest_row(soft, g1, g2, lm, u).contains(
                v,
            ) implies related(first, u, v) by {
            let x = choose|x: Set<int>| #[trigger] stable(soft, g1, g2, lm, u, x) && x.contains(v);
            assert(candidate(soft, g1, g2, lm, u, v));
            assert(first[u][v] == candidate(soft, g1, g2, lm, u, v));
        }
    }
    let mut changed = true;
    while changed
        invariant
            n1 == g1.node_seq().len(),
            n2 == g2.node_seq().len(),
            ones == unit_weights(n2),
            cont1.lists_hyperedges_of(g1),
            cont2.lists_hyperedges_of(g2),
            hyper_refining(soft, g1, g2, lm, grid(*sim)),
            within(grid(*sim), first),
            !changed ==> forall|u: int|
                0 <= u < n1 ==> #[trigger] row_settled(soft, g1, g2, lm, grid(*sim), u),
        decreases
                grid_weight(grid(*sim), ones) + if changed {
                    1int
                } else {
                    0int
                },
    {
        let ghost start = grid(*sim);
        proof {
            lemma_grid_weight_bounds(start, ones, n2);
        }
        changed = false;
        let mut u: usize = 0;
        while u < n1
            invariant
                u <= n1,
                n1 == g1.node_seq().len(),
                n2 == g2.node_seq().len(),
                ones == unit_weights(n2),
                cont1.lists_hyperedges_of(g1),
                cont2.lists_hyperedges_of(g2),
                hyper_refining(soft, g1, g2, lm, grid(*sim)),
                within(grid(*sim), first),
                changed ==> grid_weight(grid(*sim), ones) < grid_weight(start, ones),
                !changed ==> grid(*sim) == start,
                !changed ==> forall|a: int|
                    0 <= a < u ==> #[trigger] row_settled(soft, g1, g2, lm, grid(*sim), a),
            decreases n1 - u,
        {
            let ghost s1 = grid(*sim);
            let removed = prune_row(soft, g1, g2, lm, cont1, cont2, sim, u);
            proof {
                let s2 = grid(*sim);
                lemma_prune_row_keeps_greatest(soft, g1, g2, lm, s1, s2, u as int);
                assert forall|i: int, j: int| #[trigger] related(s2, i, j) implies related(
                    first,
                    i,
                    j,
                ) by {
                    assert(related(s1, i, j));
                }
                if !removed && !changed {
                    assert forall|a: int| 0 <= a < u + 1 implies #[trigger] row_settled(
                        soft,
                        g1,
                        g2,
                        lm,
                        s2,
                        a,
                    ) by {
                        if a == u {
                            assert forall|v: int| #[trigger] related(s2, u as int, v) implies holds(
                                soft,
                                g1,
                                g2,
                                lm,
                                u as int,
                                v,
                                row_set(s2, u as int),
                            ) by {
                                assert(s2[u as int][v] == (s1[u as int][v] && holds(
                                    soft,
                                    g1,
                                    g2,
                                    lm,
                                    u as int,
                                    v,
                                    row_set(s1, u as int),
                                )));
                            }
                        }
                    }
                }
            }
            if removed {
                changed = true;
            }
            u = u + 1;
        }
        proof {
            lemma_grid_weight_bounds(grid(*sim), ones, n2);
        }
    }
    proof {
        lemma_settled_rows_are_greatest(soft, g1, g2, lm, grid(*sim));
    }
}

/// Type soundness: the hyper-simulation relates only nodes of the same
/// type, and only candidates.
pub proof fn lemma_hyper_type_soundness<G: Typed + LPredicate, M: LMatch<Edge = G::Edge>>(
    soft: bool,
    g1: &G,
    g2: &G,
    lm: &M,
    u: int,
    v: int,
)
    requires
        hyper_simulation(soft, g1, g2, lm).contains((u, v)),
    ensures
        0 <= u < g1.node_seq().len(),
        0 <= v < g2.node_seq().len(),
        g1.same_type(&g1.node_seq()[u], &g2.node_seq()[v]),
        candidate(soft, g1, g2, lm, u, v),
{
    let x = choose|x: Set<int>| #[trigger] stable(soft, g1, g2, lm, u, x) && x.contains(v);
    assert(x.contains(v));
}

/// Fixed point: the hyper-simulation keeps every pair it holds.
pub proof fn lemma_hyper_simulation_is_stable<G: Typed + LPredicate, M: LMatch<Edge = G::Edge>>(
    soft: bool,
    g1: &G,
    g2: &G,
    lm: &M,
    u: int,
)
    ensures
        stable(soft, g1, g2, lm, u, greatest_row(soft, g1, g2, lm, u)),
{
    let top = greatest_row(soft, g1, g2, lm, u);
    assert forall|v: int| #[trigger] top.contains(v) implies candidate(soft, g1, g2, lm, u, v)
        && holds(soft, g1, g2, lm, u, v, top) by {
        let x = choose|x: Set<int>| #[trigger] stable(soft, g1, g2, lm, u, x) && x.contains(v);
        assert(x.contains(v));
        assert(x.subset_of(top));
        lemma_holds_grows(soft, g1, g2, lm, u, v, x, top);
    }
}

/// Greatest fixed point: a set of candidates of `u` that keeps each of its
/// members lies within the hyper-simulation.
pub proof fn lemma_hyper_greatest_fixed_point<G: Typed + LPredicate, M: LMatch<Edge = G::Edge>>(
    soft: bool,
    g1: &G,
    g2: &G,
    lm: &M,
    u: int,
    x: Set<int>,
)
    requires
        0 <= u < g1.node_seq().len(),
        stable(soft, g1, g2, lm, u, x),
    ensures
        forall|v: int| x.contains(v) ==> hyper_simulation(soft, g1, g2, lm).contains((u, v)),
{
    assert forall|v: int| x.contains(v) implies hyper_simulation(soft, g1, g2, lm).contains(
        (u, v),
    ) by {
        assert(greatest_row(soft, g1, g2, lm, u).contains(v));
    }
}

/// A hypergraph that can be matched against another by hyper-simulation.
pub trait HyperSimulation: Typed + LPredicate + ContainedHyperedge {
    /// Has no definition yet: gives no relation.
    fn get_simulation_fixpoint<M: LMatch<Edge = Self::Edge>>(
        &self,
        other: &Self,
        l_match: &mut M,
    ) -> (r: Result<HashMap<u64, HashSet<u64>>, HyperSimulationError>)
        ensures
            r == Err::<HashMap<u64, HashSet<u64>>, HyperSimulationError>(
                HyperSimulationError::NotImplemented,
            ),
            *final(l_match) == *old(l_match),
    ;

    /// Has no definition yet: gives no relation.
    fn get_simulation_recursive<M: LMatch<Edge = Self::Edge>>(
        &self,
        other: &Self,
        l_match: &mut M,
    ) -> (r: Result<HashMap<u64, HashSet<u64>>, HyperSimulationError>)
        ensures
            r == Err::<HashMap<u64, HashSet<u64>>, HyperSimulationError>(
                HyperSimulationError::NotImplemented,
            ),
            *final(l_match) == *old(l_match),
    ;

    /// The hyper-simulation of the graph by `other` under the match
    /// `l_match`, whose answers stay what they were.
    fn get_simulation_naive<M: LMatch<Edge = Self::Edge>>(&self, other: &Self, l_match: &mut M) -> (sim:
        HashMap<u64, HashSet<u64>>)
        requires
            distinct_ids(self.node_seq()),
            distinct_ids(other.node_seq()),
        ensures
            agrees(final(l_match), old(l_match)),
            presents(
                sim@,
                self.node_seq(),
                other.node_seq(),
                hyper_simulation(false, self, other, final(l_match)),
            ),
    ;

    /// The soft hyper-simulation of the graph by `other` under the match
    /// `l_match`, whose answers stay what they were: only pairs of
    /// hyperedges of which the predicate holds constrain a pair of nodes.
    fn get_soft_simulation_naive<M: LMatch<Edge = Self::Edge>>(
        &self,
        other: &Self,
        l_match: &mut M,
    ) -> (sim: HashMap<u64, HashSet<u64>>)
        requires
            distinct_ids(self.node_seq()),
            distinct_ids(other.node_seq()),
        ensures
            agrees(final(l_match), old(l_match)),
            presents(
                sim@,
                self.node_seq(),
                other.node_seq(),
                hyper_simulation(true, self, other, final(l_match)),
            ),
    ;
}

/// The hyper-simulation of `g1` by `g2`, plain or soft, as a grid.
fn hyper_simulate<G: Typed + LPredicate + ContainedHyperedge, M: LMatch<Edge = G::Edge>>(
    soft: bool,
    g1: &G,
    g2: &G,
    lm: &mut M,
) -> (sim: Vec<Vec<bool>>)
    requires
        distinct_ids(g1.node_seq()),
        distinct_ids(g2.node_seq()),
    ensures
        agrees(final(lm), old(lm)),
        is_grid(grid(sim), g1.node_seq().len() as int, g2.node_seq().len() as int),
        pairs(grid(sim)) == hyper_simulation(soft, g1, g2, final(lm)),
{
    let cont1 = g1.get_hyperedges_list();
    let cont2 = g2.get_hyperedges_list();
    let mut sim = hyper_candidates(soft, g1, g2, lm, &cont1, &cont2);
    refine_rows(soft, g1, g2, lm, &cont1, &cont2, &mut sim);
    sim
}

impl<H: Typed + LPredicate + ContainedHyperedge> HyperSimulation for H {
    fn get_simulation_fixpoint<M: LMatch<Edge = Self::Edge>>(
        &self,
        other: &Self,
        l_match: &mut M,
    ) -> (r: Result<HashMap<u64, HashSet<u64>>, HyperSimulationError>) {
        Err(HyperSimulationError::NotImplemented)
    }

    fn get_simulation_recursive<M: LMatch<Edge = Self::Edge>>(
        &self,
        other: &Self,
        l_match: &mut M,
    ) -> (r: Result<HashMap<u64, HashSet<u64>>, HyperSimulationError>) {
        Err(HyperSimulationError::NotImplemented)
    }

    fn get_simulation_naive<M: LMatch<Edge = Self::Edge>>(&self, other: &Self, l_match: &mut M) -> (sim:
        HashMap<u64, HashSet<u64>>) {
        let rel = hyper_simulate(false, self, other, l_match);
        to_map(self.nodes(), other.nodes(), &rel)
    }

    fn get_soft_simulation_naive<M: LMatch<Edge = Self::Edge>>(
        &self,
        other: &Self,
        l_match: &mut M,
    ) -> (sim: HashMap<u64, HashSet<u64>>) {
        let rel = hyper_simulate(true, self, other, l_match);
        to_map(self.nodes(), other.nodes(), &rel)
    }
}

} // verus!
