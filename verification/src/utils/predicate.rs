//! A match between the nodes of pairs of hyperedges that answers from a
//! table, and the predicates of the typed hypergraph.

use crate::algorithm::cluster_simulation::{DMatch, Delta, SemanticCluster};
use crate::algorithm::hyper_simulation::{LMatch, LPredicate};
use crate::graph::hypergraph::{NodeSet, TypedHypergraph, TypedNode};
use std::collections::HashSet;
use vstd::prelude::*;

verus! {

/// One line of a match table: for the pair of hyperedges `(left, right)`,
/// by id, the ids that may stand for the left node `node`.
pub struct MatchEntry {
    pub left: u64,
    pub right: u64,
    pub node: u64,
    pub images: HashSet<u64>,
}

/// What the first line of `entries` for `(left, right, node)` offers, and
/// `rest` where there is no such line.
pub open spec fn offers_in(
    entries: Seq<MatchEntry>,
    rest: Set<u64>,
    left: u64,
    right: u64,
    node: u64,
) -> Set<u64>
    decreases entries.len(),
{
    if entries.len() == 0 {
        rest
    } else if entries[0].left == left && entries[0].right == right && entries[0].node == node {
        entries[0].images@
    } else {
        offers_in(entries.drop_first(), rest, left, right, node)
    }
}

/// The left nodes of the lines of `entries` for `(left, right)`, in order.
pub open spec fn domain_in(entries: Seq<MatchEntry>, left: u64, right: u64) -> Seq<u64>
    decreases entries.len(),
{
    if entries.len() == 0 {
        Seq::empty()
    } else if entries.last().left == left && entries.last().right == right {
        domain_in(entries.drop_last(), left, right).push(entries.last().node)
    } else {
        domain_in(entries.drop_last(), left, right)
    }
}

/// A match that answers from a table of lines, filled by hand.
pub struct MatchTable {
    entries: Vec<MatchEntry>,
    nothing: HashSet<u64>,
}

impl MatchTable {
    /// What the table offers where it has no line: nothing, in a table made
    /// by `new`.
    pub closed spec fn rest(&self) -> Set<u64> {
        self.nothing@
    }

    /// The lines of the table, in the order in which they were recorded.
    pub closed spec fn lines(&self) -> Seq<MatchEntry> {
        self.entries@
    }

    /// Records that `images` may stand for the left node `node` in the match
    /// of the hyperedges `(left, right)`. An earlier line for the same three
    /// keeps its say.
    pub fn record(&mut self, left: u64, right: u64, node: u64, images: HashSet<u64>)
        ensures
            final(self).lines() == old(self).lines().push((MatchEntry { left, right, node, images })),
            final(self).rest() == old(self).rest(),
    {
        self.entries.push(MatchEntry { left, right, node, images });
    }
}

impl LMatch for MatchTable {
    type Edge = NodeSet;

    closed spec fn offers(&self, e: &NodeSet, e_prime: &NodeSet, u: u64) -> Set<u64> {
        offers_in(self.entries@, self.nothing@, e.id, e_prime.id, u)
    }

    closed spec fn domain(&self, e: &NodeSet, e_prime: &NodeSet) -> Seq<u64> {
        domain_in(self.entries@, e.id, e_prime.id)
    }

    fn new() -> (r: Self)
        ensures
            r.lines() == Seq::<MatchEntry>::empty(),
            r.rest() == Set::<u64>::empty(),
    {
        MatchTable { entries: Vec::new(), nothing: HashSet::new() }
    }

    fn l_match_with_node_mut(&mut self, e: &NodeSet, e_prime: &NodeSet, u: u64) -> (r: &HashSet<u64>) {
        self.l_match_with_node(e, e_prime, u)
    }

    fn l_match_with_node(&self, e: &NodeSet, e_prime: &NodeSet, u: u64) -> (r: &HashSet<u64>) {
        let mut k: usize = 0;
        assert(self.entries@.skip(0) =~= self.entries@);
        while k < self.entries.len()
            invariant
                k <= self.entries@.len(),
                offers_in(self.entries@, self.nothing@, e.id, e_prime.id, u) == offers_in(
                    self.entries@.skip(k as int),
                    self.nothing@,
                    e.id,
                    e_prime.id,
                    u,
                ),
            decreases self.entries@.len() - k,
        {
            let line = &self.entries[k];
            proof {
                assert(self.entries@.skip(k as int)[0] == self.entries@[k as int]);
                assert(self.entries@.skip(k as int).drop_first() =~= self.entries@.skip(k as int + 1));
            }
            if line.left == e.id && line.right == e_prime.id && line.node == u {
                return &line.images;
            }
            k = k + 1;
        }
        &self.nothing
    }

    fn dom(&self, e: &NodeSet, e_prime: &NodeSet) -> (r: Vec<u64>) {
        let mut r: Vec<u64> = Vec::new();
        let mut k: usize = 0;
        while k < self.entries.len()
            invariant
                k <= self.entries@.len(),
                r@ == domain_in(self.entries@.take(k as int), e.id, e_prime.id),
            decreases self.entries@.len() - k,
        {
            let line = &self.entries[k];
            proof {
                assert(self.entries@.take(k as int + 1).last() == self.entries@[k as int]);
                assert(self.entries@.take(k as int + 1).drop_last() =~= self.entries@.take(k as int));
            }
            if line.left == e.id && line.right == e_prime.id {
                r.push(line.node);
            }
            k = k + 1;
        }
        proof {
            assert(self.entries@.take(k as int) =~= self.entries@);
        }
        r
    }
}

impl MatchTable {
    /// The table answers from its lines.
    pub proof fn lemma_answers(&self, e: &NodeSet, e_prime: &NodeSet, u: u64)
        ensures
            self.offers(e, e_prime, u) == offers_in(self.lines(), self.rest(), e.id, e_prime.id, u),
            self.domain(e, e_prime) == domain_in(self.lines(), e.id, e_prime.id),
    {
    }
}

impl LPredicate for TypedHypergraph {
    /// Two nodes are alike when they have the same type.
    open spec fn node_predicate(&self, u: &TypedNode, v: &TypedNode) -> bool {
        u.node_type == v.node_type
    }

    /// Two hyperedges are alike when they have the same type.
    open spec fn edge_predicate(&self, e: &NodeSet, e_prime: &NodeSet) -> bool {
        e.edge_type == e_prime.edge_type
    }

    /// Two sets of nodes are alike when they have the same size.
    open spec fn set_predicate(&self, x: Set<u64>, y: Set<u64>) -> bool {
        x.len() == y.len()
    }

    fn l_predicate_node(&self, u: &TypedNode, v: &TypedNode) -> (r: bool) {
        u.node_type == v.node_type
    }

    fn l_predicate_edge(&self, e: &NodeSet, e_prime: &NodeSet) -> (r: bool) {
        e.edge_type == e_prime.edge_type
    }

    fn l_predicate_set(&self, x: &HashSet<u64>, y: &HashSet<u64>) -> (r: bool) {
        x.len() == y.len()
    }
}

/// The second halves of the lines of `lines` whose first half is `key`, in
/// order.
pub open spec fn answers_in(lines: Seq<((u64, u64), (u64, u64))>, key: (u64, u64)) -> Seq<(u64, u64)>
    decreases lines.len(),
{
    if lines.len() == 0 {
        Seq::empty()
    } else if lines.last().0 == key {
        answers_in(lines.drop_last(), key).push(lines.last().1)
    } else {
        answers_in(lines.drop_last(), key)
    }
}

/// The second halves of the lines of `lines` whose first half is `key`.
pub fn answers_of(lines: &Vec<((u64, u64), (u64, u64))>, key: (u64, u64)) -> (r: Vec<(u64, u64)>)
    ensures
        r@ == answers_in(lines@, key),
{
    let mut r: Vec<(u64, u64)> = Vec::new();
    let mut k: usize = 0;
    while k < lines.len()
        invariant
            k <= lines@.len(),
            r@ == answers_in(lines@.take(k as int), key),
        decreases lines@.len() - k,
    {
        let ((a, b), answer) = lines[k];
        proof {
            assert(lines@.take(k as int + 1).last() == lines@[k as int]);
            assert(lines@.take(k as int + 1).drop_last() =~= lines@.take(k as int));
        }
        if a == key.0 && b == key.1 {
            r.push(answer);
        }
        k = k + 1;
    }
    proof {
        assert(lines@.take(k as int) =~= lines@);
    }
    r
}

/// The pairs of clusters that come into question for pairs of nodes, from a
/// table filled by hand: each line names a pair of nodes and a pair of
/// clusters, all by id.
pub struct ClusterTable {
    lines: Vec<((u64, u64), (u64, u64))>,
}

impl ClusterTable {
    /// The lines of the table, in the order in which they were recorded.
    pub closed spec fn lines(&self) -> Seq<((u64, u64), (u64, u64))> {
        self.lines@
    }

    /// The table without lines.
    pub fn new() -> (r: Self)
        ensures
            r.lines() == Seq::<((u64, u64), (u64, u64))>::empty(),
    {
        ClusterTable { lines: Vec::new() }
    }

    /// Records that the nodes `(u, v)` could be matched under the clusters
    /// `(cu, cv)`.
    pub fn record(&mut self, u: u64, v: u64, cu: u64, cv: u64)
        ensures
            final(self).lines() == old(self).lines().push(((u, v), (cu, cv))),
    {
        self.lines.push(((u, v), (cu, cv)));
    }

    /// The table answers from its lines.
    pub proof fn lemma_answers(&self, u: &TypedNode, v: &TypedNode)
        ensures
            self.cluster_ids(u, v) == answers_in(self.lines(), (u.id, v.id)),
    {
    }
}

impl Delta for ClusterTable {
    type Node = TypedNode;

    type Edge = NodeSet;

    closed spec fn cluster_ids(&self, u: &TypedNode, v: &TypedNode) -> Seq<(u64, u64)> {
        answers_in(self.lines@, (u.id, v.id))
    }

    fn get_sematic_clusters(&self, u: &TypedNode, v: &TypedNode) -> (r: Vec<
        (SemanticCluster<NodeSet>, SemanticCluster<NodeSet>),
    >) {
        let ids = answers_of(&self.lines, (u.id, v.id));
        let mut r: Vec<(SemanticCluster<NodeSet>, SemanticCluster<NodeSet>)> = Vec::new();
        let mut k: usize = 0;
        while k < ids.len()
            invariant
                k <= ids@.len(),
                r@.len() == k,
                forall|j: int|
                    0 <= j < k ==> (#[trigger] r@[j]).0.id == ids@[j].0 && r@[j].1.id == ids@[j].1,
            decreases ids@.len() - k,
        {
            let (cu, cv) = ids[k];
            r.push(
                (
                    SemanticCluster { id: cu, hyperedges: Vec::new() },
                    SemanticCluster { id: cv, hyperedges: Vec::new() },
                ),
            );
            k = k + 1;
        }
        r
    }
}

/// The pairs of nodes that pairs of clusters support, from a table filled
/// by hand: each line names a pair of clusters and a pair of nodes, all by
/// id.
pub struct SupportTable {
    lines: Vec<((u64, u64), (u64, u64))>,
}

impl SupportTable {
    /// The lines of the table, in the order in which they were recorded.
    pub closed spec fn lines(&self) -> Seq<((u64, u64), (u64, u64))> {
        self.lines@
    }

    /// The table without lines.
    pub fn new() -> (r: Self)
        ensures
            r.lines() == Seq::<((u64, u64), (u64, u64))>::empty(),
    {
        SupportTable { lines: Vec::new() }
    }

    /// Records that the clusters `(cu, cv)` support the pair of nodes
    /// `(a, b)`.
    pub fn record(&mut self, cu: u64, cv: u64, a: u64, b: u64)
        ensures
            final(self).lines() == old(self).lines().push(((cu, cv), (a, b))),
    {
        self.lines.push(((cu, cv), (a, b)));
    }

    /// The table answers from its lines.
    pub proof fn lemma_answers(&self, cu: u64, cv: u64)
        ensures
            self.supported(cu, cv) == answers_in(self.lines(), (cu, cv)),
    {
    }
}

impl DMatch for SupportTable {
    type Edge = NodeSet;

    closed spec fn supported(&self, cu: u64, cv: u64) -> Seq<(u64, u64)> {
        answers_in(self.lines@, (cu, cv))
    }

    fn d_match(&self, cu: &SemanticCluster<NodeSet>, cv: &SemanticCluster<NodeSet>) -> (r: Vec<
        (u64, u64),
    >) {
        answers_of(&self.lines, (cu.id, cv.id))
    }
}

} // verus!
