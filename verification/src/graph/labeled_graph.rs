//! Labeled nodes and edges, and the graphs made of them.

use crate::graph::base::{
    arcs, arcs_of, arcs_within, distinct_ids, endpoints_exist, has_id, index_nodes, is_index_of,
    lemma_arcs_within, lemma_index_gives_position, position, resolve_arcs, well_formed, Adjacency,
    AdjacencyInv, Degree, Directed, Graph, IdPair, SingleId,
};
use std::collections::HashMap;
use std::hash::Hash;
use vstd::prelude::*;
use vstd::std_specs::cmp::PartialEqSpecImpl;

verus! {

/// A label value: it can be shown as text.
pub trait Label: Hash + Eq + Clone {
    spec fn spec_label(&self) -> Seq<char>;

    fn label(&self) -> (r: &str)
        ensures
            r@ == self.spec_label(),
    ;
}

/// A node: its id and its label.
#[derive(Hash, Eq, PartialEq, Clone)]
pub struct LabelNode<L: Label> {
    pub id: u64,
    pub label: L,
}

impl<L: Label> SingleId for LabelNode<L> {
    open spec fn spec_id(&self) -> u64 {
        self.id
    }

    fn id(&self) -> (r: u64) {
        self.id
    }
}

impl<L: Label> crate::graph::base::Label for LabelNode<L> {
    open spec fn spec_label(&self) -> Seq<char> {
        self.label.spec_label()
    }

    fn label(&self) -> (r: &str) {
        self.label.label()
    }
}

/// A directed edge: the ids of its endpoints and its label.
#[derive(Hash, Eq, PartialEq, Clone)]
pub struct LabeledEdge<L: Label> {
    pub src: u64,
    pub dst: u64,
    pub label: L,
}

impl<L: Label> IdPair for LabeledEdge<L> {
    open spec fn spec_pair(&self) -> (u64, u64) {
        (self.src, self.dst)
    }

    fn pair(&self) -> (r: (u64, u64)) {
        (self.src, self.dst)
    }
}

impl<L: Label> crate::graph::base::Label for LabeledEdge<L> {
    open spec fn spec_label(&self) -> Seq<char> {
        self.label.spec_label()
    }

    fn label(&self) -> (r: &str) {
        self.label.label()
    }
}

/// The label that says nothing: all values of it are equal.
#[derive(Hash, Eq)]
pub struct SingleLabel(pub ());

impl Clone for SingleLabel {
    fn clone(&self) -> (r: Self) {
        SingleLabel(())
    }
}

impl PartialEq for SingleLabel {
    fn eq(&self, other: &Self) -> (r: bool) {
        true
    }
}

impl PartialEqSpecImpl for SingleLabel {
    open spec fn obeys_eq_spec() -> bool {
        true
    }

    open spec fn eq_spec(&self, other: &Self) -> bool {
        true
    }
}

impl Label for SingleLabel {
    open spec fn spec_label(&self) -> Seq<char> {
        Seq::empty()
    }

    fn label(&self) -> (r: &str) {
        proof {
            reveal_strlit("");
        }
        let r = "";
        assert(r@ =~= Seq::<char>::empty());
        r
    }
}

impl Label for String {
    open spec fn spec_label(&self) -> Seq<char> {
        self@
    }

    fn label(&self) -> (r: &str) {
        self.as_str()
    }
}

/// A directed graph whose nodes carry labels of `L1` and whose edges carry
/// labels of `L2`.
pub struct SimpleLabeledGraph<L1: Label, L2: Label> {
    nodes: Vec<LabelNode<L1>>,
    edges: Vec<LabeledEdge<L2>>,
}

/// A graph whose nodes and edges can be compared by label.
pub trait Labeled: Graph {
    type NodeLabel: Label;

    type EdgeLabel: Label;

    /// The graph can compare node labels.
    spec fn comparable(&self) -> bool;

    /// The two nodes carry the same label.
    spec fn same_label(&self, a: &Self::Node, b: &Self::Node) -> bool;

    /// The two edges carry the same label.
    spec fn same_edge_label(&self, a: &Self::Edge, b: &Self::Edge) -> bool;

    /// The two edges carry the same label, and so do their sources and
    /// their destinations.
    spec fn same_edge_node_label(
        &self,
        src1: &Self::Node,
        edge1: &Self::Edge,
        dst1: &Self::Node,
        src2: &Self::Node,
        edge2: &Self::Edge,
        dst2: &Self::Node,
    ) -> bool;

    /// The label that `node` carries.
    spec fn node_label(&self, node: &Self::Node) -> Self::NodeLabel;

    /// The label that `edge` carries.
    spec fn edge_label(&self, edge: &Self::Edge) -> Self::EdgeLabel;

    fn label_same(&self, node: &Self::Node, label: &Self::Node) -> (r: bool)
        requires
            self.comparable(),
        ensures
            r == self.same_label(node, label),
    ;

    fn get_label<'a>(&'a self, node: &'a Self::Node) -> (r: &'a Self::NodeLabel)
        ensures
            *r == self.node_label(node),
    ;

    /// The endpoints of every edge with the edge's label, in edge order.
    fn get_edges_pair_label(&self) -> (r: Vec<(&Self::Node, &Self::Node, &Self::EdgeLabel)>)
        requires
            distinct_ids(self.node_seq()),
            endpoints_exist(self.node_seq(), self.edge_seq()),
        ensures
            r@.len() == self.edge_seq().len(),
            forall|k: int|
                0 <= k < r@.len() ==> *(#[trigger] r@[k]).0 == self.node_seq()[arcs_of(
                    self.node_seq(),
                    self.edge_seq(),
                )[k].0 as int] && *r@[k].1 == self.node_seq()[arcs_of(
                    self.node_seq(),
                    self.edge_seq(),
                )[k].1 as int] && *r@[k].2 == self.edge_label(&self.edge_seq()[k]),
    ;

    fn edge_label_same(&self, edge1: &Self::Edge, edge2: &Self::Edge) -> (r: bool)
        ensures
            r == self.same_edge_label(edge1, edge2),
    ;

    fn edge_node_label_same(
        &self,
        src1: &Self::Node,
        edge1: &Self::Edge,
        dst1: &Self::Node,
        src2: &Self::Node,
        edge2: &Self::Edge,
        dst2: &Self::Node,
    ) -> (r: bool)
        ensures
            r == self.same_edge_node_label(src1, edge1, dst1, src2, edge2, dst2),
    ;
}

/// The endpoints and the label of every edge, in edge order.
fn edges_with_labels<'a, L1: Label, L2: Label>(
    nodes: &'a [LabelNode<L1>],
    edges: &'a [LabeledEdge<L2>],
) -> (r: Vec<(&'a LabelNode<L1>, &'a LabelNode<L1>, &'a L2)>)
    requires
        distinct_ids(nodes@),
        endpoints_exist(nodes@, edges@),
    ensures
        r@.len() == edges@.len(),
        forall|k: int|
            0 <= k < r@.len() ==> *(#[trigger] r@[k]).0 == nodes@[arcs_of(nodes@, edges@)[k].0 as int]
                && *r@[k].1 == nodes@[arcs_of(nodes@, edges@)[k].1 as int] && *r@[k].2
                == edges@[k].label,
{
    let mut out: Vec<(&'a LabelNode<L1>, &'a LabelNode<L1>, &'a L2)> = Vec::new();
    match index_nodes(nodes) {
        Ok(index) => {
            let arcs = resolve_arcs(nodes, edges, &index);
            let mut k: usize = 0;
            while k < arcs.len()
                invariant
                    k <= arcs@.len(),
                    arcs@ == arcs_of(nodes@, edges@),
                    arcs_within(arcs@, nodes@.len() as int),
                    out@.len() == k,
                    forall|a: int|
                        0 <= a < k ==> *(#[trigger] out@[a]).0 == nodes@[arcs@[a].0 as int]
                            && *out@[a].1 == nodes@[arcs@[a].1 as int] && *out@[a].2
                            == edges@[a].label,
                decreases arcs@.len() - k,
            {
                let (s, d) = arcs[k];
                assert(arcs@[k as int].0 < nodes@.len());
                out.push((&nodes[s], &nodes[d], &edges[k].label));
                k = k + 1;
            }
        },
        Err(_) => {},
    }
    out
}

/// The usual graph: text labels on the nodes, none on the edges.
pub type StandardLabeledGraph = SimpleLabeledGraph<String, SingleLabel>;

impl Graph for StandardLabeledGraph {
    type Node = LabelNode<String>;

    type Edge = LabeledEdge<SingleLabel>;

    closed spec fn node_seq(&self) -> Seq<Self::Node> {
        self.nodes@
    }

    closed spec fn edge_seq(&self) -> Seq<Self::Edge> {
        self.edges@
    }

    fn nodes(&self) -> (r: &[Self::Node]) {
        self.nodes.as_slice()
    }

    fn edges(&self) -> (r: &[Self::Edge]) {
        self.edges.as_slice()
    }

    fn add_node(&mut self, node: Self::Node) {
        self.nodes.push(node);
    }

    fn add_edge(&mut self, edge: Self::Edge) {
        self.edges.push(edge);
    }
}

impl Labeled for StandardLabeledGraph {
    type NodeLabel = String;

    type EdgeLabel = SingleLabel;

    open spec fn comparable(&self) -> bool {
        true
    }

    open spec fn same_label(&self, a: &Self::Node, b: &Self::Node) -> bool {
        a.label@ == b.label@
    }

    open spec fn same_edge_label(&self, a: &Self::Edge, b: &Self::Edge) -> bool {
        true
    }

    open spec fn same_edge_node_label(
        &self,
        src1: &Self::Node,
        edge1: &Self::Edge,
        dst1: &Self::Node,
        src2: &Self::Node,
        edge2: &Self::Edge,
        dst2: &Self::Node,
    ) -> bool {
        true
    }

    open spec fn node_label(&self, node: &Self::Node) -> String {
        node.label
    }

    open spec fn edge_label(&self, edge: &Self::Edge) -> SingleLabel {
        edge.label
    }

    fn label_same(&self, node: &Self::Node, label: &Self::Node) -> (r: bool) {
        node.label == label.label
    }

    fn get_label<'a>(&'a self, node: &'a Self::Node) -> (r: &'a String) {
        &node.label
    }

    fn get_edges_pair_label(&self) -> (r: Vec<(&Self::Node, &Self::Node, &SingleLabel)>) {
        edges_with_labels(self.nodes.as_slice(), self.edges.as_slice())
    }

    fn edge_label_same(&self, edge1: &Self::Edge, edge2: &Self::Edge) -> (r: bool) {
        true
    }

    fn edge_node_label_same(
        &self,
        src1: &Self::Node,
        edge1: &Self::Edge,
        dst1: &Self::Node,
        src2: &Self::Node,
        edge2: &Self::Edge,
        dst2: &Self::Node,
    ) -> (r: bool) {
        true
    }
}

impl Directed for StandardLabeledGraph {

}

impl Adjacency for StandardLabeledGraph {

}

impl AdjacencyInv for StandardLabeledGraph {

}

impl Degree for StandardLabeledGraph {

}

impl StandardLabeledGraph {
    /// The graph without nodes and edges.
    pub fn new() -> (g: Self)
        ensures
            g.node_seq() == Seq::<LabelNode<String>>::empty(),
            g.edge_seq() == Seq::<LabeledEdge<SingleLabel>>::empty(),
    {
        return StandardLabeledGraph { nodes: Vec::new(), edges: Vec::new() }
    }

    /// Appends the node `(id, label)`.
    pub fn add_node(&mut self, id: u64, label: String)
        ensures
            final(self).node_seq() == old(self).node_seq().push((LabelNode { id, label })),
            final(self).edge_seq() == old(self).edge_seq(),
    {
        self.nodes.push(LabelNode { id, label });
    }

    /// Appends the edge from `src` to `dst`.
    pub fn add_edge(&mut self, src: u64, dst: u64)
        ensures
            final(self).node_seq() == old(self).node_seq(),
            final(self).edge_seq() == old(self).edge_seq().push(
                (LabeledEdge { src, dst, label: SingleLabel(()) }),
            ),
    {
        self.edges.push(LabeledEdge { src, dst, label: SingleLabel(()) });
    }
}

/// A graph whose node labels are compared by a predicate that the user
/// hands in. Until one is set, node labels cannot be compared.
pub struct HyperLabelGraph<L: Label, F> {
    nodes: Vec<LabelNode<L>>,
    edges: Vec<LabeledEdge<SingleLabel>>,
    same_label_fn: Option<F>,
}

/// `f` answers on every pair of labels, and always the same.
pub open spec fn is_label_predicate<L, F: Fn(&L, &L) -> bool>(f: F) -> bool {
    &&& forall|a: &L, b: &L| call_requires(f, (a, b))
    &&& forall|a: &L, b: &L| !(call_ensures(f, (a, b), true) && call_ensures(f, (a, b), false))
}

impl<L: Label, F: Fn(&L, &L) -> bool> Graph for HyperLabelGraph<L, F> {
    type Node = LabelNode<L>;

    type Edge = LabeledEdge<SingleLabel>;

    closed spec fn node_seq(&self) -> Seq<Self::Node> {
        self.nodes@
    }

    closed spec fn edge_seq(&self) -> Seq<Self::Edge> {
        self.edges@
    }

    fn nodes(&self) -> (r: &[Self::Node]) {
        self.nodes.as_slice()
    }

    fn edges(&self) -> (r: &[Self::Edge]) {
        self.edges.as_slice()
    }

    fn add_node(&mut self, node: Self::Node)
        ensures
            final(self).comparable() == old(self).comparable(),
            forall|a: &LabelNode<L>, b: &LabelNode<L>| #[trigger]
                final(self).same_label(a, b) == old(self).same_label(a, b),
    {
        self.nodes.push(node);
    }

    fn add_edge(&mut self, edge: Self::Edge)
        ensures
            final(self).comparable() == old(self).comparable(),
            forall|a: &LabelNode<L>, b: &LabelNode<L>| #[trigger]
                final(self).same_label(a, b) == old(self).same_label(a, b),
    {
        self.edges.push(edge);
    }
}

impl<L: Label, F: Fn(&L, &L) -> bool> Labeled for HyperLabelGraph<L, F> {
    type NodeLabel = L;

    type EdgeLabel = SingleLabel;

    closed spec fn comparable(&self) -> bool {
        self.same_label_fn is Some && is_label_predicate(self.same_label_fn->0)
    }

    closed spec fn same_label(&self, a: &Self::Node, b: &Self::Node) -> bool {
        call_ensures(self.same_label_fn->0, (&a.label, &b.label), true)
    }

    open spec fn same_edge_label(&self, a: &Self::Edge, b: &Self::Edge) -> bool {
        true
    }

    open spec fn same_edge_node_label(
        &self,
        src1: &Self::Node,
        edge1: &Self::Edge,
        dst1: &Self::Node,
        src2: &Self::Node,
        edge2: &Self::Edge,
        dst2: &Self::Node,
    ) -> bool {
        true
    }

    open spec fn node_label(&self, node: &Self::Node) -> L {
        node.label
    }

    open spec fn edge_label(&self, edge: &Self::Edge) -> SingleLabel {
        edge.label
    }

    fn label_same(&self, node: &Self::Node, label: &Self::Node) -> (r: bool) {
        match &self.same_label_fn {
            Some(f) => f(&node.label, &label.label),
            None => false,
        }
    }

    fn get_label<'a>(&'a self, node: &'a Self::Node) -> (r: &'a L) {
        &node.label
    }

    fn get_edges_pair_label(&self) -> (r: Vec<(&Self::Node, &Self::Node, &SingleLabel)>) {
        edges_with_labels(self.nodes.as_slice(), self.edges.as_slice())
    }

    fn edge_label_same(&self, edge1: &Self::Edge, edge2: &Self::Edge) -> (r: bool) {
        true
    }

    fn edge_node_label_same(
        &self,
        src1: &Self::Node,
        edge1: &Self::Edge,
        dst1: &Self::Node,
        src2: &Self::Node,
        edge2: &Self::Edge,
        dst2: &Self::Node,
    ) -> (r: bool) {
        true
    }
}

impl<F: Fn(&SingleLabel, &SingleLabel) -> bool> Directed for HyperLabelGraph<SingleLabel, F> {

}

impl<F: Fn(&SingleLabel, &SingleLabel) -> bool> Adjacency for HyperLabelGraph<SingleLabel, F> {

}

impl<F: Fn(&SingleLabel, &SingleLabel) -> bool> AdjacencyInv for HyperLabelGraph<SingleLabel, F> {

}

impl<L: Label, F: Fn(&L, &L) -> bool> HyperLabelGraph<L, F> {
    /// The graph without nodes and edges, and without a label predicate.
    pub fn new() -> (g: Self)
        ensures
            g.node_seq() == Seq::<LabelNode<L>>::empty(),
            g.edge_seq() == Seq::<LabeledEdge<SingleLabel>>::empty(),
            !g.comparable(),
    {
        return HyperLabelGraph { nodes: Vec::new(), edges: Vec::new(), same_label_fn: None }
    }

    /// `f` says that the labels of the two nodes are the same.
    pub open spec fn predicate_holds(f: F, a: &LabelNode<L>, b: &LabelNode<L>) -> bool {
        call_ensures(f, (&a.label, &b.label), true)
    }

    /// Sets the predicate by which node labels are compared from now on.
    pub fn set_same_label_fn(&mut self, f: F)
        requires
            is_label_predicate(f),
        ensures
            final(self).comparable(),
            final(self).node_seq() == old(self).node_seq(),
            final(self).edge_seq() == old(self).edge_seq(),
            forall|a: &LabelNode<L>, b: &LabelNode<L>| #[trigger]
                final(self).same_label(a, b) == Self::predicate_holds(f, a, b),
    {
        self.same_label_fn = Some(f);
    }
}

/// The arcs that leave `i`, each as its destination and its place among the
/// arcs, in arc order.
pub open spec fn labeled_successors(arcs: Seq<(usize, usize)>, i: int) -> Seq<(usize, usize)>
    decreases arcs.len(),
{
    if arcs.len() == 0 {
        Seq::empty()
    } else if arcs.last().0 == i {
        labeled_successors(arcs.drop_last(), i).push((arcs.last().1, (arcs.len() - 1) as usize))
    } else {
        labeled_successors(arcs.drop_last(), i)
    }
}

/// What stands in `labeled_successors` is an arc that leaves `i`.
pub proof fn lemma_labeled_successors_members(arcs: Seq<(usize, usize)>, i: int)
    requires
        arcs.len() <= usize::MAX,
    ensures
        forall|k: int|
            0 <= k < labeled_successors(arcs, i).len() ==> (#[trigger] labeled_successors(
                arcs,
                i,
            )[k]).1 < arcs.len() && arcs[labeled_successors(arcs, i)[k].1 as int] == (
                i as usize,
                labeled_successors(arcs, i)[k].0,
            ),
    decreases arcs.len(),
{
    if arcs.len() > 0 {
        let rest = arcs.drop_last();
        lemma_labeled_successors_members(rest, i);
        let s = labeled_successors(arcs, i);
        let r = labeled_successors(rest, i);
        assert forall|k: int| 0 <= k < s.len() implies (#[trigger] s[k]).1 < arcs.len() && arcs[s[k].1 as int]
            == (i as usize, s[k].0) by {
            if k < r.len() {
                assert(s[k] == r[k]);
                assert(rest[r[k].1 as int] == arcs[r[k].1 as int]);
            }
        }
    }
}

/// A dense successor index that keeps the edges: for each position a list
/// of pairs, the position of a successor and the position of the edge that
/// leads to it; and the table from id to position beside it.
pub struct LabeledAdjacencyList {
    table: HashMap<u64, usize>,
    lists: Vec<Vec<(usize, usize)>>,
}

impl View for LabeledAdjacencyList {
    type V = Seq<Seq<(usize, usize)>>;

    closed spec fn view(&self) -> Seq<Seq<(usize, usize)>> {
        Seq::new(self.lists@.len(), |i: int| self.lists@[i]@)
    }
}

impl LabeledAdjacencyList {
    /// The table from id to position.
    pub closed spec fn table(&self) -> Map<u64, usize> {
        self.table@
    }

    /// The lists are those of the graph `g`.
    pub open spec fn lists_labeled_successors_of<G: Graph>(&self, g: &G) -> bool {
        &&& is_index_of(self.table(), g.node_seq())
        &&& self@.len() == g.node_seq().len()
        &&& forall|i: int| 0 <= i < self@.len() ==> #[trigger] self@[i] == labeled_successors(arcs(g), i)
    }

    /// Number of positions.
    pub fn len(&self) -> (n: usize)
        ensures
            n == self@.len(),
    {
        self.lists.len()
    }

    /// The list at position `i`.
    pub fn row(&self, i: usize) -> (r: &Vec<(usize, usize)>)
        requires
            i < self@.len(),
        ensures
            r@ == self@[i as int],
    {
        &self.lists[i]
    }

    /// The position of `id`, if a node carries it.
    pub fn position_of(&self, id: u64) -> (r: Option<usize>)
        ensures
            r == if self.table().contains_key(id) {
                Some(self.table()[id])
            } else {
                None::<usize>
            },
    {
        match self.table.get(&id) {
            Some(p) => Some(*p),
            None => None,
        }
    }
}

/// One row per position: the arcs that leave it.
pub fn collect_labeled_rows(n: usize, arcs: &Vec<(usize, usize)>) -> (rows: Vec<Vec<(usize, usize)>>)
    requires
        arcs_within(arcs@, n as int),
    ensures
        rows@.len() == n,
        forall|i: int| 0 <= i < n ==> (#[trigger] rows@[i])@ == labeled_successors(arcs@, i),
{
    let mut rows: Vec<Vec<(usize, usize)>> = Vec::new();
    let mut i: usize = 0;
    while i < n
        invariant
            i <= n,
            rows@.len() == i,
            forall|j: int| 0 <= j < i ==> (#[trigger] rows@[j])@ == Seq::<(usize, usize)>::empty(),
        decreases n - i,
    {
        rows.push(Vec::new());
        i = i + 1;
    }
    let mut k: usize = 0;
    while k < arcs.len()
        invariant
            k <= arcs@.len(),
            arcs_within(arcs@, n as int),
            rows@.len() == n,
            forall|i: int|
                0 <= i < n ==> (#[trigger] rows@[i])@ == labeled_successors(arcs@.take(k as int), i),
        decreases arcs@.len() - k,
    {
        let (s, d) = arcs[k];
        proof {
            assert(arcs@[k as int].0 < n);
            assert(arcs@.take(k as int + 1).drop_last() =~= arcs@.take(k as int));
            assert(arcs@.take(k as int + 1).last() == arcs@[k as int]);
        }
        rows[s].push((d, k));
        k = k + 1;
    }
    proof {
        assert(arcs@.take(k as int) =~= arcs@);
    }
    rows
}

/// A labeled graph with a successor index that keeps the edges.
pub trait LabeledAdjacency: Adjacency + Labeled {
    /// The successor lists of the graph, each successor with its edge.
    fn get_labeled_adj(&self) -> (adj: LabeledAdjacencyList)
        requires
            well_formed(self),
        ensures
            adj.lists_labeled_successors_of(self),
    {
        let nodes = self.nodes();
        let edges = self.edges();
        match index_nodes(nodes) {
            Ok(table) => {
                let arcs = resolve_arcs(nodes, edges, &table);
                let lists = collect_labeled_rows(nodes.len(), &arcs);
                LabeledAdjacencyList { table, lists }
            },
            Err(_) => LabeledAdjacencyList { table: HashMap::new(), lists: Vec::new() },
        }
    }

    /// The successors of `node`, each with the edge that leads to it, in
    /// edge order.
    fn get_labeled_post<'a>(&'a self, adj: &LabeledAdjacencyList, node: &Self::Node) -> (r: Vec<
        (&'a Self::Node, &'a Self::Edge),
    >)
        requires
            well_formed(self),
            adj.lists_labeled_successors_of(self),
            has_id(self.node_seq(), node.spec_id()),
        ensures
            r@.len() == labeled_successors(arcs(self), position(self.node_seq(), node.spec_id())).len(),
            forall|k: int|
                0 <= k < r@.len() ==> *(#[trigger] r@[k]).0 == self.node_seq()[labeled_successors(
                    arcs(self),
                    position(self.node_seq(), node.spec_id()),
                )[k].0 as int] && *r@[k].1 == self.edge_seq()[labeled_successors(
                    arcs(self),
                    position(self.node_seq(), node.spec_id()),
                )[k].1 as int],
    {
        let nodes = self.nodes();
        let edges = self.edges();
        let count = nodes.len();
        let edge_count = edges.len();
        let id = node.id();
        let mut out: Vec<(&'a Self::Node, &'a Self::Edge)> = Vec::new();
        proof {
            lemma_index_gives_position(adj.table(), self.node_seq(), id);
            lemma_arcs_within(self.node_seq(), self.edge_seq());
            lemma_labeled_successors_members(arcs(self), position(self.node_seq(), id));
        }
        match adj.position_of(id) {
            Some(p) => {
                let row = adj.row(p);
                let mut k: usize = 0;
                while k < row.len()
                    invariant
                        k <= row@.len(),
                        nodes@ == self.node_seq(),
                        edges@ == self.edge_seq(),
                        row@ == labeled_successors(arcs(self), p as int),
                        arcs(self).len() == edges@.len(),
                        arcs_within(arcs(self), nodes@.len() as int),
                        forall|a: int|
                            0 <= a < row@.len() ==> (#[trigger] row@[a]).1 < arcs(self).len() && arcs(
                                self,
                            )[row@[a].1 as int] == (p, row@[a].0),
                        out@.len() == k,
                        forall|a: int|
                            0 <= a < k ==> *(#[trigger] out@[a]).0 == nodes@[row@[a].0 as int]
                                && *out@[a].1 == edges@[row@[a].1 as int],
                    decreases row@.len() - k,
                {
                    let (d, e) = row[k];
                    assert(row@[k as int].1 < arcs(self).len());
                    assert(arcs(self)[row@[k as int].1 as int].1 < nodes@.len());
                    out.push((&nodes[d], &edges[e]));
                    k = k + 1;
                }
            },
            None => {},
        }
        out
    }
}

impl LabeledAdjacency for StandardLabeledGraph {

}

} // verus!
