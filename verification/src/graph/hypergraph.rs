//! Hypergraphs: nodes with a type, and hyperedges that are sets of node ids.

use crate::graph::base::{
    distinct_ids, has_id, index_nodes, is_index_of, lemma_index_gives_position,
    names, position, SingleId,
};
use std::collections::HashMap;
use std::collections::HashSet;
use vstd::prelude::*;

verus! {

/// A hyperedge: the set of the ids of the nodes it joins.
pub trait Hyperedge {
    spec fn spec_id_set(&self) -> Set<u64>;

    fn id_set(&self) -> (r: HashSet<u64>)
        ensures
            r@ == self.spec_id_set(),
    ;

    /// Whether the node `id` lies on the hyperedge.
    fn joins(&self, id: u64) -> (r: bool)
        ensures
            r == self.spec_id_set().contains(id),
    ;
}

/// A hypergraph: nodes and hyperedges in insertion order.
pub trait Hypergraph: Sized {
    type Node: SingleId;

    type Edge: Hyperedge;

    /// The nodes, in insertion order.
    spec fn node_seq(&self) -> Seq<Self::Node>;

    /// The hyperedges, in insertion order.
    spec fn hyperedge_seq(&self) -> Seq<Self::Edge>;

    fn nodes(&self) -> (r: &[Self::Node])
        ensures
            r@ == self.node_seq(),
    ;

    fn hyperedges(&self) -> (r: &[Self::Edge])
        ensures
            r@ == self.hyperedge_seq(),
    ;

    /// The first node that carries `id`.
    fn get_node_by_id(&self, id: u64) -> (r: Option<&Self::Node>)
        ensures
            r is Some <==> has_id(self.node_seq(), id),
            r matches Some(node) ==> node.spec_id() == id && exists|i: int|
                0 <= i < self.node_seq().len() && #[trigger] self.node_seq()[i] == *node && forall|
                    a: int,
                | 0 <= a < i ==> (#[trigger] self.node_seq()[a]).spec_id() != id,
    {
        let nodes = self.nodes();
        let mut i: usize = 0;
        while i < nodes.len()
            invariant
                i <= nodes@.len(),
                nodes@ == self.node_seq(),
                forall|a: int| 0 <= a < i ==> (#[trigger] nodes@[a]).spec_id() != id,
            decreases nodes@.len() - i,
        {
            if nodes[i].id() == id {
                assert(self.node_seq()[i as int] == nodes@[i as int]);
                return Some(&nodes[i]);
            }
            i = i + 1;
        }
        None
    }
}

/// A hypergraph whose nodes carry a type.
pub trait Typed: Hypergraph {
    /// The two nodes have the same type.
    spec fn same_type(&self, a: &Self::Node, b: &Self::Node) -> bool;

    fn type_same(&self, a: &Self::Node, b: &Self::Node) -> (r: bool)
        ensures
            r == self.same_type(a, b),
    ;
}

/// The positions of the hyperedges on which `id` lies, ascending.
pub open spec fn containing<E: Hyperedge>(edges: Seq<E>, id: u64) -> Seq<usize>
    decreases edges.len(),
{
    if edges.len() == 0 {
        Seq::empty()
    } else if edges.last().spec_id_set().contains(id) {
        containing(edges.drop_last(), id).push((edges.len() - 1) as usize)
    } else {
        containing(edges.drop_last(), id)
    }
}

/// `containing` holds the positions of the hyperedges on which `id` lies, and
/// no others.
pub proof fn lemma_containing_members<E: Hyperedge>(edges: Seq<E>, id: u64)
    requires
        edges.len() <= usize::MAX,
    ensures
        forall|k: int|
            0 <= k < containing(edges, id).len() ==> (#[trigger] containing(edges, id)[k])
                < edges.len() && edges[containing(edges, id)[k] as int].spec_id_set().contains(id),
        forall|a: int|
            0 <= a < edges.len() && (#[trigger] edges[a]).spec_id_set().contains(id) ==> names(
                containing(edges, id),
                a,
            ),
    decreases edges.len(),
{
    if edges.len() > 0 {
        let rest = edges.drop_last();
        lemma_containing_members(rest, id);
        let c = containing(edges, id);
        let r = containing(rest, id);
        assert forall|k: int| 0 <= k < c.len() implies (#[trigger] c[k]) < edges.len()
            && edges[c[k] as int].spec_id_set().contains(id) by {
            if k < r.len() {
                assert(c[k] == r[k]);
                assert(rest[r[k] as int] == edges[r[k] as int]);
            }
        }
        assert forall|a: int|
            0 <= a < edges.len() && (#[trigger] edges[a]).spec_id_set().contains(
                id,
            ) implies names(c, a) by {
            if a < rest.len() {
                assert(rest[a] == edges[a]);
                assert(names(r, a));
                let k = choose|k: int| 0 <= k < r.len() && (#[trigger] r[k]) as int == a;
                assert(c[k] == r[k]);
            } else {
                assert(c[c.len() - 1] as int == a);
            }
        }
    }
}

/// For each node position, the positions of the hyperedges on which the
/// node lies; and the table from id to position beside it.
pub struct ContainedHyperedgeList {
    table: HashMap<u64, usize>,
    lists: Vec<Vec<usize>>,
}

impl View for ContainedHyperedgeList {
    type V = Seq<Seq<usize>>;

    closed spec fn view(&self) -> Seq<Seq<usize>> {
        Seq::new(self.lists@.len(), |i: int| self.lists@[i]@)
    }
}

impl ContainedHyperedgeList {
    /// The table from id to position.
    pub closed spec fn table(&self) -> Map<u64, usize> {
        self.table@
    }

    /// The lists are those of the hypergraph `g`.
    pub open spec fn lists_hyperedges_of<G: Hypergraph>(&self, g: &G) -> bool {
        &&& is_index_of(self.table(), g.node_seq())
        &&& self@.len() == g.node_seq().len()
        &&& forall|i: int|
            0 <= i < self@.len() ==> #[trigger] self@[i] == containing(
                g.hyperedge_seq(),
                g.node_seq()[i].spec_id(),
            )
    }

    /// Number of node positions.
    pub fn len(&self) -> (n: usize)
        ensures
            n == self@.len(),
    {
        self.lists.len()
    }

    /// The list at node position `i`.
    pub fn row(&self, i: usize) -> (r: &Vec<usize>)
        requires
            i < self@.len(),
        ensures
            r@ == self@[i as int],
    {
        &self.lists[i]
    }

    /// The position of `id`, if a node carries it.
    pub fn position_of(&self, id: u64) -> (r: Option<usize>)
        ensures
            r == if self.table().contains_key(id) {
                Some(self.table()[id])
            } else {
                None::<usize>
            },
    {
        match self.table.get(&id) {
            Some(p) => Some(*p),
            None => None,
        }
    }
}

/// The positions of the hyperedges on which `id` lies.
pub fn edges_joining<E: Hyperedge>(edges: &[E], id: u64) -> (r: Vec<usize>)
    ensures
        r@ == containing(edges@, id),
{
    let mut r: Vec<usize> = Vec::new();
    let mut a: usize = 0;
    while a < edges.len()
        invariant
            a <= edges@.len(),
            r@ == containing(edges@.take(a as int), id),
        decreases edges@.len() - a,
    {
        proof {
            assert(edges@.take(a as int + 1).drop_last() =~= edges@.take(a as int));
            assert(edges@.take(a as int + 1).last() == edges@[a as int]);
        }
        if edges[a].joins(id) {
            r.push(a);
        }
        a = a + 1;
    }
    proof {
        assert(edges@.take(a as int) =~= edges@);
    }
    r
}

/// A hypergraph with an index from each node to the hyperedges on which it
/// lies.
pub trait ContainedHyperedge: Hypergraph {
    /// The index from node positions to hyperedge positions.
    fn get_hyperedges_list(&self) -> (list: ContainedHyperedgeList)
        requires
            distinct_ids(self.node_seq()),
        ensures
            list.lists_hyperedges_of(self),
    {
        let nodes = self.nodes();
        let edges = self.hyperedges();
        match index_nodes(nodes) {
            Ok(table) => {
                let mut lists: Vec<Vec<usize>> = Vec::new();
                let mut i: usize = 0;
                while i < nodes.len()
                    invariant
                        i <= nodes@.len(),
                        lists@.len() == i,
                        forall|a: int|
                            0 <= a < i ==> (#[trigger] lists@[a])@ == containing(
                                edges@,
                                nodes@[a].spec_id(),
                            ),
                    decreases nodes@.len() - i,
                {
                    lists.push(edges_joining(edges, nodes[i].id()));
                    i = i + 1;
                }
                ContainedHyperedgeList { table, lists }
            },
            Err(_) => ContainedHyperedgeList { table: HashMap::new(), lists: Vec::new() },
        }
    }

    /// The hyperedges on which `node` lies, in insertion order.
    fn contained_hyperedges<'a>(&'a self, list: &ContainedHyperedgeList, node: &Self::Node) -> (r:
        Vec<&'a Self::Edge>)
        requires
            distinct_ids(self.node_seq()),
            list.lists_hyperedges_of(self),
            has_id(self.node_seq(), node.spec_id()),
        ensures
            r@.len() == containing(self.hyperedge_seq(), node.spec_id()).len(),
            forall|k: int|
                0 <= k < r@.len() ==> *#[trigger] r@[k] == self.hyperedge_seq()[containing(
                    self.hyperedge_seq(),
                    node.spec_id(),
                )[k] as int],
    {
        let edges = self.hyperedges();
        let id = node.id();
        let mut out: Vec<&'a Self::Edge> = Vec::new();
        let count = edges.len();
        proof {
            lemma_index_gives_position(list.table(), self.node_seq(), id);
            lemma_containing_members(edges@, id);
        }
        match list.position_of(id) {
            Some(p) => {
                let row = list.row(p);
                let mut k: usize = 0;
                while k < row.len()
                    invariant
                        k <= row@.len(),
                        edges@ == self.hyperedge_seq(),
                        row@ == containing(edges@, id),
                        forall|a: int| 0 <= a < row@.len() ==> #[trigger] row@[a] < edges@.len(),
                        out@.len() == k,
                        forall|a: int| 0 <= a < k ==> *#[trigger] out@[a] == edges@[row@[a] as int],
                    decreases row@.len() - k,
                {
                    out.push(&edges[row[k]]);
                    k = k + 1;
                }
            },
            None => {},
        }
        out
    }
}

/// A node of a typed hypergraph: its id and its type.
#[derive(Debug, Clone, Copy, PartialEq, Eq, Hash)]
pub struct TypedNode {
    pub id: u64,
    pub node_type: u64,
}

impl SingleId for TypedNode {
    open spec fn spec_id(&self) -> u64 {
        self.id
    }

    fn id(&self) -> (r: u64) {
        self.id
    }
}

/// A hyperedge that lists the ids of its nodes, and carries an id and a
/// type of its own.
#[derive(Debug, PartialEq, Eq)]
pub struct NodeSet {
    pub id: u64,
    pub edge_type: u64,
    pub ids: Vec<u64>,
}

impl Hyperedge for NodeSet {
    open spec fn spec_id_set(&self) -> Set<u64> {
        self.ids@.to_set()
    }

    fn id_set(&self) -> (r: HashSet<u64>) {
        let mut r: HashSet<u64> = HashSet::new();
        let mut k: usize = 0;
        while k < self.ids.len()
            invariant
                k <= self.ids@.len(),
                r@ == self.ids@.take(k as int).to_set(),
            decreases self.ids@.len() - k,
        {
            r.insert(self.ids[k]);
            proof {
                let small = self.ids@.take(k as int);
                let large = self.ids@.take(k as int + 1);
                assert(large =~= small.push(self.ids@[k as int]));
                assert forall|x: u64| r@.contains(x) <==> large.to_set().contains(x) by {
                    if small.contains(x) {
                        let i = choose|i: int| 0 <= i < small.len() && small[i] == x;
                        assert(large[i] == x);
                    }
                    if large.contains(x) {
                        let i = choose|i: int| 0 <= i < large.len() && large[i] == x;
                        if i < k {
                            assert(small[i] == x);
                        }
                    }
                    assert(large[k as int] == self.ids@[k as int]);
                }
                assert(r@ =~= large.to_set());
            }
            k = k + 1;
        }
        proof {
            assert(self.ids@.take(k as int) =~= self.ids@);
        }
        r
    }

    fn joins(&self, id: u64) -> (r: bool) {
        let mut k: usize = 0;
        while k < self.ids.len()
            invariant
                k <= self.ids@.len(),
                forall|i: int| 0 <= i < k ==> self.ids@[i] != id,
            decreases self.ids@.len() - k,
        {
            if self.ids[k] == id {
                assert(self.ids@.contains(id));
                return true;
            }
            k = k + 1;
        }
        proof {
            if self.ids@.contains(id) {
                let i = choose|i: int| 0 <= i < self.ids@.len() && self.ids@[i] == id;
                assert(false);
            }
        }
        false
    }
}

/// A hypergraph of typed nodes and typed hyperedges.
pub struct TypedHypergraph {
    nodes: Vec<TypedNode>,
    edges: Vec<NodeSet>,
}

impl Hypergraph for TypedHypergraph {
    type Node = TypedNode;

    type Edge = NodeSet;

    closed spec fn node_seq(&self) -> Seq<TypedNode> {
        self.nodes@
    }

    closed spec fn hyperedge_seq(&self) -> Seq<NodeSet> {
        self.edges@
    }

    fn nodes(&self) -> (r: &[TypedNode]) {
        self.nodes.as_slice()
    }

    fn hyperedges(&self) -> (r: &[NodeSet]) {
        self.edges.as_slice()
    }
}

impl Typed for TypedHypergraph {
    open spec fn same_type(&self, a: &TypedNode, b: &TypedNode) -> bool {
        a.node_type == b.node_type
    }

    fn type_same(&self, a: &TypedNode, b: &TypedNode) -> (r: bool) {
        a.node_type == b.node_type
    }
}

impl ContainedHyperedge for TypedHypergraph {

}

impl TypedHypergraph {
    /// The hypergraph without nodes and hyperedges.
    pub fn new() -> (g: Self)
        ensures
            g.node_seq() == Seq::<TypedNode>::empty(),
            g.hyperedge_seq() == Seq::<NodeSet>::empty(),
    {
        TypedHypergraph { nodes: Vec::new(), edges: Vec::new() }
    }

    /// Appends the node `id` of type `node_type`.
    pub fn add_node(&mut self, id: u64, node_type: u64)
        ensures
            final(self).node_seq() == old(self).node_seq().push((TypedNode { id, node_type })),
            final(self).hyperedge_seq() == old(self).hyperedge_seq(),
    {
        self.nodes.push(TypedNode { id, node_type });
    }

    /// Appends the hyperedge `id` of type `edge_type` on the nodes `ids`.
    pub fn add_hyperedge(&mut self, id: u64, edge_type: u64, ids: Vec<u64>)
        ensures
            final(self).node_seq() == old(self).node_seq(),
            final(self).hyperedge_seq() == old(self).hyperedge_seq().push(
                (NodeSet { id, edge_type, ids }),
            ),
    {
        self.edges.push(NodeSet { id, edge_type, ids });
    }
}

} // verus!
