//! Capabilities of a directed graph and its adjacency indices.
//!
//! A graph is an insertion-ordered sequence of nodes and one of edges. An
//! edge names its endpoints by id; the derived indices speak of *positions*,
//! the place of a node in the node sequence.

use std::collections::HashMap;
use vstd::prelude::*;

verus! {

/// A value that carries one stable integer id.
pub trait SingleId {
    spec fn spec_id(&self) -> u64;

    fn id(&self) -> (r: u64)
        ensures
            r == self.spec_id(),
    ;
}

/// A value that shows its label as text.
pub trait Label {
    spec fn spec_label(&self) -> Seq<char>;

    fn label(&self) -> (r: &str)
        ensures
            r@ == self.spec_label(),
    ;
}

/// A value that names a source and a destination by id.
pub trait IdPair {
    spec fn spec_pair(&self) -> (u64, u64);

    fn pair(&self) -> (r: (u64, u64))
        ensures
            r == self.spec_pair(),
    ;
}

/// Marker: the edges of the graph have a direction.
pub trait Directed {

}

/// Why a graph has no derived index.
#[derive(Debug, Clone, Copy, PartialEq, Eq, Structural)]
pub enum GraphError {
    /// Two nodes carry this id.
    DuplicateId(u64),
    /// An edge names this id and no node carries it.
    MissingEndpoint(u64),
}

/// No id occurs at two positions.
pub open spec fn distinct_ids<N: SingleId>(nodes: Seq<N>) -> bool {
    forall|i: int, j: int|
        0 <= i < j < nodes.len() ==> #[trigger] nodes[i].spec_id() != #[trigger] nodes[j].spec_id()
}

/// Some node carries `id`.
pub open spec fn has_id<N: SingleId>(nodes: Seq<N>, id: u64) -> bool {
    exists|i: int| 0 <= i < nodes.len() && #[trigger] nodes[i].spec_id() == id
}

/// A position at which `id` stands (the only one where ids are distinct).
pub open spec fn position<N: SingleId>(nodes: Seq<N>, id: u64) -> int {
    choose|i: int| 0 <= i < nodes.len() && #[trigger] nodes[i].spec_id() == id
}

/// Both endpoints of every edge are ids of nodes.
pub open spec fn endpoints_exist<N: SingleId, E: IdPair>(nodes: Seq<N>, edges: Seq<E>) -> bool {
    forall|k: int|
        0 <= k < edges.len() ==> has_id(nodes, (#[trigger] edges[k]).spec_pair().0) && has_id(
            nodes,
            edges[k].spec_pair().1,
        )
}

/// The edges as pairs of positions, in insertion order.
pub open spec fn arcs_of<N: SingleId, E: IdPair>(nodes: Seq<N>, edges: Seq<E>) -> Seq<
    (usize, usize),
> {
    Seq::new(
        edges.len(),
        |k: int|
            (
                position(nodes, edges[k].spec_pair().0) as usize,
                position(nodes, edges[k].spec_pair().1) as usize,
            ),
    )
}

/// The destinations of the arcs that leave `i`, in arc order.
pub open spec fn successors(arcs: Seq<(usize, usize)>, i: int) -> Seq<usize>
    decreases arcs.len(),
{
    if arcs.len() == 0 {
        Seq::empty()
    } else if arcs.last().0 == i {
        successors(arcs.drop_last(), i).push(arcs.last().1)
    } else {
        successors(arcs.drop_last(), i)
    }
}

/// The sources of the arcs that enter `i`, in arc order.
pub open spec fn predecessors(arcs: Seq<(usize, usize)>, i: int) -> Seq<usize>
    decreases arcs.len(),
{
    if arcs.len() == 0 {
        Seq::empty()
    } else if arcs.last().1 == i {
        predecessors(arcs.drop_last(), i).push(arcs.last().0)
    } else {
        predecessors(arcs.drop_last(), i)
    }
}

/// The position `x` stands in `list`.
pub open spec fn names(list: Seq<usize>, x: int) -> bool {
    exists|k: int| 0 <= k < list.len() && (#[trigger] list[k]) as int == x
}

/// Every arc joins two positions below `n`.
pub open spec fn arcs_within(arcs: Seq<(usize, usize)>, n: int) -> bool {
    forall|k: int| 0 <= k < arcs.len() ==> (#[trigger] arcs[k]).0 < n && arcs[k].1 < n
}

/// Where ids are distinct, the position of the id at `i` is `i`.
pub proof fn lemma_position_of_id<N: SingleId>(nodes: Seq<N>, i: int)
    requires
        distinct_ids(nodes),
        0 <= i < nodes.len(),
    ensures
        has_id(nodes, nodes[i].spec_id()),
        position(nodes, nodes[i].spec_id()) == i,
{
    let id = nodes[i].spec_id();
    let p = position(nodes, id);
    assert(0 <= p < nodes.len() && nodes[p].spec_id() == id);
    if p < i {
        assert(nodes[p].spec_id() != nodes[i].spec_id());
    } else if i < p {
        assert(nodes[i].spec_id() != nodes[p].spec_id());
    }
}

/// The arcs of a graph whose endpoints exist stay within its positions.
pub proof fn lemma_arcs_within<N: SingleId, E: IdPair>(nodes: Seq<N>, edges: Seq<E>)
    requires
        endpoints_exist(nodes, edges),
        nodes.len() <= usize::MAX,
    ensures
        arcs_within(arcs_of(nodes, edges), nodes.len() as int),
        arcs_of(nodes, edges).len() == edges.len(),
{
    let arcs = arcs_of(nodes, edges);
    assert forall|k: int| 0 <= k < arcs.len() implies (#[trigger] arcs[k]).0 < nodes.len()
        && arcs[k].1 < nodes.len() by {
        assert(has_id(nodes, edges[k].spec_pair().0));
        assert(has_id(nodes, edges[k].spec_pair().1));
    }
}

/// What stands in `successors` is the destination of an arc, and the reverse.
pub proof fn lemma_successors_members(arcs: Seq<(usize, usize)>, i: int)
    ensures
        forall|k: int|
            0 <= k < successors(arcs, i).len() ==> arcs.contains(
                (i as usize, #[trigger] successors(arcs, i)[k]),
            ),
        forall|a: int|
            0 <= a < arcs.len() && (#[trigger] arcs[a]).0 == i ==> successors(arcs, i).contains(
                arcs[a].1,
            ),
        0 <= i <= usize::MAX || successors(arcs, i).len() == 0,
    decreases arcs.len(),
{
    if arcs.len() > 0 {
        let rest = arcs.drop_last();
        lemma_successors_members(rest, i);
        let s = successors(arcs, i);
        let r = successors(rest, i);
        assert forall|k: int| 0 <= k < s.len() implies arcs.contains(
            (i as usize, #[trigger] s[k]),
        ) by {
            if k < r.len() {
                assert(s[k] == r[k]);
                assert(rest.contains((i as usize, r[k])));
                let a = choose|a: int| 0 <= a < rest.len() && rest[a] == (i as usize, r[k]);
                assert(arcs[a] == rest[a]);
            } else {
                assert(arcs[arcs.len() - 1] == (i as usize, s[k]));
            }
        }
        assert forall|a: int| 0 <= a < arcs.len() && (#[trigger] arcs[a]).0 == i implies s.contains(
            arcs[a].1,
        ) by {
            if a < rest.len() {
                assert(rest[a] == arcs[a]);
                assert(r.contains(rest[a].1));
                let k = choose|k: int| 0 <= k < r.len() && r[k] == rest[a].1;
                assert(s[k] == r[k]);
            } else {
                assert(s[s.len() - 1] == arcs[a].1);
            }
        }
    }
}

/// What stands in `predecessors` is the source of an arc, and the reverse.
pub proof fn lemma_predecessors_members(arcs: Seq<(usize, usize)>, i: int)
    ensures
        forall|k: int|
            0 <= k < predecessors(arcs, i).len() ==> arcs.contains(
                (#[trigger] predecessors(arcs, i)[k], i as usize),
            ),
        forall|a: int|
            0 <= a < arcs.len() && (#[trigger] arcs[a]).1 == i ==> predecessors(arcs, i).contains(
                arcs[a].0,
            ),
        0 <= i <= usize::MAX || predecessors(arcs, i).len() == 0,
    decreases arcs.len(),
{
    if arcs.len() > 0 {
        let rest = arcs.drop_last();
        lemma_predecessors_members(rest, i);
        let s = predecessors(arcs, i);
        let r = predecessors(rest, i);
        assert forall|k: int| 0 <= k < s.len() implies arcs.contains(
            (#[trigger] s[k], i as usize),
        ) by {
            if k < r.len() {
                assert(s[k] == r[k]);
                assert(rest.contains((r[k], i as usize)));
                let a = choose|a: int| 0 <= a < rest.len() && rest[a] == (r[k], i as usize);
                assert(arcs[a] == rest[a]);
            } else {
                assert(arcs[arcs.len() - 1] == (s[k], i as usize));
            }
        }
        assert forall|a: int| 0 <= a < arcs.len() && (#[trigger] arcs[a]).1 == i implies s.contains(
            arcs[a].0,
        ) by {
            if a < rest.len() {
                assert(rest[a] == arcs[a]);
                assert(r.contains(rest[a].0));
                let k = choose|k: int| 0 <= k < r.len() && r[k] == rest[a].0;
                assert(s[k] == r[k]);
            } else {
                assert(s[s.len() - 1] == arcs[a].0);
            }
        }
    }
}

/// `index` sends each id of `nodes` to its position, and holds nothing else.
pub open spec fn is_index_of<N: SingleId>(index: Map<u64, usize>, nodes: Seq<N>) -> bool {
    &&& forall|i: int|
        0 <= i < nodes.len() ==> index.contains_key((#[trigger] nodes[i]).spec_id())
            && index[nodes[i].spec_id()] == i
    &&& forall|id: u64| #[trigger]
        index.contains_key(id) ==> index[id] < nodes.len() && nodes[index[id] as int].spec_id()
            == id
}

/// Where an index exists, it gives the position of every id it holds.
pub proof fn lemma_index_gives_position<N: SingleId>(index: Map<u64, usize>, nodes: Seq<N>, id: u64)
    requires
        distinct_ids(nodes),
        is_index_of(index, nodes),
    ensures
        index.contains_key(id) <==> has_id(nodes, id),
        index.contains_key(id) ==> index[id] == position(nodes, id),
{
    if index.contains_key(id) {
        let p = index[id] as int;
        assert(nodes[p].spec_id() == id);
        lemma_position_of_id(nodes, p);
    }
    if has_id(nodes, id) {
        let i = position(nodes, id);
        assert(index.contains_key(nodes[i].spec_id()));
    }
}

/// Builds the table from id to position, or names an id that two nodes carry.
pub fn index_nodes<N: SingleId>(nodes: &[N]) -> (r: Result<HashMap<u64, usize>, GraphError>)
    ensures
        r is Ok <==> distinct_ids(nodes@),
        r matches Ok(index) ==> is_index_of(index@, nodes@),
        r matches Err(e) ==> e matches GraphError::DuplicateId(id) && exists|i: int, j: int|
            0 <= i < j < nodes@.len() && #[trigger] nodes@[i].spec_id() == id
                && #[trigger] nodes@[j].spec_id() == id,
{
    let mut index: HashMap<u64, usize> = HashMap::new();
    let mut i: usize = 0;
    while i < nodes.len()
        invariant
            i <= nodes@.len(),
            distinct_ids(nodes@.take(i as int)),
            is_index_of(index@, nodes@.take(i as int)),
        decreases nodes@.len() - i,
    {
        let id = nodes[i].id();
        let ghost before = nodes@.take(i as int);
        let ghost after = nodes@.take(i as int + 1);
        match index.get(&id) {
            Some(p) => {
                proof {
                    let j = *p as int;
                    assert(before[j].spec_id() == id);
                    assert(nodes@[j].spec_id() == id && nodes@[i as int].spec_id() == id);
                }
                return Err(GraphError::DuplicateId(id));
            },
            None => {},
        }
        index.insert(id, i);
        proof {
            assert forall|a: int, b: int| 0 <= a < b < after.len() implies #[trigger] after[a].spec_id()
                != #[trigger] after[b].spec_id() by {
                if b < i {
                    assert(before[a].spec_id() != before[b].spec_id());
                } else {
                    assert(before[a].spec_id() == after[a].spec_id());
                }
            }
            assert forall|a: int| 0 <= a < after.len() implies index@.contains_key(
                (#[trigger] after[a]).spec_id(),
            ) && index@[after[a].spec_id()] == a by {
                if a < i {
                    assert(before[a].spec_id() == after[a].spec_id());
                }
            }
            assert forall|k: u64| #[trigger] index@.contains_key(k) implies index@[k] < after.len()
                && after[index@[k] as int].spec_id() == k by {
                if k != id {
                    assert(before[index@[k] as int].spec_id() == k);
                }
            }
        }
        i = i + 1;
    }
    proof {
        assert(nodes@.take(i as int) =~= nodes@);
    }
    Ok(index)
}

/// Looks for an edge endpoint that no node carries.
pub fn find_missing_endpoint<N: SingleId, E: IdPair>(
    nodes: &[N],
    edges: &[E],
    index: &HashMap<u64, usize>,
) -> (r: Option<u64>)
    requires
        distinct_ids(nodes@),
        is_index_of(index@, nodes@),
    ensures
        r is None <==> endpoints_exist(nodes@, edges@),
        r matches Some(id) ==> !has_id(nodes@, id) && exists|k: int|
            0 <= k < edges@.len() && ((#[trigger] edges@[k]).spec_pair().0 == id
                || edges@[k].spec_pair().1 == id),
{
    let mut k: usize = 0;
    while k < edges.len()
        invariant
            k <= edges@.len(),
            distinct_ids(nodes@),
            is_index_of(index@, nodes@),
            endpoints_exist(nodes@, edges@.take(k as int)),
        decreases edges@.len() - k,
    {
        let (src, dst) = edges[k].pair();
        proof {
            lemma_index_gives_position(index@, nodes@, src);
            lemma_index_gives_position(index@, nodes@, dst);
        }
        if !index.contains_key(&src) {
            return Some(src);
        }
        if !index.contains_key(&dst) {
            return Some(dst);
        }
        proof {
            let after = edges@.take(k as int + 1);
            let before = edges@.take(k as int);
            assert forall|a: int| 0 <= a < after.len() implies has_id(
                nodes@,
                (#[trigger] after[a]).spec_pair().0,
            ) && has_id(nodes@, after[a].spec_pair().1) by {
                if a < k {
                    assert(before[a] == after[a]);
                }
            }
        }
        k = k + 1;
    }
    proof {
        assert(edges@.take(k as int) =~= edges@);
    }
    None
}

/// The edges as pairs of positions.
pub fn resolve_arcs<N: SingleId, E: IdPair>(
    nodes: &[N],
    edges: &[E],
    index: &HashMap<u64, usize>,
) -> (arcs: Vec<(usize, usize)>)
    requires
        distinct_ids(nodes@),
        endpoints_exist(nodes@, edges@),
        is_index_of(index@, nodes@),
    ensures
        arcs@ == arcs_of(nodes@, edges@),
        arcs_within(arcs@, nodes@.len() as int),
{
    let mut arcs: Vec<(usize, usize)> = Vec::new();
    let mut k: usize = 0;
    while k < edges.len()
        invariant
            k <= edges@.len(),
            distinct_ids(nodes@),
            endpoints_exist(nodes@, edges@),
            is_index_of(index@, nodes@),
            arcs@ == arcs_of(nodes@, edges@).take(k as int),
        decreases edges@.len() - k,
    {
        let (src, dst) = edges[k].pair();
        proof {
            assert(has_id(nodes@, edges@[k as int].spec_pair().0));
            lemma_index_gives_position(index@, nodes@, src);
            lemma_index_gives_position(index@, nodes@, dst);
        }
        let s = match index.get(&src) {
            Some(p) => *p,
            None => 0,
        };
        let d = match index.get(&dst) {
            Some(p) => *p,
            None => 0,
        };
        arcs.push((s, d));
        proof {
            let all = arcs_of(nodes@, edges@);
            assert(all.take(k as int + 1) =~= all.take(k as int).push(all[k as int]));
        }
        k = k + 1;
    }
    let n = nodes.len();
    proof {
        let all = arcs_of(nodes@, edges@);
        assert(all.take(k as int) =~= all);
        assert(n == nodes@.len());
        lemma_arcs_within(nodes@, edges@);
    }
    arcs
}

/// One row per position: the successors of each (`forward`), or the
/// predecessors.
pub fn collect_rows(n: usize, arcs: &Vec<(usize, usize)>, forward: bool) -> (rows: Vec<Vec<usize>>)
    requires
        arcs_within(arcs@, n as int),
    ensures
        rows@.len() == n,
        forall|i: int|
            0 <= i < n ==> (#[trigger] rows@[i])@ == if forward {
                successors(arcs@, i)
            } else {
                predecessors(arcs@, i)
            },
{
    let mut rows: Vec<Vec<usize>> = Vec::new();
    let mut i: usize = 0;
    while i < n
        invariant
            i <= n,
            rows@.len() == i,
            forall|j: int| 0 <= j < i ==> (#[trigger] rows@[j])@ == Seq::<usize>::empty(),
        decreases n - i,
    {
        rows.push(Vec::new());
        i = i + 1;
    }
    let mut k: usize = 0;
    while k < arcs.len()
        invariant
            k <= arcs@.len(),
            arcs_within(arcs@, n as int),
            rows@.len() == n,
            forall|i: int|
                0 <= i < n ==> (#[trigger] rows@[i])@ == if forward {
                    successors(arcs@.take(k as int), i)
                } else {
                    predecessors(arcs@.take(k as int), i)
                },
        decreases arcs@.len() - k,
    {
        let (s, d) = arcs[k];
        proof {
            assert(arcs@[k as int].0 < n);
            assert(arcs@.take(k as int + 1).drop_last() =~= arcs@.take(k as int));
            assert(arcs@.take(k as int + 1).last() == arcs@[k as int]);
        }
        if forward {
            rows[s].push(d);
        } else {
            rows[d].push(s);
        }
        k = k + 1;
    }
    proof {
        assert(arcs@.take(k as int) =~= arcs@);
    }
    rows
}

/// A directed graph: nodes and edges in insertion order.
pub trait Graph: Sized {
    type Node: SingleId;

    type Edge: IdPair;

    /// The nodes, in insertion order.
    spec fn node_seq(&self) -> Seq<Self::Node>;

    /// The edges, in insertion order.
    spec fn edge_seq(&self) -> Seq<Self::Edge>;

    fn nodes(&self) -> (r: &[Self::Node])
        ensures
            r@ == self.node_seq(),
    ;

    fn edges(&self) -> (r: &[Self::Edge])
        ensures
            r@ == self.edge_seq(),
    ;

    /// The endpoints of every edge, as nodes, in edge order.
    fn get_edges_pair(&self) -> (r: Vec<(&Self::Node, &Self::Node)>)
        requires
            distinct_ids(self.node_seq()),
            endpoints_exist(self.node_seq(), self.edge_seq()),
        ensures
            r@.len() == self.edge_seq().len(),
            forall|k: int|
                0 <= k < r@.len() ==> *(#[trigger] r@[k]).0 == self.node_seq()[arcs_of(self.node_seq(), self.edge_seq())[k].0 as int]
                    && *r@[k].1 == self.node_seq()[arcs_of(self.node_seq(), self.edge_seq())[k].1 as int],
    {
        let nodes = self.nodes();
        let edges = self.edges();
        let mut out: Vec<(&Self::Node, &Self::Node)> = Vec::new();
        match index_nodes(nodes) {
            Ok(index) => {
                let arcs = resolve_arcs(nodes, edges, &index);
                let mut k: usize = 0;
                while k < arcs.len()
                    invariant
                        k <= arcs@.len(),
                        arcs@ == arcs_of(nodes@, edges@),
                        arcs_within(arcs@, nodes@.len() as int),
                        out@.len() == k,
                        forall|a: int|
                            0 <= a < k ==> *(#[trigger] out@[a]).0 == nodes@[arcs@[a].0 as int]
                                && *out@[a].1 == nodes@[arcs@[a].1 as int],
                    decreases arcs@.len() - k,
                {
                    let (s, d) = arcs[k];
                    assert(arcs@[k as int].0 < nodes@.len());
                    out.push((&nodes[s], &nodes[d]));
                    k = k + 1;
                }
            },
            Err(_) => {},
        }
        out
    }

    /// The endpoints of every edge with the edge between them, in edge order.
    fn get_edges_pair_with_edge(&self) -> (r: Vec<(&Self::Node, &Self::Edge, &Self::Node)>)
        requires
            distinct_ids(self.node_seq()),
            endpoints_exist(self.node_seq(), self.edge_seq()),
        ensures
            r@.len() == self.edge_seq().len(),
            forall|k: int|
                0 <= k < r@.len() ==> *(#[trigger] r@[k]).0 == self.node_seq()[arcs_of(self.node_seq(), self.edge_seq())[k].0 as int]
                    && *r@[k].1 == self.edge_seq()[k] && *r@[k].2 == self.node_seq()[arcs_of(self.node_seq(), self.edge_seq())[k].1 as int],
    {
        let nodes = self.nodes();
        let edges = self.edges();
        let mut out: Vec<(&Self::Node, &Self::Edge, &Self::Node)> = Vec::new();
        match index_nodes(nodes) {
            Ok(index) => {
                let arcs = resolve_arcs(nodes, edges, &index);
                let mut k: usize = 0;
                while k < arcs.len()
                    invariant
                        k <= arcs@.len(),
                        arcs@ == arcs_of(nodes@, edges@),
                        arcs_within(arcs@, nodes@.len() as int),
                        out@.len() == k,
                        forall|a: int|
                            0 <= a < k ==> *(#[trigger] out@[a]).0 == nodes@[arcs@[a].0 as int]
                                && *out@[a].1 == edges@[a] && *out@[a].2 == nodes@[arcs@[a].1 as int],
                    decreases arcs@.len() - k,
                {
                    let (s, d) = arcs[k];
                    assert(arcs@[k as int].0 < nodes@.len());
                    out.push((&nodes[s], &edges[k], &nodes[d]));
                    k = k + 1;
                }
            },
            Err(_) => {},
        }
        out
    }

    fn add_node(&mut self, node: Self::Node)
        ensures
            final(self).node_seq() == old(self).node_seq().push(node),
            final(self).edge_seq() == old(self).edge_seq(),
    ;

    fn add_edge(&mut self, edge: Self::Edge)
        ensures
            final(self).node_seq() == old(self).node_seq(),
            final(self).edge_seq() == old(self).edge_seq().push(edge),
    ;
}

/// Ids are distinct and every edge joins two of them: the derived indices exist.
pub open spec fn well_formed<G: Graph>(g: &G) -> bool {
    distinct_ids(g.node_seq()) && endpoints_exist(g.node_seq(), g.edge_seq())
}

/// The edges of `g` as pairs of positions.
pub open spec fn arcs<G: Graph>(g: &G) -> Seq<(usize, usize)> {
    arcs_of(g.node_seq(), g.edge_seq())
}

/// Says whether the derived indices of `g` exist, and if not, names an id
/// that stands in their way.
pub fn check_well_formed<G: Graph>(g: &G) -> (r: Result<(), GraphError>)
    ensures
        r is Ok <==> well_formed(g),
        r matches Err(GraphError::DuplicateId(id)) ==> exists|i: int, j: int|
            0 <= i < j < g.node_seq().len() && #[trigger] g.node_seq()[i].spec_id() == id
                && #[trigger] g.node_seq()[j].spec_id() == id,
        r matches Err(GraphError::MissingEndpoint(id)) ==> distinct_ids(g.node_seq()) && !has_id(
            g.node_seq(),
            id,
        ) && exists|k: int|
            0 <= k < g.edge_seq().len() && ((#[trigger] g.edge_seq()[k]).spec_pair().0 == id
                || g.edge_seq()[k].spec_pair().1 == id),
{
    let nodes = g.nodes();
    let edges = g.edges();
    match index_nodes(nodes) {
        Ok(index) => match find_missing_endpoint(nodes, edges, &index) {
            Some(id) => Err(GraphError::MissingEndpoint(id)),
            None => Ok(()),
        },
        Err(e) => Err(e),
    }
}

/// A dense adjacency index: for each position a list of positions, and the
/// table from id to position beside it.
pub struct AdjacencyList {
    table: HashMap<u64, usize>,
    lists: Vec<Vec<usize>>,
}

impl View for AdjacencyList {
    type V = Seq<Seq<usize>>;

    closed spec fn view(&self) -> Seq<Seq<usize>> {
        Seq::new(self.lists@.len(), |i: int| self.lists@[i]@)
    }
}

impl AdjacencyList {
    /// The table from id to position.
    pub closed spec fn table(&self) -> Map<u64, usize> {
        self.table@
    }

    /// The lists are the successor lists of `g`.
    pub open spec fn lists_successors_of<G: Graph>(&self, g: &G) -> bool {
        &&& is_index_of(self.table(), g.node_seq())
        &&& self@.len() == g.node_seq().len()
        &&& forall|i: int| 0 <= i < self@.len() ==> #[trigger] self@[i] == successors(arcs(g), i)
    }

    /// The lists are the predecessor lists of `g`.
    pub open spec fn lists_predecessors_of<G: Graph>(&self, g: &G) -> bool {
        &&& is_index_of(self.table(), g.node_seq())
        &&& self@.len() == g.node_seq().len()
        &&& forall|i: int| 0 <= i < self@.len() ==> #[trigger] self@[i] == predecessors(arcs(g), i)
    }

    /// Number of positions.
    pub fn len(&self) -> (n: usize)
        ensures
            n == self@.len(),
    {
        self.lists.len()
    }

    /// The list at position `i`.
    pub fn row(&self, i: usize) -> (r: &Vec<usize>)
        requires
            i < self@.len(),
        ensures
            r@ == self@[i as int],
    {
        &self.lists[i]
    }

    /// The position of `id`, if a node carries it.
    pub fn position_of(&self, id: u64) -> (r: Option<usize>)
        ensures
            r == if self.table().contains_key(id) {
                Some(self.table()[id])
            } else {
                None::<usize>
            },
    {
        match self.table.get(&id) {
            Some(p) => Some(*p),
            None => None,
        }
    }

    /// The nodes of `g` that the list of `node` names, in list order.
    fn neighbours<'a, G: Graph>(&self, g: &'a G, node: &G::Node) -> (r: Vec<&'a G::Node>)
        requires
            distinct_ids(g.node_seq()),
            has_id(g.node_seq(), node.spec_id()),
            is_index_of(self.table(), g.node_seq()),
            self@.len() == g.node_seq().len(),
            forall|i: int, k: int|
                0 <= i < self@.len() && 0 <= k < self@[i].len() ==> #[trigger] self@[i][k]
                    < self@.len(),
        ensures
            r@.len() == self@[position(g.node_seq(), node.spec_id())].len(),
            forall|k: int|
                0 <= k < r@.len() ==> *#[trigger] r@[k] == g.node_seq()[self@[position(
                    g.node_seq(),
                    node.spec_id(),
                )][k] as int],
    {
        let nodes = g.nodes();
        let id = node.id();
        proof {
            lemma_index_gives_position(self.table(), g.node_seq(), id);
        }
        let mut out: Vec<&'a G::Node> = Vec::new();
        match self.table.get(&id) {
            Some(p) => {
                let row = &self.lists[*p];
                let mut k: usize = 0;
                while k < row.len()
                    invariant
                        k <= row@.len(),
                        nodes@ == g.node_seq(),
                        row@ == self@[*p as int],
                        *p < self@.len(),
                        self@.len() == nodes@.len(),
                        forall|i: int, k: int|
                            0 <= i < self@.len() && 0 <= k < self@[i].len()
                                ==> #[trigger] self@[i][k] < self@.len(),
                        out@.len() == k,
                        forall|a: int| 0 <= a < k ==> *#[trigger] out@[a] == nodes@[row@[a] as int],
                    decreases row@.len() - k,
                {
                    assert(self@[*p as int][k as int] < self@.len());
                    out.push(&nodes[row[k]]);
                    k = k + 1;
                }
            },
            None => {},
        }
        out
    }
}

/// Every entry of the successor lists of arcs within `n` is below `n`.
pub proof fn lemma_successors_within(arcs: Seq<(usize, usize)>, n: int, i: int)
    requires
        arcs_within(arcs, n),
    ensures
        forall|k: int| 0 <= k < successors(arcs, i).len() ==> #[trigger] successors(arcs, i)[k] < n,
{
    lemma_successors_members(arcs, i);
    assert forall|k: int| 0 <= k < successors(arcs, i).len() implies #[trigger] successors(
        arcs,
        i,
    )[k] < n by {
        let pair = (i as usize, successors(arcs, i)[k]);
        assert(arcs.contains(pair));
        let a = choose|a: int| 0 <= a < arcs.len() && arcs[a] == pair;
        assert(arcs[a].1 < n);
    }
}

/// Every entry of the predecessor lists of arcs within `n` is below `n`.
pub proof fn lemma_predecessors_within(arcs: Seq<(usize, usize)>, n: int, i: int)
    requires
        arcs_within(arcs, n),
    ensures
        forall|k: int|
            0 <= k < predecessors(arcs, i).len() ==> #[trigger] predecessors(arcs, i)[k] < n,
{
    lemma_predecessors_members(arcs, i);
    assert forall|k: int| 0 <= k < predecessors(arcs, i).len() implies #[trigger] predecessors(
        arcs,
        i,
    )[k] < n by {
        let pair = (predecessors(arcs, i)[k], i as usize);
        assert(arcs.contains(pair));
        let a = choose|a: int| 0 <= a < arcs.len() && arcs[a] == pair;
        assert(arcs[a].0 < n);
    }
}

/// A graph with a successor index.
pub trait Adjacency: Graph + Directed {
    /// The successor lists of the graph.
    fn get_adj(&self) -> (adj: AdjacencyList)
        requires
            well_formed(self),
        ensures
            adj.lists_successors_of(self),
    {
        let nodes = self.nodes();
        let edges = self.edges();
        match index_nodes(nodes) {
            Ok(table) => {
                let arcs = resolve_arcs(nodes, edges, &table);
                let lists = collect_rows(nodes.len(), &arcs, true);
                AdjacencyList { table, lists }
            },
            Err(_) => AdjacencyList { table: HashMap::new(), lists: Vec::new() },
        }
    }

    /// The successors of `node`, in edge order.
    fn get_post<'a>(&'a self, adj: &AdjacencyList, node: &Self::Node) -> (r: Vec<&'a Self::Node>)
        requires
            well_formed(self),
            adj.lists_successors_of(self),
            has_id(self.node_seq(), node.spec_id()),
        ensures
            r@.len() == successors(arcs(self), position(self.node_seq(), node.spec_id())).len(),
            forall|k: int|
                0 <= k < r@.len() ==> *#[trigger] r@[k] == self.node_seq()[successors(
                    arcs(self),
                    position(self.node_seq(), node.spec_id()),
                )[k] as int],
    {
        let count = self.nodes().len();
        proof {
            lemma_arcs_within(self.node_seq(), self.edge_seq());
            assert forall|i: int, k: int| 0 <= i < adj@.len() && 0 <= k < adj@[i].len() implies #[trigger] adj@[i][k]
                < adj@.len() by {
                lemma_successors_within(arcs(self), adj@.len() as int, i);
            }
        }
        adj.neighbours(self, node)
    }
}

/// A graph with a predecessor index.
pub trait AdjacencyInv: Graph + Directed {
    /// The predecessor lists of the graph.
    fn get_adj_inv(&self) -> (adj_inv: AdjacencyList)
        requires
            well_formed(self),
        ensures
            adj_inv.lists_predecessors_of(self),
    {
        let nodes = self.nodes();
        let edges = self.edges();
        match index_nodes(nodes) {
            Ok(table) => {
                let arcs = resolve_arcs(nodes, edges, &table);
                let lists = collect_rows(nodes.len(), &arcs, false);
                AdjacencyList { table, lists }
            },
            Err(_) => AdjacencyList { table: HashMap::new(), lists: Vec::new() },
        }
    }

    /// The predecessors of `node`, in edge order.
    fn get_pre<'a>(&'a self, adj_inv: &AdjacencyList, node: &Self::Node) -> (r: Vec<
        &'a Self::Node,
    >)
        requires
            well_formed(self),
            adj_inv.lists_predecessors_of(self),
            has_id(self.node_seq(), node.spec_id()),
        ensures
            r@.len() == predecessors(arcs(self), position(self.node_seq(), node.spec_id())).len(),
            forall|k: int|
                0 <= k < r@.len() ==> *#[trigger] r@[k] == self.node_seq()[predecessors(
                    arcs(self),
                    position(self.node_seq(), node.spec_id()),
                )[k] as int],
    {
        let count = self.nodes().len();
        proof {
            lemma_arcs_within(self.node_seq(), self.edge_seq());
            assert forall|i: int, k: int| 0 <= i < adj_inv@.len() && 0 <= k < adj_inv@[i].len() implies #[trigger] adj_inv@[i][k]
                < adj_inv@.len() by {
                lemma_predecessors_within(arcs(self), adj_inv@.len() as int, i);
            }
        }
        adj_inv.neighbours(self, node)
    }
}

/// The out-degree of every node, by position, and the table from id to
/// position beside it.
pub struct DegreeList {
    table: HashMap<u64, usize>,
    counts: Vec<usize>,
}

impl View for DegreeList {
    type V = Seq<usize>;

    closed spec fn view(&self) -> Seq<usize> {
        self.counts@
    }
}

impl DegreeList {
    /// The table from id to position.
    pub closed spec fn table(&self) -> Map<u64, usize> {
        self.table@
    }

    /// The list holds, for each position of `g`, the number of arcs that
    /// leave it.
    pub open spec fn counts_successors_of<G: Graph>(&self, g: &G) -> bool {
        &&& is_index_of(self.table(), g.node_seq())
        &&& self@.len() == g.node_seq().len()
        &&& forall|i: int| 0 <= i < self@.len() ==> #[trigger] self@[i] == successors(arcs(g), i).len()
    }

    /// Number of positions.
    pub fn len(&self) -> (n: usize)
        ensures
            n == self@.len(),
    {
        self.counts.len()
    }

    /// The out-degree at position `i`.
    pub fn at(&self, i: usize) -> (d: usize)
        requires
            i < self@.len(),
        ensures
            d == self@[i as int],
    {
        self.counts[i]
    }
}

/// A graph that counts the edges that leave each node.
pub trait Degree: Graph + Directed {
    /// The out-degree of every node.
    fn get_out_degree(&self) -> (degrees: DegreeList)
        requires
            well_formed(self),
        ensures
            degrees.counts_successors_of(self),
    {
        let nodes = self.nodes();
        let edges = self.edges();
        match index_nodes(nodes) {
            Ok(table) => {
                let arcs = resolve_arcs(nodes, edges, &table);
                let rows = collect_rows(nodes.len(), &arcs, true);
                let mut counts: Vec<usize> = Vec::new();
                let mut i: usize = 0;
                while i < rows.len()
                    invariant
                        i <= rows@.len(),
                        counts@.len() == i,
                        forall|a: int| 0 <= a < i ==> #[trigger] counts@[a] == rows@[a]@.len(),
                    decreases rows@.len() - i,
                {
                    counts.push(rows[i].len());
                    i = i + 1;
                }
                DegreeList { table, counts }
            },
            Err(_) => DegreeList { table: HashMap::new(), counts: Vec::new() },
        }
    }

    /// The number of edges that leave `node`.
    fn out_degree(&self, degrees: &DegreeList, node: &Self::Node) -> (d: usize)
        requires
            well_formed(self),
            degrees.counts_successors_of(self),
            has_id(self.node_seq(), node.spec_id()),
        ensures
            d == successors(arcs(self), position(self.node_seq(), node.spec_id())).len(),
    {
        let id = node.id();
        proof {
            lemma_index_gives_position(degrees.table(), self.node_seq(), id);
        }
        match degrees.table.get(&id) {
            Some(p) => degrees.counts[*p],
            None => 0,
        }
    }
}

} // verus!
