//! Bounded simulation: an edge of the left graph is answered on the right
//! by a path of bounded length.

use crate::algorithm::relation::{
    get_entry, grid, grid_weight, is_grid, lemma_grid_weight_bounds, lemma_row_weight_bounds,
    lemma_row_weight_update, lemma_weight_with_entry, new_row, pairs, related, row_weight,
    set_entry, within,
};
use crate::algorithm::simulation::{
    initial_candidates, label_grid, label_matrix, presents, rows_of, to_map, unit_weights,
};
use crate::graph::base::{
    arcs, arcs_within, lemma_arcs_within, lemma_successors_within, names, successors, well_formed,
    Adjacency, AdjacencyInv, AdjacencyList, Degree, Directed, Graph,
};
use crate::graph::labeled_graph::{LabelNode, Labeled, LabeledEdge, SingleLabel, StandardLabeledGraph};
use std::collections::HashMap;
use std::collections::HashSet;
use vstd::prelude::*;

verus! {

/// `path` follows arcs from `a` to `b`: it starts at `a`, ends at `b`, and
/// each position on it but the last has the next among its successors.
pub open spec fn is_path(post: Seq<Seq<usize>>, path: Seq<int>, a: int, b: int) -> bool {
    &&& path.len() > 0
    &&& path[0] == a
    &&& path[path.len() - 1] == b
    &&& forall|i: int|
        0 <= i < path.len() - 1 ==> 0 <= #[trigger] path[i] < post.len() && names(
            post[path[i]],
            path[i + 1],
        )
}

/// `b` can be reached from `a` by a path of at most `k` arcs.
#[verifier::opaque]
pub open spec fn within_hops(post: Seq<Seq<usize>>, a: int, b: int, k: nat) -> bool {
    exists|path: Seq<int>| #[trigger] is_path(post, path, a, b) && path.len() <= k + 1
}

/// `d` is the distance from `a` to `b`: the least number of arcs of a path
/// from `a` to `b`, and nothing where there is no such path.
pub open spec fn is_distance(post: Seq<Seq<usize>>, a: int, b: int, d: Option<usize>) -> bool {
    match d {
        Some(k) => within_hops(post, a, b, k as nat) && (k > 0 ==> !within_hops(
            post,
            a,
            b,
            (k - 1) as nat,
        )),
        None => forall|k: nat| !within_hops(post, a, b, k),
    }
}

/// Every position is within no hops of itself.
pub proof fn lemma_no_hop(post: Seq<Seq<usize>>, a: int, k: nat)
    ensures
        within_hops(post, a, a, k),
{
    reveal(within_hops);
    assert(is_path(post, seq![a], a, a));
}

/// One more arc from what is within `k` hops stays within `k + 1` hops.
pub proof fn lemma_one_more_hop(post: Seq<Seq<usize>>, a: int, c: int, b: int, k: nat)
    requires
        0 <= c < post.len(),
        within_hops(post, a, c, k),
        names(post[c], b),
    ensures
        within_hops(post, a, b, k + 1),
{
    reveal(within_hops);
    let path = choose|path: Seq<int>| #[trigger] is_path(post, path, a, c) && path.len() <= k + 1;
    let longer = path.push(b);
    assert forall|i: int| 0 <= i < longer.len() - 1 implies 0 <= #[trigger] longer[i] < post.len()
        && names(post[longer[i]], longer[i + 1]) by {
        if i < path.len() - 1 {
            assert(longer[i] == path[i]);
            assert(longer[i + 1] == path[i + 1]);
        }
    }
    assert(is_path(post, longer, a, b));
}

/// What is within `k` hops, and is not the start, is one arc from something
/// within `k - 1` hops.
pub proof fn lemma_last_hop(post: Seq<Seq<usize>>, a: int, b: int, k: nat) -> (c: int)
    requires
        within_hops(post, a, b, k),
        a != b,
    ensures
        k > 0,
        0 <= c < post.len(),
        within_hops(post, a, c, (k - 1) as nat),
        names(post[c], b),
{
    reveal(within_hops);
    let path = choose|path: Seq<int>| #[trigger] is_path(post, path, a, b) && path.len() <= k + 1;
    let shorter = path.drop_last();
    let c = path[path.len() - 2];
    assert(0 <= path[path.len() - 2] < post.len() && names(
        post[path[path.len() - 2]],
        path[path.len() - 2 + 1],
    ));
    assert forall|i: int|
        0 <= i < shorter.len() - 1 implies 0 <= #[trigger] shorter[i] < post.len() && names(
        post[shorter[i]],
        shorter[i + 1],
    ) by {
        assert(shorter[i] == path[i]);
        assert(shorter[i + 1] == path[i + 1]);
    }
    assert(is_path(post, shorter, a, c));
    c
}

/// What is within `k` hops is within any larger number of hops.
pub proof fn lemma_within_more_hops(post: Seq<Seq<usize>>, a: int, b: int, k: nat, m: nat)
    requires
        within_hops(post, a, b, k),
        k <= m,
    ensures
        within_hops(post, a, b, m),
{
    reveal(within_hops);
    let path = choose|path: Seq<int>| #[trigger] is_path(post, path, a, b) && path.len() <= k + 1;
    assert(is_path(post, path, a, b) && path.len() <= m + 1);
}

/// Within no hops of a position there is only the position itself.
pub proof fn lemma_zero_hops(post: Seq<Seq<usize>>, a: int, b: int)
    requires
        within_hops(post, a, b, 0),
    ensures
        a == b,
{
    reveal(within_hops);
}

/// Whether a distance is at most `k`.
pub fn near(d: &Option<usize>, k: usize) -> (r: bool)
    ensures
        r == (d matches Some(x) && x <= k),
{
    match d {
        Some(x) => *x <= k,
        None => false,
    }
}

/// A distance is at most `k` exactly where the target is within `k` hops.
pub proof fn lemma_near_is_within(post: Seq<Seq<usize>>, a: int, b: int, d: Option<usize>, k: usize)
    requires
        is_distance(post, a, b, d),
    ensures
        (d matches Some(x) && x <= k) == within_hops(post, a, b, k as nat),
{
    match d {
        Some(x) => {
            if x <= k {
                lemma_within_more_hops(post, a, b, x as nat, k as nat);
            } else if within_hops(post, a, b, k as nat) {
                lemma_within_more_hops(post, a, b, k as nat, (x - 1) as nat);
            }
        },
        None => {},
    }
}

/// The state of a breadth-first search from `a` that has gone `level` hops:
/// what has a distance has the right one, at most `level`; what has none is
/// not within `level` hops.
pub open spec fn searched(post: Seq<Seq<usize>>, a: int, row: Seq<Option<usize>>, level: int) -> bool {
    &&& row.len() == post.len()
    &&& forall|b: int|
        0 <= b < row.len() ==> match #[trigger] row[b] {
            Some(d) => d <= level && is_distance(post, a, b, Some(d)),
            None => !within_hops(post, a, b, level as nat),
        }
}

/// Where a search has come to rest, what has no distance cannot be reached.
pub proof fn lemma_search_is_closed(
    post: Seq<Seq<usize>>,
    a: int,
    row: Seq<Option<usize>>,
    level: int,
    b: int,
    k: nat,
)
    requires
        0 <= a < post.len(),
        0 <= level,
        row[a] is Some,
        searched(post, a, row, level),
        forall|x: int| 0 <= x < row.len() && row[x] is None ==> !within_hops(post, a, x, (level + 1) as nat),
        forall|i: int, j: int|
            0 <= i < post.len() && 0 <= j < post[i].len() ==> (#[trigger] post[i][j]) < post.len(),
        0 <= b < row.len(),
        row[b] is None,
    ensures
        !within_hops(post, a, b, k),
    decreases k,
{
    if within_hops(post, a, b, k) {
        if k <= level + 1 {
            lemma_within_more_hops(post, a, b, k, (level + 1) as nat);
        } else {
            assert(a != b);
            let c = lemma_last_hop(post, a, b, k);
            match row[c] {
                None => {
                    lemma_search_is_closed(post, a, row, level, c, (k - 1) as nat);
                },
                Some(d) => {
                    assert(is_distance(post, a, c, Some(d)));
                    lemma_one_more_hop(post, a, c, b, d as nat);
                    lemma_within_more_hops(post, a, b, (d + 1) as nat, (level + 1) as nat);
                },
            }
        }
    }
}

/// The distances from `a` to every position, by breadth-first search.
pub fn distances_from(adj: &AdjacencyList, a: usize) -> (row: Vec<Option<usize>>)
    requires
        a < adj@.len(),
        forall|i: int, j: int|
            0 <= i < adj@.len() && 0 <= j < adj@[i].len() ==> (#[trigger] adj@[i][j]) < adj@.len(),
    ensures
        row@.len() == adj@.len(),
        forall|b: int| 0 <= b < row@.len() ==> is_distance(adj@, a as int, b, #[trigger] row@[b]),
{
    let n = adj.len();
    let ghost ones = unit_weights(n as int);
    let ghost post = adj@;
    let ghost ai = a as int;
    let mut row: Vec<Option<usize>> = Vec::new();
    let mut i: usize = 0;
    while i < n
        invariant
            i <= n,
            row@.len() == i,
            forall|b: int| 0 <= b < i ==> #[trigger] row@[b] is None,
        decreases n - i,
    {
        row.push(None);
        i = i + 1;
    }
    let mut unseen = new_row(n, true);
    row.set(a, Some(0));
    unseen.set(a, false);
    let mut level: usize = 0;
    let mut changed = true;
    proof {
        lemma_row_weight_update(Seq::new(n as nat, |j: int| true), ones, ai, false);
        assert(new_row_all(n as int) =~= Seq::new(n as nat, |j: int| true));
        lemma_row_weight_full(n as int);
        assert(unseen@ =~= Seq::new(n as nat, |j: int| true).update(ai, false));
    }
    proof {
        assert forall|b: int| 0 <= b < row@.len() implies match #[trigger] row@[b] {
            Some(d) => d <= level && is_distance(post, ai, b, Some(d)),
            None => !within_hops(post, ai, b, level as nat),
        } by {
            if b == ai {
                lemma_no_hop(post, ai, 0);
            } else if within_hops(post, ai, b, 0) {
                lemma_zero_hops(post, ai, b);
            }
        }
    }
    while changed
        invariant
            n == adj@.len(),
            post == adj@,
            ai == a,
            a < n,
            ones == unit_weights(n as int),
            forall|i: int, j: int|
                0 <= i < post.len() && 0 <= j < post[i].len() ==> (#[trigger] post[i][j]) < post.len(),
            unseen@.len() == n,
            forall|b: int| 0 <= b < n ==> #[trigger] unseen@[b] == (row@[b] is None),
            row@[ai] is Some,
            searched(post, ai, row@, level as int),
            !changed ==> forall|x: int|
                0 <= x < n && row@[x] is None ==> !within_hops(post, ai, x, (level + 1) as nat),
            level + row_weight(unseen@, ones) <= n - 1,
        decreases
                row_weight(unseen@, ones) + if changed {
                    1int
                } else {
                    0int
                },
    {
        let ghost row0 = row@;
        let ghost count0 = row_weight(unseen@, ones);
        proof {
            lemma_row_weight_bounds(unseen@, ones);
        }
        changed = false;
        let mut c: usize = 0;
        while c < n
            invariant
                c <= n,
                n == adj@.len(),
                post == adj@,
                ai == a,
                a < n,
                ones == unit_weights(n as int),
                forall|i: int, j: int|
                    0 <= i < post.len() && 0 <= j < post[i].len() ==> (#[trigger] post[i][j])
                        < post.len(),
                unseen@.len() == n,
                row@.len() == n,
                row0.len() == n,
                forall|b: int| 0 <= b < n ==> #[trigger] unseen@[b] == (row@[b] is None),
                searched(post, ai, row0, level as int),
                forall|b: int| 0 <= b < n && row0[b] is Some ==> #[trigger] row@[b] == row0[b],
                forall|b: int|
                    0 <= b < n && row0[b] is None && (#[trigger] row@[b]) is Some ==> row@[b]->0
                        == level + 1 && within_hops(post, ai, b, (level + 1) as nat),
                forall|x: int, j: int|
                    0 <= x < c && row0[x] == Some(level) && 0 <= j < post[x].len() ==> row@[(
                    #[trigger] post[x][j]) as int] is Some,
                level + count0 <= n - 1,
                changed ==> row_weight(unseen@, ones) < count0,
                !changed ==> row@ == row0 && row_weight(unseen@, ones) == count0,
            decreases n - c,
        {
            let at_level = match row[c] {
                Some(d) => d == level,
                None => false,
            };
            if at_level {
                assert(row0[c as int] == Some(level)) by {
                    if row0[c as int] is None {
                        assert(row@[c as int]->0 == level + 1);
                    } else {
                        assert(row@[c as int] == row0[c as int]);
                    }
                }
                let list = adj.row(c);
                let mut j: usize = 0;
                while j < list.len()
                    invariant
                        j <= list@.len(),
                        c < n,
                        list@ == post[c as int],
                        n == adj@.len(),
                        post == adj@,
                        ai == a,
                        a < n,
                        ones == unit_weights(n as int),
                        forall|i: int, j: int|
                            0 <= i < post.len() && 0 <= j < post[i].len() ==> (
                            #[trigger] post[i][j]) < post.len(),
                        unseen@.len() == n,
                        row@.len() == n,
                        row0.len() == n,
                        row0[c as int] == Some(level),
                        forall|b: int| 0 <= b < n ==> #[trigger] unseen@[b] == (row@[b] is None),
                        searched(post, ai, row0, level as int),
                        forall|b: int|
                            0 <= b < n && row0[b] is Some ==> #[trigger] row@[b] == row0[b],
                        forall|b: int|
                            0 <= b < n && row0[b] is None && (#[trigger] row@[b]) is Some
                                ==> row@[b]->0 == level + 1 && within_hops(
                                post,
                                ai,
                                b,
                                (level + 1) as nat,
                            ),
                        forall|x: int, j: int|
                            0 <= x < c && row0[x] == Some(level) && 0 <= j < post[x].len()
                                ==> row@[(#[trigger] post[x][j]) as int] is Some,
                        forall|i: int| 0 <= i < j ==> row@[(#[trigger] list@[i]) as int] is Some,
                        level + count0 <= n - 1,
                        changed ==> row_weight(unseen@, ones) < count0,
                        !changed ==> row@ == row0 && row_weight(unseen@, ones) == count0,
                    decreases list@.len() - j,
                {
                    let y = list[j];
                    assert(post[c as int][j as int] < post.len());
                    if row[y].is_none() {
                        proof {
                            lemma_row_weight_bounds(unseen@, ones);
                            assert(unseen@[y as int]);
                            assert(ones[y as int] == 1);
                            lemma_row_weight_update(unseen@, ones, y as int, false);
                            assert(is_distance(post, ai, c as int, row0[c as int]));
                            assert(within_hops(post, ai, c as int, level as nat));
                            assert(names(post[c as int], y as int));
                            lemma_one_more_hop(post, ai, c as int, y as int, level as nat);
                        }
                        row.set(y, Some(level + 1));
                        unseen.set(y, false);
                        changed = true;
                    }
                    j = j + 1;
                }
            }
            c = c + 1;
        }
        proof {
            assert forall|b: int| 0 <= b < n && (#[trigger] row@[b]) is None implies !within_hops(
                post,
                ai,
                b,
                (level + 1) as nat,
            ) by {
                if within_hops(post, ai, b, (level + 1) as nat) {
                    assert(row0[b] is None);
                    assert(!within_hops(post, ai, b, level as nat));
                    let x = lemma_last_hop(post, ai, b, (level + 1) as nat);
                    match row0[x] {
                        None => {
                            assert(false);
                        },
                        Some(d) => {
                            assert(is_distance(post, ai, x, row0[x]));
                            let k = choose|k: int|
                                0 <= k < post[x].len() && (#[trigger] post[x][k]) as int == b;
                            if d == level {
                                assert(row@[post[x][k] as int] is Some);
                            } else {
                                lemma_one_more_hop(post, ai, x, b, d as nat);
                                lemma_within_more_hops(post, ai, b, (d + 1) as nat, level as nat);
                            }
                        },
                    }
                }
            }
        }
        proof {
            lemma_row_weight_bounds(unseen@, ones);
        }
        if changed {
            proof {
                assert forall|b: int| 0 <= b < n implies match #[trigger] row@[b] {
                    Some(d) => d <= level + 1 && is_distance(post, ai, b, Some(d)),
                    None => !within_hops(post, ai, b, (level + 1) as nat),
                } by {
                    if row0[b] is Some {
                        assert(row@[b] == row0[b]);
                    }
                }
            }
            level = level + 1;
        }
    }
    proof {
        assert forall|b: int| 0 <= b < row@.len() implies is_distance(
            post,
            ai,
            b,
            #[trigger] row@[b],
        ) by {
            if row@[b] is None {
                assert forall|k: nat| !within_hops(post, ai, b, k) by {
                    lemma_search_is_closed(post, ai, row@, level as int, b, k);
                }
            }
        }
    }
    row
}

/// A row in which every entry holds.
pub open spec fn new_row_all(n: int) -> Seq<bool> {
    Seq::new(n as nat, |j: int| true)
}

/// The weight of a full row is its length.
pub proof fn lemma_row_weight_full(n: int)
    requires
        0 <= n,
    ensures
        row_weight(new_row_all(n), unit_weights(n)) == n,
    decreases n,
{
    if n > 0 {
        lemma_row_weight_full(n - 1);
        assert(new_row_all(n).drop_last() =~= new_row_all(n - 1));
        crate::algorithm::relation::lemma_row_weight_prefix(
            new_row_all(n - 1),
            unit_weights(n),
            unit_weights(n - 1),
        );
    }
}

/// All distances between the positions of a graph.
pub fn all_distances(adj: &AdjacencyList) -> (dist: Vec<Vec<Option<usize>>>)
    requires
        forall|i: int, j: int|
            0 <= i < adj@.len() && 0 <= j < adj@[i].len() ==> (#[trigger] adj@[i][j]) < adj@.len(),
    ensures
        measures(adj@, dist),
{
    let n = adj.len();
    let mut dist: Vec<Vec<Option<usize>>> = Vec::new();
    let mut a: usize = 0;
    while a < n
        invariant
            a <= n,
            n == adj@.len(),
            forall|i: int, j: int|
                0 <= i < adj@.len() && 0 <= j < adj@[i].len() ==> (#[trigger] adj@[i][j])
                    < adj@.len(),
            dist@.len() == a,
            forall|x: int| 0 <= x < a ==> measures_from(adj@, x, (#[trigger] dist@[x])@),
        decreases n - a,
    {
        let row = distances_from(adj, a);
        dist.push(row);
        a = a + 1;
    }
    dist
}

/// `dist` holds the distance between every two positions of the graph with
/// the successor lists `post`.
pub open spec fn measures(post: Seq<Seq<usize>>, dist: Vec<Vec<Option<usize>>>) -> bool {
    &&& dist@.len() == post.len()
    &&& forall|x: int| 0 <= x < post.len() ==> measures_from(post, x, (#[trigger] dist@[x])@)
}

/// `row` holds the distance from `x` to every position.
pub open spec fn measures_from(post: Seq<Seq<usize>>, x: int, row: Seq<Option<usize>>) -> bool {
    &&& row.len() == post.len()
    &&& forall|y: int| 0 <= y < post.len() ==> is_distance(post, x, y, #[trigger] row[y])
}

/// What a bounded refinement works on.
pub struct BoundedFrame {
    /// The successor lists of the left graph.
    pub post1: Seq<Seq<usize>>,
    /// For each entry of `post1`, the bound of the edge to it.
    pub bounds: Seq<Seq<usize>>,
    /// The successor lists of the right graph.
    pub post2: Seq<Seq<usize>>,
    /// Which left and right positions carry the same label.
    pub labels: Seq<Seq<bool>>,
}

impl BoundedFrame {
    /// The lists and grids fit together.
    pub open spec fn well_formed(self) -> bool {
        &&& self.bounds.len() == self.post1.len()
        &&& forall|u: int|
            0 <= u < self.post1.len() ==> (#[trigger] self.bounds[u]).len() == self.post1[u].len()
        &&& forall|u: int, k: int|
            0 <= u < self.post1.len() && 0 <= k < self.post1[u].len() ==> (
            #[trigger] self.post1[u][k]) < self.post1.len()
        &&& forall|i: int, j: int|
            0 <= i < self.post2.len() && 0 <= j < self.post2[i].len() ==> (
            #[trigger] self.post2[i][j]) < self.post2.len()
        &&& is_grid(self.labels, self.post1.len() as int, self.post2.len() as int)
    }

    /// The candidates that the refinement starts from: pairs of the same
    /// label, without those whose left position has a successor and whose
    /// right position has none.
    pub open spec fn candidates(self) -> Seq<Seq<bool>> {
        Seq::new(
            self.post1.len(),
            |u: int|
                Seq::new(
                    self.post2.len(),
                    |v: int|
                        self.labels[u][v] && (self.post1[u].len() == 0 || self.post2[v].len() > 0),
                ),
        )
    }

    /// Some partner of the left position `u2` in `s` can be reached from
    /// the right position `v` by a path of at most `b` arcs.
    pub open spec fn answered_within(self, s: Set<(int, int)>, u2: int, v: int, b: nat) -> bool {
        exists|v2: int|
            0 <= v2 < self.post2.len() && #[trigger] s.contains((u2, v2)) && within_hops(
                self.post2,
                v,
                v2,
                b,
            )
    }

    /// `s` is a bounded simulation: every pair of it is a candidate, and
    /// every edge that leaves its left position is answered, within the
    /// bound of the edge, by a partner of the edge's destination.
    pub open spec fn is_bounded_simulation(self, s: Set<(int, int)>) -> bool {
        forall|u: int, v: int| #[trigger]
            s.contains((u, v)) ==> {
                &&& related(self.candidates(), u, v)
                &&& forall|k: int|
                    0 <= k < self.post1[u].len() ==> self.answered_within(
                        s,
                        (#[trigger] self.post1[u][k]) as int,
                        v,
                        self.bounds[u][k] as nat,
                    )
            }
    }

    /// The greatest bounded simulation: the union of all bounded
    /// simulations.
    pub open spec fn greatest_bounded_simulation(self) -> Set<(int, int)> {
        Set::new(
            |p: (int, int)|
                exists|s: Set<(int, int)>| #[trigger] self.is_bounded_simulation(s) && s.contains(p),
        )
    }

    /// The left position `u` has a partner in `s`.
    pub open spec fn has_partner(self, s: Set<(int, int)>, u: int) -> bool {
        exists|v: int| #[trigger] s.contains((u, v))
    }

    /// Every left position has a partner in `s`.
    pub open spec fn total(self, s: Set<(int, int)>) -> bool {
        forall|u: int| 0 <= u < self.post1.len() ==> #[trigger] self.has_partner(s, u)
    }

    /// Bounded successor witness: the greatest bounded simulation is a
    /// bounded simulation. What it relates is a candidate, and every edge on
    /// the left is answered on the right within its bound.
    pub proof fn lemma_greatest_is_bounded_simulation(self)
        ensures
            self.is_bounded_simulation(self.greatest_bounded_simulation()),
    {
        let gs = self.greatest_bounded_simulation();
        assert forall|u: int, v: int| #[trigger] gs.contains((u, v)) implies {
            &&& related(self.candidates(), u, v)
            &&& forall|k: int|
                0 <= k < self.post1[u].len() ==> self.answered_within(
                    gs,
                    (#[trigger] self.post1[u][k]) as int,
                    v,
                    self.bounds[u][k] as nat,
                )
        } by {
            let s = choose|s: Set<(int, int)>| #[trigger]
                self.is_bounded_simulation(s) && s.contains((u, v));
            assert(s.contains((u, v)));
            assert forall|k: int| 0 <= k < self.post1[u].len() implies self.answered_within(
                gs,
                (#[trigger] self.post1[u][k]) as int,
                v,
                self.bounds[u][k] as nat,
            ) by {
                let u2 = self.post1[u][k] as int;
                let b = self.bounds[u][k] as nat;
                assert(self.answered_within(s, u2, v, b));
                let v2 = choose|v2: int|
                    0 <= v2 < self.post2.len() && #[trigger] s.contains((u2, v2)) && within_hops(
                        self.post2,
                        v,
                        v2,
                        b,
                    );
                assert(gs.contains((u2, v2)));
            }
        }
    }

    /// Label soundness and out-degree coherence: what the greatest bounded
    /// simulation relates carries the same label, and where the left
    /// position has a successor, the right one has one too.
    pub proof fn lemma_bounded_pairs_are_candidates(self, u: int, v: int)
        requires
            self.greatest_bounded_simulation().contains((u, v)),
        ensures
            0 <= u < self.post1.len(),
            0 <= v < self.post2.len(),
            self.labels[u][v],
            self.post1[u].len() > 0 ==> self.post2[v].len() > 0,
    {
        self.lemma_greatest_is_bounded_simulation();
        assert(related(self.candidates(), u, v));
    }
}

/// `row` holds nothing.
pub open spec fn row_empty(row: Seq<bool>) -> bool {
    forall|j: int| 0 <= j < row.len() ==> !#[trigger] row[j]
}

/// Some position in row `u2` of `g` can be reached from `v` by a path of at
/// most `b` arcs.
pub open spec fn reaches(post2: Seq<Seq<usize>>, g: Seq<Seq<bool>>, u2: int, v: int, b: nat) -> bool {
    exists|v2: int| #[trigger] related(g, u2, v2) && within_hops(post2, v, v2, b)
}

/// Every candidate of `u` can reach, within the bound of the `k`-th edge
/// that leaves `u`, a candidate of the edge's destination.
pub open spec fn edge_settled(f: BoundedFrame, sim: Seq<Seq<bool>>, u: int, k: int) -> bool {
    forall|v: int| #[trigger]
        related(sim, u, v) ==> reaches(f.post2, sim, f.post1[u][k] as int, v, f.bounds[u][k] as nat)
}

/// The rows of `m` as sequences.
pub open spec fn table(m: Vec<Vec<usize>>) -> Seq<Seq<usize>> {
    Seq::new(m@.len(), |i: int| m@[i]@)
}

/// The frame that the lists, bounds and labels at hand make.
pub open spec fn frame_of(
    adj1: &AdjacencyList,
    bounds: &Vec<Vec<usize>>,
    adj2: &AdjacencyList,
    labels: &Vec<Vec<bool>>,
) -> BoundedFrame {
    BoundedFrame { post1: adj1@, bounds: table(*bounds), post2: adj2@, labels: grid(*labels) }
}

/// Whether `row` holds nothing.
pub fn row_is_empty(row: &Vec<bool>) -> (r: bool)
    ensures
        r == row_empty(row@),
{
    let mut j: usize = 0;
    while j < row.len()
        invariant
            j <= row@.len(),
            forall|a: int| 0 <= a < j ==> !#[trigger] row@[a],
        decreases row@.len() - j,
    {
        if row[j] {
            return false;
        }
        j = j + 1;
    }
    true
}

/// Whether `row` holds a position whose distance in `dists` is at most `b`.
pub fn has_near(dists: &Vec<Option<usize>>, row: &Vec<bool>, b: usize) -> (r: bool)
    requires
        dists@.len() == row@.len(),
    ensures
        r == exists|v2: int|
            0 <= v2 < row@.len() && #[trigger] row@[v2] && (dists@[v2] matches Some(x) && x <= b),
{
    let mut v2: usize = 0;
    while v2 < row.len()
        invariant
            v2 <= row@.len(),
            dists@.len() == row@.len(),
            forall|a: int|
                0 <= a < v2 && #[trigger] row@[a] ==> !(dists@[a] matches Some(x) && x <= b),
        decreases row@.len() - v2,
    {
        if row[v2] && near(&dists[v2], b) {
            return true;
        }
        v2 = v2 + 1;
    }
    false
}

/// Takes out of the candidates of the left position `u` every right
/// position from which no candidate of `u2`, a successor of `u`, can be
/// reached by a path of at most `b` arcs. Says whether anything was taken
/// out.
pub fn prune_bounded_edge(
    sim: &mut Vec<Vec<bool>>,
    adj2: &AdjacencyList,
    dist: &Vec<Vec<Option<usize>>>,
    u: usize,
    u2: usize,
    b: usize,
) -> (removed: bool)
    requires
        is_grid(grid(*old(sim)), grid(*old(sim)).len() as int, adj2@.len() as int),
        u < grid(*old(sim)).len(),
        u2 < grid(*old(sim)).len(),
        measures(adj2@, *dist),
    ensures
        is_grid(grid(*final(sim)), grid(*old(sim)).len() as int, adj2@.len() as int),
        within(grid(*final(sim)), grid(*old(sim))),
        forall|i: int|
            0 <= i < grid(*old(sim)).len() && i != u ==> #[trigger] grid(*final(sim))[i] == grid(
                *old(sim),
            )[i],
        forall|v: int|
            0 <= v < adj2@.len() ==> #[trigger] grid(*final(sim))[u as int][v] == (grid(
                *old(sim),
            )[u as int][v] && reaches(adj2@, grid(*old(sim)), u2 as int, v, b as nat)),
        removed ==> grid_weight(grid(*final(sim)), unit_weights(adj2@.len() as int)) < grid_weight(
            grid(*old(sim)),
            unit_weights(adj2@.len() as int),
        ),
        !removed ==> grid(*final(sim)) == grid(*old(sim)),
{
    let n2 = adj2.len();
    let ghost s0 = grid(*sim);
    let ghost ones = unit_weights(n2 as int);
    let ghost post2 = adj2@;
    let mut doomed = new_row(n2, false);
    let mut removed = false;
    let mut v: usize = 0;
    while v < n2
        invariant
            v <= n2,
            n2 == adj2@.len(),
            post2 == adj2@,
            measures(post2, *dist),
            grid(*sim) == s0,
            is_grid(s0, s0.len() as int, n2 as int),
            u < s0.len(),
            u2 < s0.len(),
            doomed@.len() == n2,
            forall|c: int|
                0 <= c < v ==> #[trigger] doomed@[c] == (s0[u as int][c] && !reaches(
                    post2,
                    s0,
                    u2 as int,
                    c,
                    b as nat,
                )),
            forall|c: int| v <= c < n2 ==> !#[trigger] doomed@[c],
            removed == exists|c: int| 0 <= c < v && #[trigger] doomed@[c],
        decreases n2 - v,
    {
        assert(s0[u as int].len() == n2);
        assert(s0[u2 as int].len() == n2);
        if get_entry(sim, u, v) {
            assert(measures_from(post2, v as int, dist@[v as int]@));
            assert(sim@[u2 as int]@ == s0[u2 as int]);
            let found = has_near(&dist[v], &sim[u2], b);
            proof {
                let row = s0[u2 as int];
                let dists = dist@[v as int]@;
                if found {
                    let v2 = choose|v2: int|
                        0 <= v2 < row.len() && #[trigger] row[v2] && (dists[v2] matches Some(x) && x
                            <= b);
                    lemma_near_is_within(post2, v as int, v2, dists[v2], b);
                    assert(related(s0, u2 as int, v2));
                }
                if reaches(post2, s0, u2 as int, v as int, b as nat) {
                    let v2 = choose|v2: int| #[trigger]
                        related(s0, u2 as int, v2) && within_hops(post2, v as int, v2, b as nat);
                    lemma_near_is_within(post2, v as int, v2, dists[v2], b);
                    assert(row[v2]);
                }
            }
            if !found {
                let ghost d0 = doomed@;
                doomed.set(v, true);
                proof {
                    if removed {
                        let c = choose|c: int| 0 <= c < v && #[trigger] d0[c];
                        assert(doomed@[c]);
                    }
                    assert(doomed@[v as int]);
                }
                removed = true;
            }
        }
        v = v + 1;
    }
    let mut v: usize = 0;
    while v < n2
        invariant
            v <= n2,
            n2 == adj2@.len(),
            post2 == adj2@,
            ones == unit_weights(n2 as int),
            is_grid(s0, s0.len() as int, n2 as int),
            is_grid(grid(*sim), s0.len() as int, n2 as int),
            u < s0.len(),
            doomed@.len() == n2,
            forall|c: int|
                0 <= c < n2 ==> #[trigger] doomed@[c] == (s0[u as int][c] && !reaches(
                    post2,
                    s0,
                    u2 as int,
                    c,
                    b as nat,
                )),
            forall|i: int| 0 <= i < s0.len() && i != u ==> #[trigger] grid(*sim)[i] == s0[i],
            forall|c: int|
                0 <= c < v ==> #[trigger] grid(*sim)[u as int][c] == (s0[u as int][c]
                    && !doomed@[c]),
            forall|c: int| v <= c < n2 ==> #[trigger] grid(*sim)[u as int][c] == s0[u as int][c],
            (exists|c: int| 0 <= c < v && #[trigger] doomed@[c]) ==> grid_weight(grid(*sim), ones)
                < grid_weight(s0, ones),
            !(exists|c: int| 0 <= c < v && #[trigger] doomed@[c]) ==> grid(*sim) == s0,
        decreases n2 - v,
    {
        assert(grid(*sim)[u as int].len() == n2);
        if doomed[v] {
            let ghost s1 = grid(*sim);
            set_entry(sim, u, v, false);
            proof {
                lemma_weight_with_entry(s1, ones, u as int, v as int, false);
                assert(ones[v as int] == 1);
                assert(s1[u as int][v as int]);
                assert(doomed@[v as int]);
            }
        } else {
            proof {
                if exists|c: int| 0 <= c < v + 1 && #[trigger] doomed@[c] {
                    let c = choose|c: int| 0 <= c < v + 1 && #[trigger] doomed@[c];
                    assert(c < v);
                }
            }
        }
        v = v + 1;
    }
    proof {
        let s2 = grid(*sim);
        assert forall|i: int, j: int| #[trigger] related(s2, i, j) implies related(s0, i, j) by {
            if i != u {
                assert(s2[i] == s0[i]);
            }
        }
    }
    removed
}

/// What `prune_bounded_edge` takes out along the `k`-th edge that leaves `u`
/// stands in no bounded simulation.
pub proof fn lemma_prune_keeps_bounded(
    f: BoundedFrame,
    sim: Seq<Seq<bool>>,
    sim2: Seq<Seq<bool>>,
    u: int,
    k: int,
)
    requires
        0 <= u < f.post1.len(),
        0 <= k < f.post1[u].len(),
        is_grid(sim, f.post1.len() as int, f.post2.len() as int),
        is_grid(sim2, f.post1.len() as int, f.post2.len() as int),
        forall|i: int, j: int| #[trigger]
            f.greatest_bounded_simulation().contains((i, j)) ==> related(sim, i, j),
        forall|i: int| 0 <= i < sim.len() && i != u ==> #[trigger] sim2[i] == sim[i],
        forall|v: int|
            0 <= v < f.post2.len() ==> #[trigger] sim2[u][v] == (sim[u][v] && reaches(
                f.post2,
                sim,
                f.post1[u][k] as int,
                v,
                f.bounds[u][k] as nat,
            )),
    ensures
        forall|i: int, j: int| #[trigger]
            f.greatest_bounded_simulation().contains((i, j)) ==> related(sim2, i, j),
{
    let gs = f.greatest_bounded_simulation();
    let u2 = f.post1[u][k] as int;
    let b = f.bounds[u][k] as nat;
    f.lemma_greatest_is_bounded_simulation();
    assert forall|i: int, j: int| #[trigger] gs.contains((i, j)) implies related(sim2, i, j) by {
        assert(related(sim, i, j));
        if i == u {
            assert(f.answered_within(gs, f.post1[u][k] as int, j, f.bounds[u][k] as nat));
            let v2 = choose|v2: int|
                0 <= v2 < f.post2.len() && #[trigger] gs.contains((u2, v2)) && within_hops(
                    f.post2,
                    j,
                    v2,
                    b,
                );
            assert(related(sim, u2, v2));
            assert(reaches(f.post2, sim, u2, j, b));
            assert(sim2[u][j] == (sim[u][j] && reaches(f.post2, sim, u2, j, b)));
        } else {
            assert(sim2[i] == sim[i]);
        }
    }
}

/// Candidates that hold every bounded simulation and settle every edge are
/// the greatest bounded simulation.
pub proof fn lemma_settled_is_greatest_bounded(f: BoundedFrame, sim: Seq<Seq<bool>>)
    requires
        is_grid(sim, f.post1.len() as int, f.post2.len() as int),
        within(sim, f.candidates()),
        forall|i: int, j: int| #[trigger]
            f.greatest_bounded_simulation().contains((i, j)) ==> related(sim, i, j),
        forall|u: int, k: int|
            0 <= u < f.post1.len() && 0 <= k < f.post1[u].len() ==> #[trigger] edge_settled(
                f,
                sim,
                u,
                k,
            ),
    ensures
        pairs(sim) == f.greatest_bounded_simulation(),
{
    let gs = f.greatest_bounded_simulation();
    let s = pairs(sim);
    assert forall|u: int, v: int| #[trigger] s.contains((u, v)) implies {
        &&& related(f.candidates(), u, v)
        &&& forall|k: int|
            0 <= k < f.post1[u].len() ==> f.answered_within(
                s,
                (#[trigger] f.post1[u][k]) as int,
                v,
                f.bounds[u][k] as nat,
            )
    } by {
        assert(related(sim, u, v));
        assert forall|k: int| 0 <= k < f.post1[u].len() implies f.answered_within(
            s,
            (#[trigger] f.post1[u][k]) as int,
            v,
            f.bounds[u][k] as nat,
        ) by {
            let u2 = f.post1[u][k] as int;
            let b = f.bounds[u][k] as nat;
            assert(edge_settled(f, sim, u, k));
            assert(reaches(f.post2, sim, u2, v, b));
            let v2 = choose|v2: int| #[trigger] related(sim, u2, v2) && within_hops(f.post2, v, v2, b);
            assert(s.contains((u2, v2)));
        }
    }
    assert(f.is_bounded_simulation(s));
    assert forall|p: (int, int)| gs.contains(p) implies s.contains(p) by {
        assert(gs.contains((p.0, p.1)));
        assert(related(sim, p.0, p.1));
    }
    assert(s =~= gs);
}

/// The bounded refinement: start from the candidates, and go through the
/// edges of the left graph, pruning along each, until a whole pass prunes
/// nothing. Gives the greatest bounded simulation where it relates every
/// left position to something, and nothing where some left position is left
/// without a partner, be it from the start or by pruning.
pub fn refine_bounded(
    adj1: &AdjacencyList,
    bounds: &Vec<Vec<usize>>,
    adj2: &AdjacencyList,
    labels: &Vec<Vec<bool>>,
) -> (r: Option<Vec<Vec<bool>>>)
    requires
        frame_of(adj1, bounds, adj2, labels).well_formed(),
    ensures
        match r {
            Some(sim) => {
                &&& is_grid(grid(sim), adj1@.len() as int, adj2@.len() as int)
                &&& pairs(grid(sim)) == frame_of(
                    adj1,
                    bounds,
                    adj2,
                    labels,
                ).greatest_bounded_simulation()
                &&& frame_of(adj1, bounds, adj2, labels).total(
                    frame_of(adj1, bounds, adj2, labels).greatest_bounded_simulation(),
                )
            },
            None => !frame_of(adj1, bounds, adj2, labels).total(
                frame_of(adj1, bounds, adj2, labels).greatest_bounded_simulation(),
            ),
        },
{
    let ghost f = frame_of(adj1, bounds, adj2, labels);
    let ghost gs = f.greatest_bounded_simulation();
    let n1 = adj1.len();
    let ghost n2 = f.post2.len() as int;
    let ghost ones = unit_weights(n2);
    let dist = all_distances(adj2);
    let mut sim = initial_candidates(adj1, adj2, labels);
    proof {
        assert(grid(sim) =~= f.candidates()) by {
            assert forall|a: int| 0 <= a < f.post1.len() implies #[trigger] grid(sim)[a]
                =~= f.candidates()[a] by {
                assert forall|c: int| 0 <= c < f.post2.len() implies grid(sim)[a][c]
                    == f.candidates()[a][c] by {
                    assert(grid(sim)[a][c] == (grid(*labels)[a][c] && (adj1@[a].len() == 0
                        || adj2@[c].len() > 0)));
                }
            }
        }
        f.lemma_greatest_is_bounded_simulation();
        assert forall|i: int, j: int| #[trigger] gs.contains((i, j)) implies related(
            grid(sim),
            i,
            j,
        ) by {
            assert(related(f.candidates(), i, j));
        }
    }
    let mut changed = true;
    while changed
        invariant
            f == frame_of(adj1, bounds, adj2, labels),
            gs == f.greatest_bounded_simulation(),
            n1 == f.post1.len(),
            n2 == f.post2.len(),
            ones == unit_weights(n2),
            f.well_formed(),
            measures(f.post2, dist),
            is_grid(grid(sim), n1 as int, n2),
            within(grid(sim), f.candidates()),
            forall|i: int, j: int| #[trigger] gs.contains((i, j)) ==> related(grid(sim), i, j),
            !changed ==> forall|u: int, k: int|
                0 <= u < n1 && 0 <= k < f.post1[u].len() ==> #[trigger] edge_settled(
                    f,
                    grid(sim),
                    u,
                    k,
                ),
        decreases
                grid_weight(grid(sim), ones) + if changed {
                    1int
                } else {
                    0int
                },
    {
        let ghost start = grid(sim);
        proof {
            lemma_grid_weight_bounds(start, ones, n2);
        }
        changed = false;
        let mut u: usize = 0;
        while u < n1
            invariant
                u <= n1,
                f == frame_of(adj1, bounds, adj2, labels),
                gs == f.greatest_bounded_simulation(),
                n1 == f.post1.len(),
                n2 == f.post2.len(),
                ones == unit_weights(n2),
                f.well_formed(),
                measures(f.post2, dist),
                is_grid(grid(sim), n1 as int, n2),
                within(grid(sim), f.candidates()),
                forall|i: int, j: int| #[trigger] gs.contains((i, j)) ==> related(grid(sim), i, j),
                changed ==> grid_weight(grid(sim), ones) < grid_weight(start, ones),
                !changed ==> grid(sim) == start,
                !changed ==> forall|a: int, k: int|
                    0 <= a < u && 0 <= k < f.post1[a].len() ==> #[trigger] edge_settled(
                        f,
                        grid(sim),
                        a,
                        k,
                    ),
            decreases n1 - u,
        {
            let succ = adj1.row(u);
            let limits = &bounds[u];
            assert(limits@ == f.bounds[u as int]);
            let mut k: usize = 0;
            while k < succ.len()
                invariant
                    k <= succ@.len(),
                    u < n1,
                    succ@ == f.post1[u as int],
                    limits@ == f.bounds[u as int],
                    f == frame_of(adj1, bounds, adj2, labels),
                    gs == f.greatest_bounded_simulation(),
                    n1 == f.post1.len(),
                    n2 == f.post2.len(),
                    ones == unit_weights(n2),
                    f.well_formed(),
                    measures(f.post2, dist),
                    is_grid(grid(sim), n1 as int, n2),
                    within(grid(sim), f.candidates()),
                    forall|i: int, j: int| #[trigger]
                        gs.contains((i, j)) ==> related(grid(sim), i, j),
                    changed ==> grid_weight(grid(sim), ones) < grid_weight(start, ones),
                    !changed ==> grid(sim) == start,
                    !changed ==> forall|a: int, c: int|
                        0 <= a < u && 0 <= c < f.post1[a].len() ==> #[trigger] edge_settled(
                            f,
                            grid(sim),
                            a,
                            c,
                        ),
                    !changed ==> forall|c: int|
                        0 <= c < k ==> #[trigger] edge_settled(f, grid(sim), u as int, c),
                decreases succ@.len() - k,
            {
                let u2 = succ[k];
                let b = limits[k];
                assert(f.post1[u as int][k as int] < f.post1.len());
                let ghost s1 = grid(sim);
                let removed = prune_bounded_edge(&mut sim, adj2, &dist, u, u2, b);
                proof {
                    let s2 = grid(sim);
                    lemma_prune_keeps_bounded(f, s1, s2, u as int, k as int);
                    assert forall|i: int, j: int| #[trigger] related(s2, i, j) implies related(
                        f.candidates(),
                        i,
                        j,
                    ) by {
                        assert(related(s1, i, j));
                    }
                    if !removed && !changed {
                        assert(edge_settled(f, s2, u as int, k as int)) by {
                            assert forall|v: int| #[trigger] related(s2, u as int, v) implies reaches(
                                f.post2,
                                s2,
                                u2 as int,
                                v,
                                b as nat,
                            ) by {
                                assert(s2[u as int][v] == (s1[u as int][v] && reaches(
                                    f.post2,
                                    s1,
                                    u2 as int,
                                    v,
                                    b as nat,
                                )));
                            }
                        }
                    }
                }
                if removed {
                    changed = true;
                    assert(sim@[u as int]@ == grid(sim)[u as int]);
                    if row_is_empty(&sim[u]) {
                        proof {
                            if f.has_partner(gs, u as int) {
                                let v = choose|v: int| #[trigger] gs.contains((u as int, v));
                                assert(related(grid(sim), u as int, v));
                            }
                        }
                        return None;
                    }
                }
                k = k + 1;
            }
            u = u + 1;
        }
        proof {
            lemma_grid_weight_bounds(grid(sim), ones, n2);
        }
    }
    proof {
        lemma_settled_is_greatest_bounded(f, grid(sim));
    }
    let mut u: usize = 0;
    while u < n1
        invariant
            u <= n1,
            f == frame_of(adj1, bounds, adj2, labels),
            gs == f.greatest_bounded_simulation(),
            n1 == f.post1.len(),
            n2 == f.post2.len(),
            is_grid(grid(sim), n1 as int, n2),
            pairs(grid(sim)) == gs,
            forall|a: int| 0 <= a < u ==> #[trigger] f.has_partner(gs, a),
        decreases n1 - u,
    {
        assert(sim@[u as int]@ == grid(sim)[u as int]);
        if row_is_empty(&sim[u]) {
            proof {
                if f.has_partner(gs, u as int) {
                    let v = choose|v: int| #[trigger] gs.contains((u as int, v));
                    assert(related(grid(sim), u as int, v));
                }
            }
            return None;
        }
        proof {
            let v = choose|v: int| 0 <= v < grid(sim)[u as int].len() && #[trigger] grid(sim)[u as int][v];
            assert(related(grid(sim), u as int, v));
            assert(gs.contains((u as int, v)));
        }
        u = u + 1;
    }
    Some(sim)
}

/// A graph whose edges carry a bound: the greatest length of a path that
/// may answer the edge.
pub trait Bounded: Graph {
    /// The bound of the edge from `u` to `v`.
    spec fn bound(&self, u: &Self::Node, v: &Self::Node) -> usize;

    fn get_bound(&self, u: &Self::Node, v: &Self::Node) -> (b: usize)
        ensures
            b == self.bound(u, v),
    ;
}

/// For each entry of the successor lists of `g`, the bound of the edge to
/// it.
pub open spec fn bound_rows<G: Bounded>(g: &G) -> Seq<Seq<usize>> {
    Seq::new(
        g.node_seq().len(),
        |u: int|
            Seq::new(
                successors(arcs(g), u).len(),
                |k: int| g.bound(&g.node_seq()[u], &g.node_seq()[successors(arcs(g), u)[k] as int]),
            ),
    )
}

/// What the bounded refinement of `g1` by `g2` works on.
pub open spec fn frame_between<G: Bounded + Labeled>(g1: &G, g2: &G) -> BoundedFrame {
    BoundedFrame {
        post1: rows_of(arcs(g1), g1.node_seq().len() as int),
        bounds: bound_rows(g1),
        post2: rows_of(arcs(g2), g2.node_seq().len() as int),
        labels: label_grid(g1, g2),
    }
}

/// The greatest bounded simulation of `g1` by `g2`, as pairs of positions.
pub open spec fn bounded_simulation_between<G: Bounded + Labeled>(g1: &G, g2: &G) -> Set<(int, int)> {
    frame_between(g1, g2).greatest_bounded_simulation()
}

/// Label soundness and out-degree coherence: the greatest bounded
/// simulation relates only nodes that carry the same label, and where the
/// left node has a successor, the right one has one too.
pub proof fn lemma_bounded_label_soundness<G: Bounded + Labeled>(g1: &G, g2: &G, i: int, j: int)
    requires
        bounded_simulation_between(g1, g2).contains((i, j)),
    ensures
        0 <= i < g1.node_seq().len(),
        0 <= j < g2.node_seq().len(),
        g1.same_label(&g1.node_seq()[i], &g2.node_seq()[j]),
        successors(arcs(g1), i).len() > 0 ==> successors(arcs(g2), j).len() > 0,
{
    frame_between(g1, g2).lemma_bounded_pairs_are_candidates(i, j);
}

/// Bounded successor witness: where the greatest bounded simulation
/// relates `i` to `j`, every successor of `i` is related to some node that
/// can be reached from `j` by a path of at most as many arcs as the bound of
/// the edge allows.
pub proof fn lemma_bounded_successor_witness<G: Bounded + Labeled>(
    g1: &G,
    g2: &G,
    i: int,
    j: int,
    k: int,
)
    requires
        bounded_simulation_between(g1, g2).contains((i, j)),
        0 <= k < successors(arcs(g1), i).len(),
    ensures
        exists|j2: int|
            0 <= j2 < g2.node_seq().len() && #[trigger] bounded_simulation_between(g1, g2).contains(
                (successors(arcs(g1), i)[k] as int, j2),
            ) && within_hops(
                rows_of(arcs(g2), g2.node_seq().len() as int),
                j,
                j2,
                g1.bound(&g1.node_seq()[i], &g1.node_seq()[successors(arcs(g1), i)[k] as int]) as nat,
            ),
{
    let f = frame_between(g1, g2);
    let gs = f.greatest_bounded_simulation();
    f.lemma_greatest_is_bounded_simulation();
    f.lemma_bounded_pairs_are_candidates(i, j);
    assert(f.answered_within(gs, f.post1[i][k] as int, j, f.bounds[i][k] as nat));
    let j2 = choose|j2: int|
        0 <= j2 < f.post2.len() && #[trigger] gs.contains((f.post1[i][k] as int, j2)) && within_hops(
            f.post2,
            j,
            j2,
            f.bounds[i][k] as nat,
        );
    assert(gs.contains((successors(arcs(g1), i)[k] as int, j2)));
}

/// Greatest fixed point: every bounded simulation of `g1` by `g2` lies
/// within the greatest one.
pub proof fn lemma_bounded_greatest<G: Bounded + Labeled>(g1: &G, g2: &G, s: Set<(int, int)>)
    requires
        frame_between(g1, g2).is_bounded_simulation(s),
    ensures
        s.subset_of(bounded_simulation_between(g1, g2)),
{
}

/// A graph that can be matched against another by bounded simulation.
pub trait BoundedSimulation: Bounded + Labeled + Adjacency + AdjacencyInv + Directed {
    /// The greatest bounded simulation of the graph by `other`. Where it
    /// leaves some node of the graph without a partner, be it from the start
    /// or by refinement, the result is the empty map.
    fn get_bounded_simulation(&self, other: &Self) -> (sim: HashMap<u64, HashSet<u64>>)
        requires
            well_formed(self),
            well_formed(other),
            self.comparable(),
        ensures
            frame_between(self, other).total(bounded_simulation_between(self, other)) ==> presents(
                sim@,
                self.node_seq(),
                other.node_seq(),
                bounded_simulation_between(self, other),
            ),
            !frame_between(self, other).total(bounded_simulation_between(self, other)) ==> sim@
                == Map::<u64, HashSet<u64>>::empty(),
    ;
}

/// The bounds of the edges that leave each node, in the order of the
/// successor lists.
pub fn bounds_of<G: Bounded>(g: &G, adj: &AdjacencyList) -> (bounds: Vec<Vec<usize>>)
    requires
        well_formed(g),
        adj.lists_successors_of(g),
    ensures
        table(bounds) == bound_rows(g),
{
    let nodes = g.nodes();
    let n = nodes.len();
    let mut bounds: Vec<Vec<usize>> = Vec::new();
    proof {
        lemma_arcs_within(g.node_seq(), g.edge_seq());
    }
    let mut u: usize = 0;
    while u < n
        invariant
            u <= n,
            n == g.node_seq().len(),
            nodes@ == g.node_seq(),
            adj.lists_successors_of(g),
            arcs_within(arcs(g), n as int),
            bounds@.len() == u,
            forall|a: int| 0 <= a < u ==> (#[trigger] bounds@[a])@ == bound_rows(g)[a],
        decreases n - u,
    {
        let succ = adj.row(u);
        proof {
            lemma_successors_within(arcs(g), n as int, u as int);
        }
        let mut row: Vec<usize> = Vec::new();
        let mut k: usize = 0;
        while k < succ.len()
            invariant
                k <= succ@.len(),
                u < n,
                n == g.node_seq().len(),
                nodes@ == g.node_seq(),
                succ@ == successors(arcs(g), u as int),
                forall|a: int| 0 <= a < succ@.len() ==> #[trigger] succ@[a] < n,
                row@.len() == k,
                forall|a: int|
                    0 <= a < k ==> #[trigger] row@[a] == g.bound(
                        &nodes@[u as int],
                        &nodes@[succ@[a] as int],
                    ),
            decreases succ@.len() - k,
        {
            assert(succ@[k as int] < n);
            row.push(g.get_bound(&nodes[u], &nodes[succ[k]]));
            k = k + 1;
        }
        assert(row@ =~= bound_rows(g)[u as int]);
        bounds.push(row);
        u = u + 1;
    }
    assert(table(bounds) =~= bound_rows(g));
    bounds
}

impl<T: Bounded + Labeled + Adjacency + AdjacencyInv + Directed> BoundedSimulation for T {
    fn get_bounded_simulation(&self, other: &Self) -> (sim: HashMap<u64, HashSet<u64>>) {
        let count1 = self.nodes().len();
        let count2 = other.nodes().len();
        let adj_self = self.get_adj();
        let adj_other = other.get_adj();
        let bounds = bounds_of(self, &adj_self);
        let labels = label_matrix(self, other);
        proof {
            lemma_arcs_within(self.node_seq(), self.edge_seq());
            lemma_arcs_within(other.node_seq(), other.edge_seq());
            assert(adj_self@ =~= rows_of(arcs(self), count1 as int));
            assert(adj_other@ =~= rows_of(arcs(other), count2 as int));
            assert(frame_of(&adj_self, &bounds, &adj_other, &labels) == frame_between(self, other));
            let f = frame_between(self, other);
            assert forall|u: int, k: int|
                0 <= u < f.post1.len() && 0 <= k < f.post1[u].len() implies (#[trigger] f.post1[u][k])
                < f.post1.len() by {
                lemma_successors_within(arcs(self), count1 as int, u);
            }
            assert forall|i: int, j: int|
                0 <= i < f.post2.len() && 0 <= j < f.post2[i].len() implies (#[trigger] f.post2[i][j])
                < f.post2.len() by {
                lemma_successors_within(arcs(other), count2 as int, i);
            }
        }
        match refine_bounded(&adj_self, &bounds, &adj_other, &labels) {
            Some(rel) => to_map(self.nodes(), other.nodes(), &rel),
            None => {
                let sim: HashMap<u64, HashSet<u64>> = HashMap::new();
                assert(sim@ =~= Map::<u64, HashSet<u64>>::empty());
                sim
            },
        }
    }
}

/// The bound that a list of exceptions gives to the edge from `src` to
/// `dst`: that of the last exception for the pair, and `common` where there
/// is none.
pub open spec fn bound_in(exceptions: Seq<(u64, u64, usize)>, common: usize, src: u64, dst: u64) -> usize
    decreases exceptions.len(),
{
    if exceptions.len() == 0 {
        common
    } else if exceptions.last().0 == src && exceptions.last().1 == dst {
        exceptions.last().2
    } else {
        bound_in(exceptions.drop_last(), common, src, dst)
    }
}

/// A standard labeled graph whose edges carry bounds: one bound for all
/// edges, and others for chosen pairs of nodes.
pub struct BoundedLabeledGraph {
    graph: StandardLabeledGraph,
    common: usize,
    exceptions: Vec<(u64, u64, usize)>,
}

impl Graph for BoundedLabeledGraph {
    type Node = LabelNode<String>;

    type Edge = LabeledEdge<SingleLabel>;

    closed spec fn node_seq(&self) -> Seq<Self::Node> {
        self.graph.node_seq()
    }

    closed spec fn edge_seq(&self) -> Seq<Self::Edge> {
        self.graph.edge_seq()
    }

    fn nodes(&self) -> (r: &[Self::Node]) {
        self.graph.nodes()
    }

    fn edges(&self) -> (r: &[Self::Edge]) {
        self.graph.edges()
    }

    fn add_node(&mut self, node: Self::Node) {
        Graph::add_node(&mut self.graph, node);
    }

    fn add_edge(&mut self, edge: Self::Edge) {
        Graph::add_edge(&mut self.graph, edge);
    }
}

impl Labeled for BoundedLabeledGraph {
    type NodeLabel = String;

    type EdgeLabel = SingleLabel;

    open spec fn comparable(&self) -> bool {
        true
    }

    open spec fn same_label(&self, a: &Self::Node, b: &Self::Node) -> bool {
        a.label@ == b.label@
    }

    open spec fn same_edge_label(&self, a: &Self::Edge, b: &Self::Edge) -> bool {
        true
    }

    open spec fn same_edge_node_label(
        &self,
        src1: &Self::Node,
        edge1: &Self::Edge,
        dst1: &Self::Node,
        src2: &Self::Node,
        edge2: &Self::Edge,
        dst2: &Self::Node,
    ) -> bool {
        true
    }

    open spec fn node_label(&self, node: &Self::Node) -> String {
        node.label
    }

    open spec fn edge_label(&self, edge: &Self::Edge) -> SingleLabel {
        edge.label
    }

    fn label_same(&self, node: &Self::Node, label: &Self::Node) -> (r: bool) {
        node.label == label.label
    }

    fn get_label<'a>(&'a self, node: &'a Self::Node) -> (r: &'a String) {
        &node.label
    }

    fn get_edges_pair_label(&self) -> (r: Vec<(&Self::Node, &Self::Node, &SingleLabel)>) {
        self.graph.get_edges_pair_label()
    }

    fn edge_label_same(&self, edge1: &Self::Edge, edge2: &Self::Edge) -> (r: bool) {
        true
    }

    fn edge_node_label_same(
        &self,
        src1: &Self::Node,
        edge1: &Self::Edge,
        dst1: &Self::Node,
        src2: &Self::Node,
        edge2: &Self::Edge,
        dst2: &Self::Node,
    ) -> (r: bool) {
        true
    }
}

impl Directed for BoundedLabeledGraph {

}

impl Adjacency for BoundedLabeledGraph {

}

impl AdjacencyInv for BoundedLabeledGraph {

}

impl Degree for BoundedLabeledGraph {

}

impl Bounded for BoundedLabeledGraph {
    closed spec fn bound(&self, u: &Self::Node, v: &Self::Node) -> usize {
        bound_in(self.exceptions@, self.common, u.id, v.id)
    }

    fn get_bound(&self, u: &Self::Node, v: &Self::Node) -> (b: usize) {
        let mut k: usize = self.exceptions.len();
        assert(self.exceptions@.take(k as int) =~= self.exceptions@);
        while k > 0
            invariant
                k <= self.exceptions@.len(),
                bound_in(self.exceptions@, self.common, u.id, v.id) == bound_in(
                    self.exceptions@.take(k as int),
                    self.common,
                    u.id,
                    v.id,
                ),
            decreases k,
        {
            let (src, dst, bound) = self.exceptions[k - 1];
            proof {
                assert(self.exceptions@.take(k as int).last() == self.exceptions@[k - 1]);
                assert(self.exceptions@.take(k as int).drop_last() =~= self.exceptions@.take(k - 1));
            }
            if src == u.id && dst == v.id {
                return bound;
            }
            k = k - 1;
        }
        self.common
    }
}

impl BoundedLabeledGraph {
    /// The bound that all edges carry but the chosen ones.
    pub closed spec fn common_bound(&self) -> usize {
        self.common
    }

    /// The chosen pairs of nodes and the bounds of the edges between them.
    pub closed spec fn chosen_bounds(&self) -> Seq<(u64, u64, usize)> {
        self.exceptions@
    }

    /// The bound of every edge is that of the last choice made for its
    /// endpoints, and the common bound where none was made.
    pub proof fn lemma_bound(&self, u: &LabelNode<String>, v: &LabelNode<String>)
        ensures
            self.bound(u, v) == bound_in(self.chosen_bounds(), self.common_bound(), u.id, v.id),
    {
    }

    /// The graph without nodes and edges, whose edges will all carry `bound`.
    pub fn new(bound: usize) -> (g: Self)
        ensures
            g.node_seq() == Seq::<LabelNode<String>>::empty(),
            g.edge_seq() == Seq::<LabeledEdge<SingleLabel>>::empty(),
            g.common_bound() == bound,
            g.chosen_bounds() == Seq::<(u64, u64, usize)>::empty(),
    {
        BoundedLabeledGraph { graph: StandardLabeledGraph::new(), common: bound, exceptions: Vec::new() }
    }

    /// Appends the node `(id, label)`.
    pub fn add_node(&mut self, id: u64, label: String)
        ensures
            final(self).node_seq() == old(self).node_seq().push((LabelNode { id, label })),
            final(self).edge_seq() == old(self).edge_seq(),
            final(self).common_bound() == old(self).common_bound(),
            final(self).chosen_bounds() == old(self).chosen_bounds(),
    {
        self.graph.add_node(id, label);
    }

    /// Appends the edge from `src` to `dst`.
    pub fn add_edge(&mut self, src: u64, dst: u64)
        ensures
            final(self).node_seq() == old(self).node_seq(),
            final(self).edge_seq() == old(self).edge_seq().push(
                (LabeledEdge { src, dst, label: SingleLabel(()) }),
            ),
            final(self).common_bound() == old(self).common_bound(),
            final(self).chosen_bounds() == old(self).chosen_bounds(),
    {
        self.graph.add_edge(src, dst);
    }

    /// Gives the edges from `src` to `dst` the bound `bound`.
    pub fn set_bound(&mut self, src: u64, dst: u64, bound: usize)
        ensures
            final(self).node_seq() == old(self).node_seq(),
            final(self).edge_seq() == old(self).edge_seq(),
            final(self).common_bound() == old(self).common_bound(),
            final(self).chosen_bounds() == old(self).chosen_bounds().push((src, dst, bound)),
    {
        self.exceptions.push((src, dst, bound));
    }
}

} // verus!
