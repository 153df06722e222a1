//! Classical simulation between directed labeled graphs.
//!
//! A relation between the positions of a left and of a right graph is a
//! simulation when related nodes carry the same label and every successor of
//! the left node is related to some successor of the right node. The engines
//! compute the greatest such relation.

use crate::algorithm::relation::{
    get_entry, grid, grid_weight, is_grid, lemma_grid_weight_bounds, lemma_grid_weight_update,
    lemma_row_weight_bounds, lemma_weight_with_entry, new_grid, new_row, pairs, related,
    set_entry, with_entry, within,
};
use crate::graph::base::{
    arcs, arcs_within, distinct_ids, has_id, index_nodes, lemma_arcs_within,
    lemma_predecessors_members, lemma_successors_members, names, predecessors, resolve_arcs, successors,
    well_formed, Adjacency, AdjacencyInv, AdjacencyList, Directed, Graph, SingleId,
};
use crate::graph::labeled_graph::Labeled;
use std::collections::HashMap;
use std::collections::HashSet;
use vstd::std_specs::iter::IteratorSpec;
use vstd::prelude::*;

verus! {

/// Some successor of the right position `j` is related to the left position
/// `i2`.
pub open spec fn answered(post2: Seq<Seq<usize>>, s: Set<(int, int)>, i2: int, j: int) -> bool {
    exists|l: int| 0 <= l < post2[j].len() && #[trigger] s.contains((i2, post2[j][l] as int))
}

/// `s` is a simulation: it relates positions of the two graphs that may be
/// related at all (`compat`), and every successor of a left position is
/// answered by a successor of each right position related to it.
pub open spec fn is_simulation(
    post1: Seq<Seq<usize>>,
    post2: Seq<Seq<usize>>,
    compat: Seq<Seq<bool>>,
    s: Set<(int, int)>,
) -> bool {
    forall|i: int, j: int| #[trigger]
        s.contains((i, j)) ==> {
            &&& 0 <= i < post1.len()
            &&& 0 <= j < post2.len()
            &&& related(compat, i, j)
            &&& forall|k: int|
                0 <= k < post1[i].len() ==> answered(post2, s, (#[trigger] post1[i][k]) as int, j)
        }
}

/// The union of all simulations.
pub open spec fn greatest_simulation(
    post1: Seq<Seq<usize>>,
    post2: Seq<Seq<usize>>,
    compat: Seq<Seq<bool>>,
) -> Set<(int, int)> {
    Set::new(
        |p: (int, int)|
            exists|s: Set<(int, int)>| #[trigger]
                is_simulation(post1, post2, compat, s) && s.contains(p),
    )
}

/// The greatest simulation is a simulation: what it relates may be related,
/// and every successor on the left is answered on the right.
pub proof fn lemma_greatest_is_simulation(
    post1: Seq<Seq<usize>>,
    post2: Seq<Seq<usize>>,
    compat: Seq<Seq<bool>>,
)
    ensures
        is_simulation(post1, post2, compat, greatest_simulation(post1, post2, compat)),
{
    let gs = greatest_simulation(post1, post2, compat);
    assert forall|i: int, j: int| #[trigger] gs.contains((i, j)) implies {
        &&& 0 <= i < post1.len()
        &&& 0 <= j < post2.len()
        &&& related(compat, i, j)
        &&& forall|k: int|
            0 <= k < post1[i].len() ==> answered(post2, gs, (#[trigger] post1[i][k]) as int, j)
    } by {
        let s = choose|s: Set<(int, int)>| #[trigger]
            is_simulation(post1, post2, compat, s) && s.contains((i, j));
        assert(s.contains((i, j)));
        assert forall|k: int| 0 <= k < post1[i].len() implies answered(
            post2,
            gs,
            (#[trigger] post1[i][k]) as int,
            j,
        ) by {
            let i2 = post1[i][k] as int;
            assert(answered(post2, s, i2, j));
            let l = choose|l: int|
                0 <= l < post2[j].len() && #[trigger] s.contains((i2, post2[j][l] as int));
            assert(gs.contains((i2, post2[j][l] as int)));
        }
    }
}

/// Where a left position has a successor, every right position related to it
/// by a simulation has one too.
pub proof fn lemma_out_degree_coherence(
    post1: Seq<Seq<usize>>,
    post2: Seq<Seq<usize>>,
    compat: Seq<Seq<bool>>,
    s: Set<(int, int)>,
    i: int,
    j: int,
)
    requires
        is_simulation(post1, post2, compat, s),
        s.contains((i, j)),
        post1[i].len() > 0,
    ensures
        post2[j].len() > 0,
{
    assert(answered(post2, s, post1[i][0] as int, j));
}

/// A relation that is a simulation and holds every simulation is the
/// greatest one.
pub proof fn lemma_greatest_is_unique(
    post1: Seq<Seq<usize>>,
    post2: Seq<Seq<usize>>,
    compat: Seq<Seq<bool>>,
    s: Set<(int, int)>,
)
    requires
        is_simulation(post1, post2, compat, s),
        forall|t: Set<(int, int)>| #[trigger]
            is_simulation(post1, post2, compat, t) ==> t.subset_of(s),
    ensures
        s == greatest_simulation(post1, post2, compat),
{
    let gs = greatest_simulation(post1, post2, compat);
    lemma_greatest_is_simulation(post1, post2, compat);
    assert(gs.subset_of(s));
    assert(s.subset_of(gs));
    assert(s =~= gs);
}

/// Some successor of `w` stands in row `v` of `g`.
pub open spec fn witness(post2: Seq<Seq<usize>>, g: Seq<Seq<bool>>, v: int, w: int) -> bool {
    exists|l: int| 0 <= l < post2[w].len() && #[trigger] related(g, v, post2[w][l] as int)
}

/// `post` and `pre` list the same arcs, one from each end, between positions
/// below their common length.
pub open spec fn inverse_lists(post: Seq<Seq<usize>>, pre: Seq<Seq<usize>>) -> bool {
    &&& post.len() == pre.len()
    &&& forall|i: int, k: int|
        0 <= i < post.len() && 0 <= k < post[i].len() ==> (#[trigger] post[i][k]) < post.len()
            && names(pre[post[i][k] as int], i)
    &&& forall|j: int, k: int|
        0 <= j < pre.len() && 0 <= k < pre[j].len() ==> (#[trigger] pre[j][k]) < pre.len()
            && names(post[pre[j][k] as int], j)
}

/// Whether some position that `list` names stands in `row`.
pub fn has_witness(list: &Vec<usize>, row: &Vec<bool>) -> (r: bool)
    requires
        forall|l: int| 0 <= l < list@.len() ==> #[trigger] list@[l] < row@.len(),
    ensures
        r == exists|l: int| 0 <= l < list@.len() && #[trigger] row@[list@[l] as int],
{
    let mut l: usize = 0;
    while l < list.len()
        invariant
            l <= list@.len(),
            forall|a: int| 0 <= a < list@.len() ==> #[trigger] list@[a] < row@.len(),
            forall|a: int| 0 <= a < l ==> !#[trigger] row@[list@[a] as int],
        decreases list@.len() - l,
    {
        if row[list[l]] {
            return true;
        }
        l = l + 1;
    }
    false
}

/// The candidates that the refinement starts from: pairs that may be
/// related, without those whose left position has a successor and whose
/// right position has none.
pub fn initial_candidates(adj1: &AdjacencyList, adj2: &AdjacencyList, compat: &Vec<Vec<bool>>) -> (sim:
    Vec<Vec<bool>>)
    requires
        is_grid(grid(*compat), adj1@.len() as int, adj2@.len() as int),
    ensures
        is_grid(grid(sim), adj1@.len() as int, adj2@.len() as int),
        forall|i: int, j: int|
            0 <= i < adj1@.len() && 0 <= j < adj2@.len() ==> #[trigger] grid(sim)[i][j] == (grid(
                *compat,
            )[i][j] && (adj1@[i].len() == 0 || adj2@[j].len() > 0)),
{
    let n1 = adj1.len();
    let n2 = adj2.len();
    let mut sim = new_grid(n1, n2, false);
    let mut i: usize = 0;
    while i < n1
        invariant
            i <= n1,
            n1 == adj1@.len(),
            n2 == adj2@.len(),
            is_grid(grid(*compat), n1 as int, n2 as int),
            is_grid(grid(sim), n1 as int, n2 as int),
            forall|a: int, j: int|
                0 <= a < i && 0 <= j < n2 ==> #[trigger] grid(sim)[a][j] == (grid(*compat)[a][j] && (
                adj1@[a].len() == 0 || adj2@[j].len() > 0)),
        decreases n1 - i,
    {
        let leaf = adj1.row(i).len() == 0;
        let mut j: usize = 0;
        while j < n2
            invariant
                j <= n2,
                i < n1,
                n1 == adj1@.len(),
                n2 == adj2@.len(),
                leaf == (adj1@[i as int].len() == 0),
                is_grid(grid(*compat), n1 as int, n2 as int),
                is_grid(grid(sim), n1 as int, n2 as int),
                forall|a: int, b: int|
                    0 <= a < i && 0 <= b < n2 ==> #[trigger] grid(sim)[a][b] == (grid(
                        *compat,
                    )[a][b] && (adj1@[a].len() == 0 || adj2@[b].len() > 0)),
                forall|b: int|
                    0 <= b < j ==> #[trigger] grid(sim)[i as int][b] == (grid(*compat)[i as int][b]
                        && (adj1@[i as int].len() == 0 || adj2@[b].len() > 0)),
            decreases n2 - j,
        {
            assert(grid(*compat)[i as int].len() == n2);
            assert(grid(sim)[i as int].len() == n2);
            let keep = get_entry(compat, i, j) && (leaf || adj2.row(j).len() > 0);
            set_entry(&mut sim, i, j, keep);
            j = j + 1;
        }
        i = i + 1;
    }
    sim
}

/// The weight of every entry of a remove set: one.
pub open spec fn unit_weights(n: int) -> Seq<int> {
    Seq::new(n as nat, |j: int| 1int)
}

/// The weight of a candidate `(.., j)`: one more than the length of the
/// predecessor list of `j`, which bounds what its removal adds to a remove
/// set.
pub open spec fn candidate_weights(pre2: Seq<Seq<usize>>) -> Seq<int> {
    Seq::new(pre2.len(), |j: int| 1 + pre2[j].len() as int)
}

/// What is left to do: the weight of the candidates and of the remove sets.
pub open spec fn work_left(pre2: Seq<Seq<usize>>, sim: Seq<Seq<bool>>, remove: Seq<Seq<bool>>) -> int {
    grid_weight(sim, candidate_weights(pre2)) + grid_weight(remove, unit_weights(pre2.len() as int))
}

/// The remove sets that the refinement starts from: for each left position
/// `v`, the right positions that have a successor, but none among the
/// candidates of `v`.
pub fn initial_remove(adj2: &AdjacencyList, sim: &Vec<Vec<bool>>) -> (remove: Vec<Vec<bool>>)
    requires
        is_grid(grid(*sim), grid(*sim).len() as int, adj2@.len() as int),
        forall|j: int, l: int|
            0 <= j < adj2@.len() && 0 <= l < adj2@[j].len() ==> #[trigger] adj2@[j][l] < adj2@.len(),
    ensures
        is_grid(grid(remove), grid(*sim).len() as int, adj2@.len() as int),
        forall|v: int, w: int|
            0 <= v < grid(*sim).len() && 0 <= w < adj2@.len() ==> #[trigger] grid(remove)[v][w] == (
            adj2@[w].len() > 0 && !witness(adj2@, grid(*sim), v, w)),
{
    let n1 = sim.len();
    let n2 = adj2.len();
    let mut remove = new_grid(n1, n2, false);
    let mut v: usize = 0;
    while v < n1
        invariant
            v <= n1,
            n1 == grid(*sim).len(),
            n2 == adj2@.len(),
            is_grid(grid(*sim), n1 as int, n2 as int),
            is_grid(grid(remove), n1 as int, n2 as int),
            forall|j: int, l: int|
                0 <= j < adj2@.len() && 0 <= l < adj2@[j].len() ==> #[trigger] adj2@[j][l]
                    < adj2@.len(),
            forall|a: int, w: int|
                0 <= a < v && 0 <= w < n2 ==> #[trigger] grid(remove)[a][w] == (adj2@[w].len() > 0
                    && !witness(adj2@, grid(*sim), a, w)),
        decreases n1 - v,
    {
        let mut w: usize = 0;
        while w < n2
            invariant
                w <= n2,
                v < n1,
                n1 == grid(*sim).len(),
                n2 == adj2@.len(),
                is_grid(grid(*sim), n1 as int, n2 as int),
                is_grid(grid(remove), n1 as int, n2 as int),
                forall|j: int, l: int|
                    0 <= j < adj2@.len() && 0 <= l < adj2@[j].len() ==> #[trigger] adj2@[j][l]
                        < adj2@.len(),
                forall|a: int, b: int|
                    0 <= a < v && 0 <= b < n2 ==> #[trigger] grid(remove)[a][b] == (adj2@[b].len()
                        > 0 && !witness(adj2@, grid(*sim), a, b)),
                forall|b: int|
                    0 <= b < w ==> #[trigger] grid(remove)[v as int][b] == (adj2@[b].len() > 0
                        && !witness(adj2@, grid(*sim), v as int, b)),
            decreases n2 - w,
        {
            let list = adj2.row(w);
            assert(grid(*sim)[v as int].len() == n2);
            assert(grid(remove)[v as int].len() == n2);
            assert forall|l: int| 0 <= l < list@.len() implies #[trigger] list@[l] < sim[v as int]@.len() by {
                assert(adj2@[w as int][l] < adj2@.len());
            }
            let found = has_witness(list, &sim[v]);
            proof {
                let g = grid(*sim);
                if found {
                    let l = choose|l: int| 0 <= l < list@.len() && #[trigger] sim[v as int]@[list@[l] as int];
                    assert(related(g, v as int, adj2@[w as int][l] as int));
                }
                if witness(adj2@, g, v as int, w as int) {
                    let l = choose|l: int|
                        0 <= l < adj2@[w as int].len() && #[trigger] related(
                            g,
                            v as int,
                            adj2@[w as int][l] as int,
                        );
                    assert(sim[v as int]@[list@[l] as int]);
                }
            }
            set_entry(&mut remove, v, w, list.len() > 0 && !found);
            w = w + 1;
        }
        v = v + 1;
    }
    remove
}

/// A row of `remove` that holds something, if there is one.
pub fn find_pending(remove: &Vec<Vec<bool>>) -> (r: Option<usize>)
    ensures
        match r {
            Some(v) => v < grid(*remove).len() && exists|w: int| #[trigger]
                related(grid(*remove), v as int, w),
            None => forall|v: int, w: int| !#[trigger] related(grid(*remove), v, w),
        },
{
    let mut v: usize = 0;
    while v < remove.len()
        invariant
            v <= grid(*remove).len(),
            forall|a: int, w: int| 0 <= a < v ==> !#[trigger] related(grid(*remove), a, w),
        decreases grid(*remove).len() - v,
    {
        let row = &remove[v];
        let mut w: usize = 0;
        while w < row.len()
            invariant
                w <= row@.len(),
                v < grid(*remove).len(),
                row@ == grid(*remove)[v as int],
                forall|b: int| 0 <= b < w ==> !#[trigger] related(grid(*remove), v as int, b),
            decreases row@.len() - w,
        {
            if row[w] {
                assert(related(grid(*remove), v as int, w as int));
                assert(exists|b: int| #[trigger] related(grid(*remove), v as int, b));
                return Some(v);
            }
            w = w + 1;
        }
        v = v + 1;
    }
    None
}

/// Takes row `v` out of `remove` and leaves an empty row in its place.
pub fn take_row(remove: &mut Vec<Vec<bool>>, v: usize) -> (row: Vec<bool>)
    requires
        v < grid(*old(remove)).len(),
    ensures
        row@ == grid(*old(remove))[v as int],
        grid(*final(remove)) == grid(*old(remove)).update(
            v as int,
            Seq::new(row@.len(), |j: int| false),
        ),
{
    let ghost before = grid(*remove);
    let width = remove[v].len();
    let mut row = new_row(width, false);
    std::mem::swap(&mut remove[v], &mut row);
    proof {
        assert(grid(*remove)[v as int] =~= Seq::new(row@.len(), |j: int| false));
        assert(grid(*remove) =~= before.update(v as int, Seq::new(row@.len(), |j: int| false)));
    }
    row
}

/// Takes the right position `w` out of the candidates of the left position
/// `u`, and puts into the remove set of `u` every predecessor of `w` that
/// has no successor left among the candidates of `u`.
pub fn retract(
    sim: &mut Vec<Vec<bool>>,
    remove: &mut Vec<Vec<bool>>,
    adj2: &AdjacencyList,
    adj_inv2: &AdjacencyList,
    u: usize,
    w: usize,
)
    requires
        inverse_lists(adj2@, adj_inv2@),
        is_grid(grid(*old(sim)), grid(*old(sim)).len() as int, adj2@.len() as int),
        is_grid(grid(*old(remove)), grid(*old(sim)).len() as int, adj2@.len() as int),
        related(grid(*old(sim)), u as int, w as int),
    ensures
        grid(*final(sim)) == with_entry(grid(*old(sim)), u as int, w as int, false),
        is_grid(grid(*final(remove)), grid(*old(sim)).len() as int, adj2@.len() as int),
        forall|i: int|
            0 <= i < grid(*old(remove)).len() && i != u ==> #[trigger] grid(*final(remove))[i]
                == grid(*old(remove))[i],
        forall|j: int| #[trigger]
            related(grid(*old(remove)), u as int, j) ==> related(grid(*final(remove)), u as int, j),
        forall|j: int|
            #[trigger] related(grid(*final(remove)), u as int, j) && !related(
                grid(*old(remove)),
                u as int,
                j,
            ) ==> !witness(adj2@, grid(*final(sim)), u as int, j),
        forall|k: int|
            0 <= k < adj_inv2@[w as int].len() ==> witness(
                adj2@,
                grid(*final(sim)),
                u as int,
                (#[trigger] adj_inv2@[w as int][k]) as int,
            ) || related(grid(*final(remove)), u as int, adj_inv2@[w as int][k] as int),
        grid_weight(grid(*final(remove)), unit_weights(adj2@.len() as int)) <= grid_weight(
            grid(*old(remove)),
            unit_weights(adj2@.len() as int),
        ) + adj_inv2@[w as int].len(),
{
    let ghost n2 = adj2@.len() as int;
    let ghost r0 = grid(*remove);
    set_entry(sim, u, w, false);
    let ghost s1 = grid(*sim);
    let list = adj_inv2.row(w);
    let mut k: usize = 0;
    while k < list.len()
        invariant
            k <= list@.len(),
            list@ == adj_inv2@[w as int],
            w < n2,
            n2 == adj2@.len(),
            u < s1.len(),
            inverse_lists(adj2@, adj_inv2@),
            grid(*sim) == s1,
            is_grid(s1, s1.len() as int, n2),
            is_grid(r0, s1.len() as int, n2),
            is_grid(grid(*remove), s1.len() as int, n2),
            forall|i: int|
                0 <= i < r0.len() && i != u ==> #[trigger] grid(*remove)[i] == r0[i],
            forall|j: int| #[trigger] related(r0, u as int, j) ==> related(grid(*remove), u as int, j),
            forall|j: int|
                #[trigger] related(grid(*remove), u as int, j) && !related(r0, u as int, j)
                    ==> !witness(adj2@, s1, u as int, j),
            forall|a: int|
                0 <= a < k ==> witness(adj2@, s1, u as int, (#[trigger] list@[a]) as int) || related(
                    grid(*remove),
                    u as int,
                    list@[a] as int,
                ),
            grid_weight(grid(*remove), unit_weights(n2)) <= grid_weight(r0, unit_weights(n2)) + k,
        decreases list@.len() - k,
    {
        let j = list[k];
        assert(adj_inv2@[w as int][k as int] < adj_inv2@.len());
        assert(grid(*remove)[u as int].len() == n2);
        assert(s1[u as int].len() == n2);
        if !get_entry(remove, u, j) {
            let succ = adj2.row(j);
            assert forall|l: int| 0 <= l < succ@.len() implies #[trigger] succ@[l] < sim[u as int]@.len() by {
                assert(adj2@[j as int][l] < adj2@.len());
            }
            let found = has_witness(succ, &sim[u]);
            proof {
                if found {
                    let l = choose|l: int| 0 <= l < succ@.len() && #[trigger] sim[u as int]@[succ@[l] as int];
                    assert(related(s1, u as int, adj2@[j as int][l] as int));
                }
                if witness(adj2@, s1, u as int, j as int) {
                    let l = choose|l: int|
                        0 <= l < adj2@[j as int].len() && #[trigger] related(
                            s1,
                            u as int,
                            adj2@[j as int][l] as int,
                        );
                    assert(sim[u as int]@[succ@[l] as int]);
                }
            }
            if !found {
                let ghost r1 = grid(*remove);
                set_entry(remove, u, j, true);
                proof {
                    lemma_weight_with_entry(r1, unit_weights(n2), u as int, j as int, true);
                    let r2 = grid(*remove);
                    assert forall|a: int| 0 <= a < k + 1 implies witness(
                        adj2@,
                        s1,
                        u as int,
                        (#[trigger] list@[a]) as int,
                    ) || related(r2, u as int, list@[a] as int) by {
                        if a < k {
                            if related(r1, u as int, list@[a] as int) {
                                assert(related(r2, u as int, list@[a] as int));
                            }
                        }
                    }
                    assert forall|x: int| #[trigger] related(r0, u as int, x) implies related(
                        r2,
                        u as int,
                        x,
                    ) by {
                        assert(related(r1, u as int, x));
                    }
                    assert forall|x: int|
                        #[trigger] related(r2, u as int, x) && !related(r0, u as int, x) implies !witness(
                        adj2@,
                        s1,
                        u as int,
                        x,
                    ) by {
                        if x != j {
                            assert(related(r1, u as int, x));
                        }
                    }
                }
            }
        }
        k = k + 1;
    }
}

/// What the candidate `(u, w)` asks of the `k`-th successor `t` of `u`: a
/// successor of `w` among the candidates of `t`, or else `w` in the remove
/// set of `t`, or in the row `taken` out of it for `v` while `u` still
/// stands in `rest`.
pub open spec fn demand(
    post1: Seq<Seq<usize>>,
    post2: Seq<Seq<usize>>,
    sim: Seq<Seq<bool>>,
    remove: Seq<Seq<bool>>,
    taken: Seq<bool>,
    v: int,
    rest: Seq<usize>,
    u: int,
    k: int,
    w: int,
) -> bool {
    related(sim, u, w) ==> witness(post2, sim, post1[u][k] as int, w) || related(
        remove,
        post1[u][k] as int,
        w,
    ) || (names(rest, u) && post1[u][k] == v && taken[w])
}

/// The state of the refinement by remove sets, between two steps.
pub open spec fn refining(
    post1: Seq<Seq<usize>>,
    post2: Seq<Seq<usize>>,
    compat: Seq<Seq<bool>>,
    sim: Seq<Seq<bool>>,
    remove: Seq<Seq<bool>>,
    taken: Seq<bool>,
    v: int,
    rest: Seq<usize>,
) -> bool {
    &&& is_grid(sim, post1.len() as int, post2.len() as int)
    &&& is_grid(remove, post1.len() as int, post2.len() as int)
    &&& within(sim, compat)
    &&& forall|i: int, j: int| #[trigger]
        greatest_simulation(post1, post2, compat).contains((i, j)) ==> related(sim, i, j)
    &&& forall|u: int, k: int, w: int|
        0 <= u < post1.len() && 0 <= k < post1[u].len() && 0 <= w < post2.len() ==> #[trigger] demand(
            post1,
            post2,
            sim,
            remove,
            taken,
            v,
            rest,
            u,
            k,
            w,
        )
    &&& forall|t: int, w: int| #[trigger] related(remove, t, w) ==> !witness(post2, sim, t, w)
    &&& forall|w: int| 0 <= w < taken.len() && #[trigger] taken[w] ==> !witness(post2, sim, v, w)
}

/// A witness among fewer candidates is a witness among more.
pub proof fn lemma_witness_grows(
    post2: Seq<Seq<usize>>,
    small: Seq<Seq<bool>>,
    large: Seq<Seq<bool>>,
    t: int,
    w: int,
)
    requires
        within(small, large),
        witness(post2, small, t, w),
    ensures
        witness(post2, large, t, w),
{
    let l = choose|l: int| 0 <= l < post2[w].len() && #[trigger] related(small, t, post2[w][l] as int);
    assert(related(large, t, post2[w][l] as int));
}

/// The candidates and remove sets that the refinement starts from are a
/// state of it.
pub proof fn lemma_initial_refining(
    post1: Seq<Seq<usize>>,
    post2: Seq<Seq<usize>>,
    compat: Seq<Seq<bool>>,
    sim: Seq<Seq<bool>>,
    remove: Seq<Seq<bool>>,
)
    requires
        is_grid(compat, post1.len() as int, post2.len() as int),
        is_grid(sim, post1.len() as int, post2.len() as int),
        is_grid(remove, post1.len() as int, post2.len() as int),
        forall|i: int, k: int|
            0 <= i < post1.len() && 0 <= k < post1[i].len() ==> (#[trigger] post1[i][k]) < post1.len(),
        forall|i: int, j: int|
            0 <= i < post1.len() && 0 <= j < post2.len() ==> #[trigger] sim[i][j] == (compat[i][j] && (
            post1[i].len() == 0 || post2[j].len() > 0)),
        forall|t: int, w: int|
            0 <= t < post1.len() && 0 <= w < post2.len() ==> #[trigger] remove[t][w] == (
            post2[w].len() > 0 && !witness(post2, sim, t, w)),
    ensures
        refining(post1, post2, compat, sim, remove, Seq::empty(), 0, Seq::empty()),
{
    let gs = greatest_simulation(post1, post2, compat);
    lemma_greatest_is_simulation(post1, post2, compat);
    assert forall|i: int, j: int| #[trigger] gs.contains((i, j)) implies related(sim, i, j) by {
        if post1[i].len() > 0 {
            lemma_out_degree_coherence(post1, post2, compat, gs, i, j);
        }
        assert(sim[i][j] == (compat[i][j] && (post1[i].len() == 0 || post2[j].len() > 0)));
    }
    assert forall|i: int, j: int| #[trigger] related(sim, i, j) implies related(compat, i, j) by {
        assert(sim[i][j] == (compat[i][j] && (post1[i].len() == 0 || post2[j].len() > 0)));
    }
    let none = Seq::<bool>::empty();
    let rest = Seq::<usize>::empty();
    assert forall|u: int, k: int, w: int|
        0 <= u < post1.len() && 0 <= k < post1[u].len() && 0 <= w < post2.len() implies #[trigger] demand(
        post1,
        post2,
        sim,
        remove,
        none,
        0,
        rest,
        u,
        k,
        w,
    ) by {
        if related(sim, u, w) {
            let t = post1[u][k] as int;
            assert(sim[u][w] == (compat[u][w] && (post1[u].len() == 0 || post2[w].len() > 0)));
            assert(remove[t][w] == (post2[w].len() > 0 && !witness(post2, sim, t, w)));
        }
    }
    assert forall|t: int, w: int| #[trigger] related(remove, t, w) implies !witness(
        post2,
        sim,
        t,
        w,
    ) by {
        assert(remove[t][w] == (post2[w].len() > 0 && !witness(post2, sim, t, w)));
    }
}

/// Once every remove set is empty, the candidates are the greatest
/// simulation.
pub proof fn lemma_refined_is_greatest(
    post1: Seq<Seq<usize>>,
    post2: Seq<Seq<usize>>,
    compat: Seq<Seq<bool>>,
    sim: Seq<Seq<bool>>,
    remove: Seq<Seq<bool>>,
)
    requires
        refining(post1, post2, compat, sim, remove, Seq::empty(), 0, Seq::empty()),
        forall|t: int, w: int| !#[trigger] related(remove, t, w),
    ensures
        pairs(sim) == greatest_simulation(post1, post2, compat),
{
    let gs = greatest_simulation(post1, post2, compat);
    let s = pairs(sim);
    let none = Seq::<bool>::empty();
    let rest = Seq::<usize>::empty();
    assert forall|i: int, j: int| #[trigger] s.contains((i, j)) implies {
        &&& 0 <= i < post1.len()
        &&& 0 <= j < post2.len()
        &&& related(compat, i, j)
        &&& forall|k: int|
            0 <= k < post1[i].len() ==> answered(post2, s, (#[trigger] post1[i][k]) as int, j)
    } by {
        assert(related(sim, i, j));
        assert forall|k: int| 0 <= k < post1[i].len() implies answered(
            post2,
            s,
            (#[trigger] post1[i][k]) as int,
            j,
        ) by {
            let t = post1[i][k] as int;
            assert(demand(post1, post2, sim, remove, none, 0, rest, i, k, j));
            assert(!related(remove, t, j));
            assert(witness(post2, sim, t, j));
            let l = choose|l: int| 0 <= l < post2[j].len() && #[trigger] related(sim, t, post2[j][l] as int);
            assert(s.contains((t, post2[j][l] as int)));
        }
    }
    assert(is_simulation(post1, post2, compat, s));
    assert forall|p: (int, int)| gs.contains(p) implies s.contains(p) by {
        assert(gs.contains((p.0, p.1)));
        assert(related(sim, p.0, p.1));
    }
    assert(s =~= gs);
}

/// Taking the remove set of `v` out keeps the state, with the row beside it
/// and all predecessors of `v` still to go.
pub proof fn lemma_take_keeps_state(
    post1: Seq<Seq<usize>>,
    pre1: Seq<Seq<usize>>,
    post2: Seq<Seq<usize>>,
    compat: Seq<Seq<bool>>,
    sim: Seq<Seq<bool>>,
    remove: Seq<Seq<bool>>,
    v: int,
)
    requires
        inverse_lists(post1, pre1),
        0 <= v < post1.len(),
        refining(post1, post2, compat, sim, remove, Seq::empty(), 0, Seq::empty()),
    ensures
        refining(
            post1,
            post2,
            compat,
            sim,
            remove.update(v, Seq::new(remove[v].len(), |j: int| false)),
            remove[v],
            v,
            pre1[v],
        ),
{
    let cleared = remove.update(v, Seq::new(remove[v].len(), |j: int| false));
    let taken = remove[v];
    let none = Seq::<bool>::empty();
    let rest = Seq::<usize>::empty();
    assert forall|u: int, k: int, w: int|
        0 <= u < post1.len() && 0 <= k < post1[u].len() && 0 <= w < post2.len() implies #[trigger] demand(
        post1,
        post2,
        sim,
        cleared,
        taken,
        v,
        pre1[v],
        u,
        k,
        w,
    ) by {
        assert(demand(post1, post2, sim, remove, none, 0, rest, u, k, w));
        let t = post1[u][k] as int;
        if related(sim, u, w) && !witness(post2, sim, t, w) {
            assert(related(remove, t, w));
            if t == v {
                assert(names(pre1[post1[u][k] as int], u));
            } else {
                assert(related(cleared, t, w));
            }
        }
    }
    assert forall|t: int, w: int| #[trigger] related(cleared, t, w) implies !witness(
        post2,
        sim,
        t,
        w,
    ) by {
        assert(related(remove, t, w));
    }
    assert forall|w: int| 0 <= w < taken.len() && #[trigger] taken[w] implies !witness(
        post2,
        sim,
        v,
        w,
    ) by {
        assert(related(remove, v, w));
    }
}

/// After `retract` on a candidate `(u, w)` whose `w` stands in the row taken
/// out for a successor `v` of `u`, the state is kept.
pub proof fn lemma_retract_keeps_state(
    post1: Seq<Seq<usize>>,
    post2: Seq<Seq<usize>>,
    pre2: Seq<Seq<usize>>,
    compat: Seq<Seq<bool>>,
    sim: Seq<Seq<bool>>,
    remove: Seq<Seq<bool>>,
    taken: Seq<bool>,
    v: int,
    rest: Seq<usize>,
    u: int,
    w: int,
    remove2: Seq<Seq<bool>>,
)
    requires
        inverse_lists(post2, pre2),
        refining(post1, post2, compat, sim, remove, taken, v, rest),
        0 <= u < post1.len(),
        0 <= w < post2.len(),
        related(sim, u, w),
        taken.len() == post2.len(),
        taken[w],
        names(post1[u], v),
        0 <= v < post1.len(),
        is_grid(remove2, post1.len() as int, post2.len() as int),
        forall|i: int| 0 <= i < remove.len() && i != u ==> #[trigger] remove2[i] == remove[i],
        forall|j: int| #[trigger] related(remove, u, j) ==> related(remove2, u, j),
        forall|j: int|
            #[trigger] related(remove2, u, j) && !related(remove, u, j) ==> !witness(
                post2,
                with_entry(sim, u, w, false),
                u,
                j,
            ),
        forall|k: int|
            0 <= k < pre2[w].len() ==> witness(
                post2,
                with_entry(sim, u, w, false),
                u,
                (#[trigger] pre2[w][k]) as int,
            ) || related(remove2, u, pre2[w][k] as int),
    ensures
        refining(post1, post2, compat, with_entry(sim, u, w, false), remove2, taken, v, rest),
{
    let sim2 = with_entry(sim, u, w, false);
    let gs = greatest_simulation(post1, post2, compat);
    assert(within(sim2, sim));
    assert forall|i: int, j: int| #[trigger] related(sim2, i, j) implies related(compat, i, j) by {
        assert(related(sim, i, j));
    }
    assert forall|i: int, j: int| #[trigger] gs.contains((i, j)) implies related(sim2, i, j) by {
        assert(related(sim, i, j));
        if i == u && j == w {
            lemma_greatest_is_simulation(post1, post2, compat);
            let k = choose|k: int| 0 <= k < post1[u].len() && (#[trigger] post1[u][k]) as int == v;
            assert(answered(post2, gs, post1[u][k] as int, w));
            let l = choose|l: int|
                0 <= l < post2[w].len() && #[trigger] gs.contains((v, post2[w][l] as int));
            assert(related(sim, v, post2[w][l] as int));
            assert(witness(post2, sim, v, w));
            assert(false);
        }
    }
    assert forall|t: int, x: int| #[trigger] related(remove2, t, x) implies !witness(
        post2,
        sim2,
        t,
        x,
    ) by {
        if witness(post2, sim2, t, x) {
            lemma_witness_grows(post2, sim2, sim, t, x);
            if t != u {
                assert(related(remove, t, x));
            } else if related(remove, u, x) {
            } else {
            }
        }
    }
    assert forall|x: int| 0 <= x < taken.len() && #[trigger] taken[x] implies !witness(
        post2,
        sim2,
        v,
        x,
    ) by {
        if witness(post2, sim2, v, x) {
            lemma_witness_grows(post2, sim2, sim, v, x);
        }
    }
    assert forall|a: int, k: int, x: int|
        0 <= a < post1.len() && 0 <= k < post1[a].len() && 0 <= x < post2.len() implies #[trigger] demand(
        post1,
        post2,
        sim2,
        remove2,
        taken,
        v,
        rest,
        a,
        k,
        x,
    ) by {
        if related(sim2, a, x) {
            assert(related(sim, a, x));
            assert(demand(post1, post2, sim, remove, taken, v, rest, a, k, x));
            let t = post1[a][k] as int;
            if related(remove, t, x) {
                if t != u {
                    assert(remove2[t] == remove[t]);
                }
                assert(related(remove2, t, x));
            } else if witness(post2, sim, t, x) {
                let l = choose|l: int|
                    0 <= l < post2[x].len() && #[trigger] related(sim, t, post2[x][l] as int);
                if t == u && post2[x][l] == w {
                    assert(names(pre2[post2[x][l] as int], x));
                    let k2 = choose|k2: int|
                        0 <= k2 < pre2[w].len() && (#[trigger] pre2[w][k2]) as int == x;
                    assert(witness(post2, sim2, u, pre2[w][k2] as int) || related(
                        remove2,
                        u,
                        pre2[w][k2] as int,
                    ));
                } else {
                    assert(related(sim2, t, post2[x][l] as int));
                }
            }
        }
    }
}

/// When the row taken out for `v` holds no candidate of `u` any more, `u`
/// need not stand among the predecessors still to go.
pub proof fn lemma_predecessor_done(
    post1: Seq<Seq<usize>>,
    post2: Seq<Seq<usize>>,
    compat: Seq<Seq<bool>>,
    sim: Seq<Seq<bool>>,
    remove: Seq<Seq<bool>>,
    taken: Seq<bool>,
    v: int,
    list: Seq<usize>,
    k: int,
)
    requires
        0 <= k < list.len(),
        taken.len() == post2.len(),
        refining(post1, post2, compat, sim, remove, taken, v, list.skip(k)),
        forall|w: int| 0 <= w < taken.len() && #[trigger] taken[w] ==> !related(sim, list[k] as int, w),
    ensures
        refining(post1, post2, compat, sim, remove, taken, v, list.skip(k + 1)),
{
    let before = list.skip(k);
    let after = list.skip(k + 1);
    assert forall|a: int, i: int, x: int|
        0 <= a < post1.len() && 0 <= i < post1[a].len() && 0 <= x < post2.len() implies #[trigger] demand(
        post1,
        post2,
        sim,
        remove,
        taken,
        v,
        after,
        a,
        i,
        x,
    ) by {
        assert(demand(post1, post2, sim, remove, taken, v, before, a, i, x));
        if related(sim, a, x) && names(before, a) && taken[x] {
            let c = choose|c: int| 0 <= c < before.len() && (#[trigger] before[c]) as int == a;
            if c == 0 {
                assert(list[k] as int == a);
                assert(false);
            } else {
                assert(after[c - 1] as int == a);
            }
        }
    }
}

/// The greatest simulation, by refinement with remove sets: start from the
/// pairs that may be related and agree in having successors; then, as long
/// as some left position `v` has a non-empty remove set, take the set out of
/// the candidates of every predecessor of `v`.
pub fn refine_with_remove_sets(
    adj1: &AdjacencyList,
    adj_inv1: &AdjacencyList,
    adj2: &AdjacencyList,
    adj_inv2: &AdjacencyList,
    compat: &Vec<Vec<bool>>,
) -> (sim: Vec<Vec<bool>>)
    requires
        inverse_lists(adj1@, adj_inv1@),
        inverse_lists(adj2@, adj_inv2@),
        is_grid(grid(*compat), adj1@.len() as int, adj2@.len() as int),
    ensures
        is_grid(grid(sim), adj1@.len() as int, adj2@.len() as int),
        within(grid(sim), grid(*compat)),
        pairs(grid(sim)) == greatest_simulation(adj1@, adj2@, grid(*compat)),
{
    let n2 = adj2.len();
    let mut sim = initial_candidates(adj1, adj2, compat);
    let mut remove = initial_remove(adj2, &sim);
    proof {
        lemma_initial_refining(adj1@, adj2@, grid(*compat), grid(sim), grid(remove));
    }
    loop
        invariant
            n2 == adj2@.len(),
            inverse_lists(adj1@, adj_inv1@),
            inverse_lists(adj2@, adj_inv2@),
            refining(adj1@, adj2@, grid(*compat), grid(sim), grid(remove), Seq::empty(), 0, Seq::empty()),
        ensures
            refining(adj1@, adj2@, grid(*compat), grid(sim), grid(remove), Seq::empty(), 0, Seq::empty()),
            forall|t: int, w: int| !#[trigger] related(grid(remove), t, w),
        decreases work_left(adj_inv2@, grid(sim), grid(remove)),
    {
        let ghost sim0 = grid(sim);
        let ghost remove0 = grid(remove);
        let ghost ones = unit_weights(n2 as int);
        let ghost costs = candidate_weights(adj_inv2@);
        let ghost before = work_left(adj_inv2@, sim0, remove0);
        let v = match find_pending(&remove) {
            Some(v) => v,
            None => {
                break ;
            },
        };
        let taken = take_row(&mut remove, v);
        proof {
            lemma_take_keeps_state(adj1@, adj_inv1@, adj2@, grid(*compat), sim0, remove0, v as int);
            lemma_grid_weight_update(
                remove0,
                ones,
                v as int,
                Seq::new(taken@.len(), |j: int| false),
            );
            lemma_row_weight_bounds(Seq::new(taken@.len(), |j: int| false), ones);
            lemma_row_weight_bounds(taken@, ones);
            let w = choose|w: int| #[trigger] related(remove0, v as int, w);
            assert(taken@[w]);
            assert(ones[w] == 1);
            assert(adj_inv1@[v as int].skip(0) =~= adj_inv1@[v as int]);
        }
        let preds = adj_inv1.row(v);
        let mut k: usize = 0;
        while k < preds.len()
            invariant
                k <= preds@.len(),
                n2 == adj2@.len(),
                v < adj1@.len(),
                preds@ == adj_inv1@[v as int],
                taken@.len() == n2,
                ones == unit_weights(n2 as int),
                costs == candidate_weights(adj_inv2@),
                inverse_lists(adj1@, adj_inv1@),
                inverse_lists(adj2@, adj_inv2@),
                refining(
                    adj1@,
                    adj2@,
                    grid(*compat),
                    grid(sim),
                    grid(remove),
                    taken@,
                    v as int,
                    preds@.skip(k as int),
                ),
                work_left(adj_inv2@, grid(sim), grid(remove)) < before,
            decreases preds@.len() - k,
        {
            let u = preds[k];
            assert(adj_inv1@[v as int][k as int] < adj_inv1@.len());
            assert(names(adj1@[adj_inv1@[v as int][k as int] as int], v as int));
            let mut w: usize = 0;
            while w < n2
                invariant
                    w <= n2,
                    k < preds@.len(),
                    u == preds@[k as int],
                    u < adj1@.len(),
                    names(adj1@[u as int], v as int),
                    n2 == adj2@.len(),
                    v < adj1@.len(),
                    taken@.len() == n2,
                    ones == unit_weights(n2 as int),
                    costs == candidate_weights(adj_inv2@),
                    inverse_lists(adj2@, adj_inv2@),
                    refining(
                        adj1@,
                        adj2@,
                        grid(*compat),
                        grid(sim),
                        grid(remove),
                        taken@,
                        v as int,
                        preds@.skip(k as int),
                    ),
                    forall|b: int| 0 <= b < w && #[trigger] taken@[b] ==> !related(grid(sim), u as int, b),
                    work_left(adj_inv2@, grid(sim), grid(remove)) < before,
                decreases n2 - w,
            {
                assert(grid(sim)[u as int].len() == n2);
                if taken[w] && get_entry(&sim, u, w) {
                    let ghost sim1 = grid(sim);
                    let ghost remove1 = grid(remove);
                    retract(&mut sim, &mut remove, adj2, adj_inv2, u, w);
                    proof {
                        lemma_retract_keeps_state(
                            adj1@,
                            adj2@,
                            adj_inv2@,
                            grid(*compat),
                            sim1,
                            remove1,
                            taken@,
                            v as int,
                            preds@.skip(k as int),
                            u as int,
                            w as int,
                            grid(remove),
                        );
                        lemma_weight_with_entry(sim1, costs, u as int, w as int, false);
                        assert(costs[w as int] == 1 + adj_inv2@[w as int].len());
                        assert forall|b: int| 0 <= b < w + 1 && #[trigger] taken@[b] implies !related(
                            grid(sim),
                            u as int,
                            b,
                        ) by {
                            if b < w {
                                assert(!related(sim1, u as int, b));
                            }
                        }
                    }
                }
                w = w + 1;
            }
            proof {
                lemma_predecessor_done(
                    adj1@,
                    adj2@,
                    grid(*compat),
                    grid(sim),
                    grid(remove),
                    taken@,
                    v as int,
                    preds@,
                    k as int,
                );
            }
            k = k + 1;
        }
        proof {
            let s = grid(sim);
            let r = grid(remove);
            let last = preds@.skip(k as int);
            assert(last.len() == 0);
            assert forall|a: int, i: int, x: int|
                0 <= a < adj1@.len() && 0 <= i < adj1@[a].len() && 0 <= x < adj2@.len() implies #[trigger] demand(
                adj1@,
                adj2@,
                s,
                r,
                Seq::empty(),
                0,
                Seq::empty(),
                a,
                i,
                x,
            ) by {
                assert(demand(adj1@, adj2@, s, r, taken@, v as int, last, a, i, x));
            }
            lemma_grid_weight_bounds(s, costs, n2 as int);
            lemma_grid_weight_bounds(r, ones, n2 as int);
        }
    }
    proof {
        lemma_refined_is_greatest(adj1@, adj2@, grid(*compat), grid(sim), grid(remove));
    }
    sim
}

/// The successor lists of `n` positions joined by `arcs`.
pub open spec fn rows_of(arcs: Seq<(usize, usize)>, n: int) -> Seq<Seq<usize>> {
    Seq::new(n as nat, |i: int| successors(arcs, i))
}

/// A copy of `m`.
pub fn copy_grid(m: &Vec<Vec<bool>>) -> (c: Vec<Vec<bool>>)
    ensures
        grid(c) == grid(*m),
{
    let mut c: Vec<Vec<bool>> = Vec::new();
    let mut i: usize = 0;
    while i < m.len()
        invariant
            i <= m@.len(),
            c@.len() == i,
            forall|a: int| 0 <= a < i ==> (#[trigger] c@[a])@ == m@[a]@,
        decreases m@.len() - i,
    {
        let src = &m[i];
        let mut row: Vec<bool> = Vec::new();
        let mut j: usize = 0;
        while j < src.len()
            invariant
                j <= src@.len(),
                row@.len() == j,
                forall|b: int| 0 <= b < j ==> #[trigger] row@[b] == src@[b],
            decreases src@.len() - j,
        {
            row.push(src[j]);
            j = j + 1;
        }
        assert(row@ =~= src@);
        c.push(row);
        i = i + 1;
    }
    assert(grid(c) =~= grid(*m));
    c
}

/// Takes out of the candidates of the left position `u` every right
/// position none of whose successors is a candidate of `u2`, a successor of
/// `u`. Says whether anything was taken out.
pub fn prune_edge(sim: &mut Vec<Vec<bool>>, adj2: &AdjacencyList, u: usize, u2: usize) -> (removed:
    bool)
    requires
        is_grid(grid(*old(sim)), grid(*old(sim)).len() as int, adj2@.len() as int),
        u < grid(*old(sim)).len(),
        u2 < grid(*old(sim)).len(),
        forall|j: int, l: int|
            0 <= j < adj2@.len() && 0 <= l < adj2@[j].len() ==> #[trigger] adj2@[j][l] < adj2@.len(),
    ensures
        is_grid(grid(*final(sim)), grid(*old(sim)).len() as int, adj2@.len() as int),
        within(grid(*final(sim)), grid(*old(sim))),
        forall|i: int|
            0 <= i < grid(*old(sim)).len() && i != u ==> #[trigger] grid(*final(sim))[i] == grid(
                *old(sim),
            )[i],
        forall|v: int|
            0 <= v < adj2@.len() ==> #[trigger] grid(*final(sim))[u as int][v] == (grid(
                *old(sim),
            )[u as int][v] && witness(adj2@, grid(*old(sim)), u2 as int, v)),
        removed ==> grid_weight(grid(*final(sim)), unit_weights(adj2@.len() as int)) < grid_weight(
            grid(*old(sim)),
            unit_weights(adj2@.len() as int),
        ),
        !removed ==> grid(*final(sim)) == grid(*old(sim)),
{
    let n2 = adj2.len();
    let ghost s0 = grid(*sim);
    let ghost ones = unit_weights(n2 as int);
    let mut doomed = new_row(n2, false);
    let mut removed = false;
    let mut v: usize = 0;
    while v < n2
        invariant
            v <= n2,
            n2 == adj2@.len(),
            grid(*sim) == s0,
            is_grid(s0, s0.len() as int, n2 as int),
            u < s0.len(),
            u2 < s0.len(),
            doomed@.len() == n2,
            forall|j: int, l: int|
                0 <= j < adj2@.len() && 0 <= l < adj2@[j].len() ==> #[trigger] adj2@[j][l]
                    < adj2@.len(),
            forall|b: int|
                0 <= b < v ==> #[trigger] doomed@[b] == (s0[u as int][b] && !witness(
                    adj2@,
                    s0,
                    u2 as int,
                    b,
                )),
            forall|b: int| v <= b < n2 ==> !#[trigger] doomed@[b],
            removed == exists|b: int| 0 <= b < v && #[trigger] doomed@[b],
        decreases n2 - v,
    {
        assert(s0[u as int].len() == n2);
        assert(s0[u2 as int].len() == n2);
        if get_entry(sim, u, v) {
            let succ = adj2.row(v);
            assert forall|l: int| 0 <= l < succ@.len() implies #[trigger] succ@[l] < sim[u2 as int]@.len() by {
                assert(adj2@[v as int][l] < adj2@.len());
            }
            let found = has_witness(succ, &sim[u2]);
            proof {
                if found {
                    let l = choose|l: int| 0 <= l < succ@.len() && #[trigger] sim[u2 as int]@[succ@[l] as int];
                    assert(related(s0, u2 as int, adj2@[v as int][l] as int));
                }
                if witness(adj2@, s0, u2 as int, v as int) {
                    let l = choose|l: int|
                        0 <= l < adj2@[v as int].len() && #[trigger] related(
                            s0,
                            u2 as int,
                            adj2@[v as int][l] as int,
                        );
                    assert(sim[u2 as int]@[succ@[l] as int]);
                }
            }
            if !found {
                let ghost d0 = doomed@;
                doomed.set(v, true);
                proof {
                    if removed {
                        let b = choose|b: int| 0 <= b < v && #[trigger] d0[b];
                        assert(doomed@[b]);
                    }
                    assert(doomed@[v as int]);
                }
                removed = true;
            }
        }
        v = v + 1;
    }
    let mut v: usize = 0;
    while v < n2
        invariant
            v <= n2,
            n2 == adj2@.len(),
            ones == unit_weights(n2 as int),
            is_grid(s0, s0.len() as int, n2 as int),
            is_grid(grid(*sim), s0.len() as int, n2 as int),
            u < s0.len(),
            doomed@.len() == n2,
            forall|b: int|
                0 <= b < n2 ==> #[trigger] doomed@[b] == (s0[u as int][b] && !witness(
                    adj2@,
                    s0,
                    u2 as int,
                    b,
                )),
            forall|i: int| 0 <= i < s0.len() && i != u ==> #[trigger] grid(*sim)[i] == s0[i],
            forall|b: int|
                0 <= b < v ==> #[trigger] grid(*sim)[u as int][b] == (s0[u as int][b]
                    && !doomed@[b]),
            forall|b: int| v <= b < n2 ==> #[trigger] grid(*sim)[u as int][b] == s0[u as int][b],
            (exists|b: int| 0 <= b < v && #[trigger] doomed@[b]) ==> grid_weight(grid(*sim), ones)
                < grid_weight(s0, ones),
            !(exists|b: int| 0 <= b < v && #[trigger] doomed@[b]) ==> grid(*sim) == s0,
        decreases n2 - v,
    {
        assert(grid(*sim)[u as int].len() == n2);
        if doomed[v] {
            let ghost s1 = grid(*sim);
            set_entry(sim, u, v, false);
            proof {
                lemma_weight_with_entry(s1, ones, u as int, v as int, false);
                assert(ones[v as int] == 1);
                assert(s1[u as int][v as int]);
                assert(doomed@[v as int]);
            }
        } else {
            proof {
                if exists|b: int| 0 <= b < v + 1 && #[trigger] doomed@[b] {
                    let b = choose|b: int| 0 <= b < v + 1 && #[trigger] doomed@[b];
                    assert(b < v);
                }
            }
        }
        v = v + 1;
    }
    proof {
        let s2 = grid(*sim);
        assert forall|i: int, j: int| #[trigger] related(s2, i, j) implies related(s0, i, j) by {
            if i != u {
                assert(s2[i] == s0[i]);
            }
        }
    }
    removed
}

/// Every candidate of the source of the arc has a successor among the
/// candidates of the arc's destination.
pub open spec fn arc_settled(post2: Seq<Seq<usize>>, sim: Seq<Seq<bool>>, arc: (usize, usize)) -> bool {
    forall|v: int| #[trigger]
        related(sim, arc.0 as int, v) ==> witness(post2, sim, arc.1 as int, v)
}

/// Candidates that hold every simulation and settle every arc are the
/// greatest simulation.
pub proof fn lemma_settled_is_greatest(
    arcs1: Seq<(usize, usize)>,
    post2: Seq<Seq<usize>>,
    compat: Seq<Seq<bool>>,
    sim: Seq<Seq<bool>>,
)
    requires
        sim.len() <= usize::MAX,
        is_grid(sim, sim.len() as int, post2.len() as int),
        within(sim, compat),
        forall|i: int, j: int| #[trigger]
            greatest_simulation(rows_of(arcs1, sim.len() as int), post2, compat).contains((i, j))
                ==> related(sim, i, j),
        forall|a: int| 0 <= a < arcs1.len() ==> arc_settled(post2, sim, #[trigger] arcs1[a]),
    ensures
        pairs(sim) == greatest_simulation(rows_of(arcs1, sim.len() as int), post2, compat),
{
    let post1 = rows_of(arcs1, sim.len() as int);
    let gs = greatest_simulation(post1, post2, compat);
    let s = pairs(sim);
    assert forall|i: int, j: int| #[trigger] s.contains((i, j)) implies {
        &&& 0 <= i < post1.len()
        &&& 0 <= j < post2.len()
        &&& related(compat, i, j)
        &&& forall|k: int|
            0 <= k < post1[i].len() ==> answered(post2, s, (#[trigger] post1[i][k]) as int, j)
    } by {
        assert(related(sim, i, j));
        assert forall|k: int| 0 <= k < post1[i].len() implies answered(
            post2,
            s,
            (#[trigger] post1[i][k]) as int,
            j,
        ) by {
            let t = post1[i][k];
            lemma_successors_members(arcs1, i);
            assert(arcs1.contains((i as usize, successors(arcs1, i)[k])));
            let a = choose|a: int| 0 <= a < arcs1.len() && arcs1[a] == (i as usize, t);
            assert(arc_settled(post2, sim, arcs1[a]));
            assert(arcs1[a].0 as int == i);
            assert(related(sim, arcs1[a].0 as int, j));
            assert(witness(post2, sim, t as int, j));
            let l = choose|l: int|
                0 <= l < post2[j].len() && #[trigger] related(sim, t as int, post2[j][l] as int);
            assert(s.contains((t as int, post2[j][l] as int)));
        }
    }
    assert(is_simulation(post1, post2, compat, s));
    assert forall|p: (int, int)| gs.contains(p) implies s.contains(p) by {
        assert(gs.contains((p.0, p.1)));
        assert(related(sim, p.0, p.1));
    }
    assert(s =~= gs);
}

/// What `prune_edge` takes out stands in no simulation.
pub proof fn lemma_prune_keeps_greatest(
    arcs1: Seq<(usize, usize)>,
    post2: Seq<Seq<usize>>,
    compat: Seq<Seq<bool>>,
    sim: Seq<Seq<bool>>,
    sim2: Seq<Seq<bool>>,
    a: int,
)
    requires
        0 <= a < arcs1.len(),
        arcs_within(arcs1, sim.len() as int),
        is_grid(sim, sim.len() as int, post2.len() as int),
        is_grid(sim2, sim.len() as int, post2.len() as int),
        forall|i: int, j: int| #[trigger]
            greatest_simulation(rows_of(arcs1, sim.len() as int), post2, compat).contains((i, j))
                ==> related(sim, i, j),
        forall|i: int| 0 <= i < sim.len() && i != arcs1[a].0 ==> #[trigger] sim2[i] == sim[i],
        forall|v: int|
            0 <= v < post2.len() ==> #[trigger] sim2[arcs1[a].0 as int][v] == (sim[arcs1[a].0 as int][v]
                && witness(post2, sim, arcs1[a].1 as int, v)),
    ensures
        forall|i: int, j: int| #[trigger]
            greatest_simulation(rows_of(arcs1, sim.len() as int), post2, compat).contains((i, j))
                ==> related(sim2, i, j),
{
    let post1 = rows_of(arcs1, sim.len() as int);
    let gs = greatest_simulation(post1, post2, compat);
    let u = arcs1[a].0 as int;
    let u2 = arcs1[a].1 as int;
    lemma_greatest_is_simulation(post1, post2, compat);
    assert forall|i: int, j: int| #[trigger] gs.contains((i, j)) implies related(sim2, i, j) by {
        assert(related(sim, i, j));
        if i == u {
            lemma_successors_members(arcs1, u);
            assert(successors(arcs1, u).contains(arcs1[a].1));
            let k = choose|k: int| 0 <= k < successors(arcs1, u).len() && successors(arcs1, u)[k] == arcs1[a].1;
            assert(post1[u][k] == arcs1[a].1);
            assert(answered(post2, gs, post1[u][k] as int, j));
            let l = choose|l: int|
                0 <= l < post2[j].len() && #[trigger] gs.contains((u2, post2[j][l] as int));
            assert(related(sim, u2, post2[j][l] as int));
            assert(witness(post2, sim, u2, j));
            assert(sim2[u][j] == (sim[u][j] && witness(post2, sim, u2, j)));
        } else {
            assert(sim2[i] == sim[i]);
        }
    }
}

/// The greatest simulation, by the plain fixed point: start from all pairs
/// that may be related, and go through the arcs of the left graph, pruning
/// along each, until a whole pass prunes nothing.
pub fn refine_by_passes(
    n1: usize,
    arcs1: &Vec<(usize, usize)>,
    adj2: &AdjacencyList,
    compat: &Vec<Vec<bool>>,
) -> (sim: Vec<Vec<bool>>)
    requires
        arcs_within(arcs1@, n1 as int),
        is_grid(grid(*compat), n1 as int, adj2@.len() as int),
        forall|j: int, l: int|
            0 <= j < adj2@.len() && 0 <= l < adj2@[j].len() ==> #[trigger] adj2@[j][l] < adj2@.len(),
    ensures
        is_grid(grid(sim), n1 as int, adj2@.len() as int),
        within(grid(sim), grid(*compat)),
        pairs(grid(sim)) == greatest_simulation(rows_of(arcs1@, n1 as int), adj2@, grid(*compat)),
{
    let ghost n2 = adj2@.len() as int;
    let ghost ones = unit_weights(n2);
    let ghost post1 = rows_of(arcs1@, n1 as int);
    let mut sim = copy_grid(compat);
    let mut changed = true;
    while changed
        invariant
            n2 == adj2@.len(),
            ones == unit_weights(n2),
            post1 == rows_of(arcs1@, n1 as int),
            arcs_within(arcs1@, n1 as int),
            forall|j: int, l: int|
                0 <= j < adj2@.len() && 0 <= l < adj2@[j].len() ==> #[trigger] adj2@[j][l]
                    < adj2@.len(),
            is_grid(grid(sim), n1 as int, n2),
            within(grid(sim), grid(*compat)),
            forall|i: int, j: int| #[trigger]
                greatest_simulation(post1, adj2@, grid(*compat)).contains((i, j)) ==> related(
                    grid(sim),
                    i,
                    j,
                ),
            !changed ==> forall|a: int|
                0 <= a < arcs1@.len() ==> arc_settled(adj2@, grid(sim), #[trigger] arcs1@[a]),
        decreases
                grid_weight(grid(sim), ones) + if changed {
                    1int
                } else {
                    0int
                },
    {
        let ghost start = grid(sim);
        proof {
            lemma_grid_weight_bounds(start, ones, n2);
        }
        changed = false;
        let mut a: usize = 0;
        while a < arcs1.len()
            invariant
                a <= arcs1@.len(),
                n2 == adj2@.len(),
                ones == unit_weights(n2),
                post1 == rows_of(arcs1@, n1 as int),
                arcs_within(arcs1@, n1 as int),
                forall|j: int, l: int|
                    0 <= j < adj2@.len() && 0 <= l < adj2@[j].len() ==> #[trigger] adj2@[j][l]
                        < adj2@.len(),
                is_grid(grid(sim), n1 as int, n2),
                within(grid(sim), grid(*compat)),
                within(grid(sim), start),
                forall|i: int, j: int| #[trigger]
                    greatest_simulation(post1, adj2@, grid(*compat)).contains((i, j)) ==> related(
                        grid(sim),
                        i,
                        j,
                    ),
                changed ==> grid_weight(grid(sim), ones) < grid_weight(start, ones),
                !changed ==> grid(sim) == start,
                !changed ==> forall|b: int|
                    0 <= b < a ==> arc_settled(adj2@, grid(sim), #[trigger] arcs1@[b]),
            decreases arcs1@.len() - a,
        {
            let (u, u2) = arcs1[a];
            assert(arcs1@[a as int].0 < n1);
            let ghost s1 = grid(sim);
            let removed = prune_edge(&mut sim, adj2, u, u2);
            proof {
                let s2 = grid(sim);
                lemma_prune_keeps_greatest(arcs1@, adj2@, grid(*compat), s1, s2, a as int);
                assert forall|i: int, j: int| #[trigger] related(s2, i, j) implies related(
                    grid(*compat),
                    i,
                    j,
                ) && related(start, i, j) by {
                    assert(related(s1, i, j));
                }
                if !removed && !changed {
                    assert forall|b: int| 0 <= b < a + 1 implies arc_settled(
                        adj2@,
                        s2,
                        #[trigger] arcs1@[b],
                    ) by {
                        if b == a {
                            assert forall|v: int| #[trigger]
                                related(s2, u as int, v) implies witness(adj2@, s2, u2 as int, v) by {
                                assert(s2[u as int][v] == (s1[u as int][v] && witness(
                                    adj2@,
                                    s1,
                                    u2 as int,
                                    v,
                                )));
                            }
                        }
                    }
                }
            }
            if removed {
                changed = true;
            }
            a = a + 1;
        }
        proof {
            lemma_grid_weight_bounds(grid(sim), ones, n2);
        }
    }
    proof {
        lemma_settled_is_greatest(arcs1@, adj2@, grid(*compat), grid(sim));
    }
    sim
}

/// The successor lists and the predecessor lists of the same arcs are
/// inverse to each other.
pub proof fn lemma_lists_are_inverse(
    arcs: Seq<(usize, usize)>,
    n: int,
    post: Seq<Seq<usize>>,
    pre: Seq<Seq<usize>>,
)
    requires
        arcs_within(arcs, n),
        post.len() == n,
        pre.len() == n,
        forall|i: int| 0 <= i < n ==> #[trigger] post[i] == successors(arcs, i),
        forall|i: int| 0 <= i < n ==> #[trigger] pre[i] == predecessors(arcs, i),
    ensures
        inverse_lists(post, pre),
        post == rows_of(arcs, n),
{
    assert forall|i: int, k: int| 0 <= i < post.len() && 0 <= k < post[i].len() implies (
    #[trigger] post[i][k]) < post.len() && names(pre[post[i][k] as int], i) by {
        lemma_successors_members(arcs, i);
        let x = post[i][k];
        assert(arcs.contains((i as usize, successors(arcs, i)[k])));
        let a = choose|a: int| 0 <= a < arcs.len() && arcs[a] == (i as usize, x);
        assert(arcs[a].1 < n);
        lemma_predecessors_members(arcs, x as int);
        assert(predecessors(arcs, x as int).contains(arcs[a].0));
        let c = choose|c: int|
            0 <= c < predecessors(arcs, x as int).len() && predecessors(arcs, x as int)[c]
                == arcs[a].0;
        assert(pre[x as int][c] as int == i);
    }
    assert forall|j: int, k: int| 0 <= j < pre.len() && 0 <= k < pre[j].len() implies (
    #[trigger] pre[j][k]) < pre.len() && names(post[pre[j][k] as int], j) by {
        lemma_predecessors_members(arcs, j);
        let x = pre[j][k];
        assert(arcs.contains((predecessors(arcs, j)[k], j as usize)));
        let a = choose|a: int| 0 <= a < arcs.len() && arcs[a] == (x, j as usize);
        assert(arcs[a].0 < n);
        lemma_successors_members(arcs, x as int);
        assert(successors(arcs, x as int).contains(arcs[a].1));
        let c = choose|c: int|
            0 <= c < successors(arcs, x as int).len() && successors(arcs, x as int)[c] == arcs[a].1;
        assert(post[x as int][c] as int == j);
    }
    assert(post =~= rows_of(arcs, n));
}

/// Which positions of `g1` and `g2` carry the same label, by the measure of
/// `g1`.
pub open spec fn label_grid<G: Labeled>(g1: &G, g2: &G) -> Seq<Seq<bool>> {
    Seq::new(
        g1.node_seq().len(),
        |i: int|
            Seq::new(
                g2.node_seq().len(),
                |j: int| g1.same_label(&g1.node_seq()[i], &g2.node_seq()[j]),
            ),
    )
}

/// The greatest simulation of `g1` by `g2`, as pairs of positions.
pub open spec fn simulation_between<G: Labeled>(g1: &G, g2: &G) -> Set<(int, int)> {
    greatest_simulation(
        rows_of(arcs(g1), g1.node_seq().len() as int),
        rows_of(arcs(g2), g2.node_seq().len() as int),
        label_grid(g1, g2),
    )
}

/// The ids of the right nodes that `s` relates to the left position `i`.
pub open spec fn image<N: SingleId>(right: Seq<N>, s: Set<(int, int)>, i: int) -> Set<u64> {
    Set::new(
        |id: u64|
            exists|j: int| 0 <= j < right.len() && #[trigger] right[j].spec_id() == id && s.contains((i, j)),
    )
}

/// `m` presents the relation `s` between positions by ids: it maps the id
/// of each left node to the ids of the right nodes related to it, and holds
/// no other key.
pub open spec fn presents<N: SingleId>(
    m: Map<u64, HashSet<u64>>,
    left: Seq<N>,
    right: Seq<N>,
    s: Set<(int, int)>,
) -> bool {
    &&& forall|id: u64| #[trigger] m.contains_key(id) <==> has_id(left, id)
    &&& forall|i: int|
        0 <= i < left.len() ==> m[(#[trigger] left[i]).spec_id()]@ == image(right, s, i)
}

/// The grid of the pairs of nodes that carry the same label.
pub fn label_matrix<G: Labeled>(g1: &G, g2: &G) -> (m: Vec<Vec<bool>>)
    requires
        g1.comparable(),
    ensures
        grid(m) == label_grid(g1, g2),
{
    let left = g1.nodes();
    let right = g2.nodes();
    let mut m: Vec<Vec<bool>> = Vec::new();
    let mut i: usize = 0;
    while i < left.len()
        invariant
            i <= left@.len(),
            g1.comparable(),
            left@ == g1.node_seq(),
            right@ == g2.node_seq(),
            m@.len() == i,
            forall|a: int| 0 <= a < i ==> (#[trigger] m@[a])@ == label_grid(g1, g2)[a],
        decreases left@.len() - i,
    {
        let mut row: Vec<bool> = Vec::new();
        let mut j: usize = 0;
        while j < right.len()
            invariant
                j <= right@.len(),
                i < left@.len(),
                g1.comparable(),
                left@ == g1.node_seq(),
                right@ == g2.node_seq(),
                row@.len() == j,
                forall|b: int|
                    0 <= b < j ==> #[trigger] row@[b] == g1.same_label(&left@[i as int], &right@[b]),
            decreases right@.len() - j,
        {
            row.push(g1.label_same(&left[i], &right[j]));
            j = j + 1;
        }
        assert(row@ =~= label_grid(g1, g2)[i as int]);
        m.push(row);
        i = i + 1;
    }
    assert(grid(m) =~= label_grid(g1, g2));
    m
}

/// The relation `rel` between positions, presented by ids.
pub fn to_map<N: SingleId>(left: &[N], right: &[N], rel: &Vec<Vec<bool>>) -> (m: HashMap<
    u64,
    HashSet<u64>,
>)
    requires
        distinct_ids(left@),
        is_grid(grid(*rel), left@.len() as int, right@.len() as int),
    ensures
        presents(m@, left@, right@, pairs(grid(*rel))),
{
    let ghost s = pairs(grid(*rel));
    let mut m: HashMap<u64, HashSet<u64>> = HashMap::new();
    let mut i: usize = 0;
    while i < left.len()
        invariant
            i <= left@.len(),
            s == pairs(grid(*rel)),
            distinct_ids(left@),
            is_grid(grid(*rel), left@.len() as int, right@.len() as int),
            forall|id: u64| #[trigger] m@.contains_key(id) <==> has_id(left@.take(i as int), id),
            forall|a: int|
                0 <= a < i ==> m@[(#[trigger] left@[a]).spec_id()]@ == image(right@, s, a),
        decreases left@.len() - i,
    {
        let mut set: HashSet<u64> = HashSet::new();
        let mut j: usize = 0;
        while j < right.len()
            invariant
                j <= right@.len(),
                i < left@.len(),
                s == pairs(grid(*rel)),
                is_grid(grid(*rel), left@.len() as int, right@.len() as int),
                set@ == image(right@.take(j as int), s, i as int),
            decreases right@.len() - j,
        {
            assert(grid(*rel)[i as int].len() == right@.len());
            let ghost before = set@;
            if rel[i][j] {
                set.insert(right[j].id());
            }
            proof {
                let small = right@.take(j as int);
                let large = right@.take(j as int + 1);
                assert forall|id: u64| set@.contains(id) <==> image(large, s, i as int).contains(
                    id,
                ) by {
                    if image(small, s, i as int).contains(id) {
                        let b = choose|b: int|
                            0 <= b < small.len() && #[trigger] small[b].spec_id() == id && s.contains(
                                (i as int, b),
                            );
                        assert(large[b].spec_id() == id);
                    }
                    if image(large, s, i as int).contains(id) {
                        let b = choose|b: int|
                            0 <= b < large.len() && #[trigger] large[b].spec_id() == id && s.contains(
                                (i as int, b),
                            );
                        if b < j {
                            assert(small[b].spec_id() == id);
                        } else {
                            assert(related(grid(*rel), i as int, j as int));
                        }
                    }
                    if rel@[i as int]@[j as int] {
                        assert(related(grid(*rel), i as int, j as int));
                        assert(s.contains((i as int, j as int)));
                        assert(large[j as int].spec_id() == right@[j as int].spec_id());
                    }
                }
                assert(set@ =~= image(large, s, i as int));
            }
            j = j + 1;
        }
        let key = left[i].id();
        let ghost before = m@;
        m.insert(key, set);
        proof {
            assert(right@.take(j as int) =~= right@);
            let small = left@.take(i as int);
            let large = left@.take(i as int + 1);
            assert forall|id: u64| #[trigger] m@.contains_key(id) <==> has_id(large, id) by {
                if has_id(small, id) {
                    let a = choose|a: int| 0 <= a < small.len() && #[trigger] small[a].spec_id() == id;
                    assert(large[a].spec_id() == id);
                }
                if has_id(large, id) {
                    let a = choose|a: int| 0 <= a < large.len() && #[trigger] large[a].spec_id() == id;
                    if a < i {
                        assert(small[a].spec_id() == id);
                    }
                }
                assert(large[i as int].spec_id() == key);
            }
            assert forall|a: int| 0 <= a < i + 1 implies m@[(#[trigger] left@[a]).spec_id()]@
                == image(right@, s, a) by {
                if a < i {
                    assert(left@[a].spec_id() != left@[i as int].spec_id());
                }
            }
        }
        i = i + 1;
    }
    proof {
        assert(left@.take(i as int) =~= left@);
    }
    m
}

/// A graph that can be matched against another by simulation.
pub trait Simulation: Labeled + Adjacency + AdjacencyInv + Directed {
    /// The greatest simulation of the graph by itself.
    fn get_simulation(&self) -> (sim: HashMap<u64, HashSet<u64>>)
        requires
            well_formed(self),
            self.comparable(),
        ensures
            presents(sim@, self.node_seq(), self.node_seq(), simulation_between(self, self)),
    ;

    /// The greatest simulation of the graph by `other`, by refinement with
    /// remove sets.
    fn get_simulation_inter(&self, other: &Self) -> (sim: HashMap<u64, HashSet<u64>>)
        requires
            well_formed(self),
            well_formed(other),
            self.comparable(),
        ensures
            presents(sim@, self.node_seq(), other.node_seq(), simulation_between(self, other)),
    ;

    /// The greatest simulation of the graph by `other`, by the plain fixed
    /// point.
    fn get_simulation_native(&self, other: &Self) -> (sim: HashMap<u64, HashSet<u64>>)
        requires
            well_formed(self),
            well_formed(other),
            self.comparable(),
        ensures
            presents(sim@, self.node_seq(), other.node_seq(), simulation_between(self, other)),
    ;

    /// Whether every node has a partner: no image is empty.
    fn has_simulation(sim: HashMap<u64, HashSet<u64>>) -> (r: bool)
        ensures
            r == forall|id: u64| #[trigger] sim@.contains_key(id) ==> !sim@[id]@.is_empty(),
    ;
}

/// The greatest simulation of `g1` by `g2`, as a grid over positions.
fn simulate_with_remove_sets<G: Labeled + Adjacency + AdjacencyInv + Directed>(g1: &G, g2: &G) -> (rel:
    Vec<Vec<bool>>)
    requires
        well_formed(g1),
        well_formed(g2),
        g1.comparable(),
    ensures
        is_grid(grid(rel), g1.node_seq().len() as int, g2.node_seq().len() as int),
        pairs(grid(rel)) == simulation_between(g1, g2),
{
    let count1 = g1.nodes().len();
    let count2 = g2.nodes().len();
    let adj1 = g1.get_adj();
    let adj_inv1 = g1.get_adj_inv();
    let adj2 = g2.get_adj();
    let adj_inv2 = g2.get_adj_inv();
    let compat = label_matrix(g1, g2);
    proof {
        lemma_arcs_within(g1.node_seq(), g1.edge_seq());
        lemma_arcs_within(g2.node_seq(), g2.edge_seq());
        lemma_lists_are_inverse(arcs(g1), count1 as int, adj1@, adj_inv1@);
        lemma_lists_are_inverse(arcs(g2), count2 as int, adj2@, adj_inv2@);
    }
    refine_with_remove_sets(&adj1, &adj_inv1, &adj2, &adj_inv2, &compat)
}

impl<T: Labeled + Adjacency + AdjacencyInv + Directed> Simulation for T {
    fn get_simulation(&self) -> (sim: HashMap<u64, HashSet<u64>>) {
        let rel = simulate_with_remove_sets(self, self);
        to_map(self.nodes(), self.nodes(), &rel)
    }

    fn get_simulation_inter(&self, other: &Self) -> (sim: HashMap<u64, HashSet<u64>>) {
        let rel = simulate_with_remove_sets(self, other);
        to_map(self.nodes(), other.nodes(), &rel)
    }

    fn get_simulation_native(&self, other: &Self) -> (sim: HashMap<u64, HashSet<u64>>) {
        let nodes = self.nodes();
        let count2 = other.nodes().len();
        let adj2 = other.get_adj();
        let _adj_inv2 = other.get_adj_inv();
        let compat = label_matrix(self, other);
        let mut rel: Vec<Vec<bool>> = Vec::new();
        match index_nodes(nodes) {
            Ok(table) => {
                let arcs1 = resolve_arcs(nodes, self.edges(), &table);
                proof {
                    lemma_arcs_within(other.node_seq(), other.edge_seq());
                    lemma_lists_are_inverse(arcs(other), count2 as int, adj2@, _adj_inv2@);
                }
                rel = refine_by_passes(nodes.len(), &arcs1, &adj2, &compat);
            },
            Err(_) => {},
        }
        to_map(nodes, other.nodes(), &rel)
    }

    fn has_simulation(sim: HashMap<u64, HashSet<u64>>) -> (r: bool) {
        let mut all = true;
        for entry in it: sim.iter()
            invariant
                it.seq() == sim.iter().remaining(),
                all == forall|a: int| 0 <= a < it.index() ==> !(#[trigger] it.seq()[a]).1@.is_empty(),
        {
            let (_id, image) = entry;
            if image.is_empty() {
                all = false;
            }
        }
        proof {
            vstd::std_specs::hash::axiom_spec_hash_map_iter(&sim);
            let seq = sim.iter().remaining();
            if all {
                assert forall|id: u64| #[trigger] sim@.contains_key(id) implies !sim@[id]@.is_empty() by {
                    assert(seq.contains((&id, &sim@[id])));
                    let a = choose|a: int| 0 <= a < seq.len() && seq[a] == (&id, &sim@[id]);
                    assert(!seq[a].1@.is_empty());
                }
            } else {
                let a = choose|a: int| 0 <= a < seq.len() && (#[trigger] seq[a]).1@.is_empty();
                assert(sim@.contains_key(*seq[a].0) && sim@[*seq[a].0] == *seq[a].1);
            }
        }
        all
    }
}

/// Label soundness: the greatest simulation relates only nodes that carry
/// the same label.
pub proof fn lemma_label_soundness<G: Labeled>(g1: &G, g2: &G, i: int, j: int)
    requires
        simulation_between(g1, g2).contains((i, j)),
    ensures
        0 <= i < g1.node_seq().len(),
        0 <= j < g2.node_seq().len(),
        g1.same_label(&g1.node_seq()[i], &g2.node_seq()[j]),
{
    lemma_greatest_is_simulation(
        rows_of(arcs(g1), g1.node_seq().len() as int),
        rows_of(arcs(g2), g2.node_seq().len() as int),
        label_grid(g1, g2),
    );
    assert(related(label_grid(g1, g2), i, j));
}

/// Successor witness: where the greatest simulation relates `i` to `j`,
/// every successor of `i` is related to some successor of `j`.
pub proof fn lemma_successor_witness<G: Labeled>(g1: &G, g2: &G, i: int, j: int, k: int)
    requires
        simulation_between(g1, g2).contains((i, j)),
        0 <= k < successors(arcs(g1), i).len(),
    ensures
        exists|l: int|
            0 <= l < successors(arcs(g2), j).len() && #[trigger] simulation_between(g1, g2).contains(
                (successors(arcs(g1), i)[k] as int, successors(arcs(g2), j)[l] as int),
            ),
{
    let post1 = rows_of(arcs(g1), g1.node_seq().len() as int);
    let post2 = rows_of(arcs(g2), g2.node_seq().len() as int);
    let gs = simulation_between(g1, g2);
    lemma_greatest_is_simulation(post1, post2, label_grid(g1, g2));
    assert(answered(post2, gs, post1[i][k] as int, j));
    let l = choose|l: int|
        0 <= l < post2[j].len() && #[trigger] gs.contains((post1[i][k] as int, post2[j][l] as int));
    assert(gs.contains((successors(arcs(g1), i)[k] as int, successors(arcs(g2), j)[l] as int)));
}

/// Out-degree coherence: where the greatest simulation relates `i` to `j`
/// and `i` has a successor, `j` has one too.
pub proof fn lemma_successor_on_both_sides<G: Labeled>(g1: &G, g2: &G, i: int, j: int)
    requires
        simulation_between(g1, g2).contains((i, j)),
        successors(arcs(g1), i).len() > 0,
    ensures
        successors(arcs(g2), j).len() > 0,
{
    lemma_successor_witness(g1, g2, i, j, 0);
}

/// Greatest fixed point: a relation between the positions of `g1` and `g2`
/// that relates only nodes of the same label, and answers every successor on
/// the left by one on the right, lies within the greatest simulation.
pub proof fn lemma_greatest_fixed_point<G: Labeled>(g1: &G, g2: &G, s: Set<(int, int)>)
    requires
        is_simulation(
            rows_of(arcs(g1), g1.node_seq().len() as int),
            rows_of(arcs(g2), g2.node_seq().len() as int),
            label_grid(g1, g2),
            s,
        ),
    ensures
        s.subset_of(simulation_between(g1, g2)),
{
}

/// Two maps that present the same relation hold the same keys and the same
/// image under each: so the two inter-graph engines, which both present the
/// greatest simulation, agree.
pub proof fn lemma_engines_agree<N: SingleId>(
    inter: Map<u64, HashSet<u64>>,
    native: Map<u64, HashSet<u64>>,
    left: Seq<N>,
    right: Seq<N>,
    s: Set<(int, int)>,
)
    requires
        presents(inter, left, right, s),
        presents(native, left, right, s),
    ensures
        forall|id: u64| inter.contains_key(id) <==> native.contains_key(id),
        forall|id: u64| #[trigger] inter.contains_key(id) ==> inter[id]@ == native[id]@,
{
    assert forall|id: u64| #[trigger] inter.contains_key(id) implies inter[id]@ == native[id]@ by {
        assert(has_id(left, id));
        let i = choose|i: int| 0 <= i < left.len() && #[trigger] left[i].spec_id() == id;
        assert(inter[left[i].spec_id()]@ == image(right, s, i));
        assert(native[left[i].spec_id()]@ == image(right, s, i));
    }
}

} // verus!
