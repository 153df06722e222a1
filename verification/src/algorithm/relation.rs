//! Binary relations between positions, held as a grid of booleans, and the
//! weights by which the engines measure their progress.

use vstd::prelude::*;

verus! {

/// The rows of `m` as sequences.
pub open spec fn grid(m: Vec<Vec<bool>>) -> Seq<Seq<bool>> {
    Seq::new(m@.len(), |i: int| m@[i]@)
}

/// `g` has `h` rows of `w` entries each.
pub open spec fn is_grid(g: Seq<Seq<bool>>, h: int, w: int) -> bool {
    g.len() == h && forall|i: int| 0 <= i < h ==> (#[trigger] g[i]).len() == w
}

/// The pair `(i, j)` stands in the relation that `g` holds.
pub open spec fn related(g: Seq<Seq<bool>>, i: int, j: int) -> bool {
    0 <= i < g.len() && 0 <= j < g[i].len() && g[i][j]
}

/// The relation that `g` holds, as a set of pairs.
pub open spec fn pairs(g: Seq<Seq<bool>>) -> Set<(int, int)> {
    Set::new(|p: (int, int)| related(g, p.0, p.1))
}

/// Every pair of `a` stands in `b`.
pub open spec fn within(a: Seq<Seq<bool>>, b: Seq<Seq<bool>>) -> bool {
    forall|i: int, j: int| #[trigger] related(a, i, j) ==> related(b, i, j)
}

/// `g` with the entry at `(i, j)` set to `b`.
pub open spec fn with_entry(g: Seq<Seq<bool>>, i: int, j: int, b: bool) -> Seq<Seq<bool>> {
    g.update(i, g[i].update(j, b))
}

/// The sum of `wt[j]` over the entries `j` of `row` that hold.
pub open spec fn row_weight(row: Seq<bool>, wt: Seq<int>) -> int
    decreases row.len(),
{
    if row.len() == 0 {
        0
    } else {
        row_weight(row.drop_last(), wt) + if row.last() {
            wt[row.len() - 1]
        } else {
            0
        }
    }
}

/// The sum of the weights of the rows of `g`.
pub open spec fn grid_weight(g: Seq<Seq<bool>>, wt: Seq<int>) -> int
    decreases g.len(),
{
    if g.len() == 0 {
        0
    } else {
        grid_weight(g.drop_last(), wt) + row_weight(g.last(), wt)
    }
}

/// No weight is negative.
pub open spec fn weights_ok(wt: Seq<int>, w: int) -> bool {
    wt.len() == w && forall|j: int| 0 <= j < w ==> #[trigger] wt[j] >= 0
}

pub proof fn lemma_row_weight_bounds(row: Seq<bool>, wt: Seq<int>)
    requires
        weights_ok(wt, row.len() as int),
    ensures
        row_weight(row, wt) >= 0,
        forall|j: int| 0 <= j < row.len() && row[j] ==> row_weight(row, wt) >= #[trigger] wt[j],
        (forall|j: int| 0 <= j < row.len() ==> !#[trigger] row[j]) ==> row_weight(row, wt) == 0,
    decreases row.len(),
{
    if row.len() > 0 {
        let rest = row.drop_last();
        let wr = wt.drop_last();
        lemma_row_weight_prefix(rest, wt, wr);
        lemma_row_weight_bounds(rest, wr);
        assert forall|j: int| 0 <= j < row.len() && row[j] implies row_weight(row, wt)
            >= #[trigger] wt[j] by {
            if j < rest.len() {
                assert(rest[j] == row[j]);
                assert(wr[j] == wt[j]);
            }
        }
        if forall|j: int| 0 <= j < row.len() ==> !#[trigger] row[j] {
            assert forall|j: int| 0 <= j < rest.len() implies !#[trigger] rest[j] by {
                assert(rest[j] == row[j]);
            }
        }
    }
}

/// Only the weights below the row's length count.
pub proof fn lemma_row_weight_prefix(row: Seq<bool>, wt: Seq<int>, wt2: Seq<int>)
    requires
        forall|j: int| 0 <= j < row.len() ==> wt[j] == wt2[j],
    ensures
        row_weight(row, wt) == row_weight(row, wt2),
    decreases row.len(),
{
    if row.len() > 0 {
        lemma_row_weight_prefix(row.drop_last(), wt, wt2);
    }
}

/// Setting one entry of a row changes its weight by that entry's weight.
pub proof fn lemma_row_weight_update(row: Seq<bool>, wt: Seq<int>, j: int, b: bool)
    requires
        0 <= j < row.len(),
    ensures
        row_weight(row.update(j, b), wt) == row_weight(row, wt) + (if b {
            wt[j]
        } else {
            0
        }) - (if row[j] {
            wt[j]
        } else {
            0
        }),
    decreases row.len(),
{
    let upd = row.update(j, b);
    if j == row.len() - 1 {
        assert(upd.drop_last() =~= row.drop_last());
    } else {
        lemma_row_weight_update(row.drop_last(), wt, j, b);
        assert(upd.drop_last() =~= row.drop_last().update(j, b));
    }
}

/// Replacing one row changes the weight of the grid by the difference of the
/// two rows' weights.
pub proof fn lemma_grid_weight_update(g: Seq<Seq<bool>>, wt: Seq<int>, i: int, row: Seq<bool>)
    requires
        0 <= i < g.len(),
    ensures
        grid_weight(g.update(i, row), wt) == grid_weight(g, wt) + row_weight(row, wt) - row_weight(
            g[i],
            wt,
        ),
    decreases g.len(),
{
    let upd = g.update(i, row);
    if i == g.len() - 1 {
        assert(upd.drop_last() =~= g.drop_last());
    } else {
        lemma_grid_weight_update(g.drop_last(), wt, i, row);
        assert(upd.drop_last() =~= g.drop_last().update(i, row));
    }
}

/// Setting one entry changes the weight of the grid by that entry's weight.
pub proof fn lemma_weight_with_entry(g: Seq<Seq<bool>>, wt: Seq<int>, i: int, j: int, b: bool)
    requires
        0 <= i < g.len(),
        0 <= j < g[i].len(),
    ensures
        grid_weight(with_entry(g, i, j, b), wt) == grid_weight(g, wt) + (if b {
            wt[j]
        } else {
            0
        }) - (if g[i][j] {
            wt[j]
        } else {
            0
        }),
{
    lemma_grid_weight_update(g, wt, i, g[i].update(j, b));
    lemma_row_weight_update(g[i], wt, j, b);
}

/// The weight of a grid is not negative, and at least that of each row.
pub proof fn lemma_grid_weight_bounds(g: Seq<Seq<bool>>, wt: Seq<int>, w: int)
    requires
        is_grid(g, g.len() as int, w),
        weights_ok(wt, w),
    ensures
        grid_weight(g, wt) >= 0,
        forall|i: int| 0 <= i < g.len() ==> grid_weight(g, wt) >= row_weight(#[trigger] g[i], wt),
    decreases g.len(),
{
    if g.len() > 0 {
        let rest = g.drop_last();
        lemma_grid_weight_bounds(rest, wt, w);
        lemma_row_weight_bounds(g.last(), wt);
        assert forall|i: int| 0 <= i < g.len() implies grid_weight(g, wt) >= row_weight(
            #[trigger] g[i],
            wt,
        ) by {
            if i < rest.len() {
                assert(rest[i] == g[i]);
            }
        }
    }
}

/// A grid of `h` rows and `w` columns, every entry `fill`.
pub fn new_grid(h: usize, w: usize, fill: bool) -> (m: Vec<Vec<bool>>)
    ensures
        is_grid(grid(m), h as int, w as int),
        forall|i: int, j: int| 0 <= i < h && 0 <= j < w ==> #[trigger] grid(m)[i][j] == fill,
{
    let mut m: Vec<Vec<bool>> = Vec::new();
    let mut i: usize = 0;
    while i < h
        invariant
            i <= h,
            is_grid(grid(m), i as int, w as int),
            forall|a: int, j: int| 0 <= a < i && 0 <= j < w ==> #[trigger] grid(m)[a][j] == fill,
        decreases h - i,
    {
        let row = new_row(w, fill);
        let ghost before = grid(m);
        m.push(row);
        proof {
            assert(grid(m) =~= before.push(row@));
        }
        i = i + 1;
    }
    m
}

/// A row of `w` entries, every one `fill`.
pub fn new_row(w: usize, fill: bool) -> (row: Vec<bool>)
    ensures
        row@.len() == w,
        forall|j: int| 0 <= j < w ==> #[trigger] row@[j] == fill,
{
    let mut row: Vec<bool> = Vec::new();
    let mut j: usize = 0;
    while j < w
        invariant
            j <= w,
            row@.len() == j,
            forall|a: int| 0 <= a < j ==> #[trigger] row@[a] == fill,
        decreases w - j,
    {
        row.push(fill);
        j = j + 1;
    }
    row
}

/// Sets the entry at `(i, j)` to `b`.
pub fn set_entry(m: &mut Vec<Vec<bool>>, i: usize, j: usize, b: bool)
    requires
        i < grid(*old(m)).len(),
        j < grid(*old(m))[i as int].len(),
    ensures
        grid(*final(m)) == with_entry(grid(*old(m)), i as int, j as int, b),
{
    let ghost before = grid(*m);
    m[i][j] = b;
    proof {
        assert(grid(*m) =~= with_entry(before, i as int, j as int, b));
    }
}

/// Reads the entry at `(i, j)`.
pub fn get_entry(m: &Vec<Vec<bool>>, i: usize, j: usize) -> (b: bool)
    requires
        i < grid(*m).len(),
        j < grid(*m)[i as int].len(),
    ensures
        b == grid(*m)[i as int][j as int],
{
    m[i][j]
}

} // verus!
