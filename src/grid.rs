use vstd::prelude::*;

verus! {

use crate::maze::Point;

/// The contents of a matrix of vectors, row by row.
pub open spec fn grid<T>(m: Seq<Vec<T>>) -> Seq<Seq<T>> {
    m.map_values(|r: Vec<T>| r@)
}

/// Each row of the contents is the view of the corresponding vector.
pub proof fn lemma_grid_rows<T>(m: Seq<Vec<T>>)
    ensures
        grid(m).len() == m.len(),
        forall|i: int| 0 <= i < m.len() ==> #[trigger] grid(m)[i] == m[i]@,
{
}

/// A square on the grid can be read from the vectors.
pub proof fn lemma_in_bounds<T>(m: Seq<Vec<T>>, rows: usize, cols: usize, p: Point)
    requires
        shaped(grid(m), rows as int, cols as int),
        on_grid(rows, cols, p),
    ensures
        p.row < m.len(),
        p.col < m[p.row as int]@.len(),
        grid(m)[p.row as int] == m[p.row as int]@,
        at(grid(m), p) == m[p.row as int]@[p.col as int],
{
    assert(grid(m)[p.row as int].len() == cols);
}

/// Writing one square leaves every other square as it was.
pub proof fn lemma_set_at_all<T>(g: Seq<Seq<T>>, rows: usize, cols: usize, p: Point, v: T)
    requires
        shaped(g, rows as int, cols as int),
        on_grid(rows, cols, p),
    ensures
        shaped(set_at(g, p, v), rows as int, cols as int),
        forall|x: Point| on_grid(rows, cols, x) ==> #[trigger] at(set_at(g, p, v), x) == if x == p { v } else { at(g, x) },
{
    assert forall|x: Point| on_grid(rows, cols, x) implies #[trigger] at(set_at(g, p, v), x) == if x == p { v } else { at(g, x) } by {
        if x.row == p.row && x.col != p.col {
            assert(g[p.row as int].len() == cols);
        }
    }
    assert forall|i: int| 0 <= i < rows implies #[trigger] set_at(g, p, v)[i].len() == cols by {
        assert(g[i].len() == cols);
        assert(g[p.row as int].len() == cols);
    }
}

/// `g` has `rows` rows of `cols` entries each.
pub open spec fn shaped<T>(g: Seq<Seq<T>>, rows: int, cols: int) -> bool {
    &&& g.len() == rows
    &&& forall|i: int| 0 <= i < rows ==> #[trigger] g[i].len() == cols
}

pub open spec fn on_grid(rows: usize, cols: usize, p: Point) -> bool {
    p.row < rows && p.col < cols
}

pub open spec fn at<T>(g: Seq<Seq<T>>, p: Point) -> T {
    g[p.row as int][p.col as int]
}

pub open spec fn set_at<T>(g: Seq<Seq<T>>, p: Point, v: T) -> Seq<Seq<T>> {
    g.update(p.row as int, g[p.row as int].update(p.col as int, v))
}

/// The sum of `f` over a row.
pub open spec fn row_sum<T>(r: Seq<T>, f: spec_fn(T) -> nat) -> nat
    decreases r.len(),
{
    if r.len() == 0 {
        0
    } else {
        row_sum(r.drop_last(), f) + f(r.last())
    }
}

/// The sum of `f` over every entry of a matrix.
pub open spec fn grid_sum<T>(g: Seq<Seq<T>>, f: spec_fn(T) -> nat) -> nat
    decreases g.len(),
{
    if g.len() == 0 {
        0
    } else {
        grid_sum(g.drop_last(), f) + row_sum(g.last(), f)
    }
}

pub proof fn lemma_row_sum_update<T>(r: Seq<T>, j: int, v: T, f: spec_fn(T) -> nat)
    requires
        0 <= j < r.len(),
    ensures
        row_sum(r.update(j, v), f) == row_sum(r, f) - f(r[j]) + f(v),
    decreases r.len(),
{
    let s = r.update(j, v);
    if j < r.len() - 1 {
        lemma_row_sum_update(r.drop_last(), j, v, f);
        assert(s.drop_last() =~= r.drop_last().update(j, v));
    } else {
        assert(s.drop_last() =~= r.drop_last());
    }
}

pub proof fn lemma_grid_sum_set<T>(g: Seq<Seq<T>>, p: Point, v: T, f: spec_fn(T) -> nat)
    requires
        p.row < g.len(),
        p.col < g[p.row as int].len(),
    ensures
        grid_sum(set_at(g, p, v), f) == grid_sum(g, f) - f(at(g, p)) + f(v),
    decreases g.len(),
{
    let s = set_at(g, p, v);
    lemma_row_sum_update(g[p.row as int], p.col as int, v, f);
    if p.row < g.len() - 1 {
        lemma_grid_sum_set(g.drop_last(), p, v, f);
        assert(s.drop_last() =~= set_at(g.drop_last(), p, v));
    } else {
        assert(s.drop_last() =~= g.drop_last());
    }
}

/// One entry is at most the sum over the matrix, for a weight that is zero somewhere.
pub proof fn lemma_entry_le_sum<T>(g: Seq<Seq<T>>, p: Point, f: spec_fn(T) -> nat, zero: T)
    requires
        p.row < g.len(),
        p.col < g[p.row as int].len(),
        f(zero) == 0,
    ensures
        f(at(g, p)) <= grid_sum(g, f),
{
    lemma_grid_sum_set(g, p, zero, f);
}

/// Writes `v` at `p`.
pub fn set_cell<T>(m: &mut Vec<Vec<T>>, p: Point, v: T)
    requires
        p.row < old(m)@.len(),
        p.col < old(m)@[p.row as int]@.len(),
    ensures
        grid(final(m)@) == set_at(grid(old(m)@), p, v),
{
    m[p.row][p.col] = v;
    proof {
        assert(grid(m@) =~= set_at(grid(old(m)@), p, v));
    }
}

/// A matrix of `rows` by `cols` copies of `v`.
pub fn filled<T: Copy>(rows: usize, cols: usize, v: T) -> (m: Vec<Vec<T>>)
    ensures
        shaped(grid(m@), rows as int, cols as int),
        forall|i: int, j: int| 0 <= i < rows && 0 <= j < cols ==> #[trigger] grid(m@)[i][j] == v,
{
    let mut m: Vec<Vec<T>> = Vec::new();
    let mut i: usize = 0;
    while i < rows
        invariant
            i <= rows,
            m@.len() == i,
            forall|k: int| 0 <= k < i ==> #[trigger] m@[k]@.len() == cols,
            forall|k: int, j: int| 0 <= k < i && 0 <= j < cols ==> #[trigger] m@[k]@[j] == v,
        decreases rows - i,
    {
        let mut r: Vec<T> = Vec::new();
        let mut j: usize = 0;
        while j < cols
            invariant
                j <= cols,
                r@.len() == j,
                forall|k: int| 0 <= k < j ==> #[trigger] r@[k] == v,
            decreases cols - j,
        {
            r.push(v);
            j = j + 1;
        }
        m.push(r);
        i = i + 1;
    }
    m
}

} // verus!
