use vstd::prelude::*;

verus! {

use crate::grid::{at, filled, grid, lemma_in_bounds, lemma_set_at_all, on_grid, set_at, set_cell, shaped};
use crate::maze::{Point, PPM};
use crate::random::random_below;
use rand::rngs::StdRng;

/// Smoothing passes run over a fresh cave.
pub const NUM_OF_ITERS: usize = 3;

/// Chance, in parts per million, that a free square starts as wall.
pub const DEFULT_WALL_PROB: u32 = 450000;

/// A square that must stay open.
pub const FORCED_OPEN: usize = 0;

/// A square left to chance and to smoothing.
pub const RANDOM_CELL: usize = 1;

/// A square that must stay wall.
pub const FORCED_WALL: usize = 2;

/// Error raised when a cave is requested with an unusable shape.
#[derive(Debug)]
pub enum CaveError {
    Syntax(String),
}

/// A cave: `true` marks wall.
#[derive(Debug)]
pub struct Cave {
    pub rows: usize,
    pub columns: usize,
    pub cave_matrix: Vec<Vec<bool>>,
}

/// One if `(r, c)` lies on the grid.
pub open spec fn inside(rows: usize, cols: usize, r: int, c: int) -> int {
    if 0 <= r < rows && 0 <= c < cols { 1 } else { 0 }
}

/// One if `(r, c)` lies on the grid and is wall.
pub open spec fn wall_at(g: Seq<Seq<bool>>, rows: usize, cols: usize, r: int, c: int) -> int {
    if 0 <= r < rows && 0 <= c < cols && g[r][c] { 1 } else { 0 }
}

/// The number of squares of the grid around `(r, c)` (at most eight; no wrap).
pub open spec fn neighbour_count(rows: usize, cols: usize, r: int, c: int) -> int {
    inside(rows, cols, r - 1, c - 1) + inside(rows, cols, r - 1, c) + inside(rows, cols, r - 1, c + 1)
        + inside(rows, cols, r, c - 1) + inside(rows, cols, r, c + 1)
        + inside(rows, cols, r + 1, c - 1) + inside(rows, cols, r + 1, c) + inside(rows, cols, r + 1, c + 1)
}

/// The number of walls among the squares around `(r, c)`.
pub open spec fn wall_count(g: Seq<Seq<bool>>, rows: usize, cols: usize, r: int, c: int) -> int {
    wall_at(g, rows, cols, r - 1, c - 1) + wall_at(g, rows, cols, r - 1, c) + wall_at(g, rows, cols, r - 1, c + 1)
        + wall_at(g, rows, cols, r, c - 1) + wall_at(g, rows, cols, r, c + 1)
        + wall_at(g, rows, cols, r + 1, c - 1) + wall_at(g, rows, cols, r + 1, c) + wall_at(g, rows, cols, r + 1, c + 1)
}

/// The rule for one square left to chance: an open square with at least
/// 60% walls around it becomes wall; a wall with under 50% becomes open.
pub open spec fn update_cell(g: Seq<Seq<bool>>, cond: Seq<Seq<usize>>, rows: usize, cols: usize, i: int, j: int) -> Seq<Seq<bool>> {
    let w = wall_count(g, rows, cols, i, j);
    let n = neighbour_count(rows, cols, i, j);
    if cond[i][j] == RANDOM_CELL {
        if n > 0 && 5 * w >= 3 * n && !g[i][j] {
            g.update(i, g[i].update(j, true))
        } else if n > 0 && 2 * w < n && g[i][j] {
            g.update(i, g[i].update(j, false))
        } else {
            g
        }
    } else {
        g
    }
}

/// The cave after the rule was applied, in place, to the first `j` squares of row `i`.
pub open spec fn sweep_row(g: Seq<Seq<bool>>, cond: Seq<Seq<usize>>, rows: usize, cols: usize, i: int, j: int) -> Seq<Seq<bool>>
    decreases j,
{
    if j <= 0 {
        g
    } else {
        update_cell(sweep_row(g, cond, rows, cols, i, j - 1), cond, rows, cols, i, j - 1)
    }
}

/// The cave after the rule was applied, in place and in row-major order, to the first `i` rows.
pub open spec fn sweep(g: Seq<Seq<bool>>, cond: Seq<Seq<usize>>, rows: usize, cols: usize, i: int) -> Seq<Seq<bool>>
    decreases i,
{
    if i <= 0 {
        g
    } else {
        sweep_row(sweep(g, cond, rows, cols, i - 1), cond, rows, cols, i - 1, cols as int)
    }
}

/// `n` smoothing passes over the whole cave.
pub open spec fn smooth(g: Seq<Seq<bool>>, cond: Seq<Seq<usize>>, rows: usize, cols: usize, n: nat) -> Seq<Seq<bool>>
    decreases n,
{
    if n == 0 {
        g
    } else {
        sweep(smooth(g, cond, rows, cols, (n - 1) as nat), cond, rows, cols, rows as int)
    }
}

/// A starting cave for `cond`: forced squares as forced, other squares open
/// unless left to chance; with no chance of wall every free square is open,
/// with certainty every free square is wall.
pub open spec fn initial_fits(g: Seq<Seq<bool>>, cond: Seq<Seq<usize>>, rows: usize, cols: usize, wall_prob: u32) -> bool {
    &&& shaped(g, rows as int, cols as int)
    &&& forall|p: Point| on_grid(rows, cols, p) && #[trigger] at(cond, p) != RANDOM_CELL ==> at(g, p) == (at(cond, p) == FORCED_WALL)
    &&& forall|p: Point| on_grid(rows, cols, p) && #[trigger] at(cond, p) == RANDOM_CELL && wall_prob == 0 ==> !at(g, p)
    &&& forall|p: Point| on_grid(rows, cols, p) && #[trigger] at(cond, p) == RANDOM_CELL && wall_prob >= PPM ==> at(g, p)
}

/// Whether `(r + dr - 1, c + dc - 1)` lies on the grid, and whether it is wall there.
fn probe(rows: usize, cols: usize, r: usize, c: usize, dr: usize, dc: usize, cave_matrix: &Vec<Vec<bool>>) -> (res: (usize, usize))
    requires
        shaped(grid(cave_matrix@), rows as int, cols as int),
        r < rows,
        c < cols,
        dr <= 2,
        dc <= 2,
    ensures
        res.0 == inside(rows, cols, r + dr - 1, c + dc - 1),
        res.1 == wall_at(grid(cave_matrix@), rows, cols, r + dr - 1, c + dc - 1),
{
    let row_ok = if dr == 0 { r >= 1 } else if dr == 1 { true } else { r + 1 < rows };
    let col_ok = if dc == 0 { c >= 1 } else if dc == 1 { true } else { c + 1 < cols };
    if row_ok && col_ok {
        let rr = if dr == 0 { r - 1 } else if dr == 1 { r } else { r + 1 };
        let cc = if dc == 0 { c - 1 } else if dc == 1 { c } else { c + 1 };
        let p = Point::init(rr, cc);
        proof { lemma_in_bounds(cave_matrix@, rows, cols, p); }
        if cave_matrix[rr][cc] { (1, 1) } else { (1, 0) }
    } else {
        (0, 0)
    }
}

/// The walls around `(my_row, my_column)` and the squares around it, as a pair.
fn neighbor_wall_ratio(my_rows: usize, my_columns: usize, my_row: usize, my_column: usize, cave_matrix: &Vec<Vec<bool>>) -> (res: (usize, usize))
    requires
        shaped(grid(cave_matrix@), my_rows as int, my_columns as int),
        my_row < my_rows,
        my_column < my_columns,
    ensures
        res.0 == wall_count(grid(cave_matrix@), my_rows, my_columns, my_row as int, my_column as int),
        res.1 == neighbour_count(my_rows, my_columns, my_row as int, my_column as int),
{
    let mut neighbors: usize = 0;
    let mut neighboring_walls: usize = 0;
    let a = probe(my_rows, my_columns, my_row, my_column, 0, 0, cave_matrix);
    let b = probe(my_rows, my_columns, my_row, my_column, 0, 1, cave_matrix);
    let c = probe(my_rows, my_columns, my_row, my_column, 0, 2, cave_matrix);
    let d = probe(my_rows, my_columns, my_row, my_column, 1, 0, cave_matrix);
    let e = probe(my_rows, my_columns, my_row, my_column, 1, 2, cave_matrix);
    let f = probe(my_rows, my_columns, my_row, my_column, 2, 0, cave_matrix);
    let g = probe(my_rows, my_columns, my_row, my_column, 2, 1, cave_matrix);
    let h = probe(my_rows, my_columns, my_row, my_column, 2, 2, cave_matrix);
    neighbors = a.0 + b.0 + c.0 + d.0 + e.0 + f.0 + g.0 + h.0;
    neighboring_walls = a.1 + b.1 + c.1 + d.1 + e.1 + f.1 + g.1 + h.1;
    (neighboring_walls, neighbors)
}

/// One smoothing pass, in place and in row-major order: later squares see
/// the squares already updated in this pass.
fn cell_auto_iter(my_rows: usize, my_columns: usize, cave_matrix: &mut Vec<Vec<bool>>, condition_grid: &Vec<Vec<usize>>)
    requires
        shaped(grid(old(cave_matrix)@), my_rows as int, my_columns as int),
        shaped(grid(condition_grid@), my_rows as int, my_columns as int),
    ensures
        grid(final(cave_matrix)@) == sweep(grid(old(cave_matrix)@), grid(condition_grid@), my_rows, my_columns, my_rows as int),
        shaped(grid(final(cave_matrix)@), my_rows as int, my_columns as int),
        forall|p: Point| on_grid(my_rows, my_columns, p) && #[trigger] at(grid(condition_grid@), p) != RANDOM_CELL
            ==> at(grid(final(cave_matrix)@), p) == at(grid(old(cave_matrix)@), p),
{
    let ghost g0 = grid(cave_matrix@);
    let ghost cond = grid(condition_grid@);
    let mut i: usize = 0;
    while i < my_rows
        invariant
            i <= my_rows,
            cond == grid(condition_grid@),
            shaped(cond, my_rows as int, my_columns as int),
            shaped(grid(cave_matrix@), my_rows as int, my_columns as int),
            grid(cave_matrix@) == sweep(g0, cond, my_rows, my_columns, i as int),
            forall|p: Point| on_grid(my_rows, my_columns, p) && #[trigger] at(cond, p) != RANDOM_CELL
                ==> at(grid(cave_matrix@), p) == at(g0, p),
        decreases my_rows - i,
    {
        let mut j: usize = 0;
        while j < my_columns
            invariant
                i < my_rows,
                j <= my_columns,
                cond == grid(condition_grid@),
                shaped(cond, my_rows as int, my_columns as int),
                shaped(grid(cave_matrix@), my_rows as int, my_columns as int),
                grid(cave_matrix@) == sweep_row(sweep(g0, cond, my_rows, my_columns, i as int), cond, my_rows, my_columns, i as int, j as int),
                forall|p: Point| on_grid(my_rows, my_columns, p) && #[trigger] at(cond, p) != RANDOM_CELL
                    ==> at(grid(cave_matrix@), p) == at(g0, p),
            decreases my_columns - j,
        {
            let p = Point::init(i, j);
            let ghost before = grid(cave_matrix@);
            proof {
                lemma_in_bounds(condition_grid@, my_rows, my_columns, p);
                lemma_in_bounds(cave_matrix@, my_rows, my_columns, p);
            }
            if condition_grid[i][j] == RANDOM_CELL {
                let (walls, neighbors) = neighbor_wall_ratio(my_rows, my_columns, i, j, cave_matrix);
                if neighbors > 0 && 5 * walls >= 3 * neighbors && !cave_matrix[i][j] {
                    set_cell(cave_matrix, p, true);
                } else if neighbors > 0 && 2 * walls < neighbors && cave_matrix[i][j] {
                    set_cell(cave_matrix, p, false);
                }
            }
            proof {
                assert(grid(cave_matrix@) == update_cell(before, cond, my_rows, my_columns, i as int, j as int));
                lemma_set_at_all(before, my_rows, my_columns, p, true);
                lemma_set_at_all(before, my_rows, my_columns, p, false);
            }
            j = j + 1;
        }
        i = i + 1;
    }
}

/// The starting cave: forced squares as forced; a square left to chance is
/// wall with probability `wall_prob` parts per million.
fn init_cave_matrix(my_rows: usize, my_columns: usize, wall_prob: u32, condition_grid: &Vec<Vec<usize>>, rng: &mut StdRng) -> (r: Vec<Vec<bool>>)
    requires
        shaped(grid(condition_grid@), my_rows as int, my_columns as int),
    ensures
        initial_fits(grid(r@), grid(condition_grid@), my_rows, my_columns, wall_prob),
{
    let ghost cond = grid(condition_grid@);
    let mut cave_matrix = filled(my_rows, my_columns, false);
    let mut i: usize = 0;
    while i < my_rows
        invariant
            i <= my_rows,
            cond == grid(condition_grid@),
            shaped(cond, my_rows as int, my_columns as int),
            shaped(grid(cave_matrix@), my_rows as int, my_columns as int),
            forall|p: Point| on_grid(my_rows, my_columns, p) && p.row >= i ==> !#[trigger] at(grid(cave_matrix@), p),
            forall|p: Point| on_grid(my_rows, my_columns, p) && p.row < i && #[trigger] at(cond, p) != RANDOM_CELL
                ==> at(grid(cave_matrix@), p) == (at(cond, p) == FORCED_WALL),
            forall|p: Point| on_grid(my_rows, my_columns, p) && p.row < i && #[trigger] at(cond, p) == RANDOM_CELL && wall_prob == 0
                ==> !at(grid(cave_matrix@), p),
            forall|p: Point| on_grid(my_rows, my_columns, p) && p.row < i && #[trigger] at(cond, p) == RANDOM_CELL && wall_prob >= PPM
                ==> at(grid(cave_matrix@), p),
        decreases my_rows - i,
    {
        let mut j: usize = 0;
        while j < my_columns
            invariant
                i < my_rows,
                j <= my_columns,
                cond == grid(condition_grid@),
                shaped(cond, my_rows as int, my_columns as int),
                shaped(grid(cave_matrix@), my_rows as int, my_columns as int),
                forall|p: Point| on_grid(my_rows, my_columns, p) && (p.row > i || (p.row == i && p.col >= j))
                    ==> !#[trigger] at(grid(cave_matrix@), p),
                forall|p: Point| on_grid(my_rows, my_columns, p) && (p.row < i || (p.row == i && p.col < j))
                    && #[trigger] at(cond, p) != RANDOM_CELL ==> at(grid(cave_matrix@), p) == (at(cond, p) == FORCED_WALL),
                forall|p: Point| on_grid(my_rows, my_columns, p) && (p.row < i || (p.row == i && p.col < j))
                    && #[trigger] at(cond, p) == RANDOM_CELL && wall_prob == 0 ==> !at(grid(cave_matrix@), p),
                forall|p: Point| on_grid(my_rows, my_columns, p) && (p.row < i || (p.row == i && p.col < j))
                    && #[trigger] at(cond, p) == RANDOM_CELL && wall_prob >= PPM ==> at(grid(cave_matrix@), p),
            decreases my_columns - j,
        {
            let p = Point::init(i, j);
            let ghost before = grid(cave_matrix@);
            proof {
                lemma_in_bounds(condition_grid@, my_rows, my_columns, p);
                lemma_set_at_all(before, my_rows, my_columns, p, true);
            }
            if condition_grid[i][j] == FORCED_WALL {
                set_cell(&mut cave_matrix, p, true);
            } else if condition_grid[i][j] == RANDOM_CELL {
                let rand_value = random_below(rng, PPM as usize);
                if rand_value < wall_prob as usize {
                    set_cell(&mut cave_matrix, p, true);
                }
            }
            j = j + 1;
        }
        i = i + 1;
    }
    cave_matrix
}

impl Cave {
    /// A cave whose every square is left to chance, walls drawn with the
    /// default probability.
    pub fn init_cave(my_rows: usize, my_columns: usize, rng: &mut StdRng) -> (r: Result<Cave, CaveError>)
        ensures
            r is Err <==> (my_rows == 0 || my_columns == 0),
            r matches Ok(cave) ==> cave.rows == my_rows && cave.columns == my_columns
                && shaped(cave.cells(), my_rows as int, my_columns as int)
                && exists|g0: Seq<Seq<bool>>| #[trigger] initial_fits(g0, all_random(my_rows, my_columns), my_rows, my_columns, DEFULT_WALL_PROB)
                    && cave.cells() == smooth(g0, all_random(my_rows, my_columns), my_rows, my_columns, NUM_OF_ITERS as nat),
    {
        let condition_grid = filled(my_rows, my_columns, RANDOM_CELL);
        proof {
            assert(grid(condition_grid@) =~= all_random(my_rows, my_columns)) by {
                assert forall|i: int| 0 <= i < my_rows implies #[trigger] grid(condition_grid@)[i] =~= all_random(my_rows, my_columns)[i] by {
                    assert(grid(condition_grid@)[i].len() == my_columns);
                    assert forall|j: int| 0 <= j < my_columns implies grid(condition_grid@)[i][j] == all_random(my_rows, my_columns)[i][j] by {}
                }
            }
        }
        Cave::init_cave_with_conditions(my_rows, my_columns, DEFULT_WALL_PROB, condition_grid, rng)
    }

    /// A cave shaped by `condition_grid` (0 forced open, 1 left to chance,
    /// 2 forced wall): squares left to chance start as wall with probability
    /// `wall_prob` parts per million, then `NUM_OF_ITERS` smoothing passes
    /// run over them. Fails where a dimension is zero or the grid has another shape.
    pub fn init_cave_with_conditions(my_rows: usize, my_columns: usize, wall_prob: u32, condition_grid: Vec<Vec<usize>>, rng: &mut StdRng) -> (r: Result<Cave, CaveError>)
        ensures
            r is Err <==> (my_rows == 0 || my_columns == 0 || !shaped(grid(condition_grid@), my_rows as int, my_columns as int)),
            r matches Ok(cave) ==> cave.rows == my_rows && cave.columns == my_columns
                && shaped(cave.cells(), my_rows as int, my_columns as int)
                && exists|g0: Seq<Seq<bool>>| #[trigger] initial_fits(g0, grid(condition_grid@), my_rows, my_columns, wall_prob)
                    && cave.cells() == smooth(g0, grid(condition_grid@), my_rows, my_columns, NUM_OF_ITERS as nat),
            r matches Ok(cave) ==> forall|p: Point| on_grid(my_rows, my_columns, p) && #[trigger] at(grid(condition_grid@), p) != RANDOM_CELL
                ==> at(cave.cells(), p) == (at(grid(condition_grid@), p) == FORCED_WALL),
    {
        if (my_rows == 0) || (my_columns == 0) {
            return Err(CaveError::Syntax("A cave requires non-zero dimensions.".to_string()));
        }
        if !grid_fits(my_rows, my_columns, &condition_grid) {
            return Err(CaveError::Syntax("Given matrix does not match given dimensions.".to_string()));
        }
        let ghost cond = grid(condition_grid@);
        let mut matrix = init_cave_matrix(my_rows, my_columns, wall_prob, &condition_grid, rng);
        let ghost g0 = grid(matrix@);
        let mut k: usize = 0;
        while k < NUM_OF_ITERS
            invariant
                k <= NUM_OF_ITERS,
                cond == grid(condition_grid@),
                shaped(cond, my_rows as int, my_columns as int),
                initial_fits(g0, cond, my_rows, my_columns, wall_prob),
                shaped(grid(matrix@), my_rows as int, my_columns as int),
                grid(matrix@) == smooth(g0, cond, my_rows, my_columns, k as nat),
                forall|p: Point| on_grid(my_rows, my_columns, p) && #[trigger] at(cond, p) != RANDOM_CELL
                    ==> at(grid(matrix@), p) == at(g0, p),
            decreases NUM_OF_ITERS - k,
        {
            cell_auto_iter(my_rows, my_columns, &mut matrix, &condition_grid);
            k = k + 1;
        }
        Ok(Cave { rows: my_rows, columns: my_columns, cave_matrix: matrix })
    }

    pub open spec fn cells(&self) -> Seq<Seq<bool>> {
        grid(self.cave_matrix@)
    }
}

/// Every square of a `rows` by `cols` cave left to chance.
pub open spec fn all_random(rows: usize, cols: usize) -> Seq<Seq<usize>> {
    Seq::new(rows as nat, |i: int| Seq::new(cols as nat, |j: int| RANDOM_CELL))
}

/// Whether `condition_grid` has `rows` rows of `cols` entries each.
fn grid_fits(rows: usize, cols: usize, condition_grid: &Vec<Vec<usize>>) -> (r: bool)
    ensures
        r == shaped(grid(condition_grid@), rows as int, cols as int),
{
    if rows != condition_grid.len() {
        return false;
    }
    let mut i: usize = 0;
    while i < rows
        invariant
            i <= rows,
            rows == condition_grid@.len(),
            forall|k: int| 0 <= k < i ==> #[trigger] condition_grid@[k]@.len() == cols,
        decreases rows - i,
    {
        if cols != condition_grid[i].len() {
            proof { assert(grid(condition_grid@)[i as int].len() != cols); }
            return false;
        }
        i = i + 1;
    }
    proof {
        assert forall|k: int| 0 <= k < rows implies #[trigger] grid(condition_grid@)[k].len() == cols by {
            assert(condition_grid@[k]@.len() == cols);
        }
    }
    true
}

/// The cave as text: `#` for wall, a space for open, a newline after each row.
pub open spec fn cave_text(g: Seq<Seq<bool>>, rows: int, cols: int) -> Seq<char>
    decreases rows,
{
    if rows <= 0 {
        Seq::empty()
    } else {
        cave_text(g, rows - 1, cols) + row_text(g[rows - 1], cols) + seq!['\n']
    }
}

pub open spec fn row_text(r: Seq<bool>, n: int) -> Seq<char>
    decreases n,
{
    if n <= 0 {
        Seq::empty()
    } else {
        row_text(r, n - 1).push(if r[n - 1] { '#' } else { ' ' })
    }
}

/// Appends the cave as text to `out`.
pub fn print_cave(my_cave: &Cave, out: &mut Vec<char>)
    requires
        shaped(my_cave.cells(), my_cave.rows as int, my_cave.columns as int),
    ensures
        final(out)@ == old(out)@ + cave_text(my_cave.cells(), my_cave.rows as int, my_cave.columns as int),
{
    let ghost g = my_cave.cells();
    let mut i: usize = 0;
    while i < my_cave.rows
        invariant
            i <= my_cave.rows,
            g == my_cave.cells(),
            shaped(g, my_cave.rows as int, my_cave.columns as int),
            out@ == old(out)@ + cave_text(g, i as int, my_cave.columns as int),
        decreases my_cave.rows - i,
    {
        let ghost o0 = out@;
        let mut j: usize = 0;
        while j < my_cave.columns
            invariant
                i < my_cave.rows,
                j <= my_cave.columns,
                g == my_cave.cells(),
                shaped(g, my_cave.rows as int, my_cave.columns as int),
                out@ == o0 + row_text(g[i as int], j as int),
            decreases my_cave.columns - j,
        {
            proof { lemma_in_bounds(my_cave.cave_matrix@, my_cave.rows, my_cave.columns, Point { row: i, col: j }); }
            if my_cave.cave_matrix[i][j] {
                out.push('#');
            } else {
                out.push(' ');
            }
            proof { assert(out@ =~= o0 + row_text(g[i as int], j + 1)); }
            j = j + 1;
        }
        out.push('\n');
        proof {
            assert(out@ =~= old(out)@ + cave_text(g, i + 1, my_cave.columns as int));
        }
        i = i + 1;
    }
}

} // verus!
