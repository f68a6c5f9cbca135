use vstd::prelude::*;

verus! {

use crate::random::random_below;
use crate::grid::{lemma_entry_le_sum, lemma_grid_rows, lemma_grid_sum_set, lemma_in_bounds, at, grid, grid_sum, on_grid, set_at, set_cell, shaped};
use rand::rngs::StdRng;

/// Wrap level of a maze on a torus: moves wrap across both pairs of edges.
pub const MAX_SQUARE_WRAP: usize = 2;

/// Wrap level of a maze on a cylinder: moves wrap between the east and west edges.
pub const RING_SQUARE_WRAP: usize = 1;

/// Wrap level of a maze on a plain rectangle.
pub const NO_SQUARE_WRAP: usize = 0;

/// The probability scale used by the library: one million parts make certainty.
pub const PPM: u32 = 1000000;

/// Error raised when a maze is requested with an unusable shape.
#[derive(Debug)]
pub enum MazeError {
    Syntax(String),
}

/// The algorithm used to carve a maze.
///
/// `Backtrack` carries its straightness in parts per million (`PPM` is a
/// straightness of one); larger values are clamped to one.
#[derive(Debug, Clone, Copy, PartialEq, Eq, Structural)]
pub enum GenerationType {
    Prim,
    Wilson,
    Backtrack(u32),
}

/// A direction of travel. Mazes use the four cardinal directions only.
#[derive(Debug, Clone, Copy, PartialEq, Eq, Structural)]
pub enum Direction {
    North,
    South,
    East,
    West,
    Up,
    Down,
    Northwest,
    Northeast,
    Southwest,
    Southeast,
    Directionless,
}

impl Direction {
    pub open spec fn is_cardinal(self) -> bool {
        match self {
            Direction::North | Direction::South | Direction::East | Direction::West => true,
            _ => false,
        }
    }

    pub open spec fn rev(self) -> Direction {
        match self {
            Direction::North => Direction::South,
            Direction::South => Direction::North,
            Direction::East => Direction::West,
            Direction::West => Direction::East,
            Direction::Up => Direction::Down,
            Direction::Down => Direction::Up,
            Direction::Northwest => Direction::Southeast,
            Direction::Southeast => Direction::Northwest,
            Direction::Northeast => Direction::Southwest,
            Direction::Southwest => Direction::Northeast,
            Direction::Directionless => Direction::Directionless,
        }
    }

    pub open spec fn cw(self) -> Direction {
        match self {
            Direction::North => Direction::East,
            Direction::South => Direction::West,
            Direction::East => Direction::South,
            Direction::West => Direction::North,
            Direction::Northwest => Direction::Northeast,
            Direction::Southeast => Direction::Southwest,
            Direction::Northeast => Direction::Southeast,
            Direction::Southwest => Direction::Northwest,
            other => other,
        }
    }

    pub open spec fn ccw(self) -> Direction {
        match self {
            Direction::North => Direction::West,
            Direction::South => Direction::East,
            Direction::East => Direction::North,
            Direction::West => Direction::South,
            Direction::Northwest => Direction::Southwest,
            Direction::Southeast => Direction::Northeast,
            Direction::Northeast => Direction::Northwest,
            Direction::Southwest => Direction::Southeast,
            other => other,
        }
    }

    /// The opposite direction.
    pub fn reverse(self) -> (r: Direction)
        ensures
            r == self.rev(),
    {
        match self {
            Direction::North => Direction::South,
            Direction::South => Direction::North,
            Direction::East => Direction::West,
            Direction::West => Direction::East,
            Direction::Up => Direction::Down,
            Direction::Down => Direction::Up,
            Direction::Northwest => Direction::Southeast,
            Direction::Southeast => Direction::Northwest,
            Direction::Northeast => Direction::Southwest,
            Direction::Southwest => Direction::Northeast,
            Direction::Directionless => Direction::Directionless,
        }
    }

    /// The direction a quarter turn clockwise on a square grid.
    pub fn turn_clockwise_square(self) -> (r: Direction)
        ensures
            r == self.cw(),
    {
        match self {
            Direction::North => Direction::East,
            Direction::South => Direction::West,
            Direction::East => Direction::South,
            Direction::West => Direction::North,
            Direction::Northwest => Direction::Northeast,
            Direction::Southeast => Direction::Southwest,
            Direction::Northeast => Direction::Southeast,
            Direction::Southwest => Direction::Northwest,
            other => other,
        }
    }

    /// The direction a quarter turn counterclockwise on a square grid.
    pub fn turn_counterclockwise_square(self) -> (r: Direction)
        ensures
            r == self.ccw(),
    {
        match self {
            Direction::North => Direction::West,
            Direction::South => Direction::East,
            Direction::East => Direction::North,
            Direction::West => Direction::South,
            Direction::Northwest => Direction::Southwest,
            Direction::Southeast => Direction::Northeast,
            Direction::Northeast => Direction::Northwest,
            Direction::Southwest => Direction::Southeast,
            other => other,
        }
    }

    /// The four directions of a square maze, in their canonical order.
    pub fn get_all_square_directions() -> (r: Vec<Direction>)
        ensures
            r@ == cardinals(),
    {
        let mut my_directions = Vec::new();
        my_directions.push(Direction::North);
        my_directions.push(Direction::South);
        my_directions.push(Direction::East);
        my_directions.push(Direction::West);
        my_directions
    }
}

/// The cardinal directions in canonical order: north, south, east, west.
pub open spec fn cardinals() -> Seq<Direction> {
    seq![Direction::North, Direction::South, Direction::East, Direction::West]
}

/// Reversing twice gives the direction back.
pub proof fn lemma_reverse_involutive(d: Direction)
    ensures
        d.rev().rev() == d,
{
}

/// The open passages out of one square of a maze.
#[derive(Debug, Clone, Copy, PartialEq, Eq, Structural)]
pub struct Compass {
    pub north: bool,
    pub south: bool,
    pub east: bool,
    pub west: bool,
}

impl Compass {
    pub open spec fn has(self, d: Direction) -> bool {
        match d {
            Direction::North => self.north,
            Direction::South => self.south,
            Direction::East => self.east,
            Direction::West => self.west,
            _ => false,
        }
    }

    /// This compass with the passage toward `d` set to `v` (other directions are ignored).
    pub open spec fn with(self, d: Direction, v: bool) -> Compass {
        match d {
            Direction::North => Compass { north: v, ..self },
            Direction::South => Compass { south: v, ..self },
            Direction::East => Compass { east: v, ..self },
            Direction::West => Compass { west: v, ..self },
            _ => self,
        }
    }

    pub open spec fn exits(self) -> nat {
        (if self.north { 1nat } else { 0nat }) + (if self.south { 1nat } else { 0nat }) + (
        if self.east { 1nat } else { 0nat }) + (if self.west { 1nat } else { 0nat })
    }

    pub open spec fn exit_list(self) -> Seq<Direction> {
        (if self.north { seq![Direction::North] } else { Seq::empty() }) + (if self.south {
            seq![Direction::South]
        } else {
            Seq::empty()
        }) + (if self.east { seq![Direction::East] } else { Seq::empty() }) + (if self.west {
            seq![Direction::West]
        } else {
            Seq::empty()
        })
    }

    pub open spec fn closed() -> Compass {
        Compass { north: false, south: false, east: false, west: false }
    }

    /// A square with no passages.
    pub fn init() -> (r: Compass)
        ensures
            r == Compass::closed(),
    {
        Compass { north: false, south: false, east: false, west: false }
    }

    /// This square with the passage toward `dir` opened.
    pub fn add_dir(self, dir: Direction) -> (r: Compass)
        ensures
            r == self.with(dir, true),
    {
        match dir {
            Direction::North => Compass { north: true, ..self },
            Direction::South => Compass { south: true, ..self },
            Direction::East => Compass { east: true, ..self },
            Direction::West => Compass { west: true, ..self },
            _ => self,
        }
    }

    /// Closes the passage toward `dir`.
    pub fn remove_dir(&mut self, dir: Direction)
        ensures
            *final(self) == old(self).with(dir, false),
    {
        match dir {
            Direction::North => self.north = false,
            Direction::South => self.south = false,
            Direction::East => self.east = false,
            Direction::West => self.west = false,
            _ => {},
        }
    }

    /// Whether the passage toward `dir` is open.
    pub fn has_dir(self, dir: Direction) -> (r: bool)
        ensures
            r == self.has(dir),
    {
        match dir {
            Direction::North => self.north,
            Direction::South => self.south,
            Direction::East => self.east,
            Direction::West => self.west,
            _ => false,
        }
    }

    /// The number of open passages.
    pub fn get_number_of_exits(self) -> (r: usize)
        ensures
            r == self.exits(),
    {
        let mut total_exits: usize = 0;
        if self.north {
            total_exits = total_exits + 1;
        }
        if self.south {
            total_exits = total_exits + 1;
        }
        if self.east {
            total_exits = total_exits + 1;
        }
        if self.west {
            total_exits = total_exits + 1;
        }
        total_exits
    }

    /// The open directions, in canonical order.
    pub fn get_exits(self) -> (r: Vec<Direction>)
        ensures
            r@ == self.exit_list(),
            r@.len() == self.exits(),
    {
        let mut my_exits = Vec::new();
        if self.north {
            my_exits.push(Direction::North);
        }
        if self.south {
            my_exits.push(Direction::South);
        }
        if self.east {
            my_exits.push(Direction::East);
        }
        if self.west {
            my_exits.push(Direction::West);
        }
        proof {
            assert(my_exits@ =~= self.exit_list());
        }
        my_exits
    }
}

/// A square of a grid, by row and column.
#[derive(Debug, Clone, Copy, PartialEq, Eq, Hash, Structural)]
pub struct Point {
    pub row: usize,
    pub col: usize,
}

impl Point {
    pub fn init(x: usize, y: usize) -> (r: Point)
        ensures
            r == (Point { row: x, col: y }),
    {
        Point { row: x, col: y }
    }

    pub fn get_x(self) -> (r: usize)
        ensures
            r == self.row,
    {
        self.row
    }

    pub fn get_y(self) -> (r: usize)
        ensures
            r == self.col,
    {
        self.col
    }
}

/// The side of `cell` that faces direction `dir`.
#[derive(Debug, Clone, Copy, PartialEq, Eq, Structural)]
pub struct Wall {
    pub cell: Point,
    pub dir: Direction,
}

impl Wall {
    pub fn init(cell: Point, dir: Direction) -> (r: Wall)
        ensures
            r == (Wall { cell: cell, dir: dir }),
    {
        Wall { cell: cell, dir: dir }
    }
}

/// The square one move from `(row, col)` toward `d`, on a grid of `rows` by `cols`.
///
/// North adds one to the row and east one to the column. Leaving the grid
/// across the east or west edge needs wrap level 1, across the north or south
/// edge wrap level 2; without it there is no such square.
pub open spec fn step(rows: usize, cols: usize, row: usize, col: usize, d: Direction, wrap: usize) -> Option<Point> {
    match d {
        Direction::North => if row + 1 == rows {
            if wrap >= 2 { Some(Point { row: 0, col: col }) } else { None }
        } else {
            Some(Point { row: (row + 1) as usize, col: col })
        },
        Direction::South => if row == 0 {
            if wrap >= 2 { Some(Point { row: (rows - 1) as usize, col: col }) } else { None }
        } else {
            Some(Point { row: (row - 1) as usize, col: col })
        },
        Direction::East => if col + 1 == cols {
            if wrap >= 1 { Some(Point { row: row, col: 0 }) } else { None }
        } else {
            Some(Point { row: row, col: (col + 1) as usize })
        },
        Direction::West => if col == 0 {
            if wrap >= 1 { Some(Point { row: row, col: (cols - 1) as usize }) } else { None }
        } else {
            Some(Point { row: row, col: (col - 1) as usize })
        },
        _ => None,
    }
}

pub open spec fn step_from(rows: usize, cols: usize, p: Point, d: Direction, wrap: usize) -> Option<Point> {
    step(rows, cols, p.row, p.col, d, wrap)
}

/// Moving one square stays on the grid, and moving back returns to the start.
pub proof fn lemma_step_inverse(rows: usize, cols: usize, p: Point, d: Direction, wrap: usize)
    requires
        p.row < rows,
        p.col < cols,
    ensures
        step_from(rows, cols, p, d, wrap) is Some ==> {
            let q = step_from(rows, cols, p, d, wrap)->Some_0;
            &&& d.is_cardinal()
            &&& q.row < rows
            &&& q.col < cols
            &&& step_from(rows, cols, q, d.rev(), wrap) == Some(p)
        },
{
}

/// The square one move from `(row, col)` toward `dir`, or `None` where that
/// move would need more wrapping than `wrap` allows.
pub fn get_cell_in_direction(max_rows: usize, max_cols: usize, row: usize, col: usize, dir: Direction, wrap: usize) -> (r: Option<Point>)
    requires
        row < max_rows,
        col < max_cols,
    ensures
        r == step(max_rows, max_cols, row, col, dir, wrap),
{
    match dir {
        Direction::North => if row == max_rows - 1 {
            if wrap >= MAX_SQUARE_WRAP { Some(Point::init(0, col)) } else { None }
        } else {
            Some(Point::init(row + 1, col))
        },
        Direction::South => if row == 0 {
            if wrap >= MAX_SQUARE_WRAP { Some(Point::init(max_rows - 1, col)) } else { None }
        } else {
            Some(Point::init(row - 1, col))
        },
        Direction::East => if col == max_cols - 1 {
            if wrap >= RING_SQUARE_WRAP { Some(Point::init(row, 0)) } else { None }
        } else {
            Some(Point::init(row, col + 1))
        },
        Direction::West => if col == 0 {
            if wrap >= RING_SQUARE_WRAP { Some(Point::init(row, max_cols - 1)) } else { None }
        } else {
            Some(Point::init(row, col - 1))
        },
        _ => None,
    }
}


/// The number of open passages out of a square, as a weight for sums.
pub open spec fn exit_count() -> spec_fn(Compass) -> nat {
    |c: Compass| c.exits()
}

/// Twice the number of open passages: each passage is counted from both of its ends.
pub open spec fn total_exits(g: Seq<Seq<Compass>>) -> nat {
    grid_sum(g, exit_count())
}

/// Every open passage that leads to a square under `wrap` is open from that square too.
pub open spec fn reciprocal(g: Seq<Seq<Compass>>, rows: usize, cols: usize, wrap: usize) -> bool {
    forall|p: Point, d: Direction|
        #![trigger at(g, p).has(d), step_from(rows, cols, p, d, wrap)]
        on_grid(rows, cols, p) && at(g, p).has(d) && step_from(rows, cols, p, d, wrap) is Some
            ==> at(g, step_from(rows, cols, p, d, wrap)->Some_0).has(d.rev())
}

/// `g` with the passage from `w.cell` toward `w.dir` opened, and opened
/// from the other side too where a square lies there.
pub open spec fn opened(g: Seq<Seq<Compass>>, rows: usize, cols: usize, w: Wall, wrap: usize) -> Seq<Seq<Compass>> {
    let g1 = set_at(g, w.cell, at(g, w.cell).with(w.dir, true));
    match step_from(rows, cols, w.cell, w.dir, wrap) {
        Some(q) => set_at(g1, q, at(g1, q).with(w.dir.rev(), true)),
        None => g1,
    }
}

/// The dead ends among the first `n` squares of row `i`, in order.
pub open spec fn row_dead_ends(g: Seq<Seq<Compass>>, i: int, n: int) -> Seq<Point>
    decreases n,
{
    if n <= 0 {
        Seq::empty()
    } else {
        let prev = row_dead_ends(g, i, n - 1);
        if g[i][n - 1].exits() == 1 {
            prev.push(Point { row: i as usize, col: (n - 1) as usize })
        } else {
            prev
        }
    }
}

/// The dead ends of the first `m` rows, in row-major order.
pub open spec fn dead_ends_upto(g: Seq<Seq<Compass>>, cols: int, m: int) -> Seq<Point>
    decreases m,
{
    if m <= 0 {
        Seq::empty()
    } else {
        dead_ends_upto(g, cols, m - 1) + row_dead_ends(g, m - 1, cols)
    }
}

proof fn lemma_row_dead_ends_contain(g: Seq<Seq<Compass>>, i: int, n: int, p: Point)
    requires
        0 <= i,
        p.row == i,
        0 <= n <= usize::MAX + 1,
    ensures
        row_dead_ends(g, i, n).contains(p) <==> (p.col < n && g[i][p.col as int].exits() == 1),
    decreases n,
{
    if n > 0 {
        lemma_row_dead_ends_contain(g, i, n - 1, p);
        let prev = row_dead_ends(g, i, n - 1);
        let q = Point { row: i as usize, col: (n - 1) as usize };
        if g[i][n - 1].exits() == 1 {
            assert(row_dead_ends(g, i, n) == prev.push(q));
            assert(prev.push(q)[prev.len() as int] == q);
            if p.col == n - 1 {
                assert(p == q);
                assert(prev.push(q).contains(p));
            } else {
                if prev.push(q).contains(p) {
                    let k = choose|k: int| 0 <= k < prev.push(q).len() && prev.push(q)[k] == p;
                    assert(k < prev.len());
                    assert(prev[k] == p);
                }
                if prev.contains(p) {
                    let k = choose|k: int| 0 <= k < prev.len() && prev[k] == p;
                    assert(prev.push(q)[k] == p);
                }
            }
        } else {
            assert(row_dead_ends(g, i, n) == prev);
        }
    }
}

proof fn lemma_row_dead_ends_rows(g: Seq<Seq<Compass>>, i: int, n: int, p: Point)
    requires
        0 <= n,
        0 <= i <= usize::MAX,
        row_dead_ends(g, i, n).contains(p),
    ensures
        p.row == i,
    decreases n,
{
    if n > 0 {
        let prev = row_dead_ends(g, i, n - 1);
        if g[i][n - 1].exits() == 1 {
            let q = Point { row: i as usize, col: (n - 1) as usize };
            let k = choose|k: int| 0 <= k < prev.push(q).len() && prev.push(q)[k] == p;
            if k < prev.len() {
                assert(prev[k] == p);
                lemma_row_dead_ends_rows(g, i, n - 1, p);
            }
        } else {
            lemma_row_dead_ends_rows(g, i, n - 1, p);
        }
    }
}

proof fn lemma_row_dead_ends_elems(g: Seq<Seq<Compass>>, i: int, n: int)
    requires
        0 <= i <= usize::MAX,
        0 <= n <= usize::MAX + 1,
    ensures
        forall|k: int| 0 <= k < row_dead_ends(g, i, n).len() ==> (#[trigger] row_dead_ends(g, i, n)[k]).row == i
            && row_dead_ends(g, i, n)[k].col < n,
    decreases n,
{
    if n > 0 {
        lemma_row_dead_ends_elems(g, i, n - 1);
        let prev = row_dead_ends(g, i, n - 1);
        if g[i][n - 1].exits() == 1 {
            let q = Point { row: i as usize, col: (n - 1) as usize };
            assert forall|k: int| 0 <= k < prev.push(q).len() implies (#[trigger] prev.push(q)[k]).row == i && prev.push(q)[k].col < n by {
                if k < prev.len() {
                    assert(prev.push(q)[k] == prev[k]);
                }
            }
        }
    }
}

/// Every listed dead end is a square of the grid.
pub proof fn lemma_dead_ends_on_grid(g: Seq<Seq<Compass>>, rows: usize, cols: usize, m: int)
    requires
        0 <= m <= rows,
    ensures
        forall|k: int| 0 <= k < dead_ends_upto(g, cols as int, m).len() ==> on_grid(rows, cols, #[trigger] dead_ends_upto(g, cols as int, m)[k]),
    decreases m,
{
    if m > 0 {
        lemma_dead_ends_on_grid(g, rows, cols, m - 1);
        lemma_row_dead_ends_elems(g, m - 1, cols as int);
        let a = dead_ends_upto(g, cols as int, m - 1);
        let b = row_dead_ends(g, m - 1, cols as int);
        assert forall|k: int| 0 <= k < (a + b).len() implies on_grid(rows, cols, #[trigger] (a + b)[k]) by {
            if k < a.len() {
                assert((a + b)[k] == a[k]);
            } else {
                assert((a + b)[k] == b[k - a.len()]);
            }
        }
    }
}

/// Closing passages never adds to a square's count of passages.
pub proof fn lemma_exits_mono(a: Compass, b: Compass)
    requires
        forall|d: Direction| #[trigger] b.has(d) ==> a.has(d),
    ensures
        b.exits() <= a.exits(),
{
    assert(b.has(Direction::North) ==> a.has(Direction::North));
    assert(b.has(Direction::South) ==> a.has(Direction::South));
    assert(b.has(Direction::East) ==> a.has(Direction::East));
    assert(b.has(Direction::West) ==> a.has(Direction::West));
}

/// A square is listed among the dead ends exactly when it has one passage.
pub proof fn lemma_dead_ends_contain(g: Seq<Seq<Compass>>, rows: usize, cols: usize, m: int, p: Point)
    requires
        shaped(g, rows as int, cols as int),
        on_grid(rows, cols, p),
        0 <= m <= rows,
    ensures
        dead_ends_upto(g, cols as int, m).contains(p) <==> (p.row < m && at(g, p).exits() == 1),
    decreases m,
{
    if m > 0 {
        lemma_dead_ends_contain(g, rows, cols, m - 1, p);
        let a = dead_ends_upto(g, cols as int, m - 1);
        let b = row_dead_ends(g, m - 1, cols as int);
        if p.row == m - 1 {
            lemma_row_dead_ends_contain(g, m - 1, cols as int, p);
        }
        if (a + b).contains(p) {
            let k = choose|k: int| 0 <= k < (a + b).len() && (a + b)[k] == p;
            if k >= a.len() {
                assert(b[k - a.len()] == p);
                lemma_row_dead_ends_rows(g, m - 1, cols as int, p);
                lemma_row_dead_ends_contain(g, m - 1, cols as int, p);
            } else {
                assert(a[k] == p);
            }
        }
        if a.contains(p) {
            let k = choose|k: int| 0 <= k < a.len() && a[k] == p;
            assert((a + b)[k] == p);
        }
        if p.row == m - 1 && at(g, p).exits() == 1 {
            assert(b.contains(p));
            let k = choose|k: int| 0 <= k < b.len() && b[k] == p;
            assert((a + b)[a.len() + k] == p);
        }
    }
}

/// Opening a passage from both sides keeps passages reciprocal.
#[verifier::rlimit(50)]
pub proof fn lemma_opened_reciprocal(g: Seq<Seq<Compass>>, rows: usize, cols: usize, w: Wall, wrap: usize)
    requires
        shaped(g, rows as int, cols as int),
        on_grid(rows, cols, w.cell),
        reciprocal(g, rows, cols, wrap),
    ensures
        reciprocal(opened(g, rows, cols, w, wrap), rows, cols, wrap),
        shaped(opened(g, rows, cols, w, wrap), rows as int, cols as int),
{
    let n = opened(g, rows, cols, w, wrap);
    let g1 = set_at(g, w.cell, at(g, w.cell).with(w.dir, true));
    lemma_step_inverse(rows, cols, w.cell, w.dir, wrap);
    crate::grid::lemma_set_at_all(g, rows, cols, w.cell, at(g, w.cell).with(w.dir, true));
    if step_from(rows, cols, w.cell, w.dir, wrap) is Some {
        let q = step_from(rows, cols, w.cell, w.dir, wrap)->Some_0;
        crate::grid::lemma_set_at_all(g1, rows, cols, q, at(g1, q).with(w.dir.rev(), true));
    }
    assert forall|p: Point, d: Direction|
        on_grid(rows, cols, p) && #[trigger] at(n, p).has(d) && #[trigger] step_from(rows, cols, p, d, wrap) is Some
        implies at(n, step_from(rows, cols, p, d, wrap)->Some_0).has(d.rev()) by {
        lemma_step_inverse(rows, cols, p, d, wrap);
        let q = step_from(rows, cols, p, d, wrap)->Some_0;
        if at(g, p).has(d) {
            assert(at(g, q).has(d.rev()));
        }
    }
}

/// A move that exists under some wrap level lands where it lands on a torus.
pub proof fn lemma_step_any_wrap(rows: usize, cols: usize, p: Point, d: Direction, w: usize)
    ensures
        step_from(rows, cols, p, d, w) is Some ==> step_from(rows, cols, p, d, w) == step_from(rows, cols, p, d, 2),
        d.is_cardinal() ==> step_from(rows, cols, p, d, 2) is Some,
{
}

/// The first open direction in canonical order.
pub proof fn lemma_first_exit(c: Compass)
    requires
        c.exits() >= 1,
    ensures
        c.exit_list().len() >= 1,
        c.exit_list()[0].is_cardinal(),
        c.has(c.exit_list()[0]),
{
    let a: Seq<Direction> = if c.north { seq![Direction::North] } else { Seq::empty() };
    let b: Seq<Direction> = if c.south { seq![Direction::South] } else { Seq::empty() };
    let e: Seq<Direction> = if c.east { seq![Direction::East] } else { Seq::empty() };
    let f: Seq<Direction> = if c.west { seq![Direction::West] } else { Seq::empty() };
    assert(c.exit_list() == a + b + e + f);
    if c.north {
        assert((a + b + e + f)[0] == Direction::North);
    } else if c.south {
        assert(a + b + e + f =~= b + e + f);
    } else if c.east {
        assert(a + b + e + f =~= e + f);
    } else {
        assert(a + b + e + f =~= f);
    }
}

/// `g` with the passage out of `p` toward `d` closed, and the passage back
/// closed on the square reached from `p` on a torus.
pub open spec fn closed_pair(g: Seq<Seq<Compass>>, rows: usize, cols: usize, p: Point, d: Direction) -> Seq<Seq<Compass>> {
    let q = step_from(rows, cols, p, d, 2)->Some_0;
    let g1 = set_at(g, p, at(g, p).with(d, false));
    set_at(g1, q, at(g1, q).with(d.rev(), false))
}

/// The maze after erasing the dead end `p`, within `fuel` steps: close its
/// first open passage and the passage back into it from the square it led
/// to on a torus; go on from that square while it is left with exactly one
/// passage.
pub open spec fn peel(g: Seq<Seq<Compass>>, rows: usize, cols: usize, p: Point, fuel: nat) -> Seq<Seq<Compass>>
    decreases fuel,
{
    if fuel == 0 {
        g
    } else {
        let d = at(g, p).exit_list()[0];
        let q = step_from(rows, cols, p, d, 2)->Some_0;
        let n = closed_pair(g, rows, cols, p, d);
        if at(n, q).exits() == 1 {
            peel(n, rows, cols, q, (fuel - 1) as nat)
        } else {
            n
        }
    }
}

/// Closing a pair only closes, and closes nothing but the pair.
pub proof fn lemma_closed_pair_at(g: Seq<Seq<Compass>>, rows: usize, cols: usize, p: Point, d: Direction, x: Point, e: Direction)
    requires
        shaped(g, rows as int, cols as int),
        on_grid(rows, cols, p),
        on_grid(rows, cols, x),
        d.is_cardinal(),
    ensures
        at(closed_pair(g, rows, cols, p, d), x).has(e) ==> at(g, x).has(e),
        !(x == p && e == d) && !(x == step_from(rows, cols, p, d, 2)->Some_0 && e == d.rev())
            ==> at(closed_pair(g, rows, cols, p, d), x).has(e) == at(g, x).has(e),
        shaped(closed_pair(g, rows, cols, p, d), rows as int, cols as int),
        at(closed_pair(g, rows, cols, p, d), x).exits() <= at(g, x).exits(),
        x == p && at(g, p).has(d) ==> at(closed_pair(g, rows, cols, p, d), x).exits() < at(g, x).exits(),
{
    lemma_step_inverse(rows, cols, p, d, 2);
    lemma_step_any_wrap(rows, cols, p, d, 2);
}

/// Closing a passage from both sides keeps passages reciprocal under any wrap level.
pub proof fn lemma_closed_pair_reciprocal(g: Seq<Seq<Compass>>, rows: usize, cols: usize, p: Point, d: Direction, w: usize)
    requires
        shaped(g, rows as int, cols as int),
        on_grid(rows, cols, p),
        d.is_cardinal(),
        reciprocal(g, rows, cols, w),
    ensures
        reciprocal(closed_pair(g, rows, cols, p, d), rows, cols, w),
{
    let n = closed_pair(g, rows, cols, p, d);
    let q = step_from(rows, cols, p, d, 2)->Some_0;
    lemma_step_any_wrap(rows, cols, p, d, 2);
    lemma_step_inverse(rows, cols, p, d, 2);
    lemma_step_any_wrap(rows, cols, p, d, w);
    lemma_step_any_wrap(rows, cols, q, d.rev(), w);
    lemma_step_inverse(rows, cols, p, d, w);
    lemma_step_inverse(rows, cols, q, d.rev(), w);
    assert forall|x: Point, e: Direction|
        on_grid(rows, cols, x) && #[trigger] at(n, x).has(e) && #[trigger] step_from(rows, cols, x, e, w) is Some
        implies at(n, step_from(rows, cols, x, e, w)->Some_0).has(e.rev()) by {
        lemma_step_inverse(rows, cols, x, e, w);
        let y = step_from(rows, cols, x, e, w)->Some_0;
        lemma_closed_pair_at(g, rows, cols, p, d, x, e);
        lemma_closed_pair_at(g, rows, cols, p, d, y, e.rev());
        assert(at(g, y).has(e.rev()));
        if y == p && e.rev() == d {
            assert(step_from(rows, cols, p, d, w) == Some(x));
        } else if y == q && e.rev() == d.rev() {
            assert(e == d);
            assert(step_from(rows, cols, q, d.rev(), w) == Some(x));
        }
    }
}

/// A rectangular maze: for each square, its open passages.
#[derive(Debug, Clone)]
pub struct Maze {
    pub rows: usize,
    pub columns: usize,
    pub maze_matrix: Vec<Vec<Compass>>,
}

impl Maze {
    pub open spec fn cells(&self) -> Seq<Seq<Compass>> {
        grid(self.maze_matrix@)
    }

    pub open spec fn wf(&self) -> bool {
        &&& self.rows > 0
        &&& self.columns > 0
        &&& shaped(self.cells(), self.rows as int, self.columns as int)
    }

    /// Every square with exactly one open passage, in row-major order.
    pub fn get_dead_ends(&self) -> (r: Vec<Point>)
        requires
            self.wf(),
        ensures
            r@ == dead_ends_upto(self.cells(), self.columns as int, self.rows as int),
    {
        let mut dead_ends: Vec<Point> = Vec::new();
        let mut i: usize = 0;
        while i < self.rows
            invariant
                self.wf(),
                i <= self.rows,
                dead_ends@ == dead_ends_upto(self.cells(), self.columns as int, i as int),
            decreases self.rows - i,
        {
            let mut j: usize = 0;
            while j < self.columns
                invariant
                    self.wf(),
                    i < self.rows,
                    j <= self.columns,
                    dead_ends@ == dead_ends_upto(self.cells(), self.columns as int, i as int)
                        + row_dead_ends(self.cells(), i as int, j as int),
                decreases self.columns - j,
            {
                if self.maze_matrix[i][j].get_number_of_exits() == 1 {
                    dead_ends.push(Point::init(i, j));
                }
                proof {
                    let g = self.cells();
                    assert(g[i as int][j as int] == self.maze_matrix@[i as int]@[j as int]);
                    assert(dead_ends@ =~= dead_ends_upto(g, self.columns as int, i as int)
                        + row_dead_ends(g, i as int, j + 1));
                }
                j = j + 1;
            }
            i = i + 1;
        }
        dead_ends
    }

    /// Closes the passage out of a dead end and follows it, closing each
    /// square that is left a dead end in turn, until it reaches a square that
    /// keeps more than one passage (or none). Moves wrap as on a torus.
    pub fn erase_dead_end(&mut self, dead_end: Point)
        requires
            old(self).wf(),
            on_grid(old(self).rows, old(self).columns, dead_end),
            at(old(self).cells(), dead_end).exits() == 1,
        ensures
            final(self).rows == old(self).rows,
            final(self).columns == old(self).columns,
            final(self).wf(),
            final(self).cells() == peel(old(self).cells(), old(self).rows, old(self).columns, dead_end, total_exits(old(self).cells())),
            total_exits(final(self).cells()) < total_exits(old(self).cells()),
            at(final(self).cells(), dead_end).exits() == 0,
            forall|p: Point|
                on_grid(old(self).rows, old(self).columns, p) && #[trigger] at(final(self).cells(), p) != at(old(self).cells(), p)
                    ==> at(final(self).cells(), p).exits() != 1,
            forall|p: Point, d: Direction|
                on_grid(old(self).rows, old(self).columns, p) && #[trigger] at(final(self).cells(), p).has(d)
                    ==> at(old(self).cells(), p).has(d),
            forall|w: usize|
                #[trigger] reciprocal(old(self).cells(), old(self).rows, old(self).columns, w)
                    ==> reciprocal(final(self).cells(), old(self).rows, old(self).columns, w),
    {
        let ghost g0 = self.cells();
        let ghost mut first = true;
        let ghost mut fuel: nat = total_exits(g0);
        let mut found_junction = false;
        let mut current_cell = dead_end;
        proof { lemma_entry_le_sum(g0, dead_end, exit_count(), Compass::closed()); }
        while !found_junction
            invariant
                !found_junction ==> peel(g0, self.rows, self.columns, dead_end, total_exits(g0))
                    == peel(self.cells(), self.rows, self.columns, current_cell, fuel),
                found_junction ==> self.cells() == peel(g0, self.rows, self.columns, dead_end, total_exits(g0)),
                fuel >= total_exits(self.cells()),
                !found_junction ==> fuel >= 1,
                self.wf(),
                self.rows == old(self).rows,
                self.columns == old(self).columns,
                g0 == old(self).cells(),
                on_grid(self.rows, self.columns, current_cell),
                on_grid(self.rows, self.columns, dead_end),
                !found_junction ==> at(self.cells(), current_cell).exits() == 1,
                found_junction ==> at(self.cells(), current_cell).exits() != 1,
                forall|p: Point|
                    on_grid(self.rows, self.columns, p) && #[trigger] at(self.cells(), p) != at(g0, p) && p != current_cell
                        ==> at(self.cells(), p).exits() == 0,
                first ==> !found_junction && self.cells() == g0 && current_cell == dead_end,
                !first ==> total_exits(self.cells()) < total_exits(g0),
                !first ==> at(self.cells(), dead_end).exits() == 0,
                forall|p: Point, d: Direction|
                    on_grid(self.rows, self.columns, p) && #[trigger] at(self.cells(), p).has(d)
                        ==> at(g0, p).has(d),
                forall|w: usize|
                    #[trigger] reciprocal(g0, self.rows, self.columns, w)
                        ==> reciprocal(self.cells(), self.rows, self.columns, w),
            decreases total_exits(self.cells()) + (if found_junction { 0nat } else { 1nat }),
        {
            let ghost g = self.cells();
            let p = current_cell;
            proof { lemma_in_bounds(self.maze_matrix@, self.rows, self.columns, p); }
            let exits = self.maze_matrix[p.row][p.col].get_exits();
            proof { lemma_first_exit(at(g, p)); }
            let only_exit = exits[0];
            let mut c = self.maze_matrix[p.row][p.col];
            c.remove_dir(only_exit);
            set_cell(&mut self.maze_matrix, p, c);
            proof { lemma_step_any_wrap(self.rows, self.columns, p, only_exit, 2); }
            let q = get_cell_in_direction(self.rows, self.columns, p.row, p.col, only_exit, MAX_SQUARE_WRAP).unwrap();
            proof {
                lemma_step_inverse(self.rows, self.columns, p, only_exit, 2);
                lemma_in_bounds(self.maze_matrix@, self.rows, self.columns, q);
            }
            let mut c2 = self.maze_matrix[q.row][q.col];
            c2.remove_dir(only_exit.reverse());
            set_cell(&mut self.maze_matrix, q, c2);
            proof {
                let g1 = set_at(g, p, at(g, p).with(only_exit, false));
                assert(self.cells() == closed_pair(g, self.rows, self.columns, p, only_exit));
                lemma_grid_sum_set(g, p, at(g, p).with(only_exit, false), exit_count());
                lemma_grid_sum_set(g1, q, at(g1, q).with(only_exit.rev(), false), exit_count());
                assert forall|x: Point, e: Direction|
                    on_grid(self.rows, self.columns, x) && #[trigger] at(self.cells(), x).has(e)
                        implies at(g0, x).has(e) by {
                    lemma_closed_pair_at(g, self.rows, self.columns, p, only_exit, x, e);
                }
                lemma_closed_pair_at(g, self.rows, self.columns, p, only_exit, dead_end, only_exit);
                lemma_closed_pair_at(g, self.rows, self.columns, p, only_exit, p, only_exit);
                assert forall|x: Point|
                    on_grid(self.rows, self.columns, x) && #[trigger] at(self.cells(), x) != at(g0, x) && x != q
                        implies at(self.cells(), x).exits() == 0 by {
                    lemma_closed_pair_at(g, self.rows, self.columns, p, only_exit, x, only_exit);
                    crate::grid::lemma_set_at_all(g, self.rows, self.columns, p, at(g, p).with(only_exit, false));
                    let g1 = set_at(g, p, at(g, p).with(only_exit, false));
                    crate::grid::lemma_set_at_all(g1, self.rows, self.columns, q, at(g1, q).with(only_exit.rev(), false));
                    if x == p {
                        assert(at(g1, p).exits() == 0);
                    } else {
                        assert(at(self.cells(), x) == at(g, x));
                    }
                }
                assert forall|w: usize|
                    #[trigger] reciprocal(g0, self.rows, self.columns, w)
                        implies reciprocal(self.cells(), self.rows, self.columns, w) by {
                    lemma_closed_pair_reciprocal(g, self.rows, self.columns, p, only_exit, w);
                }
                first = false;
            }
            current_cell = q;
            proof {
                lemma_in_bounds(self.maze_matrix@, self.rows, self.columns, q);
                assert(only_exit == at(g, p).exit_list()[0]);
                assert(peel(g, self.rows, self.columns, p, fuel) == (if at(self.cells(), q).exits() == 1 {
                    peel(self.cells(), self.rows, self.columns, q, (fuel - 1) as nat)
                } else {
                    self.cells()
                }));
                fuel = (fuel - 1) as nat;
                if at(self.cells(), q).exits() == 1 {
                    lemma_entry_le_sum(self.cells(), q, exit_count(), Compass::closed());
                }
            }
            if self.maze_matrix[q.row][q.col].get_number_of_exits() != 1 {
                found_junction = true;
            }
        }
    }

    /// Opens the passage through `wall`: on its own side always (an exit off
    /// the map where no square lies beyond it under `wrap`), and on the far
    /// side where there is one.
    pub fn remove_wall(&mut self, wall: Wall, wrap: usize)
        requires
            old(self).wf(),
            on_grid(old(self).rows, old(self).columns, wall.cell),
        ensures
            final(self).rows == old(self).rows,
            final(self).columns == old(self).columns,
            final(self).wf(),
            final(self).cells() == opened(old(self).cells(), old(self).rows, old(self).columns, wall, wrap),
    {
        let p = wall.cell;
        proof { lemma_in_bounds(self.maze_matrix@, self.rows, self.columns, p); }
        let next = get_cell_in_direction(self.rows, self.columns, p.row, p.col, wall.dir, wrap);
        proof { lemma_step_inverse(self.rows, self.columns, p, wall.dir, wrap); }
        let c = self.maze_matrix[p.row][p.col].add_dir(wall.dir);
        set_cell(&mut self.maze_matrix, p, c);
        match next {
            Some(q) => {
                proof {
                    lemma_in_bounds(old(self).maze_matrix@, self.rows, self.columns, q);
                    lemma_in_bounds(self.maze_matrix@, self.rows, self.columns, q);
                }
                let c2 = self.maze_matrix[q.row][q.col].add_dir(wall.dir.reverse());
                set_cell(&mut self.maze_matrix, q, c2);
            },
            None => {},
        }
    }
}

} // verus!
