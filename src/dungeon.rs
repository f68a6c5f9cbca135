use vstd::prelude::*;

verus! {

use crate::generate::{flooded, before, carved_over, lemma_open_link_grows, open_link, unset_count};
use crate::grid::{at, filled, grid, grid_sum, lemma_grid_sum_set, lemma_in_bounds, lemma_set_at_all, on_grid, set_at, set_cell, shaped};
use crate::maze::{
    peel, total_exits, dead_ends_upto, row_dead_ends, lemma_dead_ends_contain, lemma_dead_ends_on_grid, lemma_exits_mono, NO_SQUARE_WRAP, GenerationType, PPM,
    get_cell_in_direction, lemma_opened_reciprocal, lemma_step_inverse, opened, reciprocal, step_from, Compass, Direction, Maze,
    Point, Wall,
};
use crate::path::{lemma_closed_holds, lemma_linked_mono, lemma_linked_push, lemma_linked_refl, linked};
use crate::random::{random_below, shuffle_points};
use rand::rngs::StdRng;

/// Error raised when a dungeon is requested with an unusable shape.
#[derive(Debug)]
pub enum DungeonError {
    Syntax(String),
}

/// One square of a finished map: its kind and the character that draws it.
#[derive(Debug, Clone, PartialEq, Eq, Hash)]
pub struct Tile {
    pub name: &'static str,
    pub glyph: char,
}

pub open spec fn wall_tile() -> Tile {
    Tile { name: "Wall", glyph: '#' }
}

pub open spec fn floor_tile() -> Tile {
    Tile { name: "Floor", glyph: ' ' }
}

pub open spec fn room_tile() -> Tile {
    Tile { name: "Room", glyph: ' ' }
}

pub open spec fn exit_tile() -> Tile {
    Tile { name: "Exit", glyph: ' ' }
}

impl Tile {
    pub fn init(name: &'static str, glyph: char) -> (r: Tile)
        ensures
            r == (Tile { name: name, glyph: glyph }),
    {
        Tile { name: name, glyph: glyph }
    }

    pub fn wall() -> (r: Tile)
        ensures
            r == wall_tile(),
    {
        Tile { name: "Wall", glyph: '#' }
    }

    pub fn floor() -> (r: Tile)
        ensures
            r == floor_tile(),
    {
        Tile { name: "Floor", glyph: ' ' }
    }

    pub fn room() -> (r: Tile)
        ensures
            r == room_tile(),
    {
        Tile { name: "Room", glyph: ' ' }
    }

    pub fn exit() -> (r: Tile)
        ensures
            r == exit_tile(),
    {
        Tile { name: "Exit", glyph: ' ' }
    }
}

/// A rectangle of squares: its corner of least row and column, and the
/// offset from there to the opposite corner (a single square has offset `(0, 0)`).
#[derive(Debug, Clone, Copy, PartialEq, Eq, Hash, Structural)]
pub struct Room {
    pub base_point: Point,
    pub dimensions: Point,
}

/// The far corner of the room is a representable square.
pub open spec fn room_ok(r: Room) -> bool {
    r.base_point.row + r.dimensions.row <= usize::MAX && r.base_point.col + r.dimensions.col <= usize::MAX
}

pub open spec fn in_room(r: Room, p: Point) -> bool {
    &&& r.base_point.row <= p.row <= r.base_point.row + r.dimensions.row
    &&& r.base_point.col <= p.col <= r.base_point.col + r.dimensions.col
}

/// Two rooms share at least one square.
pub open spec fn rooms_overlap(a: Room, b: Room) -> bool {
    &&& a.base_point.row <= b.base_point.row + b.dimensions.row
    &&& b.base_point.row <= a.base_point.row + a.dimensions.row
    &&& a.base_point.col <= b.base_point.col + b.dimensions.col
    &&& b.base_point.col <= a.base_point.col + a.dimensions.col
}

pub open spec fn in_any_room(rooms: Seq<Room>, p: Point) -> bool {
    exists|i: int| 0 <= i < rooms.len() && #[trigger] in_room(rooms[i], p)
}

/// No room of offset `dim` placed inside `bounds` shares a square with any of `avoid`.
pub open spec fn no_placement_meets(bounds: Room, dim: Point, avoid: Seq<Room>) -> bool {
    forall|b: Point, k: int|
        bounds.base_point.row <= b.row && b.row + dim.row <= bounds.base_point.row + bounds.dimensions.row
            && bounds.base_point.col <= b.col && b.col + dim.col <= bounds.base_point.col + bounds.dimensions.col
            && 0 <= k < avoid.len() ==> !#[trigger] rooms_overlap(Room { base_point: b, dimensions: dim }, avoid[k])
}

/// The four sides of a room seen from inside, corners on two sides each:
/// for each column the north and the south side, then for each row the west
/// and the east side.
pub open spec fn room_walls(r: Room) -> Seq<Wall> {
    ns_walls(r, r.dimensions.col + 1) + we_walls(r, r.dimensions.row + 1)
}

pub open spec fn ns_walls(r: Room, n: int) -> Seq<Wall>
    decreases n,
{
    if n <= 0 {
        Seq::empty()
    } else {
        ns_walls(r, n - 1) + seq![
            Wall {
                cell: Point { row: (r.base_point.row + r.dimensions.row) as usize, col: (r.base_point.col + n - 1) as usize },
                dir: Direction::North,
            },
            Wall { cell: Point { row: r.base_point.row, col: (r.base_point.col + n - 1) as usize }, dir: Direction::South },
        ]
    }
}

pub open spec fn we_walls(r: Room, n: int) -> Seq<Wall>
    decreases n,
{
    if n <= 0 {
        Seq::empty()
    } else {
        we_walls(r, n - 1) + seq![
            Wall { cell: Point { row: (r.base_point.row + n - 1) as usize, col: r.base_point.col }, dir: Direction::West },
            Wall {
                cell: Point { row: (r.base_point.row + n - 1) as usize, col: (r.base_point.col + r.dimensions.col) as usize },
                dir: Direction::East,
            },
        ]
    }
}

impl Room {
    pub fn init(base_point: Point, dimensions: Point) -> (r: Room)
        ensures
            r == (Room { base_point: base_point, dimensions: dimensions }),
    {
        Room { base_point: base_point, dimensions: dimensions }
    }

    /// The corner of least row and column.
    pub fn get_base_point(self) -> (r: Point)
        ensures
            r == self.base_point,
    {
        self.base_point
    }

    /// The row offset to the far corner.
    pub fn get_width(self) -> (r: usize)
        ensures
            r == self.dimensions.row,
    {
        self.dimensions.get_x()
    }

    /// The column offset to the far corner.
    pub fn get_height(self) -> (r: usize)
        ensures
            r == self.dimensions.col,
    {
        self.dimensions.get_y()
    }

    /// Whether `cell` lies in the room, edges included.
    pub fn contains_cell(my_room: Room, cell: Point) -> (r: bool)
        ensures
            r == in_room(my_room, cell),
    {
        let in_x_dim = (my_room.base_point.row <= cell.row) && (cell.row - my_room.base_point.row <= my_room.dimensions.row);
        let in_y_dim = (my_room.base_point.col <= cell.col) && (cell.col - my_room.base_point.col <= my_room.dimensions.col);
        in_x_dim && in_y_dim
    }

    /// Whether `my_cell` lies in any of `other_rooms`.
    pub fn check_multi_room_contains_cell(my_cell: Point, other_rooms: &Vec<Room>) -> (r: bool)
        ensures
            r == in_any_room(other_rooms@, my_cell),
    {
        let mut i: usize = 0;
        while i < other_rooms.len()
            invariant
                i <= other_rooms@.len(),
                forall|k: int| 0 <= k < i ==> !#[trigger] in_room(other_rooms@[k], my_cell),
            decreases other_rooms@.len() - i,
        {
            if Room::contains_cell(other_rooms[i], my_cell) {
                return true;
            }
            i = i + 1;
        }
        false
    }

    /// Whether the two rooms share a square: a corner of one lies in the
    /// other, or the two form a cross.
    pub fn check_intersection(first_room: Room, second_room: Room) -> (r: bool)
        requires
            room_ok(first_room),
            room_ok(second_room),
        ensures
            r == rooms_overlap(first_room, second_room),
    {
        if Room::contains_cell(first_room, second_room.base_point) {
            return true;
        }
        let second_room_top_left = Point::init(second_room.base_point.row, second_room.base_point.col + second_room.dimensions.col);
        if Room::contains_cell(first_room, second_room_top_left) {
            return true;
        }
        let second_room_bottom_right = Point::init(second_room.base_point.row + second_room.dimensions.row, second_room.base_point.col);
        if Room::contains_cell(first_room, second_room_bottom_right) {
            return true;
        }
        if Room::contains_cell(second_room, first_room.base_point) {
            return true;
        }
        let first_room_top_left = Point::init(first_room.base_point.row, first_room.base_point.col + first_room.dimensions.col);
        if Room::contains_cell(second_room, first_room_top_left) {
            return true;
        }
        let first_room_bottom_right = Point::init(first_room.base_point.row + first_room.dimensions.row, first_room.base_point.col);
        if Room::contains_cell(second_room, first_room_bottom_right) {
            return true;
        }
        if (second_room.base_point.row < first_room.base_point.row) && (second_room.base_point.row + second_room.dimensions.row > first_room.base_point.row) {
            if (first_room.base_point.col < second_room.base_point.col) && (first_room.base_point.col + first_room.dimensions.col > second_room.base_point.col) {
                return true;
            }
        } else if (first_room.base_point.row < second_room.base_point.row) && (first_room.base_point.row + first_room.dimensions.row > second_room.base_point.row) {
            if (second_room.base_point.col < first_room.base_point.col) && (second_room.base_point.col + second_room.dimensions.col > first_room.base_point.col) {
                return true;
            }
        }
        false
    }

    /// Whether `my_room` shares a square with any of `other_rooms`.
    pub fn check_multi_room_intersection(my_room: Room, other_rooms: &Vec<Room>) -> (r: bool)
        requires
            room_ok(my_room),
            forall|k: int| 0 <= k < other_rooms@.len() ==> room_ok(#[trigger] other_rooms@[k]),
        ensures
            r == exists|k: int| 0 <= k < other_rooms@.len() && #[trigger] rooms_overlap(my_room, other_rooms@[k]),
    {
        let mut i: usize = 0;
        while i < other_rooms.len()
            invariant
                i <= other_rooms@.len(),
                room_ok(my_room),
                forall|k: int| 0 <= k < other_rooms@.len() ==> room_ok(#[trigger] other_rooms@[k]),
                forall|k: int| 0 <= k < i ==> !#[trigger] rooms_overlap(my_room, other_rooms@[k]),
            decreases other_rooms@.len() - i,
        {
            if Room::check_intersection(my_room, other_rooms[i]) {
                return true;
            }
            i = i + 1;
        }
        false
    }

    /// A room of offset `room_dim` placed uniformly at random within `bounds`
    /// so that it meets none of `avoid`, trying `attempts + 1` times.
    pub fn generate_room_with_dimensions_in_bounds(bounds: Room, room_dim: Point, attempts: usize, avoid: &Vec<Room>, rng: &mut StdRng) -> (r: Option<Room>)
        requires
            room_ok(bounds),
            bounds.dimensions.row < usize::MAX,
            bounds.dimensions.col < usize::MAX,
            attempts < usize::MAX,
            forall|k: int| 0 <= k < avoid@.len() ==> room_ok(#[trigger] avoid@[k]),
        ensures
            r matches Some(room) ==> room.dimensions == room_dim && room_ok(room)
                && bounds.base_point.row <= room.base_point.row
                && room.base_point.row + room_dim.row <= bounds.base_point.row + bounds.dimensions.row
                && bounds.base_point.col <= room.base_point.col
                && room.base_point.col + room_dim.col <= bounds.base_point.col + bounds.dimensions.col
                && forall|k: int| 0 <= k < avoid@.len() ==> !#[trigger] rooms_overlap(room, avoid@[k]),
            (bounds.dimensions.row < room_dim.row || bounds.dimensions.col < room_dim.col) ==> r is None,
            (bounds.dimensions.row >= room_dim.row && bounds.dimensions.col >= room_dim.col && avoid@.len() == 0) ==> r is Some,
            (bounds.dimensions.row >= room_dim.row && bounds.dimensions.col >= room_dim.col
                && no_placement_meets(bounds, room_dim, avoid@)) ==> r is Some,
    {
        if (bounds.dimensions.row < room_dim.row) || (bounds.dimensions.col < room_dim.col) {
            return None;
        }
        let max_x = bounds.dimensions.row - room_dim.row;
        let max_y = bounds.dimensions.col - room_dim.col;
        let mut my_attempt: usize = 0;
        while my_attempt <= attempts
            invariant
                room_ok(bounds),
                attempts < usize::MAX,
                bounds.dimensions.row < usize::MAX,
                bounds.dimensions.col < usize::MAX,
                max_x == bounds.dimensions.row - room_dim.row,
                max_y == bounds.dimensions.col - room_dim.col,
                bounds.dimensions.row >= room_dim.row,
                bounds.dimensions.col >= room_dim.col,
                forall|k: int| 0 <= k < avoid@.len() ==> room_ok(#[trigger] avoid@[k]),
                avoid@.len() == 0 ==> my_attempt == 0,
                no_placement_meets(bounds, room_dim, avoid@) ==> my_attempt == 0,
            decreases attempts + 1 - my_attempt,
        {
            let base_point_x = random_below(rng, max_x + 1);
            let base_point_y = random_below(rng, max_y + 1);
            let base_point = Point::init(base_point_x + bounds.base_point.row, base_point_y + bounds.base_point.col);
            let created_room = Room::init(base_point, room_dim);
            if !Room::check_multi_room_intersection(created_room, avoid) {
                return Some(created_room);
            }
            my_attempt = my_attempt + 1;
        }
        None
    }

    /// The sides of the room seen from inside: for each column its north and
    /// south side, then for each row its west and east side.
    pub fn get_walls(&self) -> (r: Vec<Wall>)
        requires
            room_ok(*self),
            self.dimensions.row < usize::MAX,
            self.dimensions.col < usize::MAX,
        ensures
            r@ == room_walls(*self),
    {
        let mut all_walls: Vec<Wall> = Vec::new();
        let mut i: usize = 0;
        while i < self.dimensions.col + 1
            invariant
                room_ok(*self),
                self.dimensions.col < usize::MAX,
                i <= self.dimensions.col + 1,
                all_walls@ == ns_walls(*self, i as int),
            decreases self.dimensions.col + 1 - i,
        {
            let south_wall_cell = Point::init(self.base_point.row, self.base_point.col + i);
            let north_wall_cell = Point::init(self.base_point.row + self.dimensions.row, self.base_point.col + i);
            all_walls.push(Wall::init(north_wall_cell, Direction::North));
            all_walls.push(Wall::init(south_wall_cell, Direction::South));
            proof {
                assert(all_walls@ =~= ns_walls(*self, i + 1));
            }
            i = i + 1;
        }
        let ghost ns = all_walls@;
        let mut j: usize = 0;
        while j < self.dimensions.row + 1
            invariant
                room_ok(*self),
                self.dimensions.row < usize::MAX,
                j <= self.dimensions.row + 1,
                ns == ns_walls(*self, self.dimensions.col + 1),
                all_walls@ == ns + we_walls(*self, j as int),
            decreases self.dimensions.row + 1 - j,
        {
            let west_wall_cell = Point::init(self.base_point.row + j, self.base_point.col);
            let east_wall_cell = Point::init(self.base_point.row + j, self.base_point.col + self.dimensions.col);
            all_walls.push(Wall::init(west_wall_cell, Direction::West));
            all_walls.push(Wall::init(east_wall_cell, Direction::East));
            proof {
                assert(all_walls@ =~= ns + we_walls(*self, j + 1));
            }
            j = j + 1;
        }
        all_walls
    }
}


/// A finished map of tiles.
#[derive(Debug)]
pub struct Dungeon {
    pub rows: usize,
    pub columns: usize,
    pub map_matrix: Vec<Vec<Tile>>,
}

impl Dungeon {
    pub open spec fn tiles(&self) -> Seq<Seq<Tile>> {
        grid(self.map_matrix@)
    }
}

/// Floor where a passage is open, wall elsewhere.
pub open spec fn passage_tile(open: bool) -> Tile {
    if open { floor_tile() } else { wall_tile() }
}

/// The tile at `(r, c)` of the map drawn from maze `g`: square `(i, j)` of
/// the maze sits at `(2i + 1, 2j + 1)`, floor when it has a passage; the
/// tile between two squares is floor when the passage between them is open
/// (north and east passages are drawn; south and west only on row and column 0).
pub open spec fn projected(g: Seq<Seq<Compass>>, r: int, c: int) -> Tile {
    if r % 2 == 1 && c % 2 == 1 {
        passage_tile(g[r / 2][c / 2].exits() > 0)
    } else if r % 2 == 0 && c % 2 == 1 {
        if r == 0 {
            passage_tile(g[0][c / 2].has(Direction::South))
        } else {
            passage_tile(g[r / 2 - 1][c / 2].has(Direction::North))
        }
    } else if r % 2 == 1 && c % 2 == 0 {
        if c == 0 {
            passage_tile(g[r / 2][0].has(Direction::West))
        } else {
            passage_tile(g[r / 2][c / 2 - 1].has(Direction::East))
        }
    } else {
        wall_tile()
    }
}

/// The map of a maze: `2 * rows + 1` by `2 * cols + 1` tiles as `projected` gives them.
pub open spec fn projects(t: Seq<Seq<Tile>>, g: Seq<Seq<Compass>>, rows: usize, cols: usize) -> bool {
    &&& shaped(t, 2 * rows + 1, 2 * cols + 1)
    &&& forall|r: int, c: int| 0 <= r < 2 * rows + 1 && 0 <= c < 2 * cols + 1 ==> #[trigger] t[r][c] == projected(g, r, c)
}

/// The maze read back from a map of floor and wall tiles.
pub open spec fn unproject(t: Seq<Seq<Tile>>, rows: usize, cols: usize) -> Seq<Seq<Compass>> {
    Seq::new(rows as nat, |i: int| Seq::new(cols as nat, |j: int| Compass {
        north: t[2 * i + 2][2 * j + 1] == floor_tile(),
        south: t[2 * i][2 * j + 1] == floor_tile(),
        east: t[2 * i + 1][2 * j + 2] == floor_tile(),
        west: t[2 * i + 1][2 * j] == floor_tile(),
    }))
}

/// The tile drawn at `(r, c)` for maze `m`.
fn tile_for(m: &Maze, r: usize, c: usize) -> (t: Tile)
    requires
        m.wf(),
        r < 2 * m.rows + 1,
        c < 2 * m.columns + 1,
    ensures
        t == projected(m.cells(), r as int, c as int),
{
    let g = &m.maze_matrix;
    if r % 2 == 1 && c % 2 == 1 {
        proof { lemma_in_bounds(m.maze_matrix@, m.rows, m.columns, Point { row: r / 2, col: c / 2 }); }
        if g[r / 2][c / 2].get_number_of_exits() != 0 { Tile::floor() } else { Tile::wall() }
    } else if r % 2 == 0 && c % 2 == 1 {
        if r == 0 {
            proof { lemma_in_bounds(m.maze_matrix@, m.rows, m.columns, Point { row: 0, col: c / 2 }); }
            if g[0][c / 2].has_dir(Direction::South) { Tile::floor() } else { Tile::wall() }
        } else {
            proof { lemma_in_bounds(m.maze_matrix@, m.rows, m.columns, Point { row: (r / 2 - 1) as usize, col: c / 2 }); }
            if g[r / 2 - 1][c / 2].has_dir(Direction::North) { Tile::floor() } else { Tile::wall() }
        }
    } else if r % 2 == 1 && c % 2 == 0 {
        if c == 0 {
            proof { lemma_in_bounds(m.maze_matrix@, m.rows, m.columns, Point { row: r / 2, col: 0 }); }
            if g[r / 2][0].has_dir(Direction::West) { Tile::floor() } else { Tile::wall() }
        } else {
            proof { lemma_in_bounds(m.maze_matrix@, m.rows, m.columns, Point { row: r / 2, col: (c / 2 - 1) as usize }); }
            if g[r / 2][c / 2 - 1].has_dir(Direction::East) { Tile::floor() } else { Tile::wall() }
        }
    } else {
        Tile::wall()
    }
}

/// Draws a maze as a map of `2 * rows + 1` by `2 * columns + 1` tiles.
pub fn maze_to_map(my_maze: &Maze) -> (r: Result<Dungeon, DungeonError>)
    requires
        my_maze.wf(),
        2 * my_maze.rows + 1 <= usize::MAX,
        2 * my_maze.columns + 1 <= usize::MAX,
    ensures
        r matches Ok(d) ==> d.rows == 2 * my_maze.rows + 1 && d.columns == 2 * my_maze.columns + 1
            && projects(d.tiles(), my_maze.cells(), my_maze.rows, my_maze.columns),
        r is Ok,
{
    let n_rows = 2 * my_maze.rows + 1;
    let n_cols = 2 * my_maze.columns + 1;
    let mut map_matrix: Vec<Vec<Tile>> = Vec::new();
    let mut r: usize = 0;
    while r < n_rows
        invariant
            my_maze.wf(),
            n_rows == 2 * my_maze.rows + 1,
            n_cols == 2 * my_maze.columns + 1,
            r <= n_rows,
            map_matrix@.len() == r,
            forall|k: int| 0 <= k < r ==> #[trigger] map_matrix@[k]@.len() == n_cols,
            forall|k: int, c: int| 0 <= k < r && 0 <= c < n_cols ==> #[trigger] map_matrix@[k]@[c] == projected(my_maze.cells(), k, c),
        decreases n_rows - r,
    {
        let mut row: Vec<Tile> = Vec::new();
        let mut c: usize = 0;
        while c < n_cols
            invariant
                my_maze.wf(),
                n_rows == 2 * my_maze.rows + 1,
                n_cols == 2 * my_maze.columns + 1,
                r < n_rows,
                c <= n_cols,
                row@.len() == c,
                forall|q: int| 0 <= q < c ==> #[trigger] row@[q] == projected(my_maze.cells(), r as int, q),
            decreases n_cols - c,
        {
            row.push(tile_for(my_maze, r, c));
            c = c + 1;
        }
        map_matrix.push(row);
        r = r + 1;
    }
    let d = Dungeon { rows: n_rows, columns: n_cols, map_matrix: map_matrix };
    proof {
        assert forall|k: int| 0 <= k < n_rows implies #[trigger] d.tiles()[k].len() == n_cols by {
            assert(d.tiles()[k] == map_matrix@[k]@);
        }
        assert forall|k: int, c: int| 0 <= k < n_rows && 0 <= c < n_cols implies #[trigger] d.tiles()[k][c] == projected(my_maze.cells(), k, c) by {
            assert(d.tiles()[k] == map_matrix@[k]@);
        }
    }
    Ok(d)
}

/// The centre tile of a square is floor exactly when the square has a passage.
pub proof fn lemma_centre_tile(t: Seq<Seq<Tile>>, g: Seq<Seq<Compass>>, rows: usize, cols: usize, i: int, j: int)
    requires
        projects(t, g, rows, cols),
        0 <= i < rows,
        0 <= j < cols,
    ensures
        (t[2 * i + 1][2 * j + 1] == floor_tile()) <==> g[i][j].exits() > 0,
        (t[2 * i + 1][2 * j + 1] == wall_tile()) <==> g[i][j].exits() == 0,
{
    assert((2 * i + 1) % 2 == 1 && (2 * i + 1) / 2 == i);
    assert((2 * j + 1) % 2 == 1 && (2 * j + 1) / 2 == j);
    assert(t[2 * i + 1][2 * j + 1] == projected(g, 2 * i + 1, 2 * j + 1));
}

/// The tile north of a square is floor exactly when its north passage is
/// open, which, with reciprocal passages and a square beyond, is when that
/// square's south passage is open.
pub proof fn lemma_north_tile(t: Seq<Seq<Tile>>, g: Seq<Seq<Compass>>, rows: usize, cols: usize, wrap: usize, i: int, j: int)
    requires
        projects(t, g, rows, cols),
        0 <= i < rows,
        0 <= j < cols,
    ensures
        (t[2 * i + 2][2 * j + 1] == floor_tile()) <==> g[i][j].has(Direction::North),
        crate::maze::reciprocal(g, rows, cols, wrap) && i + 1 < rows
            ==> ((t[2 * i + 2][2 * j + 1] == floor_tile()) <==> g[i + 1][j].has(Direction::South)),
{
    assert((2 * i + 2) % 2 == 0 && (2 * i + 2) / 2 - 1 == i);
    assert((2 * j + 1) % 2 == 1 && (2 * j + 1) / 2 == j);
    assert(t[2 * i + 2][2 * j + 1] == projected(g, 2 * i + 2, 2 * j + 1));
    if crate::maze::reciprocal(g, rows, cols, wrap) && i + 1 < rows {
        let p = Point { row: i as usize, col: j as usize };
        let q = Point { row: (i + 1) as usize, col: j as usize };
        crate::maze::lemma_step_inverse(rows, cols, p, Direction::North, wrap);
        assert(crate::maze::step_from(rows, cols, p, Direction::North, wrap) == Some(q));
        assert(crate::maze::step_from(rows, cols, q, Direction::South, wrap) == Some(p));
        assert(at(g, p) == g[i][j] && at(g, q) == g[i + 1][j]);
    }
}

/// Reading a drawn maze back gives the maze, when its passages are reciprocal.
pub proof fn lemma_project_round_trip(t: Seq<Seq<Tile>>, g: Seq<Seq<Compass>>, rows: usize, cols: usize, wrap: usize)
    requires
        projects(t, g, rows, cols),
        shaped(g, rows as int, cols as int),
        crate::maze::reciprocal(g, rows, cols, wrap),
    ensures
        unproject(t, rows, cols) == g,
{
    let u = unproject(t, rows, cols);
    assert(floor_tile() != wall_tile());
    assert forall|i: int| 0 <= i < rows implies #[trigger] u[i] =~= g[i] by {
        assert forall|j: int| 0 <= j < cols implies u[i][j] == g[i][j] by {
            let p = Point { row: i as usize, col: j as usize };
            assert(at(g, p) == g[i][j]);
            lemma_north_tile(t, g, rows, cols, wrap, i, j);
            assert((2 * i + 1) % 2 == 1 && (2 * i + 1) / 2 == i);
            assert((2 * j + 1) % 2 == 1 && (2 * j + 1) / 2 == j);
            assert((2 * j + 2) % 2 == 0 && (2 * j + 2) / 2 - 1 == j);
            assert((2 * i) % 2 == 0 && (2 * j) % 2 == 0);
            assert(t[2 * i + 1][2 * j + 2] == projected(g, 2 * i + 1, 2 * j + 2));
            assert(t[2 * i][2 * j + 1] == projected(g, 2 * i, 2 * j + 1));
            assert(t[2 * i + 1][2 * j] == projected(g, 2 * i + 1, 2 * j));
            assert(u[i][j].north == g[i][j].north);
            assert(u[i][j].east == g[i][j].east);
            if i > 0 {
                assert((2 * i) / 2 - 1 == i - 1);
                let q = Point { row: (i - 1) as usize, col: j as usize };
                crate::maze::lemma_step_inverse(rows, cols, q, Direction::North, wrap);
                crate::maze::lemma_step_inverse(rows, cols, p, Direction::South, wrap);
                assert(at(g, q) == g[i - 1][j]);
                assert(crate::maze::step_from(rows, cols, q, Direction::North, wrap) == Some(p));
                assert(crate::maze::step_from(rows, cols, p, Direction::South, wrap) == Some(q));
                if g[i - 1][j].north {
                    assert(at(g, q).has(Direction::North));
                    assert(at(g, p).has(Direction::South));
                }
                if g[i][j].south {
                    assert(at(g, p).has(Direction::South));
                    assert(at(g, q).has(Direction::North));
                }
                assert(u[i][j].south == g[i - 1][j].north);
            } else {
                assert((2 * j + 1) / 2 == j);
            }
            assert(u[i][j].south == g[i][j].south);
            if j > 0 {
                assert((2 * j) / 2 - 1 == j - 1);
                let q = Point { row: i as usize, col: (j - 1) as usize };
                crate::maze::lemma_step_inverse(rows, cols, q, Direction::East, wrap);
                crate::maze::lemma_step_inverse(rows, cols, p, Direction::West, wrap);
                assert(at(g, q) == g[i][j - 1]);
                assert(crate::maze::step_from(rows, cols, q, Direction::East, wrap) == Some(p));
                assert(crate::maze::step_from(rows, cols, p, Direction::West, wrap) == Some(q));
                if g[i][j - 1].east {
                    assert(at(g, q).has(Direction::East));
                    assert(at(g, p).has(Direction::West));
                }
                if g[i][j].west {
                    assert(at(g, p).has(Direction::West));
                    assert(at(g, q).has(Direction::East));
                }
                assert(u[i][j].west == g[i][j - 1].east);
            } else {
                assert((2 * i + 1) / 2 == i);
            }
            assert(u[i][j].west == g[i][j].west);
        }
    }
    assert(u =~= g);
}

/// The map as text: each tile's glyph, a newline after each row.
pub open spec fn dungeon_text(t: Seq<Seq<Tile>>, rows: int, cols: int) -> Seq<char>
    decreases rows,
{
    if rows <= 0 {
        Seq::empty()
    } else {
        dungeon_text(t, rows - 1, cols) + glyph_text(t[rows - 1], cols) + seq!['\n']
    }
}

pub open spec fn glyph_text(r: Seq<Tile>, n: int) -> Seq<char>
    decreases n,
{
    if n <= 0 {
        Seq::empty()
    } else {
        glyph_text(r, n - 1).push(r[n - 1].glyph)
    }
}

/// Appends the map as text to `out_stream`.
pub fn print_dungeon(my_dungeon: &Dungeon, out_stream: &mut Vec<char>)
    requires
        shaped(my_dungeon.tiles(), my_dungeon.rows as int, my_dungeon.columns as int),
    ensures
        final(out_stream)@ == old(out_stream)@ + dungeon_text(my_dungeon.tiles(), my_dungeon.rows as int, my_dungeon.columns as int),
{
    let ghost t = my_dungeon.tiles();
    let mut i: usize = 0;
    while i < my_dungeon.rows
        invariant
            i <= my_dungeon.rows,
            t == my_dungeon.tiles(),
            shaped(t, my_dungeon.rows as int, my_dungeon.columns as int),
            out_stream@ == old(out_stream)@ + dungeon_text(t, i as int, my_dungeon.columns as int),
        decreases my_dungeon.rows - i,
    {
        let ghost o0 = out_stream@;
        let mut j: usize = 0;
        while j < my_dungeon.columns
            invariant
                i < my_dungeon.rows,
                j <= my_dungeon.columns,
                t == my_dungeon.tiles(),
                shaped(t, my_dungeon.rows as int, my_dungeon.columns as int),
                out_stream@ == o0 + glyph_text(t[i as int], j as int),
            decreases my_dungeon.columns - j,
        {
            proof { lemma_in_bounds(my_dungeon.map_matrix@, my_dungeon.rows, my_dungeon.columns, Point { row: i, col: j }); }
            out_stream.push(my_dungeon.map_matrix[i][j].glyph);
            proof { assert(out_stream@ =~= o0 + glyph_text(t[i as int], j + 1)); }
            j = j + 1;
        }
        out_stream.push('\n');
        proof {
            assert(out_stream@ =~= old(out_stream)@ + dungeon_text(t, i + 1, my_dungeon.columns as int));
        }
        i = i + 1;
    }
}


/// Every open passage of `g` leads to a square of the grid under `wrap`.
pub open spec fn stays_on_grid(g: Seq<Seq<Compass>>, rows: usize, cols: usize, wrap: usize) -> bool {
    forall|p: Point, d: Direction| on_grid(rows, cols, p) && #[trigger] at(g, p).has(d) ==> step_from(rows, cols, p, d, wrap) is Some
}

/// Opening a passage that leads to a square keeps every passage leading to one.
proof fn lemma_opened_stays(g: Seq<Seq<Compass>>, rows: usize, cols: usize, w: Wall, wrap: usize)
    requires
        shaped(g, rows as int, cols as int),
        on_grid(rows, cols, w.cell),
        stays_on_grid(g, rows, cols, wrap),
        step_from(rows, cols, w.cell, w.dir, wrap) is Some,
    ensures
        stays_on_grid(opened(g, rows, cols, w, wrap), rows, cols, wrap),
{
    let n = opened(g, rows, cols, w, wrap);
    let g1 = set_at(g, w.cell, at(g, w.cell).with(w.dir, true));
    let q = step_from(rows, cols, w.cell, w.dir, wrap)->Some_0;
    lemma_set_at_all(g, rows, cols, w.cell, at(g, w.cell).with(w.dir, true));
    lemma_step_inverse(rows, cols, w.cell, w.dir, wrap);
    lemma_set_at_all(g1, rows, cols, q, at(g1, q).with(w.dir.rev(), true));
    assert forall|p: Point, d: Direction| on_grid(rows, cols, p) && #[trigger] at(n, p).has(d)
        implies step_from(rows, cols, p, d, wrap) is Some by {
        if !at(g, p).has(d) {
            if p == q && d == w.dir.rev() {
            } else {
                assert(p == w.cell && d == w.dir);
            }
        }
    }
}

pub open spec fn origin() -> Point {
    Point { row: 0, col: 0 }
}

/// The state of the repair flood: reached squares are joined to the origin;
/// every open passage of a reached square is on the list of moves or leads
/// to a reached square (or off the map).
pub open spec fn repair_state(g: Seq<Seq<Compass>>, seen: Seq<Seq<bool>>, moves: Seq<Wall>, rows: usize, cols: usize, wrap: usize) -> bool {
    &&& shaped(g, rows as int, cols as int)
    &&& shaped(seen, rows as int, cols as int)
    &&& at(seen, origin())
    &&& forall|p: Point| on_grid(rows, cols, p) && #[trigger] at(seen, p) ==> linked(origin(), p, open_link(g, rows, cols, wrap))
    &&& forall|i: int| 0 <= i < moves.len() ==> on_grid(rows, cols, #[trigger] moves[i].cell) && at(seen, moves[i].cell)
        && at(g, moves[i].cell).has(moves[i].dir)
    &&& forall|p: Point, d: Direction| on_grid(rows, cols, p) && #[trigger] at(seen, p) && #[trigger] at(g, p).has(d)
        ==> moves.contains(Wall { cell: p, dir: d }) || step_from(rows, cols, p, d, wrap) is None
            || at(seen, step_from(rows, cols, p, d, wrap)->Some_0)
}

/// Pushes a move for each open passage of `c`, the compass of `p`, in canonical order.
fn push_exits(moves: &mut Vec<Wall>, p: Point, c: Compass)
    ensures
        forall|d: Direction| #[trigger] c.has(d) ==> final(moves)@.contains(Wall { cell: p, dir: d }),
        forall|i: int| 0 <= i < old(moves)@.len() ==> final(moves)@[i] == old(moves)@[i],
        forall|i: int| old(moves)@.len() <= i < final(moves)@.len() ==> (#[trigger] final(moves)@[i]).cell == p && c.has(final(moves)@[i].dir),
        final(moves)@.len() >= old(moves)@.len(),
{
    let ghost m0 = moves@;
    if c.north {
        moves.push(Wall::init(p, Direction::North));
    }
    let ghost m1 = moves@;
    if c.south {
        moves.push(Wall::init(p, Direction::South));
    }
    let ghost m2 = moves@;
    if c.east {
        moves.push(Wall::init(p, Direction::East));
    }
    let ghost m3 = moves@;
    if c.west {
        moves.push(Wall::init(p, Direction::West));
    }
    proof {
        assert forall|d: Direction| #[trigger] c.has(d) implies moves@.contains(Wall { cell: p, dir: d }) by {
            match d {
                Direction::North => { assert(m1[m0.len() as int] == Wall { cell: p, dir: d }); assert(moves@[m0.len() as int] == m1[m0.len() as int]); },
                Direction::South => { assert(m2[m1.len() as int] == Wall { cell: p, dir: d }); assert(moves@[m1.len() as int] == m2[m1.len() as int]); },
                Direction::East => { assert(m3[m2.len() as int] == Wall { cell: p, dir: d }); assert(moves@[m2.len() as int] == m3[m2.len() as int]); },
                Direction::West => { assert(moves@[m3.len() as int] == Wall { cell: p, dir: d }); },
                _ => {},
            }
        }
    }
}

/// `repair_state`, but for the one move `w` taken off the list and not yet followed.
pub open spec fn pending_state(g: Seq<Seq<Compass>>, seen: Seq<Seq<bool>>, moves: Seq<Wall>, rows: usize, cols: usize, wrap: usize, w: Wall) -> bool {
    &&& shaped(g, rows as int, cols as int)
    &&& shaped(seen, rows as int, cols as int)
    &&& at(seen, origin())
    &&& forall|p: Point| on_grid(rows, cols, p) && #[trigger] at(seen, p) ==> linked(origin(), p, open_link(g, rows, cols, wrap))
    &&& forall|i: int| 0 <= i < moves.len() ==> on_grid(rows, cols, #[trigger] moves[i].cell) && at(seen, moves[i].cell)
        && at(g, moves[i].cell).has(moves[i].dir)
    &&& forall|p: Point, d: Direction| on_grid(rows, cols, p) && #[trigger] at(seen, p) && #[trigger] at(g, p).has(d)
        ==> moves.contains(Wall { cell: p, dir: d }) || step_from(rows, cols, p, d, wrap) is None
            || at(seen, step_from(rows, cols, p, d, wrap)->Some_0) || (Wall { cell: p, dir: d }) == w
}

/// Marks `v` reached, joined to the origin through the reached square `u`
/// whose passage toward `d` leads to it, and queues its passages.
fn reach(my_maze: &Maze, wrap: usize, seen: &mut Vec<Vec<bool>>, moves: &mut Vec<Wall>, u: Point, d: Direction, v: Point)
    requires
        my_maze.wf(),
        pending_state(my_maze.cells(), grid(old(seen)@), old(moves)@, my_maze.rows, my_maze.columns, wrap, Wall { cell: u, dir: d }),
        on_grid(my_maze.rows, my_maze.columns, u),
        at(grid(old(seen)@), u),
        at(my_maze.cells(), u).has(d),
        step_from(my_maze.rows, my_maze.columns, u, d, wrap) == Some(v),
        !at(grid(old(seen)@), v),
    ensures
        repair_state(my_maze.cells(), grid(final(seen)@), final(moves)@, my_maze.rows, my_maze.columns, wrap),
        grid(final(seen)@) == set_at(grid(old(seen)@), v, true),
        grid_sum(grid(final(seen)@), unset_count()) < grid_sum(grid(old(seen)@), unset_count()),
{
    let ghost g = my_maze.cells();
    let ghost s0 = grid(seen@);
    let ghost m0 = moves@;
    let ghost rows = my_maze.rows;
    let ghost cols = my_maze.columns;
    proof {
        lemma_step_inverse(rows, cols, u, d, wrap);
        lemma_in_bounds(seen@, rows, cols, v);
        lemma_in_bounds(my_maze.maze_matrix@, rows, cols, v);
        lemma_grid_sum_set(s0, v, true, unset_count());
        lemma_set_at_all(s0, rows, cols, v, true);
    }
    set_cell(seen, v, true);
    push_exits(moves, v, my_maze.maze_matrix[v.row][v.col]);
    proof {
        let s = grid(seen@);
        let link = open_link(g, rows, cols, wrap);
        assert(link(u, v));
        lemma_linked_push(origin(), u, v, link);
        assert forall|i: int| 0 <= i < moves@.len() implies on_grid(rows, cols, #[trigger] moves@[i].cell) && at(s, moves@[i].cell)
            && at(g, moves@[i].cell).has(moves@[i].dir) by {
            if i < m0.len() {
                assert(moves@[i] == m0[i]);
            }
        }
        assert forall|p: Point, e: Direction| on_grid(rows, cols, p) && #[trigger] at(s, p) && #[trigger] at(g, p).has(e)
            implies moves@.contains(Wall { cell: p, dir: e }) || step_from(rows, cols, p, e, wrap) is None
                || at(s, step_from(rows, cols, p, e, wrap)->Some_0) by {
            lemma_step_inverse(rows, cols, p, e, wrap);
            if p != v && !((Wall { cell: p, dir: e }) == (Wall { cell: u, dir: d })) {
                if m0.contains(Wall { cell: p, dir: e }) {
                    let i = choose|i: int| 0 <= i < m0.len() && m0[i] == Wall { cell: p, dir: e };
                    assert(moves@[i] == m0[i]);
                }
            }
        }
    }
}

/// The first square not reached, in row-major order.
fn first_unreached(seen: &Vec<Vec<bool>>, rows: usize, cols: usize) -> (r: Option<Point>)
    requires
        shaped(grid(seen@), rows as int, cols as int),
    ensures
        r is None ==> forall|p: Point| on_grid(rows, cols, p) ==> #[trigger] at(grid(seen@), p),
        r matches Some(p) ==> on_grid(rows, cols, p) && !at(grid(seen@), p)
            && forall|q: Point| on_grid(rows, cols, q) && #[trigger] before(q, p) ==> at(grid(seen@), q),
{
    let mut i: usize = 0;
    while i < rows
        invariant
            i <= rows,
            shaped(grid(seen@), rows as int, cols as int),
            forall|q: Point| on_grid(rows, cols, q) && q.row < i ==> #[trigger] at(grid(seen@), q),
        decreases rows - i,
    {
        let mut j: usize = 0;
        while j < cols
            invariant
                i < rows,
                j <= cols,
                shaped(grid(seen@), rows as int, cols as int),
                forall|q: Point| on_grid(rows, cols, q) && (q.row < i || (q.row == i && q.col < j)) ==> #[trigger] at(grid(seen@), q),
            decreases cols - j,
        {
            proof { lemma_in_bounds(seen@, rows, cols, Point { row: i, col: j }); }
            if !seen[i][j] {
                return Some(Point::init(i, j));
            }
            j = j + 1;
        }
        i = i + 1;
    }
    None
}

/// Whether a move from `p` toward `d` lands on a reached square.
fn leads_to_reached(seen: &Vec<Vec<bool>>, rows: usize, cols: usize, p: Point, d: Direction, wrap: usize) -> (r: bool)
    requires
        shaped(grid(seen@), rows as int, cols as int),
        on_grid(rows, cols, p),
    ensures
        r == (step_from(rows, cols, p, d, wrap) is Some && at(grid(seen@), step_from(rows, cols, p, d, wrap)->Some_0)),
{
    proof { lemma_step_inverse(rows, cols, p, d, wrap); }
    match get_cell_in_direction(rows, cols, p.row, p.col, d, wrap) {
        Some(b) => {
            proof { lemma_in_bounds(seen@, rows, cols, b); }
            seen[b.row][b.col]
        },
        None => false,
    }
}

/// Marks the first unreached square `p` reached, queues its passages, and
/// opens one passage from it to its first reached neighbour in the order
/// north, south, east, west.
#[verifier::rlimit(80)]
fn carve_to_reached(my_maze: &mut Maze, wrap: usize, seen: &mut Vec<Vec<bool>>, moves: &mut Vec<Wall>, p: Point, Ghost(g0): Ghost<Seq<Seq<Compass>>>)
    requires
        old(my_maze).wf(),
        repair_state(old(my_maze).cells(), grid(old(seen)@), old(moves)@, old(my_maze).rows, old(my_maze).columns, wrap),
        on_grid(old(my_maze).rows, old(my_maze).columns, p),
        !at(grid(old(seen)@), p),
        forall|q: Point| on_grid(old(my_maze).rows, old(my_maze).columns, q) && #[trigger] before(q, p) ==> at(grid(old(seen)@), q),
        forall|q: Point, d: Direction| on_grid(old(my_maze).rows, old(my_maze).columns, q) && #[trigger] at(g0, q).has(d)
            ==> at(old(my_maze).cells(), q).has(d),
        reciprocal(g0, old(my_maze).rows, old(my_maze).columns, wrap) ==> reciprocal(old(my_maze).cells(), old(my_maze).rows, old(my_maze).columns, wrap),
        stays_on_grid(g0, old(my_maze).rows, old(my_maze).columns, wrap) ==> stays_on_grid(old(my_maze).cells(), old(my_maze).rows, old(my_maze).columns, wrap),
    ensures
        stays_on_grid(g0, old(my_maze).rows, old(my_maze).columns, wrap) ==> stays_on_grid(final(my_maze).cells(), old(my_maze).rows, old(my_maze).columns, wrap),
        final(my_maze).wf(),
        final(my_maze).rows == old(my_maze).rows,
        final(my_maze).columns == old(my_maze).columns,
        repair_state(final(my_maze).cells(), grid(final(seen)@), final(moves)@, final(my_maze).rows, final(my_maze).columns, wrap),
        grid_sum(grid(final(seen)@), unset_count()) < grid_sum(grid(old(seen)@), unset_count()),
        forall|q: Point, d: Direction| on_grid(old(my_maze).rows, old(my_maze).columns, q) && #[trigger] at(g0, q).has(d)
            ==> at(final(my_maze).cells(), q).has(d),
        reciprocal(g0, old(my_maze).rows, old(my_maze).columns, wrap) ==> reciprocal(final(my_maze).cells(), old(my_maze).rows, old(my_maze).columns, wrap),
{
    let rows = my_maze.rows;
    let cols = my_maze.columns;
    let ghost g = my_maze.cells();
    let ghost s0 = grid(seen@);
    let ghost m0 = moves@;
    proof {
        lemma_in_bounds(seen@, rows, cols, p);
        lemma_in_bounds(my_maze.maze_matrix@, rows, cols, p);
        lemma_step_inverse(rows, cols, p, Direction::West, wrap);
        lemma_step_inverse(rows, cols, p, Direction::South, wrap);
        if p.col > 0 {
            assert(before(Point { row: p.row, col: (p.col - 1) as usize }, p));
        } else {
            assert(p.row > 0);
            assert(before(Point { row: (p.row - 1) as usize, col: p.col }, p));
        }
    }
    let direction = if leads_to_reached(seen, rows, cols, p, Direction::North, wrap) {
        Direction::North
    } else if leads_to_reached(seen, rows, cols, p, Direction::South, wrap) {
        Direction::South
    } else if leads_to_reached(seen, rows, cols, p, Direction::East, wrap) {
        Direction::East
    } else {
        Direction::West
    };
    proof { lemma_step_inverse(rows, cols, p, direction, wrap); }
    let break_out_cell = get_cell_in_direction(rows, cols, p.row, p.col, direction, wrap).unwrap();
    proof {
        lemma_grid_sum_set(s0, p, true, unset_count());
        lemma_set_at_all(s0, rows, cols, p, true);
        lemma_step_inverse(rows, cols, break_out_cell, direction.rev(), wrap);
    }
    set_cell(seen, p, true);
    push_exits(moves, p, my_maze.maze_matrix[p.row][p.col]);
    proof {
        if stays_on_grid(g0, rows, cols, wrap) {
            lemma_opened_stays(g, rows, cols, Wall { cell: break_out_cell, dir: direction.rev() }, wrap);
        }
    }
    my_maze.remove_wall(Wall::init(break_out_cell, direction.reverse()), wrap);
    proof {
        let n = my_maze.cells();
        let s = grid(seen@);
        let w = Wall { cell: break_out_cell, dir: direction.rev() };
        let g1 = set_at(g, break_out_cell, at(g, break_out_cell).with(direction.rev(), true));
        lemma_set_at_all(g, rows, cols, break_out_cell, at(g, break_out_cell).with(direction.rev(), true));
        lemma_set_at_all(g1, rows, cols, p, at(g1, p).with(direction, true));
        assert(n == set_at(g1, p, at(g1, p).with(direction, true)));
        assert forall|q: Point, d: Direction| on_grid(rows, cols, q) && #[trigger] at(g, q).has(d) implies at(n, q).has(d) by {}
        lemma_open_link_grows(g, n, rows, cols, wrap);
        if reciprocal(g0, rows, cols, wrap) {
            lemma_opened_reciprocal(g, rows, cols, w, wrap);
        }
        assert(at(n, break_out_cell).has(direction.rev()));
        assert(open_link(n, rows, cols, wrap)(break_out_cell, p));
        assert forall|q: Point| on_grid(rows, cols, q) && #[trigger] at(s, q) implies linked(origin(), q, open_link(n, rows, cols, wrap)) by {
            if q == p {
                lemma_linked_mono(origin(), break_out_cell, open_link(g, rows, cols, wrap), open_link(n, rows, cols, wrap));
                lemma_linked_push(origin(), break_out_cell, p, open_link(n, rows, cols, wrap));
            } else {
                lemma_linked_mono(origin(), q, open_link(g, rows, cols, wrap), open_link(n, rows, cols, wrap));
            }
        }
        assert forall|i: int| 0 <= i < moves@.len() implies on_grid(rows, cols, #[trigger] moves@[i].cell) && at(s, moves@[i].cell)
            && at(n, moves@[i].cell).has(moves@[i].dir) by {
            if i < m0.len() {
                assert(moves@[i] == m0[i]);
            }
        }
        assert forall|q: Point, d: Direction| on_grid(rows, cols, q) && #[trigger] at(s, q) && #[trigger] at(n, q).has(d)
            implies moves@.contains(Wall { cell: q, dir: d }) || step_from(rows, cols, q, d, wrap) is None
                || at(s, step_from(rows, cols, q, d, wrap)->Some_0) by {
            lemma_step_inverse(rows, cols, q, d, wrap);
            if q == break_out_cell && d == direction.rev() {
            } else if q == p && d == direction {
            } else {
                assert(at(g, q).has(d));
                if q != p {
                    if m0.contains(Wall { cell: q, dir: d }) {
                        let i = choose|i: int| 0 <= i < m0.len() && m0[i] == Wall { cell: q, dir: d };
                        assert(moves@[i] == m0[i]);
                    }
                }
            }
        }
    }
}

/// Makes every square of the maze reachable from `(0, 0)` through open
/// passages: a flood from `(0, 0)` follows open passages; where it stalls,
/// the first square not reached, in row-major order, gets one passage to
/// its first reached neighbour (north, south, east, west), and the flood
/// goes on from there.
pub fn connect_dugeon(my_maze: &mut Maze, wrap: usize)
    requires
        old(my_maze).wf(),
    ensures
        final(my_maze).rows == old(my_maze).rows,
        final(my_maze).columns == old(my_maze).columns,
        final(my_maze).wf(),
        forall|p: Point| on_grid(old(my_maze).rows, old(my_maze).columns, p)
            ==> #[trigger] linked(origin(), p, open_link(final(my_maze).cells(), old(my_maze).rows, old(my_maze).columns, wrap)),
        forall|p: Point, d: Direction| on_grid(old(my_maze).rows, old(my_maze).columns, p) && #[trigger] at(old(my_maze).cells(), p).has(d)
            ==> at(final(my_maze).cells(), p).has(d),
        reciprocal(old(my_maze).cells(), old(my_maze).rows, old(my_maze).columns, wrap)
            ==> reciprocal(final(my_maze).cells(), old(my_maze).rows, old(my_maze).columns, wrap),
        (forall|p: Point| on_grid(old(my_maze).rows, old(my_maze).columns, p)
            ==> #[trigger] linked(origin(), p, open_link(old(my_maze).cells(), old(my_maze).rows, old(my_maze).columns, wrap)))
            ==> final(my_maze).cells() == old(my_maze).cells(),
        stays_on_grid(old(my_maze).cells(), old(my_maze).rows, old(my_maze).columns, wrap)
            ==> stays_on_grid(final(my_maze).cells(), old(my_maze).rows, old(my_maze).columns, wrap),
{
    let ghost g0 = my_maze.cells();
    let ghost mut carved = false;
    let rows = my_maze.rows;
    let cols = my_maze.columns;
    let mut check_matrix = filled(rows, cols, false);
    let mut cell_moves: Vec<Wall> = Vec::new();
    let start = Point::init(0, 0);
    proof {
        lemma_in_bounds(my_maze.maze_matrix@, rows, cols, start);
        lemma_in_bounds(check_matrix@, rows, cols, start);
        lemma_set_at_all(grid(check_matrix@), rows, cols, start, true);
        lemma_linked_refl(start, open_link(g0, rows, cols, wrap));
    }
    push_exits(&mut cell_moves, start, my_maze.maze_matrix[0][0]);
    set_cell(&mut check_matrix, start, true);
    proof {
        let s = grid(check_matrix@);
        assert forall|p: Point| on_grid(rows, cols, p) && #[trigger] at(s, p) implies linked(origin(), p, open_link(g0, rows, cols, wrap)) by {
            assert(p == start);
        }
        assert forall|p: Point, d: Direction| on_grid(rows, cols, p) && #[trigger] at(s, p) && #[trigger] at(g0, p).has(d)
            implies cell_moves@.contains(Wall { cell: p, dir: d }) || step_from(rows, cols, p, d, wrap) is None
                || at(s, step_from(rows, cols, p, d, wrap)->Some_0) by {
            assert(p == start);
        }
    }
    let mut is_contiguous = false;
    while !is_contiguous
        invariant
            my_maze.wf(),
            my_maze.rows == rows,
            my_maze.columns == cols,
            g0 == old(my_maze).cells(),
            repair_state(my_maze.cells(), grid(check_matrix@), cell_moves@, rows, cols, wrap),
            is_contiguous ==> forall|p: Point| on_grid(rows, cols, p) ==> #[trigger] at(grid(check_matrix@), p),
            forall|p: Point, d: Direction| on_grid(rows, cols, p) && #[trigger] at(g0, p).has(d) ==> at(my_maze.cells(), p).has(d),
            reciprocal(g0, rows, cols, wrap) ==> reciprocal(my_maze.cells(), rows, cols, wrap),
            !carved ==> my_maze.cells() == g0,
            stays_on_grid(g0, rows, cols, wrap) ==> stays_on_grid(my_maze.cells(), rows, cols, wrap),
            carved ==> exists|p: Point| on_grid(rows, cols, p) && !#[trigger] linked(origin(), p, open_link(g0, rows, cols, wrap)),
        decreases grid_sum(grid(check_matrix@), unset_count()) + (if is_contiguous { 0nat } else { 1nat }),
    {
        let ghost u_start = grid_sum(grid(check_matrix@), unset_count());
        while cell_moves.len() != 0
            invariant
                my_maze.wf(),
                my_maze.rows == rows,
                my_maze.columns == cols,
                repair_state(my_maze.cells(), grid(check_matrix@), cell_moves@, rows, cols, wrap),
                grid_sum(grid(check_matrix@), unset_count()) <= u_start,
                !carved ==> my_maze.cells() == g0,
                stays_on_grid(g0, rows, cols, wrap) ==> stays_on_grid(my_maze.cells(), rows, cols, wrap),
            decreases grid_sum(grid(check_matrix@), unset_count()), cell_moves@.len(),
        {
            let ghost m0 = cell_moves@;
            let ghost s0 = grid(check_matrix@);
            let move_to = cell_moves.pop().unwrap();
            let current_cell = move_to.cell;
            proof {
                assert(m0[m0.len() - 1] == move_to);
                lemma_step_inverse(rows, cols, current_cell, move_to.dir, wrap);
            }
            let next_cell_check = get_cell_in_direction(rows, cols, current_cell.row, current_cell.col, move_to.dir, wrap);
            let mut reached_new = false;
            if let Some(next_cell) = next_cell_check {
                proof { lemma_in_bounds(check_matrix@, rows, cols, next_cell); }
                if !check_matrix[next_cell.row][next_cell.col] {
                    proof {
                        let g = my_maze.cells();
                        assert forall|i: int| 0 <= i < cell_moves@.len() implies on_grid(rows, cols, #[trigger] cell_moves@[i].cell) && at(s0, cell_moves@[i].cell)
                            && at(g, cell_moves@[i].cell).has(cell_moves@[i].dir) by {
                            assert(cell_moves@[i] == m0[i]);
                        }
                        assert forall|p: Point, d: Direction| on_grid(rows, cols, p) && #[trigger] at(s0, p) && #[trigger] at(g, p).has(d)
                            implies cell_moves@.contains(Wall { cell: p, dir: d }) || step_from(rows, cols, p, d, wrap) is None
                                || at(s0, step_from(rows, cols, p, d, wrap)->Some_0) || (Wall { cell: p, dir: d }) == move_to by {
                            if m0.contains(Wall { cell: p, dir: d }) && (Wall { cell: p, dir: d }) != move_to {
                                let i = choose|i: int| 0 <= i < m0.len() && m0[i] == Wall { cell: p, dir: d };
                                assert(i < m0.len() - 1);
                                assert(cell_moves@[i] == m0[i]);
                            }
                        }
                        assert(move_to == Wall { cell: current_cell, dir: move_to.dir });
                    }
                    reach(my_maze, wrap, &mut check_matrix, &mut cell_moves, current_cell, move_to.dir, next_cell);
                    reached_new = true;
                }
            }
            if !reached_new {
                proof {
                    let g = my_maze.cells();
                    assert forall|i: int| 0 <= i < cell_moves@.len() implies on_grid(rows, cols, #[trigger] cell_moves@[i].cell) && at(s0, cell_moves@[i].cell)
                        && at(g, cell_moves@[i].cell).has(cell_moves@[i].dir) by {
                        assert(cell_moves@[i] == m0[i]);
                    }
                    assert forall|p: Point, d: Direction| on_grid(rows, cols, p) && #[trigger] at(s0, p) && #[trigger] at(g, p).has(d)
                        implies cell_moves@.contains(Wall { cell: p, dir: d }) || step_from(rows, cols, p, d, wrap) is None
                            || at(s0, step_from(rows, cols, p, d, wrap)->Some_0) by {
                        if m0.contains(Wall { cell: p, dir: d }) && (Wall { cell: p, dir: d }) != move_to {
                            let i = choose|i: int| 0 <= i < m0.len() && m0[i] == Wall { cell: p, dir: d };
                            assert(i < m0.len() - 1);
                            assert(cell_moves@[i] == m0[i]);
                        }
                    }
                }
            }
        }
        match first_unreached(&check_matrix, rows, cols) {
            None => {
                is_contiguous = true;
            },
            Some(p) => {
                proof {
                    if !carved {
                        let seen = grid(check_matrix@);
                        let ol = open_link(g0, rows, cols, wrap);
                        assert forall|x: Point, y: Point| flooded(seen)(x) && #[trigger] ol(x, y) implies flooded(seen)(y) by {
                            let d = if at(g0, x).has(Direction::North) && step_from(rows, cols, x, Direction::North, wrap) == Some(y) {
                                Direction::North
                            } else if at(g0, x).has(Direction::South) && step_from(rows, cols, x, Direction::South, wrap) == Some(y) {
                                Direction::South
                            } else if at(g0, x).has(Direction::East) && step_from(rows, cols, x, Direction::East, wrap) == Some(y) {
                                Direction::East
                            } else {
                                Direction::West
                            };
                            assert(!cell_moves@.contains(Wall { cell: x, dir: d }));
                        }
                        if linked(origin(), p, ol) {
                            lemma_closed_holds(origin(), p, ol, flooded(seen));
                        }
                        assert(!linked(origin(), p, ol));
                    }
                    carved = true;
                }
                carve_to_reached(my_maze, wrap, &mut check_matrix, &mut cell_moves, p, Ghost(g0));
            },
        }
    }
    proof {
        assert forall|p: Point| on_grid(rows, cols, p)
            implies #[trigger] linked(origin(), p, open_link(my_maze.cells(), rows, cols, wrap)) by {
            assert(at(grid(check_matrix@), p));
        }
    }
}


pub const ROOM_MIN_WIDTH: usize = 2;
pub const ROOM_MIN_HEIGHT: usize = 2;
pub const ROOM_MAX_WIDTH: usize = 5;
pub const ROOM_MAX_HEIGHT: usize = 5;
pub const ROOM_PLACEMENT_ATTEMPTS: usize = 10;
pub const ROOM_MIN_EXITS: usize = 1;
pub const ROOM_MAX_EXITS: usize = 3;
pub const OUTSIDE_MIN_EXITS: usize = 1;
pub const OUTSIDE_MAX_EXITS: usize = 4;

/// The room lies on a grid of `rows` by `cols` squares.
pub open spec fn room_in_grid(r: Room, rows: usize, cols: usize) -> bool {
    r.base_point.row + r.dimensions.row < rows && r.base_point.col + r.dimensions.col < cols
}

/// Rooms on the grid, no two sharing a square.
pub open spec fn rooms_apart(rooms: Seq<Room>, rows: usize, cols: usize) -> bool {
    &&& forall|k: int| 0 <= k < rooms.len() ==> #[trigger] room_in_grid(rooms[k], rows, cols)
    &&& forall|k1: int, k2: int| 0 <= k1 < rooms.len() && 0 <= k2 < rooms.len() && k1 != k2
        ==> !#[trigger] rooms_overlap(rooms[k1], rooms[k2])
}

proof fn lemma_ns_walls(r: Room, n: int, rows: usize, cols: usize)
    requires
        room_in_grid(r, rows, cols),
        0 <= n <= r.dimensions.col + 1,
    ensures
        ns_walls(r, n).len() == 2 * n,
        forall|i: int| 0 <= i < ns_walls(r, n).len() ==> on_grid(rows, cols, #[trigger] ns_walls(r, n)[i].cell),
    decreases n,
{
    if n > 0 {
        lemma_ns_walls(r, n - 1, rows, cols);
        let a = ns_walls(r, n - 1);
        assert forall|i: int| 0 <= i < ns_walls(r, n).len() implies on_grid(rows, cols, #[trigger] ns_walls(r, n)[i].cell) by {
            if i < a.len() {
                assert(ns_walls(r, n)[i] == a[i]);
            }
        }
    }
}

proof fn lemma_we_walls(r: Room, n: int, rows: usize, cols: usize)
    requires
        room_in_grid(r, rows, cols),
        0 <= n <= r.dimensions.row + 1,
    ensures
        we_walls(r, n).len() == 2 * n,
        forall|i: int| 0 <= i < we_walls(r, n).len() ==> on_grid(rows, cols, #[trigger] we_walls(r, n)[i].cell),
    decreases n,
{
    if n > 0 {
        lemma_we_walls(r, n - 1, rows, cols);
        let a = we_walls(r, n - 1);
        assert forall|i: int| 0 <= i < we_walls(r, n).len() implies on_grid(rows, cols, #[trigger] we_walls(r, n)[i].cell) by {
            if i < a.len() {
                assert(we_walls(r, n)[i] == a[i]);
            }
        }
    }
}

/// The sides of a room on the grid are sides of squares of the grid, and there are some.
pub proof fn lemma_room_walls(r: Room, rows: usize, cols: usize)
    requires
        room_in_grid(r, rows, cols),
    ensures
        room_walls(r).len() > 0,
        forall|i: int| 0 <= i < room_walls(r).len() ==> on_grid(rows, cols, #[trigger] room_walls(r)[i].cell),
{
    lemma_ns_walls(r, r.dimensions.col + 1, rows, cols);
    lemma_we_walls(r, r.dimensions.row + 1, rows, cols);
    let a = ns_walls(r, r.dimensions.col + 1);
    let b = we_walls(r, r.dimensions.row + 1);
    assert forall|i: int| 0 <= i < room_walls(r).len() implies on_grid(rows, cols, #[trigger] room_walls(r)[i].cell) by {
        if i < a.len() {
            assert(room_walls(r)[i] == a[i]);
        } else {
            assert(room_walls(r)[i] == b[i - a.len()]);
        }
    }
}

/// Places up to `num_rooms` rooms at random, each 2 to 5 squares a side,
/// on the grid and apart from each other.
fn place_rooms(my_rows: usize, my_columns: usize, num_rooms: usize, rng: &mut StdRng) -> (r: Vec<Room>)
    requires
        my_rows >= 2,
        my_columns >= 2,
    ensures
        rooms_apart(r@, my_rows, my_columns),
        forall|k: int| 0 <= k < r@.len() ==> room_ok(#[trigger] r@[k]),
        num_rooms >= 1 && my_rows >= 5 && my_columns >= 5 ==> r@.len() >= 1,
{
    let dungeon_bounds = Room::init(Point::init(0, 0), Point::init(my_rows - 1, my_columns - 1));
    let mut my_rooms: Vec<Room> = Vec::new();
    let mut i: usize = 0;
    while i < num_rooms
        invariant
            i <= num_rooms,
            my_rows >= 2,
            my_columns >= 2,
            dungeon_bounds == (Room { base_point: Point { row: 0, col: 0 }, dimensions: Point { row: (my_rows - 1) as usize, col: (my_columns - 1) as usize } }),
            rooms_apart(my_rooms@, my_rows, my_columns),
            forall|k: int| 0 <= k < my_rooms@.len() ==> room_ok(#[trigger] my_rooms@[k]),
            i >= 1 && my_rows >= 5 && my_columns >= 5 ==> my_rooms@.len() >= 1,
        decreases num_rooms - i,
    {
        let width = ROOM_MIN_WIDTH - 1 + random_below(rng, ROOM_MAX_WIDTH - ROOM_MIN_WIDTH + 1);
        let height = ROOM_MIN_HEIGHT - 1 + random_below(rng, ROOM_MAX_HEIGHT - ROOM_MIN_HEIGHT + 1);
        let new_room_dim = Point::init(width, height);
        let ghost r0 = my_rooms@;
        match Room::generate_room_with_dimensions_in_bounds(dungeon_bounds, new_room_dim, ROOM_PLACEMENT_ATTEMPTS, &my_rooms, rng) {
            Some(new_room) => {
                my_rooms.push(new_room);
                proof {
                    let r = my_rooms@;
                    assert(r[r0.len() as int] == new_room);
                    assert forall|k: int| 0 <= k < r.len() implies #[trigger] room_in_grid(r[k], my_rows, my_columns) by {
                        if k < r0.len() {
                            assert(r[k] == r0[k]);
                        }
                    }
                    assert forall|k: int| 0 <= k < r.len() implies room_ok(#[trigger] r[k]) by {
                        if k < r0.len() {
                            assert(r[k] == r0[k]);
                        }
                    }
                    assert forall|k1: int, k2: int| 0 <= k1 < r.len() && 0 <= k2 < r.len() && k1 != k2
                        implies !#[trigger] rooms_overlap(r[k1], r[k2]) by {
                        if k1 < r0.len() && k2 < r0.len() {
                            assert(r[k1] == r0[k1] && r[k2] == r0[k2]);
                        } else if k1 < r0.len() {
                            assert(r[k1] == r0[k1]);
                            assert(!rooms_overlap(new_room, r0[k1]));
                        } else {
                            assert(r[k2] == r0[k2]);
                            assert(!rooms_overlap(new_room, r0[k2]));
                        }
                    }
                }
            },
            None => {},
        }
        i = i + 1;
    }
    my_rooms
}

/// The mask of squares outside every room.
fn room_mask(my_rows: usize, my_columns: usize, rooms: &Vec<Room>) -> (m: Vec<Vec<bool>>)
    requires
        rooms_apart(rooms@, my_rows, my_columns),
    ensures
        shaped(grid(m@), my_rows as int, my_columns as int),
{
    let mut room_bit_mask = filled(my_rows, my_columns, true);
    let mut k: usize = 0;
    while k < rooms.len()
        invariant
            rooms_apart(rooms@, my_rows, my_columns),
            shaped(grid(room_bit_mask@), my_rows as int, my_columns as int),
        decreases rooms@.len() - k,
    {
        let room = rooms[k];
        proof { assert(room_in_grid(rooms@[k as int], my_rows, my_columns)); }
        let mut i: usize = 0;
        while i <= room.get_width()
            invariant
                room_in_grid(room, my_rows, my_columns),
                shaped(grid(room_bit_mask@), my_rows as int, my_columns as int),
            decreases room.dimensions.row + 1 - i,
        {
            let mut j: usize = 0;
            while j <= room.get_height()
                invariant
                    room_in_grid(room, my_rows, my_columns),
                    i <= room.dimensions.row,
                    shaped(grid(room_bit_mask@), my_rows as int, my_columns as int),
                decreases room.dimensions.col + 1 - j,
            {
                let p = Point::init(room.base_point.row + i, room.base_point.col + j);
                proof {
                    lemma_in_bounds(room_bit_mask@, my_rows, my_columns, p);
                    lemma_set_at_all(grid(room_bit_mask@), my_rows, my_columns, p, false);
                }
                set_cell(&mut room_bit_mask, p, false);
                j = j + 1;
            }
            i = i + 1;
        }
        k = k + 1;
    }
    room_bit_mask
}

/// Square `p` of room `r` has the passages toward each neighbour inside the room open.
pub open spec fn open_inside(g: Seq<Seq<Compass>>, r: Room, p: Point) -> bool {
    &&& p.row < r.base_point.row + r.dimensions.row ==> at(g, p).has(Direction::North)
    &&& p.row > r.base_point.row ==> at(g, p).has(Direction::South)
    &&& p.col < r.base_point.col + r.dimensions.col ==> at(g, p).has(Direction::East)
    &&& p.col > r.base_point.col ==> at(g, p).has(Direction::West)
}

/// Every passage between two squares of room `r` is open, from both sides.
pub open spec fn room_open(g: Seq<Seq<Compass>>, r: Room) -> bool {
    forall|p: Point| #[trigger] in_room(r, p) ==> open_inside(g, r, p)
}

/// `n` has every passage that `g` has.
pub open spec fn only_opens(g: Seq<Seq<Compass>>, n: Seq<Seq<Compass>>, rows: usize, cols: usize) -> bool {
    forall|p: Point, d: Direction| on_grid(rows, cols, p) && #[trigger] at(g, p).has(d) ==> at(n, p).has(d)
}

proof fn lemma_room_open_mono(g: Seq<Seq<Compass>>, n: Seq<Seq<Compass>>, rows: usize, cols: usize, r: Room)
    requires
        room_open(g, r),
        room_in_grid(r, rows, cols),
        only_opens(g, n, rows, cols),
    ensures
        room_open(n, r),
{
    assert forall|p: Point| #[trigger] in_room(r, p) implies open_inside(n, r, p) by {
        assert(open_inside(g, r, p));
        assert(on_grid(rows, cols, p));
        assert(at(g, p).has(Direction::North) ==> at(n, p).has(Direction::North));
        assert(at(g, p).has(Direction::South) ==> at(n, p).has(Direction::South));
        assert(at(g, p).has(Direction::East) ==> at(n, p).has(Direction::East));
        assert(at(g, p).has(Direction::West) ==> at(n, p).has(Direction::West));
    }
}

/// Opens every passage between two squares of the same room.
fn carve_rooms(my_maze: &mut Maze, rooms: &Vec<Room>)
    requires
        old(my_maze).wf(),
        rooms_apart(rooms@, old(my_maze).rows, old(my_maze).columns),
    ensures
        final(my_maze).wf(),
        final(my_maze).rows == old(my_maze).rows,
        final(my_maze).columns == old(my_maze).columns,
        only_opens(old(my_maze).cells(), final(my_maze).cells(), old(my_maze).rows, old(my_maze).columns),
        forall|k: int| 0 <= k < rooms@.len() ==> room_open(final(my_maze).cells(), #[trigger] rooms@[k]),
        stays_on_grid(old(my_maze).cells(), old(my_maze).rows, old(my_maze).columns, 0)
            ==> stays_on_grid(final(my_maze).cells(), old(my_maze).rows, old(my_maze).columns, 0),
{
    let ghost g0 = my_maze.cells();
    let mut k: usize = 0;
    while k < rooms.len()
        invariant
            my_maze.wf(),
            my_maze.rows == old(my_maze).rows,
            my_maze.columns == old(my_maze).columns,
            g0 == old(my_maze).cells(),
            rooms_apart(rooms@, my_maze.rows, my_maze.columns),
            only_opens(g0, my_maze.cells(), my_maze.rows, my_maze.columns),
            forall|q: int| 0 <= q < k ==> room_open(my_maze.cells(), #[trigger] rooms@[q]),
            stays_on_grid(g0, my_maze.rows, my_maze.columns, 0) ==> stays_on_grid(my_maze.cells(), my_maze.rows, my_maze.columns, 0),
        decreases rooms@.len() - k,
    {
        let room = rooms[k];
        let ghost gk = my_maze.cells();
        proof { assert(room_in_grid(rooms@[k as int], my_maze.rows, my_maze.columns)); }
        let mut i: usize = 0;
        while i <= room.get_width()
            invariant
                my_maze.wf(),
                my_maze.rows == old(my_maze).rows,
                my_maze.columns == old(my_maze).columns,
                room == rooms@[k as int],
                room_in_grid(room, my_maze.rows, my_maze.columns),
                only_opens(gk, my_maze.cells(), my_maze.rows, my_maze.columns),
                forall|p: Point| #[trigger] in_room(room, p) && p.row < room.base_point.row + i ==> open_inside(my_maze.cells(), room, p),
                g0 == old(my_maze).cells(),
                stays_on_grid(g0, my_maze.rows, my_maze.columns, 0) ==> stays_on_grid(my_maze.cells(), my_maze.rows, my_maze.columns, 0),
            decreases room.dimensions.row + 1 - i,
        {
            let mut j: usize = 0;
            while j <= room.get_height()
                invariant
                    my_maze.wf(),
                    my_maze.rows == old(my_maze).rows,
                    my_maze.columns == old(my_maze).columns,
                    room == rooms@[k as int],
                    room_in_grid(room, my_maze.rows, my_maze.columns),
                    i <= room.dimensions.row,
                    only_opens(gk, my_maze.cells(), my_maze.rows, my_maze.columns),
                    forall|p: Point| #[trigger] in_room(room, p) && (p.row < room.base_point.row + i
                        || (p.row == room.base_point.row + i && p.col < room.base_point.col + j)) ==> open_inside(my_maze.cells(), room, p),
                    g0 == old(my_maze).cells(),
                    stays_on_grid(g0, my_maze.rows, my_maze.columns, 0) ==> stays_on_grid(my_maze.cells(), my_maze.rows, my_maze.columns, 0),
                decreases room.dimensions.col + 1 - j,
            {
                let p = Point::init(room.base_point.row + i, room.base_point.col + j);
                let ghost before = my_maze.cells();
                proof {
                    lemma_in_bounds(my_maze.maze_matrix@, my_maze.rows, my_maze.columns, p);
                }
                let c0 = my_maze.maze_matrix[p.row][p.col];
                let mut c = c0;
                if i != 0 {
                    c = c.add_dir(Direction::South);
                }
                if j != 0 {
                    c = c.add_dir(Direction::West);
                }
                if i != room.get_width() {
                    c = c.add_dir(Direction::North);
                }
                if j != room.get_height() {
                    c = c.add_dir(Direction::East);
                }
                proof { lemma_set_at_all(before, my_maze.rows, my_maze.columns, p, c); }
                set_cell(&mut my_maze.maze_matrix, p, c);
                proof {
                    let n = my_maze.cells();
                    assert forall|x: Point, d: Direction| on_grid(my_maze.rows, my_maze.columns, x) && #[trigger] at(gk, x).has(d)
                        implies at(n, x).has(d) by {
                        assert(at(before, x).has(d));
                    }
                    assert forall|x: Point| #[trigger] in_room(room, x) && (x.row < room.base_point.row + i
                        || (x.row == room.base_point.row + i && x.col < room.base_point.col + j + 1)) implies open_inside(n, room, x) by {
                        assert(on_grid(my_maze.rows, my_maze.columns, x));
                        if x != p {
                            assert(open_inside(before, room, x));
                            assert(at(n, x) == at(before, x));
                        }
                    }
                    if stays_on_grid(g0, my_maze.rows, my_maze.columns, 0) {
                        assert forall|x: Point, d: Direction| on_grid(my_maze.rows, my_maze.columns, x) && #[trigger] at(n, x).has(d)
                            implies step_from(my_maze.rows, my_maze.columns, x, d, 0) is Some by {
                            if x != p {
                                assert(at(before, x).has(d));
                            } else if !at(before, x).has(d) {
                                assert(d.is_cardinal());
                            }
                        }
                    }
                }
                j = j + 1;
            }
            i = i + 1;
        }
        proof {
            let n = my_maze.cells();
            assert forall|x: Point| #[trigger] in_room(room, x) implies open_inside(n, room, x) by {
                assert(x.row < room.base_point.row + i);
            }
            assert forall|x: Point, d: Direction| on_grid(my_maze.rows, my_maze.columns, x) && #[trigger] at(g0, x).has(d)
                implies at(n, x).has(d) by {
                assert(at(gk, x).has(d));
            }
            assert forall|q: int| 0 <= q < k + 1 implies room_open(n, #[trigger] rooms@[q]) by {
                if q < k {
                    assert(room_in_grid(rooms@[q], my_maze.rows, my_maze.columns));
                    lemma_room_open_mono(gk, n, my_maze.rows, my_maze.columns, rooms@[q]);
                }
            }
        }
        k = k + 1;
    }
}

/// Opening a passage closes nothing.
proof fn lemma_opened_only_opens(g: Seq<Seq<Compass>>, rows: usize, cols: usize, w: Wall, wrap: usize)
    requires
        shaped(g, rows as int, cols as int),
        on_grid(rows, cols, w.cell),
    ensures
        only_opens(g, opened(g, rows, cols, w, wrap), rows, cols),
{
    let g1 = set_at(g, w.cell, at(g, w.cell).with(w.dir, true));
    lemma_set_at_all(g, rows, cols, w.cell, at(g, w.cell).with(w.dir, true));
    lemma_step_inverse(rows, cols, w.cell, w.dir, wrap);
    if step_from(rows, cols, w.cell, w.dir, wrap) is Some {
        let q = step_from(rows, cols, w.cell, w.dir, wrap)->Some_0;
        lemma_set_at_all(g1, rows, cols, q, at(g1, q).with(w.dir.rev(), true));
    }
}

proof fn lemma_only_opens_trans(a: Seq<Seq<Compass>>, b: Seq<Seq<Compass>>, c: Seq<Seq<Compass>>, rows: usize, cols: usize)
    requires
        only_opens(a, b, rows, cols),
        only_opens(b, c, rows, cols),
    ensures
        only_opens(a, c, rows, cols),
{
    assert forall|p: Point, d: Direction| on_grid(rows, cols, p) && #[trigger] at(a, p).has(d) implies at(c, p).has(d) by {
        assert(at(b, p).has(d));
    }
}

/// Opens one to three exits out of each room, each through a different side:
/// into the maze where such a side is left, else into another room.
fn open_room_exits(my_maze: &mut Maze, wrap: usize, rooms: &Vec<Room>, rng: &mut StdRng)
    requires
        old(my_maze).wf(),
        rooms_apart(rooms@, old(my_maze).rows, old(my_maze).columns),
    ensures
        final(my_maze).wf(),
        final(my_maze).rows == old(my_maze).rows,
        final(my_maze).columns == old(my_maze).columns,
        only_opens(old(my_maze).cells(), final(my_maze).cells(), old(my_maze).rows, old(my_maze).columns),
        stays_on_grid(old(my_maze).cells(), old(my_maze).rows, old(my_maze).columns, wrap)
            ==> stays_on_grid(final(my_maze).cells(), old(my_maze).rows, old(my_maze).columns, wrap),
{
    let ghost g0 = my_maze.cells();
    let rows = my_maze.rows;
    let cols = my_maze.columns;
    let mut k: usize = 0;
    while k < rooms.len()
        invariant
            my_maze.wf(),
            my_maze.rows == rows,
            my_maze.columns == cols,
            rows == old(my_maze).rows,
            cols == old(my_maze).columns,
            rooms_apart(rooms@, rows, cols),
            g0 == old(my_maze).cells(),
            only_opens(g0, my_maze.cells(), rows, cols),
            stays_on_grid(g0, rows, cols, wrap) ==> stays_on_grid(my_maze.cells(), rows, cols, wrap),
        decreases rooms@.len() - k,
    {
        let room = rooms[k];
        proof {
            assert(room_in_grid(rooms@[k as int], rows, cols));
            lemma_room_walls(room, rows, cols);
        }
        let num_exits = ROOM_MIN_EXITS + random_below(rng, ROOM_MAX_EXITS - ROOM_MIN_EXITS + 1);
        let my_walls = room.get_walls();
        let mut exits_to_another_room: Vec<Wall> = Vec::new();
        let mut exits_to_maze: Vec<Wall> = Vec::new();
        let mut t: usize = 0;
        while t < my_walls.len()
            invariant
                my_walls@ == room_walls(room),
                forall|i: int| 0 <= i < my_walls@.len() ==> on_grid(rows, cols, #[trigger] my_walls@[i].cell),
                forall|i: int| 0 <= i < exits_to_another_room@.len() ==> on_grid(rows, cols, #[trigger] exits_to_another_room@[i].cell),
                forall|i: int| 0 <= i < exits_to_maze@.len() ==> on_grid(rows, cols, #[trigger] exits_to_maze@[i].cell),
                forall|i: int| 0 <= i < exits_to_another_room@.len() ==> step_from(rows, cols, (#[trigger] exits_to_another_room@[i]).cell, exits_to_another_room@[i].dir, wrap) is Some,
                forall|i: int| 0 <= i < exits_to_maze@.len() ==> step_from(rows, cols, (#[trigger] exits_to_maze@[i]).cell, exits_to_maze@[i].dir, wrap) is Some,
            decreases my_walls@.len() - t,
        {
            let wall = my_walls[t];
            proof { assert(on_grid(rows, cols, my_walls@[t as int].cell)); }
            match get_cell_in_direction(rows, cols, wall.cell.row, wall.cell.col, wall.dir, wrap) {
                Some(cell) => {
                    if Room::check_multi_room_contains_cell(cell, rooms) {
                        exits_to_another_room.push(wall);
                    } else {
                        exits_to_maze.push(wall);
                    }
                },
                // a side that leads off the map is never a room's exit
                None => {},
            }
            t = t + 1;
        }
        let mut e: usize = 0;
        while e < num_exits
            invariant
                my_maze.wf(),
                my_maze.rows == rows,
                my_maze.columns == cols,
                forall|i: int| 0 <= i < exits_to_another_room@.len() ==> on_grid(rows, cols, #[trigger] exits_to_another_room@[i].cell),
                forall|i: int| 0 <= i < exits_to_maze@.len() ==> on_grid(rows, cols, #[trigger] exits_to_maze@[i].cell),
                only_opens(g0, my_maze.cells(), rows, cols),
                forall|i: int| 0 <= i < exits_to_another_room@.len() ==> step_from(rows, cols, (#[trigger] exits_to_another_room@[i]).cell, exits_to_another_room@[i].dir, wrap) is Some,
                forall|i: int| 0 <= i < exits_to_maze@.len() ==> step_from(rows, cols, (#[trigger] exits_to_maze@[i]).cell, exits_to_maze@[i].dir, wrap) is Some,
                stays_on_grid(g0, rows, cols, wrap) ==> stays_on_grid(my_maze.cells(), rows, cols, wrap),
            decreases num_exits - e,
        {
            if exits_to_maze.len() != 0 {
                let choice = random_below(rng, exits_to_maze.len());
                let current_wall = exits_to_maze[choice];
                let ghost gb = my_maze.cells();
                proof {
                    lemma_opened_only_opens(gb, rows, cols, current_wall, wrap);
                    assert(step_from(rows, cols, exits_to_maze@[choice as int].cell, exits_to_maze@[choice as int].dir, wrap) is Some);
                    if stays_on_grid(g0, rows, cols, wrap) {
                        lemma_opened_stays(gb, rows, cols, current_wall, wrap);
                    }
                }
                my_maze.remove_wall(current_wall, wrap);
                proof { lemma_only_opens_trans(g0, gb, my_maze.cells(), rows, cols); }
                let ghost l0 = exits_to_maze@;
                exits_to_maze.swap_remove(choice);
                proof {
                    assert forall|i: int| 0 <= i < exits_to_maze@.len() implies on_grid(rows, cols, #[trigger] exits_to_maze@[i].cell)
                        && step_from(rows, cols, exits_to_maze@[i].cell, exits_to_maze@[i].dir, wrap) is Some by {
                        if i == choice as int {
                            assert(exits_to_maze@[i] == l0[l0.len() - 1]);
                        } else {
                            assert(exits_to_maze@[i] == l0[i]);
                        }
                    }
                }
            } else if exits_to_another_room.len() != 0 {
                let choice = random_below(rng, exits_to_another_room.len());
                let current_wall = exits_to_another_room[choice];
                let ghost gb = my_maze.cells();
                proof {
                    lemma_opened_only_opens(gb, rows, cols, current_wall, wrap);
                    assert(step_from(rows, cols, exits_to_another_room@[choice as int].cell, exits_to_another_room@[choice as int].dir, wrap) is Some);
                    if stays_on_grid(g0, rows, cols, wrap) {
                        lemma_opened_stays(gb, rows, cols, current_wall, wrap);
                    }
                }
                my_maze.remove_wall(current_wall, wrap);
                proof { lemma_only_opens_trans(g0, gb, my_maze.cells(), rows, cols); }
                let ghost l0 = exits_to_another_room@;
                exits_to_another_room.swap_remove(choice);
                proof {
                    assert forall|i: int| 0 <= i < exits_to_another_room@.len() implies on_grid(rows, cols, #[trigger] exits_to_another_room@[i].cell)
                        && step_from(rows, cols, exits_to_another_room@[i].cell, exits_to_another_room@[i].dir, wrap) is Some by {
                        if i == choice as int {
                            assert(exits_to_another_room@[i] == l0[l0.len() - 1]);
                        } else {
                            assert(exits_to_another_room@[i] == l0[i]);
                        }
                    }
                }
            }
            e = e + 1;
        }
        k = k + 1;
    }
}

/// Opens one to four exits through sides of the map's edge chosen at random
/// (the same side may come twice).
fn open_outside_exits(my_maze: &mut Maze, wrap: usize, rng: &mut StdRng)
    requires
        old(my_maze).wf(),
    ensures
        final(my_maze).wf(),
        final(my_maze).rows == old(my_maze).rows,
        final(my_maze).columns == old(my_maze).columns,
        forall|p: Point, d: Direction| on_grid(old(my_maze).rows, old(my_maze).columns, p) && #[trigger] at(old(my_maze).cells(), p).has(d)
            ==> at(final(my_maze).cells(), p).has(d),
{
    let rows = my_maze.rows;
    let cols = my_maze.columns;
    let dungeon_bounds = Room::init(Point::init(0, 0), Point::init(rows - 1, cols - 1));
    proof { lemma_room_walls(dungeon_bounds, rows, cols); }
    let outside_walls = dungeon_bounds.get_walls();
    let num_outside_exits = OUTSIDE_MIN_EXITS + random_below(rng, OUTSIDE_MAX_EXITS - OUTSIDE_MIN_EXITS + 1);
    let mut e: usize = 0;
    while e < num_outside_exits
        invariant
            my_maze.wf(),
            my_maze.rows == rows,
            my_maze.columns == cols,
            rows == old(my_maze).rows,
            cols == old(my_maze).columns,
            outside_walls@.len() > 0,
            forall|i: int| 0 <= i < outside_walls@.len() ==> on_grid(rows, cols, #[trigger] outside_walls@[i].cell),
            forall|p: Point, d: Direction| on_grid(rows, cols, p) && #[trigger] at(old(my_maze).cells(), p).has(d)
                ==> at(my_maze.cells(), p).has(d),
        decreases num_outside_exits - e,
    {
        let choice = random_below(rng, outside_walls.len());
        let current_wall = outside_walls[choice];
        let ghost g = my_maze.cells();
        proof { assert(on_grid(rows, cols, outside_walls@[choice as int].cell)); }
        my_maze.remove_wall(current_wall, wrap);
        proof {
            let g1 = set_at(g, current_wall.cell, at(g, current_wall.cell).with(current_wall.dir, true));
            lemma_set_at_all(g, rows, cols, current_wall.cell, at(g, current_wall.cell).with(current_wall.dir, true));
            lemma_step_inverse(rows, cols, current_wall.cell, current_wall.dir, wrap);
            if step_from(rows, cols, current_wall.cell, current_wall.dir, wrap) is Some {
                let q = step_from(rows, cols, current_wall.cell, current_wall.dir, wrap)->Some_0;
                lemma_set_at_all(g1, rows, cols, q, at(g1, q).with(current_wall.dir.rev(), true));
            }
        }
        e = e + 1;
    }
}

/// No square outside every room has exactly one passage.
pub open spec fn no_corridor_dead_ends(g: Seq<Seq<Compass>>, rooms: Seq<Room>, rows: usize, cols: usize) -> bool {
    forall|p: Point| on_grid(rows, cols, p) && !in_any_room(rooms, p) ==> #[trigger] at(g, p).exits() != 1
}

/// The maze after erasing, in order, each of the first `k` squares of `s`
/// that still has a passage (`peel` from it).
pub open spec fn prune_fold(g: Seq<Seq<Compass>>, rows: usize, cols: usize, s: Seq<Point>, k: int) -> Seq<Seq<Compass>>
    decreases k,
{
    if k <= 0 {
        g
    } else {
        let prev = prune_fold(g, rows, cols, s, k - 1);
        if at(prev, s[k - 1]).exits() != 0 {
            peel(prev, rows, cols, s[k - 1], total_exits(prev))
        } else {
            prev
        }
    }
}

/// `s` lists, each once, the dead ends of `g` outside every room.
pub open spec fn eligible_order(s: Seq<Point>, g: Seq<Seq<Compass>>, rooms: Seq<Room>, rows: usize, cols: usize) -> bool {
    &&& s.no_duplicates()
    &&& forall|p: Point| #[trigger] s.contains(p) <==> (on_grid(rows, cols, p) && at(g, p).exits() == 1 && !in_any_room(rooms, p))
}

proof fn lemma_row_dead_ends_sorted(g: Seq<Seq<Compass>>, i: int, n: int)
    requires
        0 <= i <= usize::MAX,
        0 <= n <= usize::MAX + 1,
    ensures
        forall|a: int, b: int| 0 <= a < b < row_dead_ends(g, i, n).len()
            ==> (#[trigger] row_dead_ends(g, i, n)[a]).col < (#[trigger] row_dead_ends(g, i, n)[b]).col,
        forall|a: int| 0 <= a < row_dead_ends(g, i, n).len() ==> (#[trigger] row_dead_ends(g, i, n)[a]).row == i
            && row_dead_ends(g, i, n)[a].col < n,
    decreases n,
{
    if n > 0 {
        lemma_row_dead_ends_sorted(g, i, n - 1);
        let prev = row_dead_ends(g, i, n - 1);
        if g[i][n - 1].exits() == 1 {
            let q = Point { row: i as usize, col: (n - 1) as usize };
            let r = prev.push(q);
            assert forall|a: int| 0 <= a < r.len() implies (#[trigger] r[a]).row == i && r[a].col < n by {
                if a < prev.len() {
                    assert(r[a] == prev[a]);
                }
            }
            assert forall|a: int, b: int| 0 <= a < b < r.len() implies (#[trigger] r[a]).col < (#[trigger] r[b]).col by {
                assert(r[a] == prev[a]);
                if b < prev.len() {
                    assert(r[b] == prev[b]);
                }
            }
        }
    }
}

/// Dead ends are listed in strictly increasing row-major order.
proof fn lemma_dead_ends_sorted(g: Seq<Seq<Compass>>, rows: usize, cols: usize, m: int)
    requires
        0 <= m <= rows,
    ensures
        forall|a: int, b: int| 0 <= a < b < dead_ends_upto(g, cols as int, m).len()
            ==> #[trigger] before(dead_ends_upto(g, cols as int, m)[a], dead_ends_upto(g, cols as int, m)[b]),
        forall|a: int| 0 <= a < dead_ends_upto(g, cols as int, m).len() ==> (#[trigger] dead_ends_upto(g, cols as int, m)[a]).row < m,
    decreases m,
{
    if m > 0 {
        lemma_dead_ends_sorted(g, rows, cols, m - 1);
        lemma_row_dead_ends_sorted(g, m - 1, cols as int);
        let a0 = dead_ends_upto(g, cols as int, m - 1);
        let b0 = row_dead_ends(g, m - 1, cols as int);
        let d = a0 + b0;
        assert forall|a: int| 0 <= a < d.len() implies (#[trigger] d[a]).row < m by {
            if a < a0.len() {
                assert(d[a] == a0[a]);
            } else {
                assert(d[a] == b0[a - a0.len()]);
            }
        }
        assert forall|a: int, b: int| 0 <= a < b < d.len() implies #[trigger] before(d[a], d[b]) by {
            if b < a0.len() {
                assert(d[a] == a0[a] && d[b] == a0[b]);
            } else if a < a0.len() {
                assert(d[a] == a0[a] && d[b] == b0[b - a0.len()]);
            } else {
                assert(d[a] == b0[a - a0.len()] && d[b] == b0[b - a0.len()]);
            }
        }
    }
}

/// Erases `ratio` parts per million of the dead ends outside every room
/// (rounded down), chosen uniformly at random: the dead ends are listed once
/// each and shuffled, and the result is `prune_fold` over the first
/// `len * ratio / PPM` of them, each of which ends closed. Erasing follows
/// each dead end back to its junction; nothing is opened.
pub fn prune_dead_ends(my_maze: &mut Maze, rooms: &Vec<Room>, ratio: u32, rng: &mut StdRng)
    requires
        old(my_maze).wf(),
        ratio <= PPM,
    ensures
        final(my_maze).wf(),
        final(my_maze).rows == old(my_maze).rows,
        final(my_maze).columns == old(my_maze).columns,
        exists|s: Seq<Point>| #[trigger] eligible_order(s, old(my_maze).cells(), rooms@, old(my_maze).rows, old(my_maze).columns)
            && final(my_maze).cells() == prune_fold(old(my_maze).cells(), old(my_maze).rows, old(my_maze).columns, s, s.len() * (ratio as int) / (PPM as int))
            && forall|k: int| 0 <= k < s.len() * (ratio as int) / (PPM as int) ==> (#[trigger] at(final(my_maze).cells(), s[k])).exits() == 0,
        forall|p: Point, d: Direction| on_grid(old(my_maze).rows, old(my_maze).columns, p) && #[trigger] at(final(my_maze).cells(), p).has(d)
            ==> at(old(my_maze).cells(), p).has(d),
        ratio == PPM ==> no_corridor_dead_ends(final(my_maze).cells(), rooms@, old(my_maze).rows, old(my_maze).columns),
{
    let rows = my_maze.rows;
    let cols = my_maze.columns;
    let ghost g_l = my_maze.cells();
    let my_dead_ends = my_maze.get_dead_ends();
    proof {
        lemma_dead_ends_on_grid(g_l, rows, cols, rows as int);
        lemma_dead_ends_sorted(g_l, rows, cols, rows as int);
    }
    let mut actual_dead_ends: Vec<Point> = Vec::new();
    let mut k: usize = 0;
    while k < my_dead_ends.len()
        invariant
            my_dead_ends@ == dead_ends_upto(g_l, cols as int, rows as int),
            forall|i: int| 0 <= i < my_dead_ends@.len() ==> on_grid(rows, cols, #[trigger] my_dead_ends@[i]),
            forall|i: int| 0 <= i < k && !in_any_room(rooms@, my_dead_ends@[i]) ==> actual_dead_ends@.contains(#[trigger] my_dead_ends@[i]),
            forall|i: int| 0 <= i < actual_dead_ends@.len() ==> my_dead_ends@.contains(#[trigger] actual_dead_ends@[i]),
            forall|i: int| 0 <= i < actual_dead_ends@.len() ==> !in_any_room(rooms@, #[trigger] actual_dead_ends@[i]),
            forall|a: int, b: int| 0 <= a < b < actual_dead_ends@.len() ==> #[trigger] before(actual_dead_ends@[a], actual_dead_ends@[b]),
            k < my_dead_ends@.len() ==> forall|a: int| 0 <= a < actual_dead_ends@.len() ==> #[trigger] before(actual_dead_ends@[a], my_dead_ends@[k as int]),
            k <= my_dead_ends@.len(),
            forall|a: int, b: int| 0 <= a < b < my_dead_ends@.len() ==> #[trigger] before(my_dead_ends@[a], my_dead_ends@[b]),
        decreases my_dead_ends@.len() - k,
    {
        let dead_end = my_dead_ends[k];
        let ghost a0 = actual_dead_ends@;
        if !Room::check_multi_room_contains_cell(dead_end, rooms) {
            actual_dead_ends.push(dead_end);
            proof {
                assert(actual_dead_ends@[a0.len() as int] == dead_end);
                assert forall|i: int| 0 <= i < k + 1 && !in_any_room(rooms@, my_dead_ends@[i]) implies actual_dead_ends@.contains(#[trigger] my_dead_ends@[i]) by {
                    if i < k {
                        let j = choose|j: int| 0 <= j < a0.len() && a0[j] == my_dead_ends@[i];
                        assert(actual_dead_ends@[j] == a0[j]);
                    }
                }
                assert forall|i: int| 0 <= i < actual_dead_ends@.len() implies my_dead_ends@.contains(#[trigger] actual_dead_ends@[i]) by {
                    if i < a0.len() {
                        assert(actual_dead_ends@[i] == a0[i]);
                    } else {
                        assert(my_dead_ends@[k as int] == dead_end);
                    }
                }
                assert forall|i: int| 0 <= i < actual_dead_ends@.len() implies !in_any_room(rooms@, #[trigger] actual_dead_ends@[i]) by {
                    if i < a0.len() {
                        assert(actual_dead_ends@[i] == a0[i]);
                    }
                }
                assert forall|a: int, b: int| 0 <= a < b < actual_dead_ends@.len() implies #[trigger] before(actual_dead_ends@[a], actual_dead_ends@[b]) by {
                    assert(actual_dead_ends@[a] == a0[a]);
                    if b < a0.len() {
                        assert(actual_dead_ends@[b] == a0[b]);
                    }
                }
            }
        }
        proof {
            if k + 1 < my_dead_ends@.len() {
                assert(before(my_dead_ends@[k as int], my_dead_ends@[k + 1]));
                assert forall|a: int| 0 <= a < actual_dead_ends@.len() implies #[trigger] before(actual_dead_ends@[a], my_dead_ends@[k + 1]) by {
                    if actual_dead_ends@[a] != my_dead_ends@[k as int] {
                        assert(before(actual_dead_ends@[a], my_dead_ends@[k as int]));
                    }
                }
            }
        }
        k = k + 1;
    }
    let ghost listed = actual_dead_ends@;
    proof {
        assert(listed.no_duplicates()) by {
            assert forall|a: int, b: int| 0 <= a < listed.len() && 0 <= b < listed.len() && a != b implies listed[a] != listed[b] by {
                if a < b {
                    assert(before(listed[a], listed[b]));
                } else {
                    assert(before(listed[b], listed[a]));
                }
            }
        }
        listed.lemma_multiset_has_no_duplicates();
    }
    shuffle_points(rng, &mut actual_dead_ends);
    proof {
        actual_dead_ends@.lemma_multiset_has_no_duplicates_conv();
        assert forall|x: Point| #[trigger] actual_dead_ends@.contains(x)
            <==> (on_grid(rows, cols, x) && at(g_l, x).exits() == 1 && !in_any_room(rooms@, x)) by {
            vstd::seq_lib::to_multiset_contains(listed, x);
            vstd::seq_lib::to_multiset_contains(actual_dead_ends@, x);
            if on_grid(rows, cols, x) {
                lemma_dead_ends_contain(g_l, rows, cols, rows as int, x);
            }
            if listed.contains(x) {
                let i = choose|i: int| 0 <= i < listed.len() && listed[i] == x;
                assert(my_dead_ends@.contains(listed[i]));
                let q = choose|q: int| 0 <= q < my_dead_ends@.len() && my_dead_ends@[q] == x;
                assert(on_grid(rows, cols, my_dead_ends@[q]));
                lemma_dead_ends_contain(g_l, rows, cols, rows as int, x);
            }
            if on_grid(rows, cols, x) && at(g_l, x).exits() == 1 && !in_any_room(rooms@, x) {
                let q = choose|q: int| 0 <= q < my_dead_ends@.len() && my_dead_ends@[q] == x;
                assert(listed.contains(my_dead_ends@[q]));
            }
        }
        assert(eligible_order(actual_dead_ends@, g_l, rooms@, rows, cols));
    }
    proof {
        assert forall|x: Point| listed.contains(x) implies actual_dead_ends@.contains(x) by {
            vstd::seq_lib::to_multiset_contains(listed, x);
            vstd::seq_lib::to_multiset_contains(actual_dead_ends@, x);
        }
        assert forall|x: Point| actual_dead_ends@.contains(x) implies listed.contains(x) by {
            vstd::seq_lib::to_multiset_contains(listed, x);
            vstd::seq_lib::to_multiset_contains(actual_dead_ends@, x);
        }
    }
    let len = actual_dead_ends.len();
    proof {
        assert((len as int) * (ratio as int) <= (len as int) * 1000000) by (nonlinear_arith)
            requires ratio <= 1000000;
        assert((len as int) * 1000000 <= 0xffff_ffff_ffff_ffff * 1000000) by (nonlinear_arith)
            requires len <= 0xffff_ffff_ffff_ffff;
    }
    let stop = ((len as u128) * (ratio as u128) / (PPM as u128)) as usize;
    proof {
        assert((len as u128) * (ratio as u128) <= (len as u128) * (PPM as u128)) by (nonlinear_arith)
            requires ratio <= PPM;
        assert((len as int) * (PPM as int) / (PPM as int) == len as int) by (nonlinear_arith);
        assert((len as int) * (ratio as int) / (PPM as int) <= len as int) by (nonlinear_arith)
            requires ratio <= PPM;
    }
    let mut i: usize = 0;
    while i < stop
        invariant
            my_maze.wf(),
            my_maze.rows == rows,
            my_maze.columns == cols,
            rows == old(my_maze).rows,
            cols == old(my_maze).columns,
            g_l == old(my_maze).cells(),
            stop <= actual_dead_ends@.len(),
            ratio == PPM ==> stop == actual_dead_ends@.len(),
            forall|x: Point| #[trigger] actual_dead_ends@.contains(x) ==> listed.contains(x),
            forall|x: Point| #[trigger] listed.contains(x) ==> my_dead_ends@.contains(x),
            my_dead_ends@ == dead_ends_upto(g_l, cols as int, rows as int),
            forall|i: int| 0 <= i < my_dead_ends@.len() ==> on_grid(rows, cols, #[trigger] my_dead_ends@[i]),
            shaped(g_l, rows as int, cols as int),
            forall|p: Point, d: Direction| on_grid(rows, cols, p) && #[trigger] at(my_maze.cells(), p).has(d) ==> at(g_l, p).has(d),
            forall|p: Point| on_grid(rows, cols, p) && #[trigger] at(my_maze.cells(), p) != at(g_l, p) ==> at(my_maze.cells(), p).exits() != 1,
            forall|j: int| 0 <= j < i ==> (#[trigger] at(my_maze.cells(), actual_dead_ends@[j])).exits() == 0,
            stop == actual_dead_ends@.len() * (ratio as int) / (PPM as int),
            my_maze.cells() == prune_fold(g_l, rows, cols, actual_dead_ends@, i as int),
            i <= stop,
        decreases stop - i,
    {
        let p = actual_dead_ends[i];
        let ghost g = my_maze.cells();
        proof {
            assert(actual_dead_ends@.contains(actual_dead_ends@[i as int]));
            assert(my_dead_ends@.contains(p));
            let q = choose|q: int| 0 <= q < my_dead_ends@.len() && my_dead_ends@[q] == p;
            assert(on_grid(rows, cols, my_dead_ends@[q]));
            lemma_dead_ends_contain(g_l, rows, cols, rows as int, p);
            lemma_in_bounds(my_maze.maze_matrix@, rows, cols, p);
            assert forall|d: Direction| #[trigger] at(g, p).has(d) implies at(g_l, p).has(d) by {}
            lemma_exits_mono(at(g_l, p), at(g, p));
        }
        proof {
            assert(prune_fold(g_l, rows, cols, actual_dead_ends@, i + 1) == (if at(g, p).exits() != 0 {
                peel(g, rows, cols, p, total_exits(g))
            } else {
                g
            }));
        }
        if my_maze.maze_matrix[p.row][p.col].get_number_of_exits() != 0 {
            my_maze.erase_dead_end(p);
            proof {
                let n = my_maze.cells();
                assert forall|x: Point| on_grid(rows, cols, x) && #[trigger] at(n, x) != at(g_l, x) implies at(n, x).exits() != 1 by {
                    if at(n, x) == at(g, x) {
                    }
                }
                assert forall|j: int| 0 <= j < i + 1 implies (#[trigger] at(n, actual_dead_ends@[j])).exits() == 0 by {
                    if j < i {
                        let x = actual_dead_ends@[j];
                        assert(actual_dead_ends@.contains(x));
                        assert(my_dead_ends@.contains(x));
                        let q = choose|q: int| 0 <= q < my_dead_ends@.len() && my_dead_ends@[q] == x;
                        assert(on_grid(rows, cols, my_dead_ends@[q]));
                        assert forall|d: Direction| #[trigger] at(n, x).has(d) implies at(g, x).has(d) by {}
                        lemma_exits_mono(at(g, x), at(n, x));
                    }
                }
            }
        }
        i = i + 1;
    }
    proof {
        assert forall|k: int| 0 <= k < actual_dead_ends@.len() * (ratio as int) / (PPM as int)
            implies (#[trigger] at(my_maze.cells(), actual_dead_ends@[k])).exits() == 0 by {
            assert(k < stop);
        }
        assert(eligible_order(actual_dead_ends@, g_l, rooms@, rows, cols));
        assert(i == stop);
        assert(my_maze.cells() == prune_fold(g_l, rows, cols, actual_dead_ends@, actual_dead_ends@.len() * (ratio as int) / (PPM as int)));
        if ratio == PPM {
            assert forall|p: Point| on_grid(rows, cols, p) && !in_any_room(rooms@, p) implies #[trigger] at(my_maze.cells(), p).exits() != 1 by {
                if at(my_maze.cells(), p).exits() == 1 {
                    assert(at(my_maze.cells(), p) == at(g_l, p));
                    lemma_dead_ends_contain(g_l, rows, cols, rows as int, p);
                    let q = choose|q: int| 0 <= q < my_dead_ends@.len() && my_dead_ends@[q] == p;
                    assert(actual_dead_ends@.contains(p) == listed.contains(p));
                    assert(listed.contains(p));
                    let j = choose|j: int| 0 <= j < actual_dead_ends@.len() && actual_dead_ends@[j] == p;
                    assert(at(my_maze.cells(), actual_dead_ends@[j]).exits() == 0);
                }
            }
        }
    }
}


/// Tile `(i, j)` of the map lies in the drawing of room `r`.
pub open spec fn in_stamp(r: Room, i: int, j: int) -> bool {
    &&& 2 * r.base_point.row + 1 <= i <= 2 * (r.base_point.row + r.dimensions.row) + 1
    &&& 2 * r.base_point.col + 1 <= j <= 2 * (r.base_point.col + r.dimensions.col) + 1
}

pub open spec fn in_any_stamp(rooms: Seq<Room>, i: int, j: int) -> bool {
    exists|k: int| 0 <= k < rooms.len() && #[trigger] in_stamp(rooms[k], i, j)
}

/// Draws each room over the map with room tiles.
fn stamp_rooms(my_dungeon: &mut Dungeon, rooms: &Vec<Room>, Ghost(rows): Ghost<usize>, Ghost(cols): Ghost<usize>)
    requires
        old(my_dungeon).rows == 2 * rows + 1,
        old(my_dungeon).columns == 2 * cols + 1,
        shaped(old(my_dungeon).tiles(), old(my_dungeon).rows as int, old(my_dungeon).columns as int),
        rooms_apart(rooms@, rows, cols),
    ensures
        final(my_dungeon).rows == old(my_dungeon).rows,
        final(my_dungeon).columns == old(my_dungeon).columns,
        shaped(final(my_dungeon).tiles(), old(my_dungeon).rows as int, old(my_dungeon).columns as int),
        forall|i: int, j: int| 0 <= i < old(my_dungeon).rows && 0 <= j < old(my_dungeon).columns
            ==> #[trigger] final(my_dungeon).tiles()[i][j] == if in_any_stamp(rooms@, i, j) { room_tile() } else { old(my_dungeon).tiles()[i][j] },
{
    let ghost t0 = my_dungeon.tiles();
    let ghost nr = my_dungeon.rows;
    let ghost nc = my_dungeon.columns;
    let mut k: usize = 0;
    while k < rooms.len()
        invariant
            k <= rooms@.len(),
            my_dungeon.rows == nr,
            my_dungeon.columns == nc,
            nr == 2 * rows + 1,
            nc == 2 * cols + 1,
            t0 == old(my_dungeon).tiles(),
            nr == old(my_dungeon).rows,
            nc == old(my_dungeon).columns,
            rooms_apart(rooms@, rows, cols),
            shaped(my_dungeon.tiles(), nr as int, nc as int),
            forall|i: int, j: int| 0 <= i < nr && 0 <= j < nc ==> #[trigger] my_dungeon.tiles()[i][j]
                == if in_any_stamp(rooms@.subrange(0, k as int), i, j) { room_tile() } else { t0[i][j] },
        decreases rooms@.len() - k,
    {
        let room = rooms[k];
        let ghost done = rooms@.subrange(0, k as int);
        proof { assert(room_in_grid(rooms@[k as int], rows, cols)); }
        let room_base_x = 2 * room.get_base_point().get_x() + 1;
        let room_base_y = 2 * room.get_base_point().get_y() + 1;
        let mut i: usize = 0;
        while i < 2 * room.get_width() + 1
            invariant
                room == rooms@[k as int],
                room_in_grid(room, rows, cols),
                room_base_x == 2 * room.base_point.row + 1,
                room_base_y == 2 * room.base_point.col + 1,
                my_dungeon.rows == nr,
                my_dungeon.columns == nc,
                nr == 2 * rows + 1,
                nc == 2 * cols + 1,
                i <= 2 * room.dimensions.row + 1,
                shaped(my_dungeon.tiles(), nr as int, nc as int),
                forall|r: int, c: int| 0 <= r < nr && 0 <= c < nc ==> #[trigger] my_dungeon.tiles()[r][c]
                    == if in_any_stamp(done, r, c) || (in_stamp(room, r, c) && r < room_base_x + i) { room_tile() } else { t0[r][c] },
            decreases 2 * room.dimensions.row + 1 - i,
        {
            let mut j: usize = 0;
            while j < 2 * room.get_height() + 1
                invariant
                    room == rooms@[k as int],
                    room_in_grid(room, rows, cols),
                    room_base_x == 2 * room.base_point.row + 1,
                    room_base_y == 2 * room.base_point.col + 1,
                    my_dungeon.rows == nr,
                    my_dungeon.columns == nc,
                    nr == 2 * rows + 1,
                    nc == 2 * cols + 1,
                    i < 2 * room.dimensions.row + 1,
                    j <= 2 * room.dimensions.col + 1,
                    shaped(my_dungeon.tiles(), nr as int, nc as int),
                    forall|r: int, c: int| 0 <= r < nr && 0 <= c < nc ==> #[trigger] my_dungeon.tiles()[r][c]
                        == if in_any_stamp(done, r, c) || (in_stamp(room, r, c) && (r < room_base_x + i || (r == room_base_x + i && c < room_base_y + j))) { room_tile() } else { t0[r][c] },
                decreases 2 * room.dimensions.col + 1 - j,
            {
                let p = Point::init(room_base_x + i, room_base_y + j);
                let ghost before = my_dungeon.tiles();
                proof {
                    lemma_in_bounds(my_dungeon.map_matrix@, nr, nc, p);
                    lemma_set_at_all(before, nr, nc, p, room_tile());
                }
                set_cell(&mut my_dungeon.map_matrix, p, Tile::room());
                proof {
                    assert forall|r: int, c: int| 0 <= r < nr && 0 <= c < nc implies #[trigger] my_dungeon.tiles()[r][c]
                        == if in_any_stamp(done, r, c) || (in_stamp(room, r, c) && (r < room_base_x + i || (r == room_base_x + i && c < room_base_y + j + 1))) { room_tile() } else { t0[r][c] } by {
                        assert(my_dungeon.tiles()[r][c] == at(my_dungeon.tiles(), Point { row: r as usize, col: c as usize }));
                        assert(before[r][c] == at(before, Point { row: r as usize, col: c as usize }));
                    }
                }
                j = j + 1;
            }
            i = i + 1;
        }
        proof {
            let done2 = rooms@.subrange(0, k as int + 1);
            assert(done2[k as int] == room);
            assert forall|r: int, c: int| 0 <= r < nr && 0 <= c < nc implies #[trigger] in_any_stamp(done2, r, c)
                == (in_any_stamp(done, r, c) || in_stamp(room, r, c)) by {
                if in_any_stamp(done, r, c) {
                    let q = choose|q: int| 0 <= q < done.len() && #[trigger] in_stamp(done[q], r, c);
                    assert(done2[q] == done[q]);
                }
                if in_any_stamp(done2, r, c) {
                    let q = choose|q: int| 0 <= q < done2.len() && #[trigger] in_stamp(done2[q], r, c);
                    if q < k {
                        assert(done2[q] == done[q]);
                    }
                }
            }
        }
        k = k + 1;
    }
    proof {
        assert(rooms@.subrange(0, rooms@.len() as int) =~= rooms@);
    }
}

/// Builds a dungeon of `my_rows` by `my_columns` squares, drawn as a map of
/// `2 * my_rows + 1` by `2 * my_columns + 1` tiles: rooms placed at random,
/// a maze (made by `method`, without wrap) around them, room interiors
/// opened, exits out of each room, every square joined to `(0, 0)`, exits
/// off the map when asked and not wrapping, then `prune_dead_ends_ratio`
/// parts per million (clamped to one) of the dead ends outside the rooms
/// erased. Fails where a dimension is under two.
pub fn create_dungeon(my_rows: usize, my_columns: usize, wrap: usize, method: GenerationType, num_rooms: usize, prune_dead_ends_ratio: u32, outside_exits: bool, rng: &mut StdRng) -> (r: Result<Dungeon, DungeonError>)
    requires
        2 * my_rows + 1 <= usize::MAX,
        2 * my_columns + 1 <= usize::MAX,
    ensures
        r is Err <==> (my_rows < 2 || my_columns < 2),
        r matches Ok(d) ==> d.rows == 2 * my_rows + 1 && d.columns == 2 * my_columns + 1
            && shaped(d.tiles(), d.rows as int, d.columns as int)
            && composed(d.tiles(), my_rows, my_columns, wrap, num_rooms, prune_dead_ends_ratio)
            && (wrap == NO_SQUARE_WRAP && !outside_exits ==> border_walls(d.tiles(), my_rows, my_columns)),
{
    if my_rows < 2 || my_columns < 2 {
        return Err(DungeonError::Syntax("A dungeon requires at least two rows and two columns.".to_string()));
    }
    let prune_dead_ends_ratio_cleaned = if prune_dead_ends_ratio > PPM { PPM } else { prune_dead_ends_ratio };
    let my_rooms = place_rooms(my_rows, my_columns, num_rooms, rng);
    let room_bit_mask = room_mask(my_rows, my_columns, &my_rooms);
    let mut my_maze = match Maze::init_rect_with_bitmask(my_rows, my_columns, NO_SQUARE_WRAP, &room_bit_mask, method, rng) {
        Ok(m) => m,
        Err(_) => {
            return Err(DungeonError::Syntax("A dungeon requires at least two rows and two columns.".to_string()));
        },
    };
    let ghost g_gen = my_maze.cells();
    proof {
        let a = choose|a: Seq<Point>| #[trigger] crate::generate::anchor_cover(a, grid(room_bit_mask@), my_rows, my_columns, NO_SQUARE_WRAP)
            && crate::generate::spanning_forest(g_gen, grid(room_bit_mask@), my_rows, my_columns, NO_SQUARE_WRAP, a);
        assert(stays_on_grid(g_gen, my_rows, my_columns, 0));
    }
    carve_rooms(&mut my_maze, &my_rooms);
    let ghost g_carved = my_maze.cells();
    open_room_exits(&mut my_maze, wrap, &my_rooms, rng);
    let ghost g_exits = my_maze.cells();
    connect_dugeon(&mut my_maze, wrap);
    let ghost g_joined = my_maze.cells();
    if outside_exits && wrap == NO_SQUARE_WRAP {
        open_outside_exits(&mut my_maze, wrap, rng);
    }
    let ghost g0 = my_maze.cells();
    proof {
        lemma_open_link_grows(g_joined, g0, my_rows, my_columns, wrap);
        assert forall|p: Point| on_grid(my_rows, my_columns, p)
            implies #[trigger] linked(origin(), p, open_link(g0, my_rows, my_columns, wrap)) by {
            assert(linked(origin(), p, open_link(g_joined, my_rows, my_columns, wrap)));
            lemma_linked_mono(origin(), p, open_link(g_joined, my_rows, my_columns, wrap), open_link(g0, my_rows, my_columns, wrap));
        }
        assert(only_opens(g_exits, g_joined, my_rows, my_columns));
        assert(only_opens(g_joined, g0, my_rows, my_columns));
        lemma_only_opens_trans(g_carved, g_exits, g_joined, my_rows, my_columns);
        lemma_only_opens_trans(g_carved, g_joined, g0, my_rows, my_columns);
        assert forall|k: int| 0 <= k < my_rooms@.len() implies room_open(g0, #[trigger] my_rooms@[k]) by {
            assert(room_in_grid(my_rooms@[k], my_rows, my_columns));
            lemma_room_open_mono(g_carved, g0, my_rows, my_columns, my_rooms@[k]);
        }
    }
    prune_dead_ends(&mut my_maze, &my_rooms, prune_dead_ends_ratio_cleaned, rng);
    let ghost g = my_maze.cells();
    let mut my_dungeon = match maze_to_map(&my_maze) {
        Ok(d) => d,
        Err(e) => {
            return Err(e);
        },
    };
    let ghost t = my_dungeon.tiles();
    stamp_rooms(&mut my_dungeon, &my_rooms, Ghost(my_rows), Ghost(my_columns));
    proof {
        let s = choose|s: Seq<Point>| #[trigger] eligible_order(s, g0, my_rooms@, my_rows, my_columns)
            && g == prune_fold(g0, my_rows, my_columns, s, s.len() * (prune_dead_ends_ratio_cleaned as int) / (PPM as int))
            && forall|k: int| 0 <= k < s.len() * (prune_dead_ends_ratio_cleaned as int) / (PPM as int) ==> (#[trigger] at(g, s[k])).exits() == 0;
        assert(clamped(prune_dead_ends_ratio) == prune_dead_ends_ratio_cleaned as int);
        assert forall|i: int, j: int| 0 <= i < 2 * my_rows + 1 && 0 <= j < 2 * my_columns + 1
            implies #[trigger] my_dungeon.tiles()[i][j] == if in_any_stamp(my_rooms@, i, j) { room_tile() } else { projected(g, i, j) } by {
            assert(t[i][j] == projected(g, i, j));
        }
        assert(dungeon_from(my_dungeon.tiles(), g, my_rooms@, my_rows, my_columns));
        assert(built_from(my_dungeon.tiles(), g0, s, my_rooms@, my_rows, my_columns, wrap, prune_dead_ends_ratio));
        assert(num_rooms >= 1 && my_rows >= 5 && my_columns >= 5 ==> my_rooms@.len() >= 1);
        assert(prune_dead_ends_ratio >= PPM ==> no_corridor_dead_ends(g, my_rooms@, my_rows, my_columns));
        assert(composed(my_dungeon.tiles(), my_rows, my_columns, wrap, num_rooms, prune_dead_ends_ratio));
        if wrap == NO_SQUARE_WRAP && !outside_exits {
            assert(stays_on_grid(g0, my_rows, my_columns, 0));
            assert forall|p: Point, d: Direction| on_grid(my_rows, my_columns, p) && #[trigger] at(g, p).has(d)
                implies step_from(my_rows, my_columns, p, d, 0) is Some by {
                assert(at(g0, p).has(d));
            }
            lemma_border_walls(my_dungeon.tiles(), g, my_rooms@, my_rows, my_columns);
        }
    }
    Ok(my_dungeon)
}

/// Every tile on the edge of a map of `rows` by `cols` squares is wall.
pub open spec fn border_walls(t: Seq<Seq<Tile>>, rows: usize, cols: usize) -> bool {
    &&& forall|c: int| 0 <= c < 2 * cols + 1 ==> #[trigger] t[0][c] == wall_tile()
    &&& forall|c: int| 0 <= c < 2 * cols + 1 ==> #[trigger] t[2 * rows as int][c] == wall_tile()
    &&& forall|r: int| 0 <= r < 2 * rows + 1 ==> #[trigger] t[r][0] == wall_tile()
    &&& forall|r: int| 0 <= r < 2 * rows + 1 ==> #[trigger] t[r][2 * cols as int] == wall_tile()
}

/// A map whose passages all lead to squares without wrap has walls all around.
pub proof fn lemma_border_walls(t: Seq<Seq<Tile>>, g: Seq<Seq<Compass>>, rooms: Seq<Room>, rows: usize, cols: usize)
    requires
        dungeon_from(t, g, rooms, rows, cols),
        stays_on_grid(g, rows, cols, 0),
        rows > 0,
        cols > 0,
    ensures
        border_walls(t, rows, cols),
{
    assert forall|c: int| 0 <= c < 2 * cols + 1 implies t[0][c] == wall_tile() && t[2 * rows as int][c] == wall_tile() by {
        assert forall|k: int| 0 <= k < rooms.len() implies !#[trigger] in_stamp(rooms[k], 0, c) by {
            assert(room_in_grid(rooms[k], rows, cols));
        }
        assert forall|k: int| 0 <= k < rooms.len() implies !#[trigger] in_stamp(rooms[k], 2 * rows as int, c) by {
            assert(room_in_grid(rooms[k], rows, cols));
        }
        assert(!in_any_stamp(rooms, 0, c) && !in_any_stamp(rooms, 2 * rows as int, c));
        if c % 2 == 1 {
            let p = Point { row: 0, col: (c / 2) as usize };
            let q = Point { row: (rows - 1) as usize, col: (c / 2) as usize };
            assert(on_grid(rows, cols, p) && on_grid(rows, cols, q));
            assert(at(g, p) == g[0][c / 2]);
            assert(at(g, q) == g[(2 * rows as int) / 2 - 1][c / 2]);
            assert(step_from(rows, cols, p, Direction::South, 0) is None);
            assert(step_from(rows, cols, q, Direction::North, 0) is None);
        }
    }
    assert forall|r: int| 0 <= r < 2 * rows + 1 implies t[r][0] == wall_tile() && t[r][2 * cols as int] == wall_tile() by {
        assert forall|k: int| 0 <= k < rooms.len() implies !#[trigger] in_stamp(rooms[k], r, 0) by {
            assert(room_in_grid(rooms[k], rows, cols));
        }
        assert forall|k: int| 0 <= k < rooms.len() implies !#[trigger] in_stamp(rooms[k], r, 2 * cols as int) by {
            assert(room_in_grid(rooms[k], rows, cols));
        }
        assert(!in_any_stamp(rooms, r, 0) && !in_any_stamp(rooms, r, 2 * cols as int));
        if r % 2 == 1 {
            let p = Point { row: (r / 2) as usize, col: 0 };
            let q = Point { row: (r / 2) as usize, col: (cols - 1) as usize };
            assert(on_grid(rows, cols, p) && on_grid(rows, cols, q));
            assert(at(g, p) == g[r / 2][0]);
            assert(at(g, q) == g[r / 2][(2 * cols as int) / 2 - 1]);
            assert(step_from(rows, cols, p, Direction::West, 0) is None);
            assert(step_from(rows, cols, q, Direction::East, 0) is None);
        }
    }
    assert forall|c: int| 0 <= c < 2 * cols + 1 implies #[trigger] t[0][c] == wall_tile() by {
        assert(t[0][c] == wall_tile() && t[2 * rows as int][c] == wall_tile());
    }
    assert forall|c: int| 0 <= c < 2 * cols + 1 implies #[trigger] t[2 * rows as int][c] == wall_tile() by {
        assert(t[0][c] == wall_tile() && t[2 * rows as int][c] == wall_tile());
    }
    assert forall|r: int| 0 <= r < 2 * rows + 1 implies #[trigger] t[r][0] == wall_tile() by {
        assert(t[r][0] == wall_tile() && t[r][2 * cols as int] == wall_tile());
    }
    assert forall|r: int| 0 <= r < 2 * rows + 1 implies #[trigger] t[r][2 * cols as int] == wall_tile() by {
        assert(t[r][0] == wall_tile() && t[r][2 * cols as int] == wall_tile());
    }
}

/// A prune ratio clamped to one (`PPM`).
pub open spec fn clamped(prune: u32) -> int {
    if prune > PPM { PPM as int } else { prune as int }
}

/// The map `t` was built from maze `g0`, in which every square is joined to
/// `(0, 0)` and every room's interior is open: `s` lists each dead end of
/// `g0` outside the rooms once, in the order drawn, and the maze drawn (with
/// the rooms over it) is `g0` after erasing the first `len * prune / PPM`
/// of them that still have a passage.
pub open spec fn built_from(t: Seq<Seq<Tile>>, g0: Seq<Seq<Compass>>, s: Seq<Point>, rooms: Seq<Room>, rows: usize, cols: usize, wrap: usize, prune: u32) -> bool {
    &&& shaped(g0, rows as int, cols as int)
    &&& forall|p: Point| on_grid(rows, cols, p) ==> #[trigger] linked(origin(), p, open_link(g0, rows, cols, wrap))
    &&& forall|k: int| 0 <= k < rooms.len() ==> room_open(g0, #[trigger] rooms[k])
    &&& eligible_order(s, g0, rooms, rows, cols)
    &&& dungeon_from(t, prune_fold(g0, rows, cols, s, s.len() * clamped(prune) / (PPM as int)), rooms, rows, cols)
}

/// The map `t` is a maze of `rows` by `cols` squares built as `built_from`
/// says, with rooms apart from each other drawn over it; there is at least
/// one room where one was asked for and the grid has room for any; with
/// every dead end asked to go, no square outside the rooms is a dead end.
pub open spec fn composed(t: Seq<Seq<Tile>>, rows: usize, cols: usize, wrap: usize, num_rooms: usize, prune: u32) -> bool {
    exists|g0: Seq<Seq<Compass>>, s: Seq<Point>, rooms: Seq<Room>|
        #[trigger] built_from(t, g0, s, rooms, rows, cols, wrap, prune)
        && (num_rooms >= 1 && rows >= 5 && cols >= 5 ==> rooms.len() >= 1)
        && (prune >= PPM ==> no_corridor_dead_ends(prune_fold(g0, rows, cols, s, s.len() * clamped(prune) / (PPM as int)), rooms, rows, cols))
}

/// The map `t` is the maze `g` drawn, with `rooms` (apart from each other)
/// drawn over it.
pub open spec fn dungeon_from(t: Seq<Seq<Tile>>, g: Seq<Seq<Compass>>, rooms: Seq<Room>, rows: usize, cols: usize) -> bool {
    &&& shaped(g, rows as int, cols as int)
    &&& rooms_apart(rooms, rows, cols)
    &&& forall|i: int, j: int| 0 <= i < 2 * rows + 1 && 0 <= j < 2 * cols + 1
        ==> #[trigger] t[i][j] == if in_any_stamp(rooms, i, j) { room_tile() } else { projected(g, i, j) }
}

} // verus!
