use vstd::prelude::*;

verus! {

use crate::grid::{lemma_grid_rows, at, filled, grid, grid_sum, lemma_grid_sum_set, lemma_in_bounds, lemma_set_at_all, on_grid, set_at, set_cell, shaped};
use crate::maze::{
    step, cardinals, exit_count, get_cell_in_direction, lemma_opened_reciprocal, lemma_step_inverse, opened, reciprocal,
    lemma_step_any_wrap, step_from, total_exits, Compass, Direction, GenerationType, Maze, MazeError, Point, Wall,
};
use crate::path::{chain, lemma_linked_trans, lemma_closed_holds, lemma_linked_mono, lemma_linked_push, lemma_linked_refl, lemma_linked_sym, linked};
use crate::maze::PPM;
use crate::random::random_below;
use rand::rngs::StdRng;

/// `b` is one move from `a`.
pub open spec fn adjacent(rows: usize, cols: usize, wrap: usize, a: Point, b: Point) -> bool {
    ||| step_from(rows, cols, a, Direction::North, wrap) == Some(b)
    ||| step_from(rows, cols, a, Direction::South, wrap) == Some(b)
    ||| step_from(rows, cols, a, Direction::East, wrap) == Some(b)
    ||| step_from(rows, cols, a, Direction::West, wrap) == Some(b)
}

/// Two allowed squares of the mask, one move apart.
pub open spec fn mask_link(m: Seq<Seq<bool>>, rows: usize, cols: usize, wrap: usize) -> spec_fn(Point, Point) -> bool {
    |a: Point, b: Point|
        on_grid(rows, cols, a) && on_grid(rows, cols, b) && at(m, a) && at(m, b) && adjacent(rows, cols, wrap, a, b)
}

/// `a` comes before `b` in row-major order.
pub open spec fn before(a: Point, b: Point) -> bool {
    a.row < b.row || (a.row == b.row && a.col < b.col)
}

/// The squares flooded so far.
pub open spec fn flooded(f: Seq<Seq<bool>>) -> spec_fn(Point) -> bool {
    |p: Point| at(f, p)
}

/// No link leaves the flooded squares.
pub open spec fn flood_closed(f: Seq<Seq<bool>>, link: spec_fn(Point, Point) -> bool) -> bool {
    forall|x: Point, y: Point| at(f, x) && #[trigger] link(x, y) ==> at(f, y)
}

/// Ones for the squares not flooded yet.
pub open spec fn unset_count() -> spec_fn(bool) -> nat {
    |b: bool| if b { 0nat } else { 1nat }
}

/// The anchors of a mask: one square of each region of allowed squares
/// (squares joined by moves between allowed squares), namely its first in
/// row-major order, listed in row-major order.
#[verifier::opaque]
pub open spec fn are_anchors(r: Seq<Point>, m: Seq<Seq<bool>>, rows: usize, cols: usize, wrap: usize) -> bool {
    let link = mask_link(m, rows, cols, wrap);
    &&& forall|k: int| 0 <= k < r.len() ==> on_grid(rows, cols, #[trigger] r[k]) && at(m, r[k])
    &&& forall|p: Point|
        on_grid(rows, cols, p) && #[trigger] at(m, p) ==> exists|k: int| 0 <= k < r.len() && #[trigger] linked(r[k], p, link)
    &&& forall|k1: int, k2: int|
        0 <= k1 < r.len() && 0 <= k2 < r.len() && k1 != k2 ==> !#[trigger] linked(r[k1], r[k2], link)
    &&& forall|k: int, q: Point| 0 <= k < r.len() && #[trigger] linked(q, r[k], link) ==> !before(q, r[k])
    &&& forall|k1: int, k2: int| 0 <= k1 < k2 < r.len() ==> #[trigger] before(r[k1], r[k2])
}

/// Start squares for a generator: each allowed, every allowed square linked
/// from one of them, and no two linked to each other (one per region).
#[verifier::opaque]
pub open spec fn anchor_cover(r: Seq<Point>, m: Seq<Seq<bool>>, rows: usize, cols: usize, wrap: usize) -> bool {
    let link = mask_link(m, rows, cols, wrap);
    &&& forall|k: int| 0 <= k < r.len() ==> on_grid(rows, cols, #[trigger] r[k]) && at(m, r[k])
    &&& forall|p: Point|
        on_grid(rows, cols, p) && #[trigger] at(m, p) ==> exists|k: int| 0 <= k < r.len() && #[trigger] linked(r[k], p, link)
    &&& forall|k1: int, k2: int|
        0 <= k1 < r.len() && 0 <= k2 < r.len() && k1 != k2 ==> !#[trigger] linked(r[k1], r[k2], link)
}

/// The anchors of a mask are start squares for a generator.
pub proof fn lemma_anchors_cover(r: Seq<Point>, m: Seq<Seq<bool>>, rows: usize, cols: usize, wrap: usize)
    requires
        are_anchors(r, m, rows, cols, wrap),
    ensures
        anchor_cover(r, m, rows, cols, wrap),
{
    reveal(are_anchors);
    reveal(anchor_cover);
}

/// Moves between allowed squares can be taken backward.
pub proof fn lemma_mask_link_sym(m: Seq<Seq<bool>>, rows: usize, cols: usize, wrap: usize)
    ensures
        forall|x: Point, y: Point| #[trigger] mask_link(m, rows, cols, wrap)(x, y) ==> mask_link(m, rows, cols, wrap)(y, x),
{
    assert forall|x: Point, y: Point| #[trigger] mask_link(m, rows, cols, wrap)(x, y) implies mask_link(m, rows, cols, wrap)(y, x) by {
        lemma_step_inverse(rows, cols, x, Direction::North, wrap);
        lemma_step_inverse(rows, cols, x, Direction::South, wrap);
        lemma_step_inverse(rows, cols, x, Direction::East, wrap);
        lemma_step_inverse(rows, cols, x, Direction::West, wrap);
    }
}

/// Floods from `u` one move toward `d`, if that square is allowed and new.
fn flood_visit(rows: usize, cols: usize, wrap: usize, bitmask: &Vec<Vec<bool>>, flood: &mut Vec<Vec<bool>>, stack: &mut Vec<Point>, u: Point, d: Direction, Ghost(start): Ghost<Point>, Ghost(f0): Ghost<Seq<Seq<bool>>>)
    requires
        shaped(grid(bitmask@), rows as int, cols as int),
        shaped(grid(old(flood)@), rows as int, cols as int),
        on_grid(rows, cols, u),
        at(grid(old(flood)@), u),
        !at(f0, u),
        linked(start, u, mask_link(grid(bitmask@), rows, cols, wrap)),
        forall|x: Point| on_grid(rows, cols, x) && #[trigger] at(grid(old(flood)@), x) ==> at(grid(bitmask@), x),
        forall|x: Point| on_grid(rows, cols, x) && #[trigger] at(f0, x) ==> at(grid(old(flood)@), x),
        forall|x: Point|
            on_grid(rows, cols, x) && #[trigger] at(grid(old(flood)@), x) && !at(f0, x)
                ==> linked(start, x, mask_link(grid(bitmask@), rows, cols, wrap)),
        forall|k: int| 0 <= k < old(stack)@.len() ==> on_grid(rows, cols, #[trigger] old(stack)@[k])
            && at(grid(old(flood)@), old(stack)@[k]) && !at(f0, old(stack)@[k]),
    ensures
        shaped(grid(final(flood)@), rows as int, cols as int),
        forall|x: Point| on_grid(rows, cols, x) && #[trigger] at(grid(final(flood)@), x) ==> at(grid(bitmask@), x),
        forall|x: Point| on_grid(rows, cols, x) && #[trigger] at(grid(old(flood)@), x) ==> at(grid(final(flood)@), x),
        forall|x: Point|
            on_grid(rows, cols, x) && #[trigger] at(grid(final(flood)@), x) && !at(f0, x)
                ==> linked(start, x, mask_link(grid(bitmask@), rows, cols, wrap)),
        forall|k: int| 0 <= k < final(stack)@.len() ==> on_grid(rows, cols, #[trigger] final(stack)@[k])
            && at(grid(final(flood)@), final(stack)@[k]) && !at(f0, final(stack)@[k]),
        forall|x: Point|
            on_grid(rows, cols, x) && #[trigger] at(grid(final(flood)@), x) && !at(grid(old(flood)@), x)
                ==> final(stack)@.contains(x),
        forall|k: int| 0 <= k < old(stack)@.len() ==> final(stack)@[k] == #[trigger] old(stack)@[k],
        final(stack)@.len() >= old(stack)@.len(),
        step_from(rows, cols, u, d, wrap) is Some && at(grid(bitmask@), step_from(rows, cols, u, d, wrap)->Some_0)
            ==> at(grid(final(flood)@), step_from(rows, cols, u, d, wrap)->Some_0),
        grid_sum(grid(final(flood)@), unset_count()) + final(stack)@.len() <= grid_sum(grid(old(flood)@), unset_count()) + old(stack)@.len(),
        grid_sum(grid(final(flood)@), unset_count()) <= grid_sum(grid(old(flood)@), unset_count()),
{
    let ghost link = mask_link(grid(bitmask@), rows, cols, wrap);
    proof { lemma_step_inverse(rows, cols, u, d, wrap); }
    match get_cell_in_direction(rows, cols, u.row, u.col, d, wrap) {
        Some(v) => {
            proof {
                lemma_in_bounds(bitmask@, rows, cols, v);
                lemma_in_bounds(flood@, rows, cols, v);
            }
            if bitmask[v.row][v.col] && !flood[v.row][v.col] {
                proof {
                    lemma_grid_sum_set(grid(flood@), v, true, unset_count());
                    lemma_set_at_all(grid(flood@), rows, cols, v, true);
                    assert(link(u, v));
                    lemma_linked_push(start, u, v, link);
                }
                set_cell(flood, v, true);
                stack.push(v);
                proof {
                    assert(final(stack)@.last() == v);
                }
            }
        },
        None => {},
    }
}

/// Floods every allowed square linked to `start`, which is allowed and not flooded yet.
fn flood_from(rows: usize, cols: usize, wrap: usize, bitmask: &Vec<Vec<bool>>, flood: &mut Vec<Vec<bool>>, start: Point)
    requires
        shaped(grid(bitmask@), rows as int, cols as int),
        shaped(grid(old(flood)@), rows as int, cols as int),
        on_grid(rows, cols, start),
        at(grid(bitmask@), start),
        !at(grid(old(flood)@), start),
        forall|x: Point| on_grid(rows, cols, x) && #[trigger] at(grid(old(flood)@), x) ==> at(grid(bitmask@), x),
        flood_closed(grid(old(flood)@), mask_link(grid(bitmask@), rows, cols, wrap)),
    ensures
        shaped(grid(final(flood)@), rows as int, cols as int),
        at(grid(final(flood)@), start),
        forall|x: Point| on_grid(rows, cols, x) && #[trigger] at(grid(final(flood)@), x) ==> at(grid(bitmask@), x),
        forall|x: Point| on_grid(rows, cols, x) && #[trigger] at(grid(old(flood)@), x) ==> at(grid(final(flood)@), x),
        forall|x: Point|
            on_grid(rows, cols, x) && #[trigger] at(grid(final(flood)@), x) && !at(grid(old(flood)@), x)
                ==> linked(start, x, mask_link(grid(bitmask@), rows, cols, wrap)),
        flood_closed(grid(final(flood)@), mask_link(grid(bitmask@), rows, cols, wrap)),
{
    let ghost link = mask_link(grid(bitmask@), rows, cols, wrap);
    let ghost f0 = grid(flood@);
    proof {
        lemma_in_bounds(flood@, rows, cols, start);
        lemma_linked_refl(start, link);
        lemma_set_at_all(grid(flood@), rows, cols, start, true);
    }
    set_cell(flood, start, true);
    let mut stack: Vec<Point> = Vec::new();
    stack.push(start);
    proof {
        assert(stack@[0] == start);
        assert forall|x: Point, y: Point|
            at(grid(flood@), x) && !stack@.contains(x) && #[trigger] link(x, y) implies at(grid(flood@), y) by {
            assert(at(f0, x));
        }
    }
    while stack.len() > 0
        invariant
            shaped(grid(bitmask@), rows as int, cols as int),
            shaped(grid(flood@), rows as int, cols as int),
            link == mask_link(grid(bitmask@), rows, cols, wrap),
            at(grid(flood@), start),
            on_grid(rows, cols, start),
            !at(f0, start),
            forall|x: Point| on_grid(rows, cols, x) && #[trigger] at(grid(flood@), x) ==> at(grid(bitmask@), x),
            forall|x: Point| on_grid(rows, cols, x) && #[trigger] at(f0, x) ==> at(grid(flood@), x),
            forall|x: Point| on_grid(rows, cols, x) && #[trigger] at(grid(flood@), x) && !at(f0, x) ==> linked(start, x, link),
            forall|k: int| 0 <= k < stack@.len() ==> on_grid(rows, cols, #[trigger] stack@[k])
                && at(grid(flood@), stack@[k]) && !at(f0, stack@[k]),
            flood_closed(f0, link),
            forall|x: Point, y: Point|
                at(grid(flood@), x) && !stack@.contains(x) && #[trigger] link(x, y) ==> at(grid(flood@), y),
        decreases grid_sum(grid(flood@), unset_count()), stack@.len(),
    {
        let ghost s0 = stack@;
        let ghost fl0 = grid(flood@);
        let u = stack.pop().unwrap();
        proof {
            assert(stack@ == s0.drop_last());
            assert(u == s0[s0.len() - 1]);
        }
        let ghost s1 = stack@;
        flood_visit(rows, cols, wrap, bitmask, flood, &mut stack, u, Direction::North, Ghost(start), Ghost(f0));
        let ghost fl1 = grid(flood@);
        let ghost s2 = stack@;
        flood_visit(rows, cols, wrap, bitmask, flood, &mut stack, u, Direction::South, Ghost(start), Ghost(f0));
        let ghost fl2 = grid(flood@);
        let ghost s3 = stack@;
        flood_visit(rows, cols, wrap, bitmask, flood, &mut stack, u, Direction::East, Ghost(start), Ghost(f0));
        let ghost fl3 = grid(flood@);
        let ghost s4 = stack@;
        flood_visit(rows, cols, wrap, bitmask, flood, &mut stack, u, Direction::West, Ghost(start), Ghost(f0));
        proof {
            let fl = grid(flood@);
            let s = stack@;
            assert forall|x: Point, y: Point|
                at(fl, x) && !s.contains(x) && #[trigger] link(x, y) implies at(fl, y) by {
                if x == u {
                } else if at(fl0, x) {
                    if s0.contains(x) {
                        let k = choose|k: int| 0 <= k < s0.len() && s0[k] == x;
                        assert(k < s0.len() - 1);
                        assert(s1[k] == x);
                        assert(s[k] == x);
                    }
                    assert(at(fl0, y));
                } else if at(fl1, x) {
                    assert(s2.contains(x));
                    let k = choose|k: int| 0 <= k < s2.len() && s2[k] == x;
                    assert(s[k] == s4[k]);
                } else if at(fl2, x) {
                    assert(s3.contains(x));
                    let k = choose|k: int| 0 <= k < s3.len() && s3[k] == x;
                    assert(s[k] == s4[k]);
                } else if at(fl3, x) {
                    assert(s4.contains(x));
                    let k = choose|k: int| 0 <= k < s4.len() && s4[k] == x;
                    assert(s[k] == s4[k]);
                } else {
                    assert(s.contains(x));
                }
            }
        }
    }
    proof {
        assert forall|x: Point, y: Point| at(grid(flood@), x) && #[trigger] link(x, y) implies at(grid(flood@), y) by {
            assert(!stack@.contains(x));
        }
    }
}

/// One anchor per region of allowed squares: the region's first square in
/// row-major order. Regions are joined by moves under `wrap`.
pub fn get_starting_points(my_rows: usize, my_columns: usize, wrap: usize, bitmask: &Vec<Vec<bool>>) -> (r: Vec<Point>)
    requires
        shaped(grid(bitmask@), my_rows as int, my_columns as int),
    ensures
        are_anchors(r@, grid(bitmask@), my_rows, my_columns, wrap),
{
    let ghost m = grid(bitmask@);
    let ghost link = mask_link(m, my_rows, my_columns, wrap);
    let mut anchor_points: Vec<Point> = Vec::new();
    let mut flood = filled(my_rows, my_columns, false);
    proof { lemma_mask_link_sym(m, my_rows, my_columns, wrap); }
    let mut i: usize = 0;
    while i < my_rows
        invariant
            i <= my_rows,
            m == grid(bitmask@),
            link == mask_link(m, my_rows, my_columns, wrap),
            forall|x: Point, y: Point| #[trigger] link(x, y) ==> link(y, x),
            shaped(m, my_rows as int, my_columns as int),
            shaped(grid(flood@), my_rows as int, my_columns as int),
            forall|x: Point| on_grid(my_rows, my_columns, x) && #[trigger] at(grid(flood@), x) ==> at(m, x),
            flood_closed(grid(flood@), link),
            forall|x: Point| on_grid(my_rows, my_columns, x) && x.row < i && #[trigger] at(m, x) ==> at(grid(flood@), x),
            forall|x: Point| on_grid(my_rows, my_columns, x) && #[trigger] at(grid(flood@), x)
                ==> exists|k: int| 0 <= k < anchor_points@.len() && #[trigger] linked(anchor_points@[k], x, link),
            forall|k: int| 0 <= k < anchor_points@.len() ==> on_grid(my_rows, my_columns, #[trigger] anchor_points@[k])
                && at(m, anchor_points@[k]) && at(grid(flood@), anchor_points@[k]) && anchor_points@[k].row < i,
            forall|k1: int, k2: int| 0 <= k1 < anchor_points@.len() && 0 <= k2 < anchor_points@.len() && k1 != k2
                ==> !#[trigger] linked(anchor_points@[k1], anchor_points@[k2], link),
            forall|k: int, q: Point| 0 <= k < anchor_points@.len() && #[trigger] linked(q, anchor_points@[k], link)
                ==> !before(q, anchor_points@[k]),
            forall|k1: int, k2: int| 0 <= k1 < k2 < anchor_points@.len() ==> #[trigger] before(anchor_points@[k1], anchor_points@[k2]),
        decreases my_rows - i,
    {
        let mut j: usize = 0;
        while j < my_columns
            invariant
                i < my_rows,
                j <= my_columns,
                m == grid(bitmask@),
                link == mask_link(m, my_rows, my_columns, wrap),
                forall|x: Point, y: Point| #[trigger] link(x, y) ==> link(y, x),
                shaped(m, my_rows as int, my_columns as int),
                shaped(grid(flood@), my_rows as int, my_columns as int),
                forall|x: Point| on_grid(my_rows, my_columns, x) && #[trigger] at(grid(flood@), x) ==> at(m, x),
                flood_closed(grid(flood@), link),
                forall|x: Point| on_grid(my_rows, my_columns, x) && before(x, Point { row: i, col: j }) && #[trigger] at(m, x)
                    ==> at(grid(flood@), x),
                forall|x: Point| on_grid(my_rows, my_columns, x) && #[trigger] at(grid(flood@), x)
                    ==> exists|k: int| 0 <= k < anchor_points@.len() && #[trigger] linked(anchor_points@[k], x, link),
                forall|k: int| 0 <= k < anchor_points@.len() ==> on_grid(my_rows, my_columns, #[trigger] anchor_points@[k])
                    && at(m, anchor_points@[k]) && at(grid(flood@), anchor_points@[k])
                    && before(anchor_points@[k], Point { row: i, col: j }),
                forall|k1: int, k2: int| 0 <= k1 < anchor_points@.len() && 0 <= k2 < anchor_points@.len() && k1 != k2
                    ==> !#[trigger] linked(anchor_points@[k1], anchor_points@[k2], link),
                forall|k: int, q: Point| 0 <= k < anchor_points@.len() && #[trigger] linked(q, anchor_points@[k], link)
                    ==> !before(q, anchor_points@[k]),
                forall|k1: int, k2: int| 0 <= k1 < k2 < anchor_points@.len() ==> #[trigger] before(anchor_points@[k1], anchor_points@[k2]),
            decreases my_columns - j,
        {
            let c = Point::init(i, j);
            proof {
                lemma_in_bounds(flood@, my_rows, my_columns, c);
                lemma_in_bounds(bitmask@, my_rows, my_columns, c);
            }
            if !flood[i][j] && bitmask[i][j] {
                let ghost a0 = anchor_points@;
                let ghost f0 = grid(flood@);
                proof {
                    assert forall|k: int| 0 <= k < a0.len() implies !#[trigger] linked(a0[k], c, link) by {
                        if linked(a0[k], c, link) {
                            lemma_closed_holds(a0[k], c, link, flooded(f0));
                        }
                    }
                    assert forall|k: int| 0 <= k < a0.len() implies !#[trigger] linked(c, a0[k], link) by {
                        if linked(c, a0[k], link) {
                            lemma_linked_sym(c, a0[k], link);
                            lemma_closed_holds(a0[k], c, link, flooded(f0));
                        }
                    }
                    assert forall|q: Point| #[trigger] linked(q, c, link) implies !before(q, c) by {
                        if before(q, c) {
                            lemma_linked_sym(q, c, link);
                            let pth = choose|path: Seq<Point>| #[trigger] crate::path::chain(path, link) && path[0] == c && path.last() == q;
                            assert(link(pth[0], pth[0int + 1]) || pth.len() == 1);
                            if pth.len() == 1 {
                            } else {
                                assert(at(m, q) && on_grid(my_rows, my_columns, q)) by {
                                    assert(link(pth[pth.len() - 2], pth[pth.len() - 2 + 1]));
                                }
                                lemma_closed_holds(q, c, link, flooded(f0));
                            }
                        }
                    }
                }
                anchor_points.push(c);
                flood_from(my_rows, my_columns, wrap, bitmask, &mut flood, c);
                proof {
                    let a = anchor_points@;
                    assert(a[a.len() - 1] == c);
                    assert forall|x: Point| on_grid(my_rows, my_columns, x) && #[trigger] at(grid(flood@), x)
                        implies exists|k: int| 0 <= k < a.len() && #[trigger] linked(a[k], x, link) by {
                        if at(f0, x) {
                            let k = choose|k: int| 0 <= k < a0.len() && #[trigger] linked(a0[k], x, link);
                            assert(a[k] == a0[k]);
                        } else {
                            assert(linked(a[a.len() - 1], x, link));
                        }
                    }
                    assert forall|k1: int, k2: int| 0 <= k1 < a.len() && 0 <= k2 < a.len() && k1 != k2
                        implies !#[trigger] linked(a[k1], a[k2], link) by {
                        if k1 < a0.len() && k2 < a0.len() {
                            assert(a[k1] == a0[k1] && a[k2] == a0[k2]);
                        } else if k1 < a0.len() {
                            assert(a[k1] == a0[k1]);
                        } else {
                            assert(a[k2] == a0[k2]);
                        }
                    }
                    assert forall|k: int, q: Point| 0 <= k < a.len() && #[trigger] linked(q, a[k], link)
                        implies !before(q, a[k]) by {
                        if k < a0.len() {
                            assert(a[k] == a0[k]);
                        }
                    }
                    assert forall|k1: int, k2: int| 0 <= k1 < k2 < a.len() implies #[trigger] before(a[k1], a[k2]) by {
                        assert(a[k1] == a0[k1]);
                        if k2 < a0.len() {
                            assert(a[k2] == a0[k2]);
                        }
                    }
                }
            }
            j = j + 1;
        }
        i = i + 1;
    }
    proof {
        reveal(are_anchors);
        let r = anchor_points@;
        assert forall|p: Point| on_grid(my_rows, my_columns, p) && #[trigger] at(m, p)
            implies exists|k: int| 0 <= k < r.len() && #[trigger] linked(r[k], p, link) by {
            assert(at(grid(flood@), p));
        }
    }
    anchor_points
}


/// `b` is reached from `a` through an open passage.
pub open spec fn open_link(g: Seq<Seq<Compass>>, rows: usize, cols: usize, wrap: usize) -> spec_fn(Point, Point) -> bool {
    |a: Point, b: Point|
        on_grid(rows, cols, a) && (
        (at(g, a).has(Direction::North) && step_from(rows, cols, a, Direction::North, wrap) == Some(b))
        || (at(g, a).has(Direction::South) && step_from(rows, cols, a, Direction::South, wrap) == Some(b))
        || (at(g, a).has(Direction::East) && step_from(rows, cols, a, Direction::East, wrap) == Some(b))
        || (at(g, a).has(Direction::West) && step_from(rows, cols, a, Direction::West, wrap) == Some(b)))
}

/// Ones for the squares that are set.
pub open spec fn set_count() -> spec_fn(bool) -> nat {
    |b: bool| if b { 1nat } else { 0nat }
}

/// The number of allowed squares of a mask.
pub open spec fn allowed_count(m: Seq<Seq<bool>>) -> nat {
    grid_sum(m, set_count())
}

/// A maze in the making: the squares in `seen` form one tree of open
/// passages around each of `roots`, and every other square is closed.
pub open spec fn forest(g: Seq<Seq<Compass>>, seen: Seq<Seq<bool>>, m: Seq<Seq<bool>>, rows: usize, cols: usize, wrap: usize, roots: Seq<Point>) -> bool {
    &&& shaped(g, rows as int, cols as int)
    &&& shaped(seen, rows as int, cols as int)
    &&& shaped(m, rows as int, cols as int)
    &&& forest_links(g, seen, m, rows, cols, wrap, roots)
}

/// The facts of `forest` beyond the shapes of its matrices.
#[verifier::opaque]
pub open spec fn forest_links(g: Seq<Seq<Compass>>, seen: Seq<Seq<bool>>, m: Seq<Seq<bool>>, rows: usize, cols: usize, wrap: usize, roots: Seq<Point>) -> bool {
    &&& reciprocal(g, rows, cols, wrap)
    &&& forall|p: Point| on_grid(rows, cols, p) && !#[trigger] at(seen, p) ==> at(g, p) == Compass::closed()
    &&& forall|p: Point| on_grid(rows, cols, p) && #[trigger] at(seen, p) ==> at(m, p)
    &&& forall|p: Point, d: Direction| on_grid(rows, cols, p) && #[trigger] at(g, p).has(d)
        ==> step_from(rows, cols, p, d, wrap) is Some && at(seen, step_from(rows, cols, p, d, wrap)->Some_0)
    &&& total_exits(g) + 2 * roots.len() == 2 * grid_sum(seen, set_count())
    &&& forall|k: int| 0 <= k < roots.len() ==> on_grid(rows, cols, #[trigger] roots[k]) && at(seen, roots[k])
    &&& forall|p: Point| on_grid(rows, cols, p) && #[trigger] at(seen, p)
        ==> exists|k: int| 0 <= k < roots.len() && #[trigger] linked(roots[k], p, open_link(g, rows, cols, wrap))
}

/// The finished product of a generator: over the allowed squares of `m`,
/// open passages form one tree per anchor, reaching every allowed square;
/// forbidden squares stay closed.
pub open spec fn spanning_forest(g: Seq<Seq<Compass>>, m: Seq<Seq<bool>>, rows: usize, cols: usize, wrap: usize, anchors: Seq<Point>) -> bool {
    &&& shaped(g, rows as int, cols as int)
    &&& reciprocal(g, rows, cols, wrap)
    &&& forall|p: Point| on_grid(rows, cols, p) && !#[trigger] at(m, p) ==> at(g, p) == Compass::closed()
    &&& forall|p: Point, d: Direction| on_grid(rows, cols, p) && #[trigger] at(g, p).has(d)
        ==> step_from(rows, cols, p, d, wrap) is Some && at(m, step_from(rows, cols, p, d, wrap)->Some_0)
    &&& total_exits(g) + 2 * anchors.len() == 2 * allowed_count(m)
    &&& forall|p: Point| on_grid(rows, cols, p) && #[trigger] at(m, p)
        ==> exists|k: int| 0 <= k < anchors.len() && #[trigger] linked(anchors[k], p, open_link(g, rows, cols, wrap))
}

/// Every allowed square one move from a seen square is seen.
pub open spec fn seen_closed(seen: Seq<Seq<bool>>, m: Seq<Seq<bool>>, rows: usize, cols: usize, wrap: usize) -> bool {
    forall|p: Point, d: Direction|
        #![trigger at(seen, p), step_from(rows, cols, p, d, wrap)]
        on_grid(rows, cols, p) && at(seen, p) && step_from(rows, cols, p, d, wrap) is Some
            && at(m, step_from(rows, cols, p, d, wrap)->Some_0) ==> at(seen, step_from(rows, cols, p, d, wrap)->Some_0)
}

/// Opening more passages keeps every open route.
pub proof fn lemma_open_link_grows(g: Seq<Seq<Compass>>, n: Seq<Seq<Compass>>, rows: usize, cols: usize, wrap: usize)
    requires
        forall|p: Point, d: Direction| on_grid(rows, cols, p) && #[trigger] at(g, p).has(d) ==> at(n, p).has(d),
    ensures
        forall|x: Point, y: Point| #[trigger] open_link(g, rows, cols, wrap)(x, y) ==> open_link(n, rows, cols, wrap)(x, y),
{
    assert forall|x: Point, y: Point| #[trigger] open_link(g, rows, cols, wrap)(x, y) implies open_link(n, rows, cols, wrap)(x, y) by {
        if at(g, x).has(Direction::North) { assert(at(n, x).has(Direction::North)); }
        if at(g, x).has(Direction::South) { assert(at(n, x).has(Direction::South)); }
        if at(g, x).has(Direction::East) { assert(at(n, x).has(Direction::East)); }
        if at(g, x).has(Direction::West) { assert(at(n, x).has(Direction::West)); }
    }
}

/// The squares of a forest after one more passage is opened to a new square.
pub proof fn lemma_attach_cells(g0: Seq<Seq<Compass>>, s0: Seq<Seq<bool>>, m: Seq<Seq<bool>>, rows: usize, cols: usize, wrap: usize, u: Point, d: Direction, v: Point)
    requires
        shaped(g0, rows as int, cols as int),
        shaped(s0, rows as int, cols as int),
        reciprocal(g0, rows, cols, wrap),
        forall|p: Point| on_grid(rows, cols, p) && !#[trigger] at(s0, p) ==> at(g0, p) == Compass::closed(),
        forall|p: Point, e: Direction| on_grid(rows, cols, p) && #[trigger] at(g0, p).has(e)
            ==> step_from(rows, cols, p, e, wrap) is Some && at(s0, step_from(rows, cols, p, e, wrap)->Some_0),
        on_grid(rows, cols, u),
        at(s0, u),
        step_from(rows, cols, u, d, wrap) == Some(v),
        !at(s0, v),
    ensures
        ({
            let n = opened(g0, rows, cols, Wall { cell: u, dir: d }, wrap);
            let s = set_at(s0, v, true);
            &&& shaped(n, rows as int, cols as int)
            &&& shaped(s, rows as int, cols as int)
            &&& reciprocal(n, rows, cols, wrap)
            &&& forall|p: Point| on_grid(rows, cols, p) ==> #[trigger] at(s, p) == (p == v || at(s0, p))
            &&& forall|p: Point| on_grid(rows, cols, p) && !#[trigger] at(s, p) ==> at(n, p) == Compass::closed()
            &&& forall|p: Point, e: Direction| on_grid(rows, cols, p) && #[trigger] at(n, p).has(e)
                ==> step_from(rows, cols, p, e, wrap) is Some && at(s, step_from(rows, cols, p, e, wrap)->Some_0)
            &&& forall|p: Point, e: Direction| on_grid(rows, cols, p) && #[trigger] at(g0, p).has(e) ==> at(n, p).has(e)
            &&& at(n, u).has(d)
            &&& total_exits(n) == total_exits(g0) + 2
            &&& grid_sum(s, set_count()) == grid_sum(s0, set_count()) + 1
        }),
{
    let n = opened(g0, rows, cols, Wall { cell: u, dir: d }, wrap);
    let s = set_at(s0, v, true);
    let g1 = set_at(g0, u, at(g0, u).with(d, true));
    lemma_step_inverse(rows, cols, u, d, wrap);
    assert(!at(g0, u).has(d));
    assert(at(g0, v) == Compass::closed());
    lemma_set_at_all(g0, rows, cols, u, at(g0, u).with(d, true));
    lemma_set_at_all(g1, rows, cols, v, at(g1, v).with(d.rev(), true));
    lemma_set_at_all(s0, rows, cols, v, true);
    assert(n == set_at(g1, v, at(g1, v).with(d.rev(), true)));
    lemma_opened_reciprocal(g0, rows, cols, Wall { cell: u, dir: d }, wrap);
    lemma_grid_sum_set(g0, u, at(g0, u).with(d, true), exit_count());
    lemma_grid_sum_set(g1, v, at(g1, v).with(d.rev(), true), exit_count());
    lemma_grid_sum_set(s0, v, true, set_count());
    assert forall|p: Point, e: Direction| on_grid(rows, cols, p) && #[trigger] at(n, p).has(e)
        implies step_from(rows, cols, p, e, wrap) is Some && at(s, step_from(rows, cols, p, e, wrap)->Some_0) by {
        if at(g0, p).has(e) {
        } else if p == u && e == d {
        } else {
            assert(p == v && e == d.rev());
        }
    }
}

/// Every seen square keeps a route from a root once a passage from `u` to the new square `v` is open.
pub proof fn lemma_attach_links(g0: Seq<Seq<Compass>>, n: Seq<Seq<Compass>>, s0: Seq<Seq<bool>>, s: Seq<Seq<bool>>, rows: usize, cols: usize, wrap: usize, roots: Seq<Point>, u: Point, v: Point)
    requires
        forall|x: Point, y: Point| #[trigger] open_link(g0, rows, cols, wrap)(x, y) ==> open_link(n, rows, cols, wrap)(x, y),
        open_link(n, rows, cols, wrap)(u, v),
        on_grid(rows, cols, u),
        at(s0, u),
        forall|p: Point| on_grid(rows, cols, p) && #[trigger] at(s0, p)
            ==> exists|k: int| 0 <= k < roots.len() && #[trigger] linked(roots[k], p, open_link(g0, rows, cols, wrap)),
        forall|p: Point| on_grid(rows, cols, p) ==> #[trigger] at(s, p) == (p == v || at(s0, p)),
    ensures
        forall|p: Point| on_grid(rows, cols, p) && #[trigger] at(s, p)
            ==> exists|k: int| 0 <= k < roots.len() && #[trigger] linked(roots[k], p, open_link(n, rows, cols, wrap)),
{
    assert forall|p: Point| on_grid(rows, cols, p) && #[trigger] at(s, p)
        implies exists|k: int| 0 <= k < roots.len() && #[trigger] linked(roots[k], p, open_link(n, rows, cols, wrap)) by {
        if p == v {
            let k = choose|k: int| 0 <= k < roots.len() && #[trigger] linked(roots[k], u, open_link(g0, rows, cols, wrap));
            lemma_linked_mono(roots[k], u, open_link(g0, rows, cols, wrap), open_link(n, rows, cols, wrap));
            lemma_linked_push(roots[k], u, v, open_link(n, rows, cols, wrap));
        } else {
            let k = choose|k: int| 0 <= k < roots.len() && #[trigger] linked(roots[k], p, open_link(g0, rows, cols, wrap));
            lemma_linked_mono(roots[k], p, open_link(g0, rows, cols, wrap), open_link(n, rows, cols, wrap));
        }
    }
}

/// Opening a passage from a seen square to an unseen allowed one grows the forest.
pub proof fn lemma_attach(g0: Seq<Seq<Compass>>, s0: Seq<Seq<bool>>, m: Seq<Seq<bool>>, rows: usize, cols: usize, wrap: usize, roots: Seq<Point>, u: Point, d: Direction, v: Point)
    requires
        forest(g0, s0, m, rows, cols, wrap, roots),
        on_grid(rows, cols, u),
        at(s0, u),
        step_from(rows, cols, u, d, wrap) == Some(v),
        !at(s0, v),
        at(m, v),
    ensures
        forest(opened(g0, rows, cols, Wall { cell: u, dir: d }, wrap), set_at(s0, v, true), m, rows, cols, wrap, roots),
        grid_sum(set_at(s0, v, true), set_count()) == grid_sum(s0, set_count()) + 1,
{
    reveal(forest_links);
    let n = opened(g0, rows, cols, Wall { cell: u, dir: d }, wrap);
    let s = set_at(s0, v, true);
    lemma_attach_cells(g0, s0, m, rows, cols, wrap, u, d, v);
    lemma_open_link_grows(g0, n, rows, cols, wrap);
    lemma_attach_links(g0, n, s0, s, rows, cols, wrap, roots, u, v);
}

/// Joins the unseen allowed square `v` to the seen square `u` by opening the
/// passage from `u` toward `d`.
fn attach(rows: usize, cols: usize, wrap: usize, bitmask: &Vec<Vec<bool>>, g: &mut Vec<Vec<Compass>>, seen: &mut Vec<Vec<bool>>, u: Point, d: Direction, v: Point, Ghost(roots): Ghost<Seq<Point>>)
    requires
        forest(grid(old(g)@), grid(old(seen)@), grid(bitmask@), rows, cols, wrap, roots),
        on_grid(rows, cols, u),
        at(grid(old(seen)@), u),
        step_from(rows, cols, u, d, wrap) == Some(v),
        !at(grid(old(seen)@), v),
        at(grid(bitmask@), v),
    ensures
        forest(grid(final(g)@), grid(final(seen)@), grid(bitmask@), rows, cols, wrap, roots),
        grid(final(g)@) == opened(grid(old(g)@), rows, cols, Wall { cell: u, dir: d }, wrap),
        grid(final(seen)@) == set_at(grid(old(seen)@), v, true),
        grid_sum(grid(final(seen)@), set_count()) == grid_sum(grid(old(seen)@), set_count()) + 1,
        grid_sum(grid(final(seen)@), unset_count()) + 1 == grid_sum(grid(old(seen)@), unset_count()),
        forall|p: Point| on_grid(rows, cols, p) ==> #[trigger] at(grid(final(seen)@), p) == (p == v || at(grid(old(seen)@), p)),
{
    let ghost g0 = grid(g@);
    let ghost s0 = grid(seen@);
    proof {
        lemma_grid_sum_set(s0, v, true, unset_count());
        lemma_set_at_all(s0, rows, cols, v, true);
        lemma_attach(g0, s0, grid(bitmask@), rows, cols, wrap, roots, u, d, v);
        lemma_step_inverse(rows, cols, u, d, wrap);
        lemma_in_bounds(g@, rows, cols, u);
        lemma_in_bounds(g@, rows, cols, v);
        lemma_in_bounds(seen@, rows, cols, v);
    }
    let c = g[u.row][u.col].add_dir(d);
    set_cell(g, u, c);
    proof { lemma_in_bounds(g@, rows, cols, v); }
    let c2 = g[v.row][v.col].add_dir(d.reverse());
    set_cell(g, v, c2);
    set_cell(seen, v, true);
}

/// Every seen square keeps a route from a root once `a` is seen as a new root.
pub proof fn lemma_root_links(g0: Seq<Seq<Compass>>, s0: Seq<Seq<bool>>, s: Seq<Seq<bool>>, rows: usize, cols: usize, wrap: usize, roots: Seq<Point>, a: Point)
    requires
        forall|p: Point| on_grid(rows, cols, p) && #[trigger] at(s0, p)
            ==> exists|k: int| 0 <= k < roots.len() && #[trigger] linked(roots[k], p, open_link(g0, rows, cols, wrap)),
        forall|p: Point| on_grid(rows, cols, p) ==> #[trigger] at(s, p) == (p == a || at(s0, p)),
    ensures
        forall|p: Point| on_grid(rows, cols, p) && #[trigger] at(s, p)
            ==> exists|k: int| 0 <= k < roots.push(a).len() && #[trigger] linked(roots.push(a)[k], p, open_link(g0, rows, cols, wrap)),
{
    let r = roots.push(a);
    lemma_linked_refl(a, open_link(g0, rows, cols, wrap));
    assert(r[roots.len() as int] == a);
    assert forall|p: Point| on_grid(rows, cols, p) && #[trigger] at(s, p)
        implies exists|k: int| 0 <= k < r.len() && #[trigger] linked(r[k], p, open_link(g0, rows, cols, wrap)) by {
        if p == a {
            assert(linked(r[roots.len() as int], p, open_link(g0, rows, cols, wrap)));
        } else {
            let k = choose|k: int| 0 <= k < roots.len() && #[trigger] linked(roots[k], p, open_link(g0, rows, cols, wrap));
            assert(r[k] == roots[k]);
        }
    }
}

/// Seeing a new allowed square as a root grows the forest.
pub proof fn lemma_add_root(g0: Seq<Seq<Compass>>, s0: Seq<Seq<bool>>, m: Seq<Seq<bool>>, rows: usize, cols: usize, wrap: usize, roots: Seq<Point>, a: Point)
    requires
        forest(g0, s0, m, rows, cols, wrap, roots),
        on_grid(rows, cols, a),
        !at(s0, a),
        at(m, a),
    ensures
        forest(g0, set_at(s0, a, true), m, rows, cols, wrap, roots.push(a)),
{
    reveal(forest_links);
    let s = set_at(s0, a, true);
    let r = roots.push(a);
    lemma_set_at_all(s0, rows, cols, a, true);
    lemma_grid_sum_set(s0, a, true, set_count());
    assert forall|k: int| 0 <= k < r.len() implies on_grid(rows, cols, #[trigger] r[k]) && at(s, r[k]) by {
        if k < roots.len() {
            assert(r[k] == roots[k]);
        }
    }
    lemma_root_links(g0, s0, s, rows, cols, wrap, roots, a);
}

/// Makes the unseen allowed square `a` the root of a new tree.
fn add_root(rows: usize, cols: usize, wrap: usize, bitmask: &Vec<Vec<bool>>, g: &Vec<Vec<Compass>>, seen: &mut Vec<Vec<bool>>, a: Point, Ghost(roots): Ghost<Seq<Point>>)
    requires
        forest(grid(g@), grid(old(seen)@), grid(bitmask@), rows, cols, wrap, roots),
        on_grid(rows, cols, a),
        !at(grid(old(seen)@), a),
        at(grid(bitmask@), a),
    ensures
        forest(grid(g@), grid(final(seen)@), grid(bitmask@), rows, cols, wrap, roots.push(a)),
        grid(final(seen)@) == set_at(grid(old(seen)@), a, true),
        forall|p: Point| on_grid(rows, cols, p) ==> #[trigger] at(grid(final(seen)@), p) == (p == a || at(grid(old(seen)@), p)),
{
    proof {
        lemma_set_at_all(grid(seen@), rows, cols, a, true);
        lemma_add_root(grid(g@), grid(seen@), grid(bitmask@), rows, cols, wrap, roots, a);
        lemma_in_bounds(seen@, rows, cols, a);
    }
    set_cell(seen, a, true);
}

/// A closed set of seen squares holding every anchor holds every allowed square.
pub proof fn lemma_seen_is_mask(seen: Seq<Seq<bool>>, m: Seq<Seq<bool>>, rows: usize, cols: usize, wrap: usize, anchors: Seq<Point>)
    requires
        shaped(seen, rows as int, cols as int),
        shaped(m, rows as int, cols as int),
        forall|p: Point| on_grid(rows, cols, p) && #[trigger] at(seen, p) ==> at(m, p),
        forall|k: int| 0 <= k < anchors.len() ==> on_grid(rows, cols, #[trigger] anchors[k]) && at(seen, anchors[k]),
        seen_closed(seen, m, rows, cols, wrap),
        forall|p: Point|
            on_grid(rows, cols, p) && #[trigger] at(m, p) ==> exists|k: int| 0 <= k < anchors.len() && #[trigger] linked(anchors[k], p, mask_link(m, rows, cols, wrap)),
    ensures
        seen == m,
{
    let link = mask_link(m, rows, cols, wrap);
    assert forall|x: Point, y: Point| at(seen, x) && #[trigger] link(x, y) implies at(seen, y) by {
        if step_from(rows, cols, x, Direction::North, wrap) == Some(y) {
            assert(at(seen, step_from(rows, cols, x, Direction::North, wrap)->Some_0));
        } else if step_from(rows, cols, x, Direction::South, wrap) == Some(y) {
            assert(at(seen, step_from(rows, cols, x, Direction::South, wrap)->Some_0));
        } else if step_from(rows, cols, x, Direction::East, wrap) == Some(y) {
            assert(at(seen, step_from(rows, cols, x, Direction::East, wrap)->Some_0));
        } else {
            assert(at(seen, step_from(rows, cols, x, Direction::West, wrap)->Some_0));
        }
    }
    assert forall|i: int| 0 <= i < rows implies #[trigger] seen[i] =~= m[i] by {
        assert forall|j: int| 0 <= j < cols implies seen[i][j] == m[i][j] by {
            let p = Point { row: i as usize, col: j as usize };
            assert(on_grid(rows, cols, p));
            assert(at(seen, p) == seen[i][j] && at(m, p) == m[i][j]);
            if at(m, p) {
                let k = choose|k: int| 0 <= k < anchors.len() && #[trigger] linked(anchors[k], p, link);
                assert(at(seen, anchors[k]));
                lemma_closed_holds(anchors[k], p, link, flooded(seen));
            }
        }
    }
    assert(seen =~= m);
}

/// A closed forest with every anchor seen covers every allowed square.
pub proof fn lemma_forest_done(g: Seq<Seq<Compass>>, seen: Seq<Seq<bool>>, m: Seq<Seq<bool>>, rows: usize, cols: usize, wrap: usize, anchors: Seq<Point>)
    requires
        forest(g, seen, m, rows, cols, wrap, anchors),
        seen_closed(seen, m, rows, cols, wrap),
        anchor_cover(anchors, m, rows, cols, wrap),
    ensures
        spanning_forest(g, m, rows, cols, wrap, anchors),
{
    reveal(forest_links);
    reveal(anchor_cover);
    lemma_seen_is_mask(seen, m, rows, cols, wrap, anchors);
}

/// An anchor is an allowed square of the grid.
pub proof fn lemma_anchor_valid(anchors: Seq<Point>, m: Seq<Seq<bool>>, rows: usize, cols: usize, wrap: usize, k: int)
    requires
        anchor_cover(anchors, m, rows, cols, wrap),
        0 <= k < anchors.len(),
    ensures
        on_grid(rows, cols, anchors[k]),
        at(m, anchors[k]),
{
    reveal(anchor_cover);
}

/// No two anchors of a mask lie in one region.
pub proof fn lemma_anchors_apart(anchors: Seq<Point>, m: Seq<Seq<bool>>, rows: usize, cols: usize, wrap: usize)
    requires
        anchor_cover(anchors, m, rows, cols, wrap),
    ensures
        forall|k1: int, k2: int| 0 <= k1 < anchors.len() && 0 <= k2 < anchors.len() && k1 != k2
            ==> !#[trigger] linked(anchors[k1], anchors[k2], mask_link(m, rows, cols, wrap)),
{
    reveal(anchor_cover);
}

/// The anchors of a mask are distinct squares.
pub proof fn lemma_anchors_distinct(anchors: Seq<Point>, m: Seq<Seq<bool>>, rows: usize, cols: usize, wrap: usize, k1: int, k2: int)
    requires
        anchor_cover(anchors, m, rows, cols, wrap),
        0 <= k1 < anchors.len(),
        0 <= k2 < anchors.len(),
        k1 != k2,
    ensures
        anchors[k1] != anchors[k2],
{
    reveal(anchor_cover);
    lemma_linked_refl(anchors[k1], mask_link(m, rows, cols, wrap));
    assert(!linked(anchors[k1], anchors[k2], mask_link(m, rows, cols, wrap)));
}

/// An empty forest, no square seen.
fn empty_forest(rows: usize, cols: usize, wrap: usize, bitmask: &Vec<Vec<bool>>) -> (r: (Vec<Vec<Compass>>, Vec<Vec<bool>>))
    requires
        shaped(grid(bitmask@), rows as int, cols as int),
    ensures
        forest(grid(r.0@), grid(r.1@), grid(bitmask@), rows, cols, wrap, Seq::empty()),
        forall|p: Point| on_grid(rows, cols, p) ==> !#[trigger] at(grid(r.1@), p),
{
    let g = filled(rows, cols, Compass::init());
    let seen = filled(rows, cols, false);
    proof {
        reveal(forest_links);
        let gg = grid(g@);
        let ss = grid(seen@);
        lemma_zero_sums(gg, ss, rows, cols);
        assert forall|p: Point| on_grid(rows, cols, p) implies #[trigger] at(gg, p) == Compass::closed() && !at(ss, p) by {
            assert(gg[p.row as int][p.col as int] == Compass::closed());
            assert(ss[p.row as int][p.col as int] == false);
        }
    }
    (g, seen)
}

proof fn lemma_zero_sums(g: Seq<Seq<Compass>>, s: Seq<Seq<bool>>, rows: usize, cols: usize)
    requires
        shaped(g, rows as int, cols as int),
        shaped(s, rows as int, cols as int),
        forall|i: int, j: int| 0 <= i < rows && 0 <= j < cols ==> #[trigger] g[i][j] == Compass::closed(),
        forall|i: int, j: int| 0 <= i < rows && 0 <= j < cols ==> #[trigger] s[i][j] == false,
    ensures
        total_exits(g) == 0,
        grid_sum(s, set_count()) == 0,
    decreases rows,
{
    if rows > 0 {
        let r = (rows - 1) as usize;
        lemma_zero_sums(g.drop_last(), s.drop_last(), r, cols);
        lemma_row_zero(g.last(), exit_count());
        lemma_row_zero(s.last(), set_count());
    }
}

proof fn lemma_row_zero<T>(r: Seq<T>, f: spec_fn(T) -> nat)
    requires
        forall|j: int| 0 <= j < r.len() ==> f(#[trigger] r[j]) == 0,
    ensures
        crate::grid::row_sum(r, f) == 0,
    decreases r.len(),
{
    if r.len() > 0 {
        lemma_row_zero(r.drop_last(), f);
        assert(f(r[r.len() - 1]) == 0);
    }
}


/// No square lies beyond `p` toward `d`, or it is forbidden, or it is seen already.
pub open spec fn blocked(seen: Seq<Seq<bool>>, m: Seq<Seq<bool>>, rows: usize, cols: usize, wrap: usize, p: Point, d: Direction) -> bool {
    step_from(rows, cols, p, d, wrap) is None || !at(m, step_from(rows, cols, p, d, wrap)->Some_0) || at(
        seen,
        step_from(rows, cols, p, d, wrap)->Some_0,
    )
}

/// Every side of a seen square is on the frontier list, or leads nowhere new.
pub open spec fn frontier(walls: Seq<Wall>, seen: Seq<Seq<bool>>, m: Seq<Seq<bool>>, rows: usize, cols: usize, wrap: usize) -> bool {
    &&& forall|p: Point, d: Direction|
        on_grid(rows, cols, p) && #[trigger] at(seen, p) && d.is_cardinal()
            ==> walls.contains(Wall { cell: p, dir: d }) || #[trigger] blocked(seen, m, rows, cols, wrap, p, d)
    &&& forall|i: int| 0 <= i < walls.len() ==> on_grid(rows, cols, #[trigger] walls[i].cell) && at(seen, walls[i].cell)
}

proof fn lemma_remove_keeps(s: Seq<Wall>, i: int, x: Wall)
    requires
        0 <= i < s.len(),
        s.contains(x),
        x != s[i],
    ensures
        s.remove(i).contains(x),
{
    let k = choose|k: int| 0 <= k < s.len() && s[k] == x;
    if k < i {
        assert(s.remove(i)[k] == x);
    } else {
        assert(s.remove(i)[k - 1] == x);
    }
}

/// With no frontier left, seen squares are closed.
proof fn lemma_frontier_empty(seen: Seq<Seq<bool>>, m: Seq<Seq<bool>>, rows: usize, cols: usize, wrap: usize)
    requires
        frontier(Seq::empty(), seen, m, rows, cols, wrap),
    ensures
        seen_closed(seen, m, rows, cols, wrap),
{
    assert forall|p: Point, d: Direction|
        #![trigger at(seen, p), step_from(rows, cols, p, d, wrap)]
        on_grid(rows, cols, p) && at(seen, p) && step_from(rows, cols, p, d, wrap) is Some
            && at(m, step_from(rows, cols, p, d, wrap)->Some_0) implies at(seen, step_from(rows, cols, p, d, wrap)->Some_0) by {
        assert(d.is_cardinal());
        assert(!Seq::<Wall>::empty().contains(Wall { cell: p, dir: d }));
        assert(blocked(seen, m, rows, cols, wrap, p, d));
    }
}

/// Pushes the four sides of `p` onto the frontier.
fn push_sides(walls: &mut Vec<Wall>, p: Point)
    ensures
        final(walls)@ == old(walls)@ + seq![
            Wall { cell: p, dir: Direction::East },
            Wall { cell: p, dir: Direction::West },
            Wall { cell: p, dir: Direction::North },
            Wall { cell: p, dir: Direction::South },
        ],
{
    walls.push(Wall::init(p, Direction::East));
    walls.push(Wall::init(p, Direction::West));
    walls.push(Wall::init(p, Direction::North));
    walls.push(Wall::init(p, Direction::South));
    proof {
        assert(walls@ =~= old(walls)@ + seq![
            Wall { cell: p, dir: Direction::East },
            Wall { cell: p, dir: Direction::West },
            Wall { cell: p, dir: Direction::North },
            Wall { cell: p, dir: Direction::South },
        ]);
    }
}

/// The four sides pushed for `p` are on the list afterward.
proof fn lemma_sides_contained(old_walls: Seq<Wall>, p: Point, d: Direction)
    requires
        d.is_cardinal(),
    ensures
        (old_walls + seq![
            Wall { cell: p, dir: Direction::East },
            Wall { cell: p, dir: Direction::West },
            Wall { cell: p, dir: Direction::North },
            Wall { cell: p, dir: Direction::South },
        ]).contains(Wall { cell: p, dir: d }),
{
    let s = old_walls + seq![
        Wall { cell: p, dir: Direction::East },
        Wall { cell: p, dir: Direction::West },
        Wall { cell: p, dir: Direction::North },
        Wall { cell: p, dir: Direction::South },
    ];
    let n = old_walls.len() as int;
    match d {
        Direction::East => assert(s[n] == Wall { cell: p, dir: d }),
        Direction::West => assert(s[n + 1] == Wall { cell: p, dir: d }),
        Direction::North => assert(s[n + 2] == Wall { cell: p, dir: d }),
        _ => assert(s[n + 3] == Wall { cell: p, dir: d }),
    }
}

/// Randomised Prim: grows a tree from each anchor by opening a uniformly
/// chosen frontier wall whenever it leads to an allowed square not yet reached.
pub fn prims_algorithm(my_rows: usize, my_columns: usize, wrap: usize, bitmask: &Vec<Vec<bool>>, starting_points: Vec<Point>, rng: &mut StdRng) -> (r: Vec<Vec<Compass>>)
    requires
        shaped(grid(bitmask@), my_rows as int, my_columns as int),
        anchor_cover(starting_points@, grid(bitmask@), my_rows, my_columns, wrap),
    ensures
        spanning_forest(grid(r@), grid(bitmask@), my_rows, my_columns, wrap, starting_points@),
{
    let ghost m = grid(bitmask@);
    let ghost sp = starting_points@;
    let (mut path_matrix, mut check_matrix) = empty_forest(my_rows, my_columns, wrap, bitmask);
    let mut walls: Vec<Wall> = Vec::new();
    let mut k: usize = 0;
    proof {
        assert(sp.subrange(0, 0) =~= Seq::<Point>::empty());
    }
    while k < starting_points.len()
        invariant
            k <= sp.len(),
            sp == starting_points@,
            m == grid(bitmask@),
            anchor_cover(sp, m, my_rows, my_columns, wrap),
            forest(grid(path_matrix@), grid(check_matrix@), m, my_rows, my_columns, wrap, sp.subrange(0, k as int)),
            frontier(walls@, grid(check_matrix@), m, my_rows, my_columns, wrap),
            forall|p: Point| on_grid(my_rows, my_columns, p) && #[trigger] at(grid(check_matrix@), p)
                ==> exists|j: int| 0 <= j < k && sp[j] == p,
        decreases sp.len() - k,
    {
        let start = starting_points[k];
        proof {
            lemma_anchor_valid(sp, m, my_rows, my_columns, wrap, k as int);
            if at(grid(check_matrix@), start) {
                let j = choose|j: int| 0 <= j < k && sp[j] == start;
                lemma_anchors_distinct(sp, m, my_rows, my_columns, wrap, j, k as int);
            }
        }
        let ghost s0 = grid(check_matrix@);
        let ghost w0 = walls@;
        add_root(my_rows, my_columns, wrap, bitmask, &path_matrix, &mut check_matrix, start, Ghost(sp.subrange(0, k as int)));
        push_sides(&mut walls, start);
        proof {
            assert(sp.subrange(0, k as int).push(start) =~= sp.subrange(0, k as int + 1));
            let s1 = grid(check_matrix@);
            assert forall|p: Point, d: Direction|
                on_grid(my_rows, my_columns, p) && #[trigger] at(s1, p) && d.is_cardinal()
                    implies walls@.contains(Wall { cell: p, dir: d }) || #[trigger] blocked(s1, m, my_rows, my_columns, wrap, p, d) by {
                lemma_sides_contained(w0, start, d);
                lemma_step_inverse(my_rows, my_columns, p, d, wrap);
                if p != start {
                    assert(at(s0, p));
                    assert(w0.contains(Wall { cell: p, dir: d }) || blocked(s0, m, my_rows, my_columns, wrap, p, d));
                    if w0.contains(Wall { cell: p, dir: d }) {
                        let i = choose|i: int| 0 <= i < w0.len() && w0[i] == Wall { cell: p, dir: d };
                        assert(walls@[i] == w0[i]);
                    }
                }
            }
            assert forall|i: int| 0 <= i < walls@.len() implies on_grid(my_rows, my_columns, #[trigger] walls@[i].cell) && at(s1, walls@[i].cell) by {
                if i < w0.len() {
                    assert(walls@[i] == w0[i]);
                }
            }
            assert forall|p: Point| on_grid(my_rows, my_columns, p) && #[trigger] at(s1, p)
                implies exists|j: int| 0 <= j < k + 1 && sp[j] == p by {
                if p == start {
                    assert(sp[k as int] == p);
                } else {
                    let j = choose|j: int| 0 <= j < k && sp[j] == p;
                }
            }
        }
        k = k + 1;
    }
    proof {
        assert(sp.subrange(0, sp.len() as int) =~= sp);
    }
    while walls.len() != 0
        invariant
            sp == starting_points@,
            m == grid(bitmask@),
            anchor_cover(sp, m, my_rows, my_columns, wrap),
            forest(grid(path_matrix@), grid(check_matrix@), m, my_rows, my_columns, wrap, sp),
            frontier(walls@, grid(check_matrix@), m, my_rows, my_columns, wrap),
        decreases grid_sum(grid(check_matrix@), unset_count()), walls@.len(),
    {
        let ghost w0 = walls@;
        let ghost s0 = grid(check_matrix@);
        let choice = random_below(rng, walls.len());
        let current = walls.remove(choice);
        let current_cell = current.cell;
        let current_dir = current.dir;
        proof {
            assert(w0[choice as int] == current);
            assert(on_grid(my_rows, my_columns, current_cell) && at(s0, current_cell));
            lemma_step_inverse(my_rows, my_columns, current_cell, current_dir, wrap);
        }
        let next_cell = get_cell_in_direction(my_rows, my_columns, current_cell.row, current_cell.col, current_dir, wrap);
        if let Some(cell) = next_cell {
            proof {
                lemma_in_bounds(check_matrix@, my_rows, my_columns, cell);
                lemma_in_bounds(bitmask@, my_rows, my_columns, cell);
            }
            if !check_matrix[cell.row][cell.col] && bitmask[cell.row][cell.col] {
                let ghost w1 = walls@;
                push_sides(&mut walls, cell);
                attach(my_rows, my_columns, wrap, bitmask, &mut path_matrix, &mut check_matrix, current_cell, current_dir, cell, Ghost(sp));
                proof {
                    let s1 = grid(check_matrix@);
                    assert forall|p: Point, d: Direction|
                        on_grid(my_rows, my_columns, p) && #[trigger] at(s1, p) && d.is_cardinal()
                            implies walls@.contains(Wall { cell: p, dir: d }) || #[trigger] blocked(s1, m, my_rows, my_columns, wrap, p, d) by {
                        lemma_sides_contained(w1, cell, d);
                        lemma_step_inverse(my_rows, my_columns, p, d, wrap);
                        if p != cell {
                            assert(at(s0, p));
                            assert(w0.contains(Wall { cell: p, dir: d }) || blocked(s0, m, my_rows, my_columns, wrap, p, d));
                            if w0.contains(Wall { cell: p, dir: d }) && (Wall { cell: p, dir: d }) != current {
                                lemma_remove_keeps(w0, choice as int, Wall { cell: p, dir: d });
                                let i = choose|i: int| 0 <= i < w1.len() && w1[i] == Wall { cell: p, dir: d };
                                assert(walls@[i] == w1[i]);
                            } else if !w0.contains(Wall { cell: p, dir: d }) {
                                assert(blocked(s0, m, my_rows, my_columns, wrap, p, d));
                            }
                        }
                    }
                    assert forall|i: int| 0 <= i < walls@.len() implies on_grid(my_rows, my_columns, #[trigger] walls@[i].cell) && at(s1, walls@[i].cell) by {
                        if i < w1.len() {
                            assert(walls@[i] == w1[i]);
                            assert(w1[i] == w0.remove(choice as int)[i]);
                            if i < choice { assert(w1[i] == w0[i]); } else { assert(w1[i] == w0[i + 1]); }
                        }
                    }
                }
                continue;
            }
        }
        proof {
            assert(blocked(s0, m, my_rows, my_columns, wrap, current_cell, current_dir));
            assert forall|p: Point, d: Direction|
                on_grid(my_rows, my_columns, p) && #[trigger] at(s0, p) && d.is_cardinal()
                    implies walls@.contains(Wall { cell: p, dir: d }) || #[trigger] blocked(s0, m, my_rows, my_columns, wrap, p, d) by {
                if w0.contains(Wall { cell: p, dir: d }) && (Wall { cell: p, dir: d }) != current {
                    lemma_remove_keeps(w0, choice as int, Wall { cell: p, dir: d });
                }
            }
            assert forall|i: int| 0 <= i < walls@.len() implies on_grid(my_rows, my_columns, #[trigger] walls@[i].cell) && at(s0, walls@[i].cell) by {
                if i < choice { assert(walls@[i] == w0[i]); } else { assert(walls@[i] == w0[i + 1]); }
            }
        }
    }
    proof {
        assert(walls@ =~= Seq::<Wall>::empty());
        lemma_frontier_empty(grid(check_matrix@), m, my_rows, my_columns, wrap);
        lemma_forest_done(grid(path_matrix@), grid(check_matrix@), m, my_rows, my_columns, wrap, sp);
    }
    path_matrix
}


/// Every seen square off the stack leads nowhere new.
pub open spec fn stack_frontier(stack: Seq<Point>, seen: Seq<Seq<bool>>, m: Seq<Seq<bool>>, rows: usize, cols: usize, wrap: usize) -> bool {
    &&& forall|p: Point, d: Direction|
        on_grid(rows, cols, p) && #[trigger] at(seen, p) && d.is_cardinal()
            ==> stack.contains(p) || #[trigger] blocked(seen, m, rows, cols, wrap, p, d)
    &&& forall|i: int| 0 <= i < stack.len() ==> on_grid(rows, cols, #[trigger] stack[i]) && at(seen, stack[i])
}

/// `(d, v)` is a move from `u` to an allowed square not seen yet.
pub open spec fn fresh_move(seen: Seq<Seq<bool>>, m: Seq<Seq<bool>>, rows: usize, cols: usize, wrap: usize, u: Point, c: (Direction, Point)) -> bool {
    step_from(rows, cols, u, c.0, wrap) == Some(c.1) && !at(seen, c.1) && at(m, c.1)
}

/// Biased recursive backtracker: a depth-first walk from each anchor that,
/// among several ways on, keeps its last direction with probability
/// `0.33 + 0.42 * straightness` (straightness in parts per million).
pub fn bias_recursive_backtrack_algorithm(my_rows: usize, my_columns: usize, wrap: usize, straightness: u32, bitmask: &Vec<Vec<bool>>, starting_points: Vec<Point>, rng: &mut StdRng) -> (r: Vec<Vec<Compass>>)
    requires
        shaped(grid(bitmask@), my_rows as int, my_columns as int),
        anchor_cover(starting_points@, grid(bitmask@), my_rows, my_columns, wrap),
    ensures
        spanning_forest(grid(r@), grid(bitmask@), my_rows, my_columns, wrap, starting_points@),
{
    let ghost m = grid(bitmask@);
    let ghost sp = starting_points@;
    let (mut path_matrix, mut check_matrix) = empty_forest(my_rows, my_columns, wrap, bitmask);
    let mut cells: Vec<Point> = Vec::new();
    let mut k: usize = 0;
    proof {
        assert(sp.subrange(0, 0) =~= Seq::<Point>::empty());
    }
    while k < starting_points.len()
        invariant
            k <= sp.len(),
            sp == starting_points@,
            m == grid(bitmask@),
            anchor_cover(sp, m, my_rows, my_columns, wrap),
            forest(grid(path_matrix@), grid(check_matrix@), m, my_rows, my_columns, wrap, sp.subrange(0, k as int)),
            stack_frontier(cells@, grid(check_matrix@), m, my_rows, my_columns, wrap),
            forall|p: Point| on_grid(my_rows, my_columns, p) && #[trigger] at(grid(check_matrix@), p)
                ==> exists|j: int| 0 <= j < k && sp[j] == p,
        decreases sp.len() - k,
    {
        let start = starting_points[k];
        proof {
            lemma_anchor_valid(sp, m, my_rows, my_columns, wrap, k as int);
            if at(grid(check_matrix@), start) {
                let j = choose|j: int| 0 <= j < k && sp[j] == start;
                lemma_anchors_distinct(sp, m, my_rows, my_columns, wrap, j, k as int);
            }
        }
        let ghost s0 = grid(check_matrix@);
        let ghost c0 = cells@;
        add_root(my_rows, my_columns, wrap, bitmask, &path_matrix, &mut check_matrix, start, Ghost(sp.subrange(0, k as int)));
        cells.push(start);
        proof {
            assert(sp.subrange(0, k as int).push(start) =~= sp.subrange(0, k as int + 1));
            let s1 = grid(check_matrix@);
            assert(cells@[c0.len() as int] == start);
            assert forall|p: Point, d: Direction|
                on_grid(my_rows, my_columns, p) && #[trigger] at(s1, p) && d.is_cardinal()
                    implies cells@.contains(p) || #[trigger] blocked(s1, m, my_rows, my_columns, wrap, p, d) by {
                if p != start {
                    assert(at(s0, p));
                    assert(c0.contains(p) || blocked(s0, m, my_rows, my_columns, wrap, p, d));
                    lemma_step_inverse(my_rows, my_columns, p, d, wrap);
                    if c0.contains(p) {
                        let i = choose|i: int| 0 <= i < c0.len() && c0[i] == p;
                        assert(cells@[i] == c0[i]);
                    }
                }
            }
            assert forall|i: int| 0 <= i < cells@.len() implies on_grid(my_rows, my_columns, #[trigger] cells@[i]) && at(s1, cells@[i]) by {
                if i < c0.len() {
                    assert(cells@[i] == c0[i]);
                }
            }
            assert forall|p: Point| on_grid(my_rows, my_columns, p) && #[trigger] at(s1, p)
                implies exists|j: int| 0 <= j < k + 1 && sp[j] == p by {
                if p == start {
                    assert(sp[k as int] == p);
                } else {
                    let j = choose|j: int| 0 <= j < k && sp[j] == p;
                }
            }
        }
        k = k + 1;
    }
    proof {
        assert(sp.subrange(0, sp.len() as int) =~= sp);
    }
    let my_starting_directions = Direction::get_all_square_directions();
    let choice = random_below(rng, my_starting_directions.len());
    let mut current_direction = my_starting_directions[choice];
    while cells.len() != 0
        invariant
            sp == starting_points@,
            m == grid(bitmask@),
            anchor_cover(sp, m, my_rows, my_columns, wrap),
            forest(grid(path_matrix@), grid(check_matrix@), m, my_rows, my_columns, wrap, sp),
            stack_frontier(cells@, grid(check_matrix@), m, my_rows, my_columns, wrap),
        decreases grid_sum(grid(check_matrix@), unset_count()), cells@.len(),
    {
        let ghost s0 = grid(check_matrix@);
        let ghost c0 = cells@;
        let current_cell = cells[cells.len() - 1];
        let mut nearby_cells: Vec<(Direction, Point)> = Vec::new();
        let mut continue_in_current_direction: Vec<(Direction, Point)> = Vec::new();
        let mut continue_in_other_direction: Vec<(Direction, Point)> = Vec::new();
        let all_directions = Direction::get_all_square_directions();
        let mut t: usize = 0;
        while t < all_directions.len()
            invariant
                all_directions@ == cardinals(),
                t <= 4,
                s0 == grid(check_matrix@),
                m == grid(bitmask@),
                shaped(s0, my_rows as int, my_columns as int),
                shaped(m, my_rows as int, my_columns as int),
                on_grid(my_rows, my_columns, current_cell),
                forall|i: int| 0 <= i < nearby_cells@.len() ==> fresh_move(s0, m, my_rows, my_columns, wrap, current_cell, #[trigger] nearby_cells@[i]),
                forall|i: int| 0 <= i < continue_in_current_direction@.len()
                    ==> fresh_move(s0, m, my_rows, my_columns, wrap, current_cell, #[trigger] continue_in_current_direction@[i]),
                forall|i: int| 0 <= i < continue_in_other_direction@.len()
                    ==> fresh_move(s0, m, my_rows, my_columns, wrap, current_cell, #[trigger] continue_in_other_direction@[i]),
                continue_in_current_direction@.len() + continue_in_other_direction@.len() == nearby_cells@.len(),
                nearby_cells@.len() == 0 ==> forall|q: int| 0 <= q < t ==> #[trigger] blocked(s0, m, my_rows, my_columns, wrap, current_cell, cardinals()[q]),
            decreases 4 - t,
        {
            let a_direction = all_directions[t];
            proof { lemma_step_inverse(my_rows, my_columns, current_cell, a_direction, wrap); }
            if let Some(cell) = get_cell_in_direction(my_rows, my_columns, current_cell.row, current_cell.col, a_direction, wrap) {
                proof {
                    lemma_in_bounds(check_matrix@, my_rows, my_columns, cell);
                    lemma_in_bounds(bitmask@, my_rows, my_columns, cell);
                }
                if !check_matrix[cell.row][cell.col] && bitmask[cell.row][cell.col] {
                    nearby_cells.push((a_direction, cell));
                    if a_direction == current_direction {
                        continue_in_current_direction.push((a_direction, cell));
                    } else {
                        continue_in_other_direction.push((a_direction, cell));
                    }
                }
            }
            t = t + 1;
        }
        if nearby_cells.len() == 0 {
            cells.pop();
            proof {
                assert forall|d: Direction| d.is_cardinal() implies #[trigger] blocked(s0, m, my_rows, my_columns, wrap, current_cell, d) by {
                    match d {
                        Direction::North => assert(blocked(s0, m, my_rows, my_columns, wrap, current_cell, cardinals()[0])),
                        Direction::South => assert(blocked(s0, m, my_rows, my_columns, wrap, current_cell, cardinals()[1])),
                        Direction::East => assert(blocked(s0, m, my_rows, my_columns, wrap, current_cell, cardinals()[2])),
                        _ => assert(blocked(s0, m, my_rows, my_columns, wrap, current_cell, cardinals()[3])),
                    }
                }
                assert forall|p: Point, d: Direction|
                    on_grid(my_rows, my_columns, p) && #[trigger] at(s0, p) && d.is_cardinal()
                        implies cells@.contains(p) || #[trigger] blocked(s0, m, my_rows, my_columns, wrap, p, d) by {
                    assert(c0.contains(p) || blocked(s0, m, my_rows, my_columns, wrap, p, d));
                    if p != current_cell && c0.contains(p) {
                        let i = choose|i: int| 0 <= i < c0.len() && c0[i] == p;
                        assert(i < c0.len() - 1);
                        assert(cells@[i] == c0[i]);
                    }
                }
                assert forall|i: int| 0 <= i < cells@.len() implies on_grid(my_rows, my_columns, #[trigger] cells@[i]) && at(s0, cells@[i]) by {
                    assert(cells@[i] == c0[i]);
                }
            }
        } else {
            let next_cell_data;
            if nearby_cells.len() == 1 {
                next_cell_data = nearby_cells[0];
            } else if continue_in_current_direction.len() != 0 {
                // draws in hundred-millionths: 0.33 + 0.42 * straightness is 33000000 + 42 * ppm
                let prob = random_below(rng, 100000000);
                let limit: u64 = if straightness > PPM { PPM as u64 } else { straightness as u64 };
                if (prob as u64) < 33000000 + 42 * limit || continue_in_other_direction.len() == 0 {
                    next_cell_data = continue_in_current_direction[0];
                } else {
                    let pick = random_below(rng, continue_in_other_direction.len());
                    next_cell_data = continue_in_other_direction[pick];
                }
            } else {
                let pick = random_below(rng, continue_in_other_direction.len());
                next_cell_data = continue_in_other_direction[pick];
            }
            let next_cell = next_cell_data.1;
            current_direction = next_cell_data.0;
            proof {
                assert(fresh_move(s0, m, my_rows, my_columns, wrap, current_cell, next_cell_data));
                assert(c0[c0.len() - 1] == current_cell);
            }
            attach(my_rows, my_columns, wrap, bitmask, &mut path_matrix, &mut check_matrix, current_cell, current_direction, next_cell, Ghost(sp));
            cells.push(next_cell);
            proof {
                let s1 = grid(check_matrix@);
                assert(cells@[c0.len() as int] == next_cell);
                assert forall|p: Point, d: Direction|
                    on_grid(my_rows, my_columns, p) && #[trigger] at(s1, p) && d.is_cardinal()
                        implies cells@.contains(p) || #[trigger] blocked(s1, m, my_rows, my_columns, wrap, p, d) by {
                    if p != next_cell {
                        assert(at(s0, p));
                        assert(c0.contains(p) || blocked(s0, m, my_rows, my_columns, wrap, p, d));
                        lemma_step_inverse(my_rows, my_columns, p, d, wrap);
                        if c0.contains(p) {
                            let i = choose|i: int| 0 <= i < c0.len() && c0[i] == p;
                            assert(cells@[i] == c0[i]);
                        }
                    }
                }
                assert forall|i: int| 0 <= i < cells@.len() implies on_grid(my_rows, my_columns, #[trigger] cells@[i]) && at(s1, cells@[i]) by {
                    if i < c0.len() {
                        assert(cells@[i] == c0[i]);
                    }
                }
            }
        }
    }
    proof {
        assert forall|p: Point, d: Direction|
            #![trigger at(grid(check_matrix@), p), step_from(my_rows, my_columns, p, d, wrap)]
            on_grid(my_rows, my_columns, p) && at(grid(check_matrix@), p) && step_from(my_rows, my_columns, p, d, wrap) is Some
                && at(m, step_from(my_rows, my_columns, p, d, wrap)->Some_0)
                implies at(grid(check_matrix@), step_from(my_rows, my_columns, p, d, wrap)->Some_0) by {
            assert(d.is_cardinal());
            assert(!cells@.contains(p));
            assert(blocked(grid(check_matrix@), m, my_rows, my_columns, wrap, p, d));
        }
        lemma_forest_done(grid(path_matrix@), grid(check_matrix@), m, my_rows, my_columns, wrap, sp);
    }
    path_matrix
}


/// The most steps one loop-erased walk may take before it is abandoned.
pub const WALK_LIMIT: u64 = 1000000000000;

/// A uniformly chosen allowed square one move from `(row, col)`, with the
/// direction of that move; `None` where there is none.
pub fn get_random_neighbor(max_rows: usize, max_cols: usize, row: usize, col: usize, wrap: usize, bitmask: &Vec<Vec<bool>>, rng: &mut StdRng) -> (r: Option<(Point, Direction)>)
    requires
        shaped(grid(bitmask@), max_rows as int, max_cols as int),
        row < max_rows,
        col < max_cols,
    ensures
        r matches Some((q, d)) ==> step(max_rows, max_cols, row, col, d, wrap) == Some(q) && at(grid(bitmask@), q),
        r is None ==> forall|d: Direction| #![trigger step(max_rows, max_cols, row, col, d, wrap)]
            step(max_rows, max_cols, row, col, d, wrap) is Some ==> !at(grid(bitmask@), step(max_rows, max_cols, row, col, d, wrap)->Some_0),
{
    let ghost m = grid(bitmask@);
    let mut neighbors: Vec<(Point, Direction)> = Vec::new();
    let order = [Direction::East, Direction::West, Direction::North, Direction::South];
    let mut t: usize = 0;
    while t < 4
        invariant
            t <= 4,
            m == grid(bitmask@),
            shaped(m, max_rows as int, max_cols as int),
            row < max_rows,
            col < max_cols,
            order@ == seq![Direction::East, Direction::West, Direction::North, Direction::South],
            forall|i: int| 0 <= i < neighbors@.len() ==> step(max_rows, max_cols, row, col, (#[trigger] neighbors@[i]).1, wrap)
                == Some(neighbors@[i].0) && at(m, neighbors@[i].0),
            neighbors@.len() == 0 ==> forall|q: int| 0 <= q < t ==> #[trigger] step(max_rows, max_cols, row, col, order@[q], wrap) is Some
                ==> !at(m, step(max_rows, max_cols, row, col, order@[q], wrap)->Some_0),
        decreases 4 - t,
    {
        let d = order[t];
        proof { lemma_step_inverse(max_rows, max_cols, Point { row, col }, d, wrap); }
        if let Some(cell) = get_cell_in_direction(max_rows, max_cols, row, col, d, wrap) {
            proof { lemma_in_bounds(bitmask@, max_rows, max_cols, cell); }
            if bitmask[cell.row][cell.col] {
                neighbors.push((cell, d));
            }
        }
        t = t + 1;
    }
    if neighbors.len() == 0 {
        proof {
            assert forall|d: Direction| #![trigger step(max_rows, max_cols, row, col, d, wrap)]
                step(max_rows, max_cols, row, col, d, wrap) is Some implies !at(m, step(max_rows, max_cols, row, col, d, wrap)->Some_0) by {
                match d {
                    Direction::East => assert(order@[0] == d),
                    Direction::West => assert(order@[1] == d),
                    Direction::North => assert(order@[2] == d),
                    Direction::South => assert(order@[3] == d),
                    _ => {},
                }
            }
        }
        None
    } else {
        let choice = random_below(rng, neighbors.len());
        Some(neighbors[choice])
    }
}

/// The first position of `p` in `v`.
fn find_point(v: &Vec<Point>, p: Point) -> (r: Option<usize>)
    ensures
        r matches Some(i) ==> i < v.len() && v@[i as int] == p,
        r is None ==> !v@.contains(p),
{
    let mut i: usize = 0;
    while i < v.len()
        invariant
            i <= v@.len(),
            forall|k: int| 0 <= k < i ==> v@[k] != p,
        decreases v@.len() - i,
    {
        if v[i] == p {
            return Some(i);
        }
        i = i + 1;
    }
    None
}

/// Cuts `v` down to its first `n` entries.
fn truncate_to<T>(v: &mut Vec<T>, n: usize)
    requires
        n <= old(v)@.len(),
    ensures
        final(v)@ == old(v)@.subrange(0, n as int),
{
    while v.len() > n
        invariant
            n <= v@.len() <= old(v)@.len(),
            v@ == old(v)@.subrange(0, v@.len() as int),
        decreases v@.len(),
    {
        v.pop();
    }
    proof {
        assert(v@ =~= old(v)@.subrange(0, n as int));
    }
}

/// A loop-erased walk so far: moves from `trail[i]` by `dirs[i]` reach
/// `trail[i + 1]`; its squares are allowed and distinct, all unseen but
/// perhaps the last.
pub open spec fn walk(trail: Seq<Point>, dirs: Seq<Direction>, seen: Seq<Seq<bool>>, m: Seq<Seq<bool>>, rows: usize, cols: usize, wrap: usize) -> bool {
    &&& trail.len() >= 1
    &&& dirs.len() == trail.len() - 1
    &&& forall|i: int| 0 <= i < dirs.len() ==> step_from(rows, cols, #[trigger] trail[i], dirs[i], wrap) == Some(trail[i + 1])
    &&& forall|i: int| 0 <= i < trail.len() ==> on_grid(rows, cols, #[trigger] trail[i]) && at(m, trail[i])
    &&& forall|i: int| 0 <= i < trail.len() - 1 ==> !at(seen, #[trigger] trail[i])
    &&& forall|i: int, j: int| 0 <= i < j < trail.len() ==> #[trigger] trail[i] != #[trigger] trail[j]
}

/// Takes one more move of a loop-erased walk: where the move returns to a
/// square of the walk, the loop it closed is erased.
fn extend_walk(rows: usize, cols: usize, wrap: usize, trail: &mut Vec<Point>, trail_directions: &mut Vec<Direction>, next_square: Point, current_direction: Direction, Ghost(s0): Ghost<Seq<Seq<bool>>>, Ghost(m): Ghost<Seq<Seq<bool>>>)
    requires
        walk(old(trail)@, old(trail_directions)@, s0, m, rows, cols, wrap),
        !at(s0, old(trail)@.last()),
        step_from(rows, cols, old(trail)@.last(), current_direction, wrap) == Some(next_square),
        at(m, next_square),
    ensures
        walk(final(trail)@, final(trail_directions)@, s0, m, rows, cols, wrap),
        final(trail)@.last() == next_square,
        final(trail)@[0] == old(trail)@[0],
{
    let ghost t0 = trail@;
    let ghost d0 = trail_directions@;
    proof { lemma_step_inverse(rows, cols, t0.last(), current_direction, wrap); }
    match find_point(trail, next_square) {
        Some(index) => {
            truncate_to(trail, index + 1);
            truncate_to(trail_directions, index);
            proof {
                assert forall|i: int, j: int| 0 <= i < j < trail@.len() implies #[trigger] trail@[i] != #[trigger] trail@[j] by {
                    assert(t0[i] != t0[j]);
                }
                assert forall|i: int| 0 <= i < trail_directions@.len() implies step_from(rows, cols, #[trigger] trail@[i], trail_directions@[i], wrap) == Some(trail@[i + 1]) by {
                    assert(step_from(rows, cols, t0[i], d0[i], wrap) == Some(t0[i + 1]));
                }
                assert forall|i: int| 0 <= i < trail@.len() - 1 implies !at(s0, #[trigger] trail@[i]) by {
                    assert(!at(s0, t0[i]));
                }
                assert forall|i: int| 0 <= i < trail@.len() implies on_grid(rows, cols, #[trigger] trail@[i]) && at(m, trail@[i]) by {
                    assert(on_grid(rows, cols, t0[i]));
                }
            }
        },
        None => {
            trail.push(next_square);
            trail_directions.push(current_direction);
            proof {
                let n = t0.len() as int;
                assert(trail@[n] == next_square);
                assert(!at(s0, t0[n - 1]));
                assert forall|i: int, j: int| 0 <= i < j < trail@.len() implies #[trigger] trail@[i] != #[trigger] trail@[j] by {
                    if j < n {
                        assert(t0[i] != t0[j]);
                    } else {
                        assert(trail@[i] == t0[i]);
                    }
                }
                assert forall|i: int| 0 <= i < trail_directions@.len() implies step_from(rows, cols, #[trigger] trail@[i], trail_directions@[i], wrap) == Some(trail@[i + 1]) by {
                    if i < n - 1 {
                        assert(step_from(rows, cols, t0[i], d0[i], wrap) == Some(t0[i + 1]));
                    }
                }
                assert forall|i: int| 0 <= i < trail@.len() - 1 implies !at(s0, #[trigger] trail@[i]) by {
                    assert(trail@[i] == t0[i]);
                }
                assert forall|i: int| 0 <= i < trail@.len() implies on_grid(rows, cols, #[trigger] trail@[i]) && at(m, trail@[i]) by {
                    if i < n {
                        assert(trail@[i] == t0[i]);
                    }
                }
            }
        },
    }
}

/// Joins the squares of a finished walk to the forest, from its seen end back to its start.
fn carve_walk(rows: usize, cols: usize, wrap: usize, bitmask: &Vec<Vec<bool>>, g: &mut Vec<Vec<Compass>>, seen: &mut Vec<Vec<bool>>, trail: &Vec<Point>, dirs: &Vec<Direction>, Ghost(roots): Ghost<Seq<Point>>)
    requires
        forest(grid(old(g)@), grid(old(seen)@), grid(bitmask@), rows, cols, wrap, roots),
        walk(trail@, dirs@, grid(old(seen)@), grid(bitmask@), rows, cols, wrap),
        at(grid(old(seen)@), trail@.last()),
    ensures
        forest(grid(final(g)@), grid(final(seen)@), grid(bitmask@), rows, cols, wrap, roots),
        grid_sum(grid(final(seen)@), unset_count()) <= grid_sum(grid(old(seen)@), unset_count()),
        forall|p: Point| on_grid(rows, cols, p) && #[trigger] at(grid(old(seen)@), p) ==> at(grid(final(seen)@), p),
        at(grid(final(seen)@), trail@[0]),
{
    let ghost s_start = grid(seen@);
    let mut k: usize = trail.len() - 1;
    while k > 0
        invariant
            k < trail@.len(),
            forest(grid(g@), grid(seen@), grid(bitmask@), rows, cols, wrap, roots),
            walk(trail@, dirs@, s_start, grid(bitmask@), rows, cols, wrap),
            at(grid(seen@), trail@[k as int]),
            forall|i: int| 0 <= i < k ==> !at(grid(seen@), #[trigger] trail@[i]),
            grid_sum(grid(seen@), unset_count()) <= grid_sum(s_start, unset_count()),
            forall|p: Point| on_grid(rows, cols, p) && #[trigger] at(s_start, p) ==> at(grid(seen@), p),
        decreases k,
    {
        let u = trail[k];
        let v = trail[k - 1];
        let d = dirs[k - 1].reverse();
        let ghost s0 = grid(seen@);
        proof {
            assert(step_from(rows, cols, trail@[k - 1], dirs@[k - 1], wrap) == Some(trail@[k - 1 + 1]));
            assert(on_grid(rows, cols, trail@[k - 1]) && at(grid(bitmask@), trail@[k - 1]));
            lemma_step_inverse(rows, cols, v, dirs@[k - 1], wrap);
            assert(on_grid(rows, cols, trail@[k as int]));
        }
        attach(rows, cols, wrap, bitmask, g, seen, u, d, v, Ghost(roots));
        proof {
            assert forall|i: int| 0 <= i < k - 1 implies !at(grid(seen@), #[trigger] trail@[i]) by {
                assert(trail@[i] != trail@[k - 1]);
                assert(!at(s0, trail@[i]));
                assert(on_grid(rows, cols, trail@[i]));
            }
        }
        k = k - 1;
    }
}

/// Opens a passage from the seen square `u` toward `d` if it leads to an
/// allowed square not seen yet; says whether it did.
fn join_side(rows: usize, cols: usize, wrap: usize, bitmask: &Vec<Vec<bool>>, g: &mut Vec<Vec<Compass>>, seen: &mut Vec<Vec<bool>>, u: Point, d: Direction, Ghost(roots): Ghost<Seq<Point>>) -> (joined: bool)
    requires
        forest(grid(old(g)@), grid(old(seen)@), grid(bitmask@), rows, cols, wrap, roots),
        on_grid(rows, cols, u),
        at(grid(old(seen)@), u),
    ensures
        forest(grid(final(g)@), grid(final(seen)@), grid(bitmask@), rows, cols, wrap, roots),
        joined ==> grid_sum(grid(final(seen)@), unset_count()) < grid_sum(grid(old(seen)@), unset_count()),
        !joined ==> final(seen)@ == old(seen)@ && blocked(grid(old(seen)@), grid(bitmask@), rows, cols, wrap, u, d),
        forall|p: Point| on_grid(rows, cols, p) && #[trigger] at(grid(old(seen)@), p) ==> at(grid(final(seen)@), p),
{
    proof { lemma_step_inverse(rows, cols, u, d, wrap); }
    match get_cell_in_direction(rows, cols, u.row, u.col, d, wrap) {
        Some(v) => {
            proof {
                lemma_in_bounds(seen@, rows, cols, v);
                lemma_in_bounds(bitmask@, rows, cols, v);
            }
            if bitmask[v.row][v.col] && !seen[v.row][v.col] {
                attach(rows, cols, wrap, bitmask, g, seen, u, d, v, Ghost(roots));
                true
            } else {
                false
            }
        },
        None => false,
    }
}

/// Joins allowed squares next to the forest until no allowed square next to
/// a seen one is left unseen.
fn complete_forest(rows: usize, cols: usize, wrap: usize, bitmask: &Vec<Vec<bool>>, g: &mut Vec<Vec<Compass>>, seen: &mut Vec<Vec<bool>>, Ghost(roots): Ghost<Seq<Point>>)
    requires
        forest(grid(old(g)@), grid(old(seen)@), grid(bitmask@), rows, cols, wrap, roots),
    ensures
        forest(grid(final(g)@), grid(final(seen)@), grid(bitmask@), rows, cols, wrap, roots),
        seen_closed(grid(final(seen)@), grid(bitmask@), rows, cols, wrap),
{
    let ghost m = grid(bitmask@);
    let mut changed = true;
    while changed
        invariant
            m == grid(bitmask@),
            forest(grid(g@), grid(seen@), m, rows, cols, wrap, roots),
            !changed ==> seen_closed(grid(seen@), m, rows, cols, wrap),
        decreases grid_sum(grid(seen@), unset_count()) + (if changed { 1nat } else { 0nat }),
    {
        changed = false;
        let ghost u0 = grid_sum(grid(seen@), unset_count());
        let ghost s_pass = grid(seen@);
        let mut i: usize = 0;
        while i < rows
            invariant
                i <= rows,
                m == grid(bitmask@),
                forest(grid(g@), grid(seen@), m, rows, cols, wrap, roots),
                changed ==> grid_sum(grid(seen@), unset_count()) < u0,
                !changed ==> grid(seen@) == s_pass && grid_sum(grid(seen@), unset_count()) == u0,
                !changed ==> forall|p: Point, d: Direction| on_grid(rows, cols, p) && p.row < i && #[trigger] at(s_pass, p)
                    && d.is_cardinal() ==> #[trigger] blocked(s_pass, m, rows, cols, wrap, p, d),
            decreases rows - i,
        {
            let mut j: usize = 0;
            while j < cols
                invariant
                    i < rows,
                    j <= cols,
                    m == grid(bitmask@),
                    forest(grid(g@), grid(seen@), m, rows, cols, wrap, roots),
                    changed ==> grid_sum(grid(seen@), unset_count()) < u0,
                    !changed ==> grid(seen@) == s_pass && grid_sum(grid(seen@), unset_count()) == u0,
                    !changed ==> forall|p: Point, d: Direction| on_grid(rows, cols, p) && before(p, Point { row: i, col: j })
                        && #[trigger] at(s_pass, p) && d.is_cardinal() ==> #[trigger] blocked(s_pass, m, rows, cols, wrap, p, d),
                decreases cols - j,
            {
                let p = Point::init(i, j);
                assert(on_grid(rows, cols, p));
                proof { lemma_in_bounds(seen@, rows, cols, p); }
                let ghost ch0 = changed;
                if seen[i][j] {
                    let a = join_side(rows, cols, wrap, bitmask, g, seen, p, Direction::North, Ghost(roots));
                    let b = join_side(rows, cols, wrap, bitmask, g, seen, p, Direction::South, Ghost(roots));
                    let c = join_side(rows, cols, wrap, bitmask, g, seen, p, Direction::East, Ghost(roots));
                    let e = join_side(rows, cols, wrap, bitmask, g, seen, p, Direction::West, Ghost(roots));
                    if a || b || c || e {
                        changed = true;
                    }
                    proof {
                        if !changed {
                            assert forall|d: Direction| d.is_cardinal() implies #[trigger] blocked(s_pass, m, rows, cols, wrap, p, d) by {}
                        }
                    }
                }
                proof {
                    if !changed {
                        assert forall|x: Point, d: Direction| on_grid(rows, cols, x) && before(x, Point { row: i, col: (j + 1) as usize })
                            && #[trigger] at(s_pass, x) && d.is_cardinal() implies #[trigger] blocked(s_pass, m, rows, cols, wrap, x, d) by {
                            if x != p {
                                assert(before(x, Point { row: i, col: j }));
                            }
                        }
                    }
                }
                j = j + 1;
            }
            proof {
                if !changed {
                    assert forall|x: Point, d: Direction| on_grid(rows, cols, x) && x.row < i + 1
                        && #[trigger] at(s_pass, x) && d.is_cardinal() implies #[trigger] blocked(s_pass, m, rows, cols, wrap, x, d) by {
                        assert(before(x, Point { row: i, col: cols }));
                    }
                }
            }
            i = i + 1;
        }
        proof {
            if !changed {
                assert forall|p: Point, d: Direction|
                    #![trigger at(grid(seen@), p), step_from(rows, cols, p, d, wrap)]
                    on_grid(rows, cols, p) && at(grid(seen@), p) && step_from(rows, cols, p, d, wrap) is Some
                        && at(m, step_from(rows, cols, p, d, wrap)->Some_0) implies at(grid(seen@), step_from(rows, cols, p, d, wrap)->Some_0) by {
                    assert(d.is_cardinal());
                    assert(blocked(s_pass, m, rows, cols, wrap, p, d));
                }
            }
        }
    }
}

/// Wilson's algorithm: from each allowed square not yet in the forest, a
/// loop-erased random walk runs until it meets the forest, and its path joins
/// the forest. A walk that exceeds `WALK_LIMIT` steps, or stands on a square
/// with no allowed neighbour, is dropped; squares it missed are joined at the
/// end next to the forest.
pub fn wilsons_algorithm(my_rows: usize, my_columns: usize, wrap: usize, bitmask: &Vec<Vec<bool>>, starting_points: Vec<Point>, rng: &mut StdRng) -> (r: Vec<Vec<Compass>>)
    requires
        shaped(grid(bitmask@), my_rows as int, my_columns as int),
        anchor_cover(starting_points@, grid(bitmask@), my_rows, my_columns, wrap),
    ensures
        spanning_forest(grid(r@), grid(bitmask@), my_rows, my_columns, wrap, starting_points@),
{
    let ghost m = grid(bitmask@);
    let ghost sp = starting_points@;
    let (mut path_matrix, mut check_matrix) = empty_forest(my_rows, my_columns, wrap, bitmask);
    let mut k: usize = 0;
    proof {
        assert(sp.subrange(0, 0) =~= Seq::<Point>::empty());
    }
    while k < starting_points.len()
        invariant
            k <= sp.len(),
            sp == starting_points@,
            m == grid(bitmask@),
            anchor_cover(sp, m, my_rows, my_columns, wrap),
            forest(grid(path_matrix@), grid(check_matrix@), m, my_rows, my_columns, wrap, sp.subrange(0, k as int)),
            forall|p: Point| on_grid(my_rows, my_columns, p) && #[trigger] at(grid(check_matrix@), p)
                ==> exists|j: int| 0 <= j < k && sp[j] == p,
        decreases sp.len() - k,
    {
        let start = starting_points[k];
        proof {
            lemma_anchor_valid(sp, m, my_rows, my_columns, wrap, k as int);
            if at(grid(check_matrix@), start) {
                let j = choose|j: int| 0 <= j < k && sp[j] == start;
                lemma_anchors_distinct(sp, m, my_rows, my_columns, wrap, j, k as int);
            }
        }
        add_root(my_rows, my_columns, wrap, bitmask, &path_matrix, &mut check_matrix, start, Ghost(sp.subrange(0, k as int)));
        proof {
            assert(sp.subrange(0, k as int).push(start) =~= sp.subrange(0, k as int + 1));
            assert forall|p: Point| on_grid(my_rows, my_columns, p) && #[trigger] at(grid(check_matrix@), p)
                implies exists|j: int| 0 <= j < k + 1 && sp[j] == p by {
                if p == start {
                    assert(sp[k as int] == p);
                } else {
                    let j = choose|j: int| 0 <= j < k && sp[j] == p;
                }
            }
        }
        k = k + 1;
    }
    proof {
        assert(sp.subrange(0, sp.len() as int) =~= sp);
    }
    let mut row: usize = 0;
    while row < my_rows
        invariant
            m == grid(bitmask@),
            forest(grid(path_matrix@), grid(check_matrix@), m, my_rows, my_columns, wrap, sp),
        decreases my_rows - row,
    {
        let mut col: usize = 0;
        while col < my_columns
            invariant
                row < my_rows,
                m == grid(bitmask@),
                forest(grid(path_matrix@), grid(check_matrix@), m, my_rows, my_columns, wrap, sp),
            decreases my_columns - col,
        {
            let start = Point::init(row, col);
            proof {
                lemma_in_bounds(check_matrix@, my_rows, my_columns, start);
                lemma_in_bounds(bitmask@, my_rows, my_columns, start);
            }
            if !check_matrix[row][col] && bitmask[row][col] {
                let ghost s0 = grid(check_matrix@);
                let mut trail: Vec<Point> = Vec::new();
                let mut trail_directions: Vec<Direction> = Vec::new();
                let mut current_square = start;
                trail.push(current_square);
                let mut steps: u64 = 0;
                let mut stuck = false;
                let mut in_tree = false;
                proof {
                    assert(walk(trail@, trail_directions@, s0, m, my_rows, my_columns, wrap));
                }
                while !in_tree && !stuck
                    invariant
                        in_tree == at(s0, current_square),
                        s0 == grid(check_matrix@),
                        m == grid(bitmask@),
                        shaped(s0, my_rows as int, my_columns as int),
                        shaped(m, my_rows as int, my_columns as int),
                        walk(trail@, trail_directions@, s0, m, my_rows, my_columns, wrap),
                        trail@.last() == current_square,
                        trail@[0] == start,
                        on_grid(my_rows, my_columns, current_square),
                        steps <= WALK_LIMIT,
                    decreases WALK_LIMIT - steps, (if stuck { 0nat } else { 1nat }),
                {
                    if steps == WALK_LIMIT {
                        stuck = true;
                    } else {
                        steps = steps + 1;
                        let neighbor_data = get_random_neighbor(my_rows, my_columns, current_square.row, current_square.col, wrap, bitmask, rng);
                        match neighbor_data {
                            None => {
                                stuck = true;
                            },
                            Some((next_square, current_direction)) => {
                                extend_walk(my_rows, my_columns, wrap, &mut trail, &mut trail_directions, next_square, current_direction, Ghost(s0), Ghost(m));
                                current_square = next_square;
                            },
                        }
                    }
                    proof { lemma_in_bounds(check_matrix@, my_rows, my_columns, current_square); }
                    in_tree = check_matrix[current_square.row][current_square.col];
                }
                if in_tree {
                    carve_walk(my_rows, my_columns, wrap, bitmask, &mut path_matrix, &mut check_matrix, &trail, &trail_directions, Ghost(sp));
                }
            }
            col = col + 1;
        }
        row = row + 1;
    }
    complete_forest(my_rows, my_columns, wrap, bitmask, &mut path_matrix, &mut check_matrix, Ghost(sp));
    proof {
        lemma_forest_done(grid(path_matrix@), grid(check_matrix@), m, my_rows, my_columns, wrap, sp);
    }
    path_matrix
}


/// `g` is a maze carved over the allowed squares of `m`: one tree of open
/// passages per region of allowed squares, and nothing elsewhere.
pub open spec fn carved_over(g: Seq<Seq<Compass>>, m: Seq<Seq<bool>>, rows: usize, cols: usize, wrap: usize) -> bool {
    exists|a: Seq<Point>| #[trigger] anchor_cover(a, m, rows, cols, wrap) && spanning_forest(g, m, rows, cols, wrap, a)
}

/// The mask of `rows` by `cols` squares, all allowed.
pub open spec fn full_mask(rows: usize, cols: usize) -> Seq<Seq<bool>> {
    Seq::new(rows as nat, |i: int| Seq::new(cols as nat, |j: int| true))
}

/// Whether `bitmask` has `rows` rows of `cols` entries each.
fn mask_fits(rows: usize, cols: usize, bitmask: &Vec<Vec<bool>>) -> (r: bool)
    ensures
        r == shaped(grid(bitmask@), rows as int, cols as int),
{
    proof { lemma_grid_rows(bitmask@); }
    if rows != bitmask.len() {
        return false;
    }
    let mut i: usize = 0;
    while i < rows
        invariant
            i <= rows,
            rows == bitmask@.len(),
            forall|k: int| 0 <= k < i ==> #[trigger] bitmask@[k]@.len() == cols,
        decreases rows - i,
    {
        if cols != bitmask[i].len() {
            proof { assert(grid(bitmask@)[i as int].len() != cols); }
            return false;
        }
        i = i + 1;
    }
    proof {
        assert forall|k: int| 0 <= k < rows implies #[trigger] grid(bitmask@)[k].len() == cols by {
            assert(bitmask@[k]@.len() == cols);
        }
    }
    true
}

impl Maze {
    /// A maze over the squares that `bitmask` allows (true for allowed),
    /// carved by `method`. Fails where a dimension is zero or the mask has
    /// another shape.
    pub fn init_rect_with_bitmask(my_rows: usize, my_columns: usize, wrap: usize, bitmask: &Vec<Vec<bool>>, method: GenerationType, rng: &mut StdRng) -> (r: Result<Maze, MazeError>)
        ensures
            r is Err <==> (my_rows == 0 || my_columns == 0 || !shaped(grid(bitmask@), my_rows as int, my_columns as int)),
            r matches Ok(mz) ==> mz.rows == my_rows && mz.columns == my_columns && mz.wf()
                && carved_over(mz.cells(), grid(bitmask@), my_rows, my_columns, wrap),
    {
        if (my_rows == 0) || (my_columns == 0) {
            return Err(MazeError::Syntax("A maze requires non-zero dimensions.".to_string()));
        }
        if !mask_fits(my_rows, my_columns, bitmask) {
            return Err(MazeError::Syntax("Given matrix does not match given dimensions.".to_string()));
        }
        let my_starting_points = get_starting_points(my_rows, my_columns, wrap, bitmask);
        let ghost a = my_starting_points@;
        proof { lemma_anchors_cover(a, grid(bitmask@), my_rows, my_columns, wrap); }
        let matrix = match method {
            GenerationType::Prim => prims_algorithm(my_rows, my_columns, wrap, bitmask, my_starting_points, rng),
            GenerationType::Wilson => wilsons_algorithm(my_rows, my_columns, wrap, bitmask, my_starting_points, rng),
            GenerationType::Backtrack(straightness) => bias_recursive_backtrack_algorithm(my_rows, my_columns, wrap, straightness, bitmask, my_starting_points, rng),
        };
        let mz = Maze { rows: my_rows, columns: my_columns, maze_matrix: matrix };
        proof {
            assert(anchor_cover(a, grid(bitmask@), my_rows, my_columns, wrap) && spanning_forest(mz.cells(), grid(bitmask@), my_rows, my_columns, wrap, a));
        }
        Ok(mz)
    }

    /// A maze over every square of a `my_rows` by `my_columns` grid, carved
    /// by `method`. Fails where a dimension is zero.
    pub fn init_rect(my_rows: usize, my_columns: usize, wrap: usize, method: GenerationType, rng: &mut StdRng) -> (r: Result<Maze, MazeError>)
        ensures
            r is Err <==> (my_rows == 0 || my_columns == 0),
            r matches Ok(mz) ==> mz.rows == my_rows && mz.columns == my_columns && mz.wf()
                && carved_over(mz.cells(), full_mask(my_rows, my_columns), my_rows, my_columns, wrap)
                && total_exits(mz.cells()) == 2 * (my_rows * my_columns - 1)
                && forall|p: Point, q: Point| on_grid(my_rows, my_columns, p) && on_grid(my_rows, my_columns, q)
                    ==> #[trigger] linked(p, q, open_link(mz.cells(), my_rows, my_columns, wrap)),
    {
        if (my_rows == 0) || (my_columns == 0) {
            return Err(MazeError::Syntax("A maze requires non-zero dimensions.".to_string()));
        }
        let bitmask = filled(my_rows, my_columns, true);
        proof {
            assert(grid(bitmask@) =~= full_mask(my_rows, my_columns)) by {
                assert forall|i: int| 0 <= i < my_rows implies #[trigger] grid(bitmask@)[i] =~= full_mask(my_rows, my_columns)[i] by {
                    assert(grid(bitmask@)[i].len() == my_columns);
                    assert forall|j: int| 0 <= j < my_columns implies grid(bitmask@)[i][j] == full_mask(my_rows, my_columns)[i][j] by {}
                }
            }
        }
        let r = Maze::init_rect_with_bitmask(my_rows, my_columns, wrap, &bitmask, method, rng);
        proof {
            if r is Ok {
                lemma_full_grid_tree(r->Ok_0.cells(), my_rows, my_columns, wrap);
            }
        }
        r
    }
}


/// Open passages of a carved maze join allowed squares one move apart.
proof fn lemma_open_in_mask(g: Seq<Seq<Compass>>, m: Seq<Seq<bool>>, rows: usize, cols: usize, wrap: usize, a: Seq<Point>)
    requires
        spanning_forest(g, m, rows, cols, wrap, a),
    ensures
        forall|x: Point, y: Point| #[trigger] open_link(g, rows, cols, wrap)(x, y) ==> mask_link(m, rows, cols, wrap)(x, y),
        forall|x: Point, y: Point| #[trigger] open_link(g, rows, cols, wrap)(x, y) ==> open_link(g, rows, cols, wrap)(y, x),
{
    assert forall|x: Point, y: Point| #[trigger] open_link(g, rows, cols, wrap)(x, y)
        implies mask_link(m, rows, cols, wrap)(x, y) && open_link(g, rows, cols, wrap)(y, x) by {
        let d = if at(g, x).has(Direction::North) && step_from(rows, cols, x, Direction::North, wrap) == Some(y) {
            Direction::North
        } else if at(g, x).has(Direction::South) && step_from(rows, cols, x, Direction::South, wrap) == Some(y) {
            Direction::South
        } else if at(g, x).has(Direction::East) && step_from(rows, cols, x, Direction::East, wrap) == Some(y) {
            Direction::East
        } else {
            Direction::West
        };
        lemma_step_inverse(rows, cols, x, d, wrap);
        assert(at(g, x).has(d) && step_from(rows, cols, x, d, wrap) == Some(y));
        assert(at(m, x)) by {
            if !at(m, x) {
                assert(at(g, x) == Compass::closed());
            }
        }
        assert(at(g, y).has(d.rev()));
        lemma_step_inverse(rows, cols, y, d.rev(), wrap);
    }
}

/// The anchors of a carved maze, with what the region laws need of them.
proof fn lemma_carved_anchors(g: Seq<Seq<Compass>>, m: Seq<Seq<bool>>, rows: usize, cols: usize, wrap: usize) -> (a: Seq<Point>)
    requires
        carved_over(g, m, rows, cols, wrap),
    ensures
        forall|x: Point, y: Point| #[trigger] open_link(g, rows, cols, wrap)(x, y) ==> mask_link(m, rows, cols, wrap)(x, y),
        forall|x: Point, y: Point| #[trigger] open_link(g, rows, cols, wrap)(x, y) ==> open_link(g, rows, cols, wrap)(y, x),
        forall|x: Point, y: Point| #[trigger] mask_link(m, rows, cols, wrap)(x, y) ==> mask_link(m, rows, cols, wrap)(y, x),
        forall|p: Point| on_grid(rows, cols, p) && #[trigger] at(m, p)
            ==> exists|k: int| 0 <= k < a.len() && #[trigger] linked(a[k], p, open_link(g, rows, cols, wrap)),
        forall|k1: int, k2: int| 0 <= k1 < a.len() && 0 <= k2 < a.len() && k1 != k2
            ==> !#[trigger] linked(a[k1], a[k2], mask_link(m, rows, cols, wrap)),
        forall|k: int| 0 <= k < a.len() ==> on_grid(rows, cols, #[trigger] a[k]) && at(m, a[k]),
        total_exits(g) + 2 * a.len() == 2 * allowed_count(m),
{
    let a = choose|a: Seq<Point>| #[trigger] anchor_cover(a, m, rows, cols, wrap) && spanning_forest(g, m, rows, cols, wrap, a);
    lemma_open_in_mask(g, m, rows, cols, wrap, a);
    lemma_mask_link_sym(m, rows, cols, wrap);
    lemma_anchors_apart(a, m, rows, cols, wrap);
    assert forall|k: int| 0 <= k < a.len() implies on_grid(rows, cols, #[trigger] a[k]) && at(m, a[k]) by {
        lemma_anchor_valid(a, m, rows, cols, wrap, k);
    }
    a
}

/// The end of a chain of allowed squares is an allowed square of the grid.
proof fn lemma_chain_end(path: Seq<Point>, m: Seq<Seq<bool>>, rows: usize, cols: usize, wrap: usize, q: Point)
    requires
        chain(path, mask_link(m, rows, cols, wrap)),
        path.len() > 1,
        path.last() == q,
    ensures
        on_grid(rows, cols, q),
        at(m, q),
{
    assert(mask_link(m, rows, cols, wrap)(path[path.len() - 2], path[path.len() - 2 + 1]));
}

/// In a maze carved over a mask, any two allowed squares of one region of
/// the mask are joined through open passages.
#[verifier::rlimit(40)]
pub proof fn lemma_regions_connected(g: Seq<Seq<Compass>>, m: Seq<Seq<bool>>, rows: usize, cols: usize, wrap: usize, p: Point, q: Point)
    requires
        carved_over(g, m, rows, cols, wrap),
        linked(p, q, mask_link(m, rows, cols, wrap)),
        on_grid(rows, cols, p),
        at(m, p),
    ensures
        linked(p, q, open_link(g, rows, cols, wrap)),
{
    let a = lemma_carved_anchors(g, m, rows, cols, wrap);
    let ml = mask_link(m, rows, cols, wrap);
    let ol = open_link(g, rows, cols, wrap);
    let path = choose|path: Seq<Point>| #[trigger] chain(path, ml) && path[0] == p && path.last() == q;
    if path.len() > 1 {
        lemma_chain_end(path, m, rows, cols, wrap, q);
    }
    let k1 = choose|k: int| 0 <= k < a.len() && #[trigger] linked(a[k], p, ol);
    let k2 = choose|k: int| 0 <= k < a.len() && #[trigger] linked(a[k], q, ol);
    lemma_linked_mono(a[k1], p, ol, ml);
    lemma_linked_mono(a[k2], q, ol, ml);
    lemma_linked_trans(a[k1], p, q, ml);
    lemma_linked_sym(a[k2], q, ml);
    lemma_linked_trans(a[k1], q, a[k2], ml);
    assert(k1 == k2);
    lemma_linked_sym(a[k1], p, ol);
    lemma_linked_trans(p, a[k1], q, ol);
}

/// In a maze carved over a mask, an allowed square has an open passage
/// whenever its region holds another allowed square.
pub proof fn lemma_regions_covered(g: Seq<Seq<Compass>>, m: Seq<Seq<bool>>, rows: usize, cols: usize, wrap: usize, p: Point, q: Point)
    requires
        carved_over(g, m, rows, cols, wrap),
        linked(p, q, mask_link(m, rows, cols, wrap)),
        on_grid(rows, cols, p),
        at(m, p),
        p != q,
    ensures
        at(g, p).exits() > 0,
{
    lemma_regions_connected(g, m, rows, cols, wrap, p, q);
    let ol = open_link(g, rows, cols, wrap);
    let path = choose|path: Seq<Point>| #[trigger] chain(path, ol) && path[0] == p && path.last() == q;
    assert(path.len() > 1);
    assert(ol(path[0], path[0int + 1]));
}


/// Every square of a full mask is joined to `(0, 0)` by moves, north first, then east.
proof fn lemma_full_linked(rows: usize, cols: usize, wrap: usize, i: usize, j: usize)
    requires
        i < rows,
        j < cols,
    ensures
        linked(Point { row: 0, col: 0 }, Point { row: i, col: j }, mask_link(full_mask(rows, cols), rows, cols, wrap)),
    decreases i, j,
{
    let ml = mask_link(full_mask(rows, cols), rows, cols, wrap);
    let m = full_mask(rows, cols);
    if j > 0 {
        lemma_full_linked(rows, cols, wrap, i, (j - 1) as usize);
        let a = Point { row: i, col: (j - 1) as usize };
        let b = Point { row: i, col: j };
        assert(step_from(rows, cols, a, Direction::East, wrap) == Some(b));
        assert(at(m, a) && at(m, b));
        assert(ml(a, b));
        lemma_linked_push(Point { row: 0, col: 0 }, a, b, ml);
    } else if i > 0 {
        lemma_full_linked(rows, cols, wrap, (i - 1) as usize, 0);
        let a = Point { row: (i - 1) as usize, col: 0 };
        let b = Point { row: i, col: 0 };
        assert(step_from(rows, cols, a, Direction::North, wrap) == Some(b));
        assert(at(m, a) && at(m, b));
        assert(ml(a, b));
        lemma_linked_push(Point { row: 0, col: 0 }, a, b, ml);
    } else {
        lemma_linked_refl(Point { row: 0, col: 0 }, ml);
    }
}

proof fn lemma_full_count(rows: usize, cols: usize, n: int)
    requires
        0 <= n <= rows,
    ensures
        grid_sum(full_mask(rows, cols).subrange(0, n), set_count()) == n * cols,
    decreases n,
{
    if n > 0 {
        lemma_full_count(rows, cols, n - 1);
        let g = full_mask(rows, cols).subrange(0, n);
        assert(g.drop_last() =~= full_mask(rows, cols).subrange(0, n - 1));
        lemma_full_row(cols, cols as int);
        let full_row = Seq::new(cols as nat, |j: int| true).subrange(0, cols as int);
        assert(g.last() =~= full_row);
        assert(grid_sum(g, set_count()) == grid_sum(g.drop_last(), set_count()) + crate::grid::row_sum(g.last(), set_count()));
        assert(crate::grid::row_sum(g.last(), set_count()) == cols);
        assert((n - 1) * cols + cols == n * cols) by (nonlinear_arith);
    } else {
        assert(full_mask(rows, cols).subrange(0, n).len() == 0);
        assert(n * cols == 0);
    }
}

proof fn lemma_full_row(cols: usize, n: int)
    requires
        0 <= n <= cols,
    ensures
        crate::grid::row_sum(Seq::new(cols as nat, |j: int| true).subrange(0, n), set_count()) == n,
    decreases n,
{
    if n > 0 {
        lemma_full_row(cols, n - 1);
        let r = Seq::new(cols as nat, |j: int| true).subrange(0, n);
        assert(r.drop_last() =~= Seq::new(cols as nat, |j: int| true).subrange(0, n - 1));
    }
}

/// A maze carved over a full grid is one tree: `rows * cols - 1` passages
/// (each counted from both ends) joining every two squares.
pub proof fn lemma_full_grid_tree(g: Seq<Seq<Compass>>, rows: usize, cols: usize, wrap: usize)
    requires
        carved_over(g, full_mask(rows, cols), rows, cols, wrap),
        rows > 0,
        cols > 0,
    ensures
        total_exits(g) == 2 * (rows * cols - 1),
        forall|p: Point, q: Point| on_grid(rows, cols, p) && on_grid(rows, cols, q)
            ==> #[trigger] linked(p, q, open_link(g, rows, cols, wrap)),
{
    let m = full_mask(rows, cols);
    let ml = mask_link(m, rows, cols, wrap);
    let o = Point { row: 0, col: 0 };
    lemma_full_mask_linked(rows, cols, wrap);
    assert forall|p: Point, q: Point| on_grid(rows, cols, p) && on_grid(rows, cols, q)
        implies #[trigger] linked(p, q, open_link(g, rows, cols, wrap)) by {
        assert(linked(p, q, ml));
        assert(at(m, p));
        lemma_regions_connected(g, m, rows, cols, wrap, p, q);
    }
    lemma_full_one_anchor(g, rows, cols, wrap);
}

/// Any two squares of a full grid are joined by moves.
proof fn lemma_full_mask_linked(rows: usize, cols: usize, wrap: usize)
    ensures
        forall|p: Point, q: Point| on_grid(rows, cols, p) && on_grid(rows, cols, q)
            ==> #[trigger] linked(p, q, mask_link(full_mask(rows, cols), rows, cols, wrap)),
{
    let m = full_mask(rows, cols);
    let ml = mask_link(m, rows, cols, wrap);
    let o = Point { row: 0, col: 0 };
    lemma_mask_link_sym(m, rows, cols, wrap);
    assert forall|p: Point, q: Point| on_grid(rows, cols, p) && on_grid(rows, cols, q) implies #[trigger] linked(p, q, ml) by {
        lemma_full_linked(rows, cols, wrap, p.row, p.col);
        lemma_full_linked(rows, cols, wrap, q.row, q.col);
        lemma_linked_sym(o, p, ml);
        lemma_linked_trans(p, o, q, ml);
    }
}

/// A maze carved over a full grid has a single anchor, so `rows * cols - 1` passages.
proof fn lemma_full_one_anchor(g: Seq<Seq<Compass>>, rows: usize, cols: usize, wrap: usize)
    requires
        carved_over(g, full_mask(rows, cols), rows, cols, wrap),
        rows > 0,
        cols > 0,
    ensures
        total_exits(g) == 2 * (rows * cols - 1),
{
    let m = full_mask(rows, cols);
    let ml = mask_link(m, rows, cols, wrap);
    let o = Point { row: 0, col: 0 };
    lemma_full_mask_linked(rows, cols, wrap);
    let a = lemma_carved_anchors(g, m, rows, cols, wrap);
    assert(at(m, o));
    let k = choose|k: int| 0 <= k < a.len() && #[trigger] linked(a[k], o, ml);
    if a.len() >= 2 {
        assert(on_grid(rows, cols, a[0]) && on_grid(rows, cols, a[1]));
        assert(linked(a[0], a[1], ml));
        assert(false);
    }
    assert(a.len() == 1);
    lemma_full_count(rows, cols, rows as int);
    assert(m.subrange(0, rows as int) =~= m);
}

} // verus!
