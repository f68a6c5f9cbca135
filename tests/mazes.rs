use maze_maker::dungeon::{maze_to_map, Tile};
use maze_maker::generate::get_starting_points;
use maze_maker::maze::{
    get_cell_in_direction, Compass, Direction, GenerationType, Maze, MazeError, Point, MAX_SQUARE_WRAP, NO_SQUARE_WRAP, PPM,
    RING_SQUARE_WRAP,
};
use rand::rngs::StdRng;
use rand::SeedableRng;

fn total_exits(m: &Maze) -> usize {
    let mut t = 0;
    for row in &m.maze_matrix {
        for c in row {
            t += c.get_number_of_exits();
        }
    }
    t
}

fn reciprocal(m: &Maze, wrap: usize) -> bool {
    for i in 0..m.rows {
        for j in 0..m.columns {
            for d in Direction::get_all_square_directions() {
                if m.maze_matrix[i][j].has_dir(d) {
                    if let Some(q) = get_cell_in_direction(m.rows, m.columns, i, j, d, wrap) {
                        if !m.maze_matrix[q.row][q.col].has_dir(d.reverse()) {
                            return false;
                        }
                    }
                }
            }
        }
    }
    true
}

fn reached_from_origin(m: &Maze, wrap: usize) -> Vec<Vec<bool>> {
    let mut seen = vec![vec![false; m.columns]; m.rows];
    let mut stack = vec![Point::init(0, 0)];
    seen[0][0] = true;
    while let Some(p) = stack.pop() {
        for d in m.maze_matrix[p.row][p.col].get_exits() {
            if let Some(q) = get_cell_in_direction(m.rows, m.columns, p.row, p.col, d, wrap) {
                if !seen[q.row][q.col] {
                    seen[q.row][q.col] = true;
                    stack.push(q);
                }
            }
        }
    }
    seen
}

fn check_perfect(m: &Maze, wrap: usize) {
    assert!(reciprocal(m, wrap));
    assert_eq!(total_exits(m), 2 * (m.rows * m.columns - 1));
    let seen = reached_from_origin(m, wrap);
    assert!(seen.iter().all(|r| r.iter().all(|b| *b)));
}

#[test]
fn get_starting_points_test() {
    let mut mask = vec![vec![true, false, true], vec![false, false, false], vec![true, false, true]];
    let mut my_points = get_starting_points(3, 3, NO_SQUARE_WRAP, &mask.clone());
    assert_eq!(my_points, vec![Point::init(0, 0), Point::init(0, 2), Point::init(2, 0), Point::init(2, 2)]);
    my_points = get_starting_points(3, 3, RING_SQUARE_WRAP, &mask.clone());
    assert_eq!(my_points, vec![Point::init(0, 0), Point::init(2, 0)]);
    my_points = get_starting_points(3, 3, MAX_SQUARE_WRAP, &mask);
    assert_eq!(my_points, vec![Point::init(0, 0)]);
    mask = vec![vec![true, true, true], vec![true, true, true], vec![true, true, true]];
    my_points = get_starting_points(3, 3, NO_SQUARE_WRAP, &mask);
    assert_eq!(my_points, vec![Point::init(0, 0)]);
    mask = vec![vec![true, true, true], vec![false, false, false], vec![true, true, true]];
    my_points = get_starting_points(3, 3, NO_SQUARE_WRAP, &mask.clone());
    assert_eq!(my_points, vec![Point::init(0, 0), Point::init(2, 0)]);
    my_points = get_starting_points(3, 3, RING_SQUARE_WRAP, &mask);
    assert_eq!(my_points, vec![Point::init(0, 0), Point::init(2, 0)]);
    mask = vec![vec![true, true, true], vec![true, false, true], vec![true, true, true]];
    my_points = get_starting_points(3, 3, NO_SQUARE_WRAP, &mask);
    assert_eq!(my_points, vec![Point::init(0, 0)]);
    mask = vec![vec![true, false, true], vec![true, false, true], vec![true, false, true]];
    my_points = get_starting_points(3, 3, NO_SQUARE_WRAP, &mask.clone());
    assert_eq!(my_points, vec![Point::init(0, 0), Point::init(0, 2)]);
    my_points = get_starting_points(3, 3, RING_SQUARE_WRAP, &mask);
    assert_eq!(my_points, vec![Point::init(0, 0)]);
}

#[test]
fn prim_test() {
    let mut rng = StdRng::seed_from_u64(1);
    let my_maze_test = Maze::init_rect(40, 60, NO_SQUARE_WRAP, GenerationType::Prim, &mut rng).unwrap();
    check_perfect(&my_maze_test, NO_SQUARE_WRAP);
    let map = maze_to_map(&my_maze_test).unwrap();
    assert_eq!((map.rows, map.columns), (81, 121));
}

#[test]
fn prim_ring_test() {
    let mut rng = StdRng::seed_from_u64(2);
    let my_maze_test = Maze::init_rect(40, 60, RING_SQUARE_WRAP, GenerationType::Prim, &mut rng).unwrap();
    check_perfect(&my_maze_test, RING_SQUARE_WRAP);
    let map = maze_to_map(&my_maze_test).unwrap();
    assert_eq!((map.rows, map.columns), (81, 121));
}

#[test]
fn prim_tours_test() {
    let mut rng = StdRng::seed_from_u64(3);
    let my_maze_test = Maze::init_rect(40, 60, MAX_SQUARE_WRAP, GenerationType::Prim, &mut rng).unwrap();
    check_perfect(&my_maze_test, MAX_SQUARE_WRAP);
    let map = maze_to_map(&my_maze_test).unwrap();
    assert_eq!((map.rows, map.columns), (81, 121));
}

#[test]
fn wilson_test() {
    let mut rng = StdRng::seed_from_u64(4);
    let my_maze_test = Maze::init_rect(40, 60, NO_SQUARE_WRAP, GenerationType::Wilson, &mut rng).unwrap();
    check_perfect(&my_maze_test, NO_SQUARE_WRAP);
    let map = maze_to_map(&my_maze_test).unwrap();
    assert_eq!((map.rows, map.columns), (81, 121));
}

#[test]
fn wilson_ring_test() {
    let mut rng = StdRng::seed_from_u64(5);
    let my_maze_test = Maze::init_rect(40, 60, RING_SQUARE_WRAP, GenerationType::Wilson, &mut rng).unwrap();
    check_perfect(&my_maze_test, RING_SQUARE_WRAP);
    let map = maze_to_map(&my_maze_test).unwrap();
    assert_eq!((map.rows, map.columns), (81, 121));
}

#[test]
fn wilson_tours_test() {
    let mut rng = StdRng::seed_from_u64(6);
    let my_maze_test = Maze::init_rect(40, 60, MAX_SQUARE_WRAP, GenerationType::Wilson, &mut rng).unwrap();
    check_perfect(&my_maze_test, MAX_SQUARE_WRAP);
    let map = maze_to_map(&my_maze_test).unwrap();
    assert_eq!((map.rows, map.columns), (81, 121));
}

#[test]
fn backtrack_twisty_test() {
    let mut rng = StdRng::seed_from_u64(7);
    let my_maze_test = Maze::init_rect(40, 60, NO_SQUARE_WRAP, GenerationType::Wilson, &mut rng).unwrap();
    check_perfect(&my_maze_test, NO_SQUARE_WRAP);
    let map = maze_to_map(&my_maze_test).unwrap();
    assert_eq!((map.rows, map.columns), (81, 121));
}

#[test]
fn backtrack_twisty_ring_test() {
    let mut rng = StdRng::seed_from_u64(8);
    let my_maze_test = Maze::init_rect(40, 60, RING_SQUARE_WRAP, GenerationType::Wilson, &mut rng).unwrap();
    check_perfect(&my_maze_test, RING_SQUARE_WRAP);
    let map = maze_to_map(&my_maze_test).unwrap();
    assert_eq!((map.rows, map.columns), (81, 121));
}

#[test]
fn backtrack_twisty_tours_test() {
    let mut rng = StdRng::seed_from_u64(9);
    let my_maze_test = Maze::init_rect(40, 60, MAX_SQUARE_WRAP, GenerationType::Wilson, &mut rng).unwrap();
    check_perfect(&my_maze_test, MAX_SQUARE_WRAP);
    let map = maze_to_map(&my_maze_test).unwrap();
    assert_eq!((map.rows, map.columns), (81, 121));
}

#[test]
fn test_bitmask() {
    let mut bitmask = vec![vec![true; 40]; 40];
    for i in 0..20 {
        for j in 0..20 {
            bitmask[i + 10][j + 10] = false;
        }
    }
    let mut rng = StdRng::seed_from_u64(10);
    let my_maze_test = Maze::init_rect_with_bitmask(40, 40, NO_SQUARE_WRAP, &bitmask, GenerationType::Backtrack(PPM), &mut rng).unwrap();
    assert!(reciprocal(&my_maze_test, NO_SQUARE_WRAP));
    assert_eq!(total_exits(&my_maze_test), 2 * (40 * 40 - 400 - 1));
    for i in 0..20 {
        for j in 0..20 {
            assert_eq!(my_maze_test.maze_matrix[i + 10][j + 10].get_number_of_exits(), 0);
        }
    }
    let seen = reached_from_origin(&my_maze_test, NO_SQUARE_WRAP);
    for i in 0..40 {
        for j in 0..40 {
            assert_eq!(seen[i][j], bitmask[i][j]);
        }
    }
    let map = maze_to_map(&my_maze_test).unwrap();
    assert_eq!((map.rows, map.columns), (81, 81));
}

#[test]
fn test_erase_dead_ends() {
    let mut rng = StdRng::seed_from_u64(12);
    let mut my_maze_test = Maze::init_rect(40, 40, MAX_SQUARE_WRAP, GenerationType::Backtrack(750000), &mut rng).unwrap();
    let my_dead_ends = my_maze_test.get_dead_ends();
    let stop = my_dead_ends.len() / 2;
    let before = total_exits(&my_maze_test);
    for i in 0..stop {
        let p = my_dead_ends[i];
        if my_maze_test.maze_matrix[p.row][p.col].get_number_of_exits() == 1 {
            my_maze_test.erase_dead_end(p);
            assert_eq!(my_maze_test.maze_matrix[p.row][p.col].get_number_of_exits(), 0);
        }
    }
    assert!(total_exits(&my_maze_test) < before);
    assert!(reciprocal(&my_maze_test, MAX_SQUARE_WRAP));
    let map = maze_to_map(&my_maze_test).unwrap();
    assert_eq!((map.rows, map.columns), (81, 81));
}

#[test]
fn maze_one_by_one() {
    let mut rng = StdRng::seed_from_u64(13);
    let m = Maze::init_rect_with_bitmask(1, 1, NO_SQUARE_WRAP, &vec![vec![true]], GenerationType::Prim, &mut rng).unwrap();
    assert_eq!(m.maze_matrix[0][0].get_number_of_exits(), 0);
    let map = maze_to_map(&m).unwrap();
    assert_eq!((map.rows, map.columns), (3, 3));
    for row in &map.map_matrix {
        for t in row {
            assert_eq!(*t, Tile::wall());
        }
    }
}

#[test]
fn maze_two_by_two_prim() {
    let mut rng = StdRng::seed_from_u64(14);
    let m = Maze::init_rect(2, 2, NO_SQUARE_WRAP, GenerationType::Prim, &mut rng).unwrap();
    assert_eq!(total_exits(&m), 6);
    assert!(reciprocal(&m, NO_SQUARE_WRAP));
    let map = maze_to_map(&m).unwrap();
    assert_eq!((map.rows, map.columns), (5, 5));
    let mut floors = 0;
    for r in 0..5 {
        for c in 0..5 {
            if map.map_matrix[r][c] == Tile::floor() {
                floors += 1;
            }
        }
    }
    assert_eq!(floors, 4 + 3);
    for (r, c) in [(1, 1), (1, 3), (3, 1), (3, 3)] {
        assert_eq!(map.map_matrix[r][c], Tile::floor());
    }
    assert_eq!(map.map_matrix[2][1] == Tile::floor(), m.maze_matrix[0][0].has_dir(Direction::North));
    assert_eq!(map.map_matrix[1][2] == Tile::floor(), m.maze_matrix[0][0].has_dir(Direction::East));
    assert_eq!(map.map_matrix[2][3] == Tile::floor(), m.maze_matrix[0][1].has_dir(Direction::North));
    assert_eq!(map.map_matrix[3][2] == Tile::floor(), m.maze_matrix[1][0].has_dir(Direction::East));
}

#[test]
fn maze_errors() {
    let mut rng = StdRng::seed_from_u64(15);
    assert!(matches!(Maze::init_rect(0, 4, NO_SQUARE_WRAP, GenerationType::Prim, &mut rng), Err(MazeError::Syntax(_))));
    assert!(matches!(Maze::init_rect(4, 0, NO_SQUARE_WRAP, GenerationType::Wilson, &mut rng), Err(MazeError::Syntax(_))));
    let mask = vec![vec![true; 3]; 2];
    assert!(matches!(Maze::init_rect_with_bitmask(3, 3, NO_SQUARE_WRAP, &mask, GenerationType::Prim, &mut rng), Err(MazeError::Syntax(_))));
    let ragged = vec![vec![true; 3], vec![true; 2], vec![true; 3]];
    assert!(Maze::init_rect_with_bitmask(3, 3, NO_SQUARE_WRAP, &ragged, GenerationType::Prim, &mut rng).is_err());
}

#[test]
fn masked_regions_are_each_one_tree() {
    let mask = vec![
        vec![true, true, false, true],
        vec![true, false, false, true],
        vec![false, false, true, true],
        vec![true, false, false, false],
    ];
    for (seed, method) in [(16, GenerationType::Prim), (17, GenerationType::Wilson), (18, GenerationType::Backtrack(0))] {
        let mut rng = StdRng::seed_from_u64(seed);
        let m = Maze::init_rect_with_bitmask(4, 4, NO_SQUARE_WRAP, &mask, method, &mut rng).unwrap();
        assert!(reciprocal(&m, NO_SQUARE_WRAP));
        assert_eq!(total_exits(&m), 2 * (8 - 3));
        assert_eq!(m.maze_matrix[3][0].get_number_of_exits(), 0);
        for (r, c) in [(0, 0), (0, 1), (1, 0), (0, 3), (1, 3), (2, 2), (2, 3)] {
            assert!(m.maze_matrix[r][c].get_number_of_exits() >= 1);
        }
    }
}

#[test]
fn same_seed_same_maze() {
    for method in [GenerationType::Prim, GenerationType::Wilson, GenerationType::Backtrack(500000)] {
        let a = Maze::init_rect(15, 12, RING_SQUARE_WRAP, method, &mut StdRng::seed_from_u64(99)).unwrap();
        let b = Maze::init_rect(15, 12, RING_SQUARE_WRAP, method, &mut StdRng::seed_from_u64(99)).unwrap();
        assert_eq!(a.maze_matrix, b.maze_matrix);
    }
    let a = Maze::init_rect(15, 12, NO_SQUARE_WRAP, GenerationType::Prim, &mut StdRng::seed_from_u64(1)).unwrap();
    let b = Maze::init_rect(15, 12, NO_SQUARE_WRAP, GenerationType::Prim, &mut StdRng::seed_from_u64(2)).unwrap();
    assert_ne!(a.maze_matrix, b.maze_matrix);
}

fn straight_cells(m: &Maze) -> usize {
    let mut n = 0;
    for row in &m.maze_matrix {
        for c in row {
            if (c.north && c.south && !c.east && !c.west) || (c.east && c.west && !c.north && !c.south) {
                n += 1;
            }
        }
    }
    n
}

#[test]
fn straighter_backtrack_has_longer_runs() {
    let mut straight = 0;
    let mut twisty = 0;
    for seed in 0..8 {
        let a = Maze::init_rect(20, 20, NO_SQUARE_WRAP, GenerationType::Backtrack(PPM), &mut StdRng::seed_from_u64(seed)).unwrap();
        let b = Maze::init_rect(20, 20, NO_SQUARE_WRAP, GenerationType::Backtrack(0), &mut StdRng::seed_from_u64(seed)).unwrap();
        straight += straight_cells(&a);
        twisty += straight_cells(&b);
    }
    assert!(straight > twisty);
}

#[test]
fn direction_algebra() {
    for d in Direction::get_all_square_directions() {
        assert_eq!(d.reverse().reverse(), d);
        assert_eq!(d.turn_clockwise_square().turn_counterclockwise_square(), d);
        assert_eq!(d.turn_clockwise_square().turn_clockwise_square(), d.reverse());
    }
    assert_eq!(Direction::North.turn_clockwise_square(), Direction::East);
    assert_eq!(Direction::Northwest.reverse(), Direction::Southeast);
    assert_eq!(Direction::Up.turn_clockwise_square(), Direction::Up);
}

#[test]
fn compass_operations() {
    let c = Compass::init().add_dir(Direction::North).add_dir(Direction::West).add_dir(Direction::Up);
    assert!(c.has_dir(Direction::North) && c.has_dir(Direction::West) && !c.has_dir(Direction::South));
    assert_eq!(c.get_number_of_exits(), 2);
    assert_eq!(c.get_exits(), vec![Direction::North, Direction::West]);
    let mut d = c;
    d.remove_dir(Direction::North);
    assert_eq!(d.get_exits(), vec![Direction::West]);
    let p = Point::init(3, 4);
    assert_eq!((p.get_x(), p.get_y()), (3, 4));
}

#[test]
fn steps_wrap_only_as_allowed() {
    assert_eq!(get_cell_in_direction(3, 4, 2, 1, Direction::North, 1), None);
    assert_eq!(get_cell_in_direction(3, 4, 2, 1, Direction::North, 2), Some(Point::init(0, 1)));
    assert_eq!(get_cell_in_direction(3, 4, 0, 1, Direction::South, 2), Some(Point::init(2, 1)));
    assert_eq!(get_cell_in_direction(3, 4, 1, 3, Direction::East, 0), None);
    assert_eq!(get_cell_in_direction(3, 4, 1, 3, Direction::East, 1), Some(Point::init(1, 0)));
    assert_eq!(get_cell_in_direction(3, 4, 1, 0, Direction::West, 1), Some(Point::init(1, 3)));
    assert_eq!(get_cell_in_direction(3, 4, 1, 1, Direction::North, 0), Some(Point::init(2, 1)));
    assert_eq!(get_cell_in_direction(3, 4, 1, 1, Direction::Up, 2), None);
}

#[test]
fn remove_wall_opens_both_sides() {
    let mut m = Maze { rows: 2, columns: 3, maze_matrix: vec![vec![Compass::init(); 3]; 2] };
    m.remove_wall(maze_maker::maze::Wall::init(Point::init(0, 2), Direction::East), RING_SQUARE_WRAP);
    assert!(m.maze_matrix[0][2].has_dir(Direction::East));
    assert!(m.maze_matrix[0][0].has_dir(Direction::West));
    m.remove_wall(maze_maker::maze::Wall::init(Point::init(1, 1), Direction::North), NO_SQUARE_WRAP);
    assert!(m.maze_matrix[1][1].has_dir(Direction::North));
    assert_eq!(m.get_dead_ends(), vec![Point::init(0, 0), Point::init(0, 2), Point::init(1, 1)]);
}
