use maze_maker::dungeon::{connect_dugeon, create_dungeon, maze_to_map, print_dungeon, prune_dead_ends, Dungeon, DungeonError, Room, Tile};
use maze_maker::maze::{get_cell_in_direction, Compass, Direction, GenerationType, Maze, Point, NO_SQUARE_WRAP, PPM};
use rand::rngs::StdRng;
use rand::SeedableRng;

fn walkable(t: &Tile) -> bool {
    *t != Tile::wall()
}

fn all_walkable_connected(d: &Dungeon) -> bool {
    let mut start = None;
    let mut total = 0;
    for r in 0..d.rows {
        for c in 0..d.columns {
            if walkable(&d.map_matrix[r][c]) {
                total += 1;
                if start.is_none() {
                    start = Some((r, c));
                }
            }
        }
    }
    let Some(s) = start else { return true };
    let mut seen = vec![vec![false; d.columns]; d.rows];
    seen[s.0][s.1] = true;
    let mut stack = vec![s];
    let mut count = 1;
    while let Some((r, c)) = stack.pop() {
        let mut next = Vec::new();
        if r > 0 { next.push((r - 1, c)); }
        if r + 1 < d.rows { next.push((r + 1, c)); }
        if c > 0 { next.push((r, c - 1)); }
        if c + 1 < d.columns { next.push((r, c + 1)); }
        for (a, b) in next {
            if !seen[a][b] && walkable(&d.map_matrix[a][b]) {
                seen[a][b] = true;
                count += 1;
                stack.push((a, b));
            }
        }
    }
    count == total
}

#[test]
fn test_dungeon() {
    let mut rng = StdRng::seed_from_u64(1);
    let d = create_dungeon(23, 43, 0, GenerationType::Backtrack(750000), 10, 900000, true, &mut rng).unwrap();
    assert_eq!((d.rows, d.columns), (47, 87));
    assert!(d.map_matrix.iter().flatten().any(|t| *t == Tile::room()));
}

#[test]
fn dungeon_prim_full_prune() {
    for seed in 0..6 {
        let mut rng = StdRng::seed_from_u64(seed);
        let d = create_dungeon(10, 10, NO_SQUARE_WRAP, GenerationType::Prim, 3, PPM, false, &mut rng).unwrap();
        assert_eq!((d.rows, d.columns), (21, 21));
        assert!(d.map_matrix.iter().flatten().any(|t| *t == Tile::room()));
        assert!(all_walkable_connected(&d));
        // no corridor dead end: an odd-odd floor tile outside rooms never has exactly one open side
        for r in (1..21).step_by(2) {
            for c in (1..21).step_by(2) {
                if d.map_matrix[r][c] == Tile::floor() {
                    let open = [(r - 1, c), (r + 1, c), (r, c - 1), (r, c + 1)]
                        .iter()
                        .filter(|(a, b)| d.map_matrix[*a][*b] == Tile::floor())
                        .count();
                    let near_room = [(r - 1, c), (r + 1, c), (r, c - 1), (r, c + 1)]
                        .iter()
                        .any(|(a, b)| d.map_matrix[*a][*b] == Tile::room());
                    assert!(open != 1 || near_room);
                }
            }
        }
    }
}

#[test]
fn dungeon_without_pruning_is_connected() {
    for (seed, method) in [(7, GenerationType::Wilson), (8, GenerationType::Backtrack(0)), (9, GenerationType::Prim)] {
        let mut rng = StdRng::seed_from_u64(seed);
        let d = create_dungeon(12, 15, NO_SQUARE_WRAP, method, 4, 0, false, &mut rng).unwrap();
        assert_eq!((d.rows, d.columns), (25, 31));
        assert!(all_walkable_connected(&d));
    }
}

#[test]
fn dungeon_errors() {
    let mut rng = StdRng::seed_from_u64(2);
    assert!(matches!(create_dungeon(0, 5, 0, GenerationType::Prim, 2, 0, false, &mut rng), Err(DungeonError::Syntax(_))));
    assert!(matches!(create_dungeon(5, 1, 0, GenerationType::Prim, 2, 0, false, &mut rng), Err(DungeonError::Syntax(_))));
    assert!(create_dungeon(2, 2, 0, GenerationType::Prim, 2, 0, false, &mut rng).is_ok());
}

#[test]
fn connect_joins_every_square() {
    let mut m = Maze { rows: 3, columns: 4, maze_matrix: vec![vec![Compass::init(); 4]; 3] };
    connect_dugeon(&mut m, NO_SQUARE_WRAP);
    let mut seen = vec![vec![false; 4]; 3];
    seen[0][0] = true;
    let mut stack = vec![Point::init(0, 0)];
    while let Some(p) = stack.pop() {
        for d in m.maze_matrix[p.row][p.col].get_exits() {
            if let Some(q) = get_cell_in_direction(3, 4, p.row, p.col, d, NO_SQUARE_WRAP) {
                if !seen[q.row][q.col] {
                    seen[q.row][q.col] = true;
                    stack.push(q);
                }
            }
        }
    }
    assert!(seen.iter().all(|r| r.iter().all(|b| *b)));
    // each square past the first gets exactly one passage to an earlier one
    let total: usize = m.maze_matrix.iter().flatten().map(|c| c.get_number_of_exits()).sum();
    assert_eq!(total, 2 * (12 - 1));
    assert!(m.maze_matrix[0][1].has_dir(Direction::West));
    assert!(m.maze_matrix[1][0].has_dir(Direction::South));
}

#[test]
fn projection_marks_edges() {
    let mut m = Maze { rows: 2, columns: 2, maze_matrix: vec![vec![Compass::init(); 2]; 2] };
    m.maze_matrix[0][0] = Compass::init().add_dir(Direction::North).add_dir(Direction::West);
    m.maze_matrix[1][0] = Compass::init().add_dir(Direction::South);
    let d = maze_to_map(&m).unwrap();
    assert_eq!(d.map_matrix[1][1], Tile::floor());
    assert_eq!(d.map_matrix[2][1], Tile::floor());
    assert_eq!(d.map_matrix[3][1], Tile::floor());
    assert_eq!(d.map_matrix[1][0], Tile::floor());
    assert_eq!(d.map_matrix[1][3], Tile::wall());
    assert_eq!(d.map_matrix[3][3], Tile::wall());
    assert_eq!(d.map_matrix[0][1], Tile::wall());
    let mut out = Vec::new();
    print_dungeon(&d, &mut out);
    let text: String = out.iter().collect();
    assert_eq!(text, "#####\n  ###\n# ###\n# ###\n#####\n");
}

#[test]
fn tile_constructors() {
    assert_eq!(Tile::init("Wall", '#'), Tile::wall());
    assert_eq!(Tile::floor().glyph, ' ');
    assert_eq!(Tile::exit().name, "Exit");
    assert_ne!(Tile::room(), Tile::floor());
}

#[test]
fn pruning_closes_the_chosen_share_of_dead_ends() {
    let mut rng = StdRng::seed_from_u64(21);
    let mut m = Maze::init_rect(12, 12, NO_SQUARE_WRAP, GenerationType::Prim, &mut rng).unwrap();
    let rooms = vec![Room::init(Point::init(0, 0), Point::init(2, 2))];
    let eligible: Vec<Point> = m
        .get_dead_ends()
        .into_iter()
        .filter(|p| !Room::check_multi_room_contains_cell(*p, &rooms))
        .collect();
    let before: Vec<Vec<Compass>> = m.maze_matrix.clone();
    prune_dead_ends(&mut m, &rooms, 500000, &mut rng);
    let closed = eligible.iter().filter(|p| m.maze_matrix[p.row][p.col].get_number_of_exits() == 0).count();
    assert!(closed >= eligible.len() / 2);
    for r in 0..12 {
        for c in 0..12 {
            for d in Direction::get_all_square_directions() {
                if m.maze_matrix[r][c].has_dir(d) {
                    assert!(before[r][c].has_dir(d));
                }
            }
        }
    }
    prune_dead_ends(&mut m, &rooms, PPM, &mut rng);
    for p in m.get_dead_ends() {
        assert!(Room::check_multi_room_contains_cell(p, &rooms));
    }
}

#[test]
fn projection_reads_back() {
    for (seed, wrap) in [(31, 0), (32, 1), (33, 2)] {
        let mut rng = StdRng::seed_from_u64(seed);
        let m = Maze::init_rect(7, 9, wrap, GenerationType::Wilson, &mut rng).unwrap();
        let d = maze_to_map(&m).unwrap();
        for i in 0..7 {
            for j in 0..9 {
                let floor = |r: usize, c: usize| d.map_matrix[r][c] == Tile::floor();
                let c = m.maze_matrix[i][j];
                assert_eq!(floor(2 * i + 2, 2 * j + 1), c.north);
                assert_eq!(floor(2 * i, 2 * j + 1), c.south);
                assert_eq!(floor(2 * i + 1, 2 * j + 2), c.east);
                assert_eq!(floor(2 * i + 1, 2 * j), c.west);
                assert_eq!(floor(2 * i + 1, 2 * j + 1), c.get_number_of_exits() > 0);
            }
        }
    }
}

#[test]
fn closed_map_has_wall_border() {
    for seed in 40..45 {
        let mut rng = StdRng::seed_from_u64(seed);
        let d = create_dungeon(8, 9, NO_SQUARE_WRAP, GenerationType::Backtrack(300000), 3, 400000, false, &mut rng).unwrap();
        for c in 0..d.columns {
            assert_eq!(d.map_matrix[0][c], Tile::wall());
            assert_eq!(d.map_matrix[d.rows - 1][c], Tile::wall());
        }
        for r in 0..d.rows {
            assert_eq!(d.map_matrix[r][0], Tile::wall());
            assert_eq!(d.map_matrix[r][d.columns - 1], Tile::wall());
        }
    }
}

#[test]
fn connect_leaves_joined_maze_alone() {
    let mut rng = StdRng::seed_from_u64(46);
    let m = Maze::init_rect(6, 7, NO_SQUARE_WRAP, GenerationType::Prim, &mut rng).unwrap();
    let mut n = m.clone();
    connect_dugeon(&mut n, NO_SQUARE_WRAP);
    assert_eq!(m.maze_matrix, n.maze_matrix);
}
