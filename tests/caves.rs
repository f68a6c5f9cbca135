use maze_maker::cave::{print_cave, Cave, CaveError, DEFULT_WALL_PROB};
use rand::rngs::StdRng;
use rand::SeedableRng;

#[test]
fn cave_all_forced_wall_stays_wall() {
    let mut rng = StdRng::seed_from_u64(1);
    let cave = Cave::init_cave_with_conditions(3, 3, DEFULT_WALL_PROB, vec![vec![2; 3]; 3], &mut rng).unwrap();
    assert!(cave.cave_matrix.iter().all(|r| r.iter().all(|w| *w)));
}

#[test]
fn cave_no_wall_chance_stays_open() {
    let mut rng = StdRng::seed_from_u64(2);
    let cave = Cave::init_cave_with_conditions(5, 5, 0, vec![vec![1; 5]; 5], &mut rng).unwrap();
    assert!(cave.cave_matrix.iter().all(|r| r.iter().all(|w| !*w)));
}

#[test]
fn cave_forced_cells_keep_their_state() {
    let mut cond = vec![vec![1; 8]; 6];
    cond[0][0] = 0;
    cond[2][3] = 2;
    cond[5][7] = 0;
    cond[3][3] = 2;
    for seed in 0..5 {
        let mut rng = StdRng::seed_from_u64(seed);
        let cave = Cave::init_cave_with_conditions(6, 8, 1000000, cond.clone(), &mut rng).unwrap();
        assert!(!cave.cave_matrix[0][0]);
        assert!(!cave.cave_matrix[5][7]);
        assert!(cave.cave_matrix[2][3]);
        assert!(cave.cave_matrix[3][3]);
    }
}

#[test]
fn cave_with_walls_certain_fills_up() {
    let mut rng = StdRng::seed_from_u64(3);
    let cave = Cave::init_cave_with_conditions(4, 4, 1000000, vec![vec![1; 4]; 4], &mut rng).unwrap();
    assert!(cave.cave_matrix.iter().all(|r| r.iter().all(|w| *w)));
}

#[test]
fn cave_smoothing_opens_a_lone_wall() {
    let mut cond = vec![vec![0; 3]; 3];
    cond[1][1] = 1;
    let mut rng = StdRng::seed_from_u64(4);
    let cave = Cave::init_cave_with_conditions(3, 3, 1000000, cond, &mut rng).unwrap();
    assert!(!cave.cave_matrix[1][1]);
}

#[test]
fn cave_smoothing_walls_in_an_open_square() {
    let mut cond = vec![vec![2; 3]; 3];
    cond[1][1] = 1;
    let mut rng = StdRng::seed_from_u64(5);
    let cave = Cave::init_cave_with_conditions(3, 3, 0, cond, &mut rng).unwrap();
    assert!(cave.cave_matrix[1][1]);
}

#[test]
fn cave_same_seed_same_cave() {
    let a = Cave::init_cave(20, 30, &mut StdRng::seed_from_u64(42)).unwrap();
    let b = Cave::init_cave(20, 30, &mut StdRng::seed_from_u64(42)).unwrap();
    assert_eq!(a.cave_matrix, b.cave_matrix);
    assert_eq!((a.rows, a.columns), (20, 30));
}

#[test]
fn cave_errors() {
    let mut rng = StdRng::seed_from_u64(6);
    assert!(matches!(Cave::init_cave(0, 3, &mut rng), Err(CaveError::Syntax(_))));
    assert!(matches!(Cave::init_cave_with_conditions(3, 3, 0, vec![vec![1; 3]; 2], &mut rng), Err(CaveError::Syntax(_))));
    assert!(Cave::init_cave_with_conditions(2, 3, 0, vec![vec![1; 3], vec![1; 2]], &mut rng).is_err());
}

#[test]
fn cave_text() {
    let cave = Cave { rows: 2, columns: 3, cave_matrix: vec![vec![true, false, true], vec![false, false, true]] };
    let mut out = Vec::new();
    print_cave(&cave, &mut out);
    assert_eq!(out.iter().collect::<String>(), "# #\n  #\n");
}
