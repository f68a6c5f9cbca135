use maze_maker::dungeon::Room;
use maze_maker::maze::Point;
use rand::rngs::StdRng;
use rand::SeedableRng;

#[test]
fn room_contain_cell_test() {
    let single_cell_room = Room::init(Point::init(0, 0), Point::init(0, 0));
    assert!(Room::contains_cell(single_cell_room, Point::init(0, 0)));
    assert!(!Room::contains_cell(single_cell_room, Point::init(1, 0)));
    assert!(!Room::contains_cell(single_cell_room, Point::init(0, 1)));

    let test_room = Room::init(Point::init(2, 3), Point::init(1, 2));
    for i in 2..((2 + 1) + 1) {
        for j in 3..((3 + 2) + 1) {
            assert!(Room::contains_cell(test_room, Point::init(i, j)));
        }
    }
    assert!(!Room::contains_cell(test_room, Point::init(4, 3)));
    assert!(!Room::contains_cell(test_room, Point::init(2, 6)));
}

#[test]
fn room_intersection_test() {
    let single_cell_room = Room::init(Point::init(0, 0), Point::init(0, 0));
    let room_1 = Room::init(Point::init(0, 0), Point::init(2, 2));
    let room_2 = Room::init(Point::init(3, 0), Point::init(2, 2));
    let room_3 = Room::init(Point::init(0, 3), Point::init(2, 2));
    let room_4 = Room::init(Point::init(3, 3), Point::init(2, 2));
    let room_5 = Room::init(Point::init(2, 2), Point::init(1, 1));
    let room_6 = Room::init(Point::init(1, 1), Point::init(3, 3));

    let room_7 = Room::init(Point::init(1, 1), Point::init(0, 2));
    let room_8 = Room::init(Point::init(1, 3), Point::init(2, 0));

    assert!(Room::check_intersection(single_cell_room, single_cell_room));

    assert!(!Room::check_intersection(room_1, room_2));
    assert!(!Room::check_intersection(room_2, room_1));

    assert!(!Room::check_intersection(room_1, room_3));
    assert!(!Room::check_intersection(room_3, room_1));

    assert!(!Room::check_intersection(room_1, room_4));
    assert!(!Room::check_intersection(room_4, room_1));

    assert!(!Room::check_intersection(room_2, room_3));
    assert!(!Room::check_intersection(room_3, room_2));

    assert!(!Room::check_intersection(room_2, room_4));
    assert!(!Room::check_intersection(room_4, room_2));

    assert!(!Room::check_intersection(room_4, room_3));
    assert!(!Room::check_intersection(room_3, room_4));

    assert!(Room::check_intersection(room_1, room_5));
    assert!(Room::check_intersection(room_5, room_1));

    assert!(Room::check_intersection(room_2, room_5));
    assert!(Room::check_intersection(room_5, room_2));

    assert!(Room::check_intersection(room_3, room_5));
    assert!(Room::check_intersection(room_5, room_3));

    assert!(Room::check_intersection(room_4, room_5));
    assert!(Room::check_intersection(room_5, room_4));

    assert!(Room::check_intersection(room_1, room_6));
    assert!(Room::check_intersection(room_6, room_1));

    assert!(Room::check_intersection(room_2, room_6));
    assert!(Room::check_intersection(room_6, room_2));

    assert!(Room::check_intersection(room_3, room_6));
    assert!(Room::check_intersection(room_6, room_3));

    assert!(Room::check_intersection(room_4, room_6));
    assert!(Room::check_intersection(room_6, room_4));

    assert!(Room::check_intersection(room_6, room_5));
    assert!(Room::check_intersection(room_5, room_6));

    assert!(Room::check_intersection(room_7, room_8));
    assert!(Room::check_intersection(room_8, room_7));

    let room_list_1 = vec![room_1, room_2, room_3];
    let room_list_2 = vec![room_1, room_2];

    assert!(Room::check_multi_room_intersection(room_1, &room_list_1));
    assert!(Room::check_multi_room_intersection(room_1, &room_list_2));

    assert!(Room::check_multi_room_intersection(room_3, &room_list_1));
    assert!(!Room::check_multi_room_intersection(room_3, &room_list_2));

    assert!(!Room::check_multi_room_intersection(room_4, &room_list_1));
    assert!(!Room::check_multi_room_intersection(room_4, &room_list_2));
}

#[test]
fn create_room_test() {
    let mut rng = StdRng::seed_from_u64(11);
    let dimensions_1 = Point::init(0, 0);
    let dimensions_2 = Point::init(5, 5);
    let dimensions_3 = Point::init(7, 7);
    let test_bound_1 = Room::init(Point::init(0, 0), dimensions_1);
    let test_bound_2 = Room::init(Point::init(0, 0), dimensions_2);
    let test_bound_3 = Room::init(Point::init(6, 6), dimensions_2);

    assert!(!Room::generate_room_with_dimensions_in_bounds(test_bound_1, dimensions_1, 1, &vec![], &mut rng).is_none());
    assert!(Room::generate_room_with_dimensions_in_bounds(test_bound_1, dimensions_2, 1, &vec![], &mut rng).is_none());
    assert!(Room::generate_room_with_dimensions_in_bounds(test_bound_1, dimensions_3, 1, &vec![], &mut rng).is_none());

    assert!(!Room::generate_room_with_dimensions_in_bounds(test_bound_2, dimensions_1, 1, &vec![], &mut rng).is_none());
    assert!(!Room::generate_room_with_dimensions_in_bounds(test_bound_2, dimensions_2, 1, &vec![], &mut rng).is_none());
    assert!(Room::generate_room_with_dimensions_in_bounds(test_bound_2, dimensions_3, 1, &vec![], &mut rng).is_none());

    assert!(!Room::generate_room_with_dimensions_in_bounds(test_bound_3, dimensions_1, 1, &vec![], &mut rng).is_none());
    assert!(!Room::generate_room_with_dimensions_in_bounds(test_bound_3, dimensions_2, 1, &vec![], &mut rng).is_none());
    assert!(Room::generate_room_with_dimensions_in_bounds(test_bound_3, dimensions_3, 1, &vec![], &mut rng).is_none());

    assert!(Room::generate_room_with_dimensions_in_bounds(test_bound_1, dimensions_1, 1, &vec![test_bound_1], &mut rng).is_none());
    assert!(!Room::generate_room_with_dimensions_in_bounds(test_bound_3, dimensions_1, 1, &vec![test_bound_2], &mut rng).is_none());
}

#[test]
fn placed_room_lies_in_bounds_and_avoids() {
    let mut rng = StdRng::seed_from_u64(3);
    let bounds = Room::init(Point::init(2, 4), Point::init(9, 9));
    let avoid = vec![Room::init(Point::init(2, 4), Point::init(3, 3))];
    for _ in 0..50 {
        if let Some(r) = Room::generate_room_with_dimensions_in_bounds(bounds, Point::init(2, 1), 10, &avoid, &mut rng) {
            assert_eq!(r.dimensions, Point::init(2, 1));
            assert!(r.base_point.row >= 2 && r.base_point.row + 2 <= 11);
            assert!(r.base_point.col >= 4 && r.base_point.col + 1 <= 13);
            assert!(!Room::check_multi_room_intersection(r, &avoid));
        }
    }
}

#[test]
fn rooms_touching_at_a_corner_intersect() {
    let a = Room::init(Point::init(0, 0), Point::init(1, 1));
    let b = Room::init(Point::init(1, 1), Point::init(1, 1));
    assert!(Room::check_intersection(a, b));
    let c = Room::init(Point::init(2, 2), Point::init(1, 1));
    assert!(!Room::check_intersection(a, c));
}

#[test]
fn room_walls_list_corners_twice() {
    let r = Room::init(Point::init(1, 2), Point::init(1, 2));
    let walls = r.get_walls();
    assert_eq!(walls.len(), 2 * 3 + 2 * 2);
    assert_eq!(walls[0].cell, Point::init(2, 2));
    assert_eq!(walls[1].cell, Point::init(1, 2));
    assert_eq!(walls[6].cell, Point::init(1, 2));
    assert_eq!(walls[7].cell, Point::init(1, 4));
}

#[test]
fn room_getters() {
    let r = Room::init(Point::init(1, 2), Point::init(3, 4));
    assert_eq!(r.get_base_point(), Point::init(1, 2));
    assert_eq!(r.get_width(), 3);
    assert_eq!(r.get_height(), 4);
    assert!(Room::check_multi_room_contains_cell(Point::init(4, 6), &vec![r]));
    assert!(!Room::check_multi_room_contains_cell(Point::init(5, 6), &vec![r]));
}

#[test]
fn placement_succeeds_when_nothing_can_meet() {
    let mut rng = StdRng::seed_from_u64(47);
    let bounds = Room::init(Point::init(6, 6), Point::init(5, 5));
    let far = vec![Room::init(Point::init(0, 0), Point::init(2, 2))];
    for _ in 0..20 {
        assert!(Room::generate_room_with_dimensions_in_bounds(bounds, Point::init(1, 1), 0, &far, &mut rng).is_some());
    }
    let whole = Room::init(Point::init(0, 0), Point::init(5, 5));
    assert_eq!(Room::generate_room_with_dimensions_in_bounds(whole, Point::init(5, 5), 1, &vec![], &mut rng), Some(whole));
}
