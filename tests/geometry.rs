use chess::movement::{
    compute_nr_of_squares_to_edge, is_allowed_move, is_in_l_from_origin, is_in_square_from_origin,
    is_same_square, min_n, pattern_index, ray_increment, square_index_to_tuple,
    tuple_to_square_index, MovePattern,
};

#[test]
fn min_n_picks_smaller() {
    assert_eq!(min_n(3, 5), 3);
    assert_eq!(min_n(5, 3), 3);
    assert_eq!(min_n(-2, -2), -2);
}

#[test]
fn square_index_round_trip() {
    assert_eq!(tuple_to_square_index((5, 1)), 13);
    assert_eq!(square_index_to_tuple(13), (5, 1));
    assert_eq!(tuple_to_square_index((0, 0)), 0);
    assert_eq!(square_index_to_tuple(63), (7, 7));
    for i in 0..64i8 {
        assert_eq!(tuple_to_square_index(square_index_to_tuple(i)), i);
    }
}

#[test]
fn edge_distances_of_centre_square() {
    let table = compute_nr_of_squares_to_edge();
    assert_eq!(table.len(), 8);
    let sq = tuple_to_square_index((3, 4)) as usize;
    assert_eq!(table[pattern_index(&MovePattern::N)][sq], 4);
    assert_eq!(table[pattern_index(&MovePattern::E)][sq], 4);
    assert_eq!(table[pattern_index(&MovePattern::S)][sq], 3);
    assert_eq!(table[pattern_index(&MovePattern::W)][sq], 3);
    assert_eq!(table[pattern_index(&MovePattern::NE)][sq], 4);
    assert_eq!(table[pattern_index(&MovePattern::NW)][sq], 3);
    assert_eq!(table[pattern_index(&MovePattern::SE)][sq], 3);
    assert_eq!(table[pattern_index(&MovePattern::SW)][sq], 3);
}

#[test]
fn edge_distances_of_corner_square() {
    let table = compute_nr_of_squares_to_edge();
    let sq = tuple_to_square_index((0, 0)) as usize;
    assert_eq!(table[pattern_index(&MovePattern::N)][sq], 0);
    assert_eq!(table[pattern_index(&MovePattern::W)][sq], 0);
    assert_eq!(table[pattern_index(&MovePattern::S)][sq], 7);
    assert_eq!(table[pattern_index(&MovePattern::E)][sq], 7);
    assert_eq!(table[pattern_index(&MovePattern::SE)][sq], 7);
    assert_eq!(table[pattern_index(&MovePattern::NE)][sq], 0);
    assert_eq!(table[pattern_index(&MovePattern::SW)][sq], 0);
}

#[test]
fn ray_increments_point_the_right_way() {
    assert_eq!(ray_increment(&MovePattern::N), (0, -1));
    assert_eq!(ray_increment(&MovePattern::NE), (1, -1));
    assert_eq!(ray_increment(&MovePattern::SW), (-1, 1));
    assert_eq!(ray_increment(&MovePattern::W), (-1, 0));
}

#[test]
fn knight_jump_shape() {
    assert!(is_in_l_from_origin((1, 7), (2, 5)));
    assert!(is_in_l_from_origin((4, 4), (2, 3)));
    assert!(!is_in_l_from_origin((1, 7), (3, 7)));
    assert!(!is_in_l_from_origin((4, 4), (6, 6)));
    assert!(!is_in_l_from_origin((4, 4), (4, 4)));
}

#[test]
fn neighbour_square_shape() {
    assert!(is_in_square_from_origin((4, 4), (5, 5)));
    assert!(is_in_square_from_origin((4, 4), (4, 4)));
    assert!(!is_in_square_from_origin((4, 4), (6, 4)));
    assert!(is_same_square((2, 3), (2, 3)));
    assert!(!is_same_square((2, 3), (3, 2)));
}

#[test]
fn no_pattern_matches_a_move() {
    assert!(!is_allowed_move((0, 0), (0, 5), &MovePattern::S));
}
