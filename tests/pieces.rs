use chess::board::{Cell, CellState};
use chess::piece::{side_value, swap_turn, ChessPiece, Side};

fn empty_grid() -> Vec<Vec<Cell>> {
    let mut grid = Vec::new();
    for _ in 0..8 {
        let mut row = Vec::new();
        for _ in 0..8 {
            row.push(Cell::new());
        }
        grid.push(row);
    }
    grid
}

fn put(grid: &mut Vec<Vec<Cell>>, sq: (i8, i8), piece: ChessPiece, side: Side) {
    grid[sq.1 as usize][sq.0 as usize].modify_cell(CellState::Piece(piece), Some(side));
}

#[test]
fn piece_symbols() {
    assert_eq!(ChessPiece::get_char(&ChessPiece::King, &Side::White), '\u{2654}');
    assert_eq!(ChessPiece::get_char(&ChessPiece::Rook, &Side::White), '\u{2656}');
    assert_eq!(ChessPiece::get_char(&ChessPiece::Pawn, &Side::Black), '\u{265F}');
    assert_eq!(ChessPiece::get_char(&ChessPiece::Queen, &Side::Black), '\u{265B}');
}

#[test]
fn material_prices() {
    assert_eq!(ChessPiece::get_material_price(&ChessPiece::Pawn), 50);
    assert_eq!(ChessPiece::get_material_price(&ChessPiece::Bishop), 250);
    assert_eq!(ChessPiece::get_material_price(&ChessPiece::Knight), 250);
    assert_eq!(ChessPiece::get_material_price(&ChessPiece::Rook), 400);
    assert_eq!(ChessPiece::get_material_price(&ChessPiece::Queen), 500);
    assert_eq!(ChessPiece::get_material_price(&ChessPiece::King), 1000);
}

#[test]
fn turns_alternate() {
    assert_eq!(swap_turn(Side::White), Side::Black);
    assert_eq!(swap_turn(Side::Black), Side::White);
    assert_eq!(side_value(Side::White), 1);
    assert_eq!(side_value(Side::Black), -1);
}

#[test]
fn rook_ray_stops_at_first_piece() {
    let mut grid = empty_grid();
    put(&mut grid, (3, 4), ChessPiece::Rook, Side::White);
    put(&mut grid, (3, 1), ChessPiece::Pawn, Side::Black);
    put(&mut grid, (5, 4), ChessPiece::Pawn, Side::White);
    let moves = ChessPiece::get_pseudolegal_moves(&grid, (3, 4), &ChessPiece::Rook, &Side::White);
    assert_eq!(
        moves,
        vec![
            (3, 3), (3, 2), (3, 1),
            (4, 4),
            (2, 4), (1, 4), (0, 4),
            (3, 5), (3, 6), (3, 7),
        ]
    );
}

#[test]
fn bishop_on_empty_corner() {
    let mut grid = empty_grid();
    put(&mut grid, (0, 0), ChessPiece::Bishop, Side::Black);
    let moves = ChessPiece::get_pseudolegal_moves(&grid, (0, 0), &ChessPiece::Bishop, &Side::Black);
    assert_eq!(moves, vec![(1, 1), (2, 2), (3, 3), (4, 4), (5, 5), (6, 6), (7, 7)]);
}

#[test]
fn queen_on_empty_board_reaches_twenty_seven_squares() {
    let mut grid = empty_grid();
    put(&mut grid, (3, 4), ChessPiece::Queen, Side::White);
    let moves = ChessPiece::get_pseudolegal_moves(&grid, (3, 4), &ChessPiece::Queen, &Side::White);
    assert_eq!(moves.len(), 27);
    assert_eq!(moves[0], (3, 3));
    assert!(!moves.contains(&(3, 4)));
}

#[test]
fn queen_ray_takes_opponent_and_stops() {
    let mut grid = empty_grid();
    put(&mut grid, (0, 7), ChessPiece::Queen, Side::White);
    put(&mut grid, (2, 5), ChessPiece::Knight, Side::Black);
    let moves = ChessPiece::get_pseudolegal_moves(&grid, (0, 7), &ChessPiece::Queen, &Side::White);
    assert!(moves.contains(&(1, 6)));
    assert!(moves.contains(&(2, 5)));
    assert!(!moves.contains(&(3, 4)));
}

#[test]
fn knight_moves_from_start_square() {
    let mut grid = empty_grid();
    put(&mut grid, (1, 7), ChessPiece::Knight, Side::White);
    put(&mut grid, (3, 6), ChessPiece::Pawn, Side::White);
    put(&mut grid, (2, 5), ChessPiece::Pawn, Side::Black);
    let moves = ChessPiece::get_pseudolegal_moves(&grid, (1, 7), &ChessPiece::Knight, &Side::White);
    assert_eq!(moves, vec![(0, 5), (2, 5)]);
}

#[test]
fn knight_moves_are_l_shaped() {
    let mut grid = empty_grid();
    put(&mut grid, (4, 4), ChessPiece::Knight, Side::Black);
    let moves = ChessPiece::get_pseudolegal_moves(&grid, (4, 4), &ChessPiece::Knight, &Side::Black);
    assert_eq!(moves.len(), 8);
    for (x, y) in moves {
        let dx = (x - 4).abs();
        let dy = (y - 4).abs();
        assert!((dx == 1 && dy == 2) || (dx == 2 && dy == 1));
    }
}

#[test]
fn king_moves_are_adjacent() {
    let mut grid = empty_grid();
    put(&mut grid, (4, 4), ChessPiece::King, Side::White);
    put(&mut grid, (5, 5), ChessPiece::Pawn, Side::White);
    put(&mut grid, (3, 3), ChessPiece::Pawn, Side::Black);
    let moves = ChessPiece::get_pseudolegal_moves(&grid, (4, 4), &ChessPiece::King, &Side::White);
    assert_eq!(moves.len(), 7);
    assert!(moves.contains(&(3, 3)));
    assert!(!moves.contains(&(5, 5)));
    for (x, y) in moves {
        let dx = (x - 4).abs();
        let dy = (y - 4).abs();
        assert!(dx <= 1 && dy <= 1 && !(dx == 0 && dy == 0));
    }
}

#[test]
fn king_in_corner() {
    let mut grid = empty_grid();
    put(&mut grid, (0, 0), ChessPiece::King, Side::Black);
    let moves = ChessPiece::get_pseudolegal_moves(&grid, (0, 0), &ChessPiece::King, &Side::Black);
    assert_eq!(moves, vec![(0, 1), (1, 0), (1, 1)]);
}

#[test]
fn king_never_lists_its_own_square() {
    let grid = empty_grid();
    let moves = ChessPiece::get_pseudolegal_moves(&grid, (2, 2), &ChessPiece::King, &Side::White);
    assert_eq!(moves.len(), 8);
    assert!(!moves.contains(&(2, 2)));
}

#[test]
fn pawn_single_step_forward() {
    let mut grid = empty_grid();
    put(&mut grid, (3, 6), ChessPiece::Pawn, Side::White);
    put(&mut grid, (5, 1), ChessPiece::Pawn, Side::Black);
    assert_eq!(
        ChessPiece::get_pseudolegal_moves(&grid, (3, 6), &ChessPiece::Pawn, &Side::White),
        vec![(3, 5)]
    );
    assert_eq!(
        ChessPiece::get_pseudolegal_moves(&grid, (5, 1), &ChessPiece::Pawn, &Side::Black),
        vec![(5, 2)]
    );
}

#[test]
fn pawn_blocked_by_own_side() {
    let mut grid = empty_grid();
    put(&mut grid, (3, 6), ChessPiece::Pawn, Side::White);
    put(&mut grid, (3, 5), ChessPiece::Bishop, Side::White);
    assert!(ChessPiece::get_pseudolegal_moves(&grid, (3, 6), &ChessPiece::Pawn, &Side::White).is_empty());
}

#[test]
fn pawn_forward_capture_allowed() {
    let mut grid = empty_grid();
    put(&mut grid, (3, 6), ChessPiece::Pawn, Side::White);
    put(&mut grid, (3, 5), ChessPiece::Rook, Side::Black);
    assert_eq!(
        ChessPiece::get_pseudolegal_moves(&grid, (3, 6), &ChessPiece::Pawn, &Side::White),
        vec![(3, 5)]
    );
}

#[test]
fn pawn_off_board_has_no_move() {
    let mut grid = empty_grid();
    put(&mut grid, (2, 0), ChessPiece::Pawn, Side::White);
    put(&mut grid, (6, 7), ChessPiece::Pawn, Side::Black);
    assert!(ChessPiece::get_pseudolegal_moves(&grid, (2, 0), &ChessPiece::Pawn, &Side::White).is_empty());
    assert!(ChessPiece::get_pseudolegal_moves(&grid, (6, 7), &ChessPiece::Pawn, &Side::Black).is_empty());
}
