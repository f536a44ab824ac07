use chess::board::{Board, BoardPiece, Cell, CellState, Move};
use chess::piece::{ChessPiece, Side};

fn blank_grid() -> Vec<Vec<Cell>> {
    let mut grid = Vec::new();
    for _ in 0..8 {
        let mut row = Vec::new();
        for _ in 0..8 {
            row.push(Cell::new());
        }
        grid.push(row);
    }
    grid
}

fn place(grid: &mut Vec<Vec<Cell>>, sq: (i8, i8), piece: ChessPiece, side: Side) {
    grid[sq.1 as usize][sq.0 as usize].modify_cell(CellState::Piece(piece), Some(side));
}

fn occupant(board: &Board, sq: (i8, i8)) -> Option<(ChessPiece, Side)> {
    board.get_board_state()[sq.1 as usize][sq.0 as usize].get_piece_side()
}

#[test]
fn start_position_layout() {
    let board = Board::new();
    assert_eq!(occupant(&board, (0, 0)), Some((ChessPiece::Rook, Side::Black)));
    assert_eq!(occupant(&board, (1, 0)), Some((ChessPiece::Knight, Side::Black)));
    assert_eq!(occupant(&board, (2, 0)), Some((ChessPiece::Bishop, Side::Black)));
    assert_eq!(occupant(&board, (3, 0)), Some((ChessPiece::Queen, Side::Black)));
    assert_eq!(occupant(&board, (4, 0)), Some((ChessPiece::King, Side::Black)));
    assert_eq!(occupant(&board, (5, 1)), Some((ChessPiece::Pawn, Side::Black)));
    assert_eq!(occupant(&board, (5, 6)), Some((ChessPiece::Pawn, Side::White)));
    assert_eq!(occupant(&board, (3, 7)), Some((ChessPiece::Queen, Side::White)));
    assert_eq!(occupant(&board, (4, 7)), Some((ChessPiece::King, Side::White)));
    assert_eq!(occupant(&board, (7, 7)), Some((ChessPiece::Rook, Side::White)));
    assert_eq!(occupant(&board, (4, 4)), None);
    assert_eq!(board.last_move, Move { from: (0, 0), to: (0, 0) });
}

#[test]
fn occupied_slots_of_start_position() {
    let board = Board::new();
    let slots = board.get_occupied_slots();
    assert_eq!(slots.len(), 8);
    for rank in 0..8 {
        for file in 0..8 {
            assert_eq!(slots[rank][file], rank <= 1 || rank >= 6);
        }
    }
}

#[test]
fn get_piece_reads_kind() {
    let board = Board::new();
    assert_eq!(Board::get_piece(board.get_board_state(), (3, 7)), Some(ChessPiece::Queen));
    assert_eq!(Board::get_piece(board.get_board_state(), (4, 7)), Some(ChessPiece::King));
    assert_eq!(Board::get_piece(board.get_board_state(), (4, 4)), None);
}

#[test]
fn cell_queries() {
    let mut cell = Cell::new();
    assert!(!cell.is_occupied());
    assert!(!cell.contains_opponents_piece(Side::White));
    assert!(!cell.has_piece_and_side_matches(Side::White));
    assert_eq!(cell.get_piece_side(), None);
    cell.modify_cell(CellState::Piece(ChessPiece::Knight), Some(Side::Black));
    assert!(cell.is_occupied());
    assert!(cell.contains_opponents_piece(Side::White));
    assert!(!cell.contains_opponents_piece(Side::Black));
    assert!(cell.has_piece_and_side_matches(Side::Black));
    assert!(!cell.has_piece_and_side_matches(Side::White));
    assert_eq!(cell.get_piece_side(), Some((ChessPiece::Knight, Side::Black)));
}

#[test]
fn pieces_of_a_side_row_by_row() {
    let board = Board::new();
    let white = board.get_sides_boardpieces(Side::White);
    assert_eq!(white.len(), 16);
    assert_eq!(white[0], BoardPiece { piece: ChessPiece::Pawn, side: Side::White, location: (0, 6) });
    assert_eq!(white[15], BoardPiece { piece: ChessPiece::Rook, side: Side::White, location: (7, 7) });
    let black = board.get_sides_boardpieces(Side::Black);
    assert_eq!(black.len(), 16);
    assert_eq!(black[0], BoardPiece { piece: ChessPiece::Rook, side: Side::Black, location: (0, 0) });
    assert_eq!(black[8], BoardPiece { piece: ChessPiece::Pawn, side: Side::Black, location: (0, 1) });
}

#[test]
fn all_moves_of_start_position() {
    let board = Board::new();
    let moves = board.get_all_moves_for_side(Side::White);
    assert_eq!(moves.len(), 12);
    assert_eq!(moves[0], Move { from: (0, 6), to: (0, 5) });
    assert_eq!(moves[7], Move { from: (7, 6), to: (7, 5) });
    assert_eq!(moves[8], Move { from: (1, 7), to: (0, 5) });
    assert_eq!(moves[9], Move { from: (1, 7), to: (2, 5) });
    assert_eq!(moves[10], Move { from: (6, 7), to: (5, 5) });
    assert_eq!(moves[11], Move { from: (6, 7), to: (7, 5) });
    let black = board.get_all_moves_for_side(Side::Black);
    assert_eq!(black.len(), 12);
    assert_eq!(black[0], Move { from: (1, 0), to: (0, 2) });
}

#[test]
fn material_weight_sums_prices() {
    assert_eq!(
        Board::evaluate_material_weight(vec![ChessPiece::Queen, ChessPiece::Pawn, ChessPiece::King]),
        1550
    );
    assert_eq!(Board::evaluate_material_weight(vec![]), 0);
}

#[test]
fn material_score_lone_white_pawn() {
    let mut grid = blank_grid();
    place(&mut grid, (3, 6), ChessPiece::Pawn, Side::White);
    assert_eq!(Board::evaluate_board_score(&grid, Side::White), 50);
    assert_eq!(Board::evaluate_board_score(&grid, Side::Black), -50);
}

#[test]
fn material_score_of_empty_and_balanced_boards() {
    assert_eq!(Board::evaluate_board_score(&blank_grid(), Side::White), 0);
    let board = Board::new();
    assert_eq!(Board::evaluate_board_score(board.get_board_state(), Side::White), 0);
}

#[test]
fn material_score_counts_all_material() {
    let mut grid = blank_grid();
    place(&mut grid, (0, 0), ChessPiece::Rook, Side::White);
    place(&mut grid, (1, 0), ChessPiece::Queen, Side::White);
    place(&mut grid, (7, 7), ChessPiece::Pawn, Side::Black);
    // (400 + 500 + 50) * (2 - 1)
    assert_eq!(Board::evaluate_board_score(&grid, Side::White), 950);
    assert_eq!(Board::evaluate_board_score(&grid, Side::Black), -950);
}

#[test]
fn pawn_d2_single_step_scenario() {
    let mut board = Board::new();
    let dests = ChessPiece::get_pseudolegal_moves(
        board.get_board_state(),
        (3, 6),
        &ChessPiece::Pawn,
        &Side::White,
    );
    assert_eq!(dests, vec![(3, 5)]);
    assert!(board.move_piece((3, 6), (3, 5)));
    assert_eq!(occupant(&board, (3, 6)), None);
    assert_eq!(occupant(&board, (3, 5)), Some((ChessPiece::Pawn, Side::White)));
    assert_eq!(board.last_move, Move { from: (3, 6), to: (3, 5) });
}

#[test]
fn illegal_move_leaves_board_unchanged() {
    let mut board = Board::new();
    let before = board.get_board_state().clone();
    assert!(!board.move_piece((3, 6), (3, 3)));
    assert!(!board.move_piece((4, 4), (4, 3)));
    assert!(!board.move_piece((0, 7), (0, 5)));
    assert_eq!(board.get_board_state(), &before);
    assert_eq!(board.last_move, Move { from: (0, 0), to: (0, 0) });
}

#[test]
fn move_piece_uses_the_pieces_own_side() {
    let mut board = Board::new();
    assert!(board.move_piece((4, 1), (4, 2)));
    assert_eq!(occupant(&board, (4, 2)), Some((ChessPiece::Pawn, Side::Black)));
    assert_eq!(occupant(&board, (4, 1)), None);
}

#[test]
fn make_move_skips_the_rules() {
    let mut board = Board::new();
    assert!(board.make_move(&Move { from: (0, 7), to: (4, 4) }));
    assert_eq!(occupant(&board, (4, 4)), Some((ChessPiece::Rook, Side::White)));
    assert_eq!(occupant(&board, (0, 7)), None);
    assert_eq!(board.last_move, Move { from: (0, 0), to: (0, 0) });
    assert!(!board.make_move(&Move { from: (3, 3), to: (3, 4) }));
}

#[test]
fn unmake_move_restores_a_quiet_move() {
    let mut board = Board::new();
    let m = Move { from: (6, 7), to: (5, 5) };
    let before = board.get_board_state().clone();
    assert!(board.make_move(&m));
    assert!(board.unmake_move(&m));
    assert_eq!(board.get_board_state(), &before);
}

#[test]
fn unmake_move_from_empty_square_fails() {
    let mut board = Board::new();
    assert!(!board.unmake_move(&Move { from: (3, 6), to: (3, 4) }));
}

#[test]
fn capture_then_undo_loses_pawn() {
    let mut board = Board::new();
    // clear the rook's file of its own pawn without the rules check
    assert!(board.make_move(&Move { from: (0, 6), to: (1, 5) }));
    let capture = Move { from: (0, 7), to: (0, 1) };
    assert!(board.move_piece(capture.from, capture.to));
    assert_eq!(occupant(&board, (0, 1)), Some((ChessPiece::Rook, Side::White)));
    assert!(board.unmake_move(&capture));
    assert_eq!(occupant(&board, (0, 7)), Some((ChessPiece::Rook, Side::White)));
    assert_eq!(occupant(&board, (0, 1)), None);
    assert_eq!(board.get_sides_boardpieces(Side::Black).len(), 15);
}
