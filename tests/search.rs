use chess::board::{Board, Cell, CellState, Move};
use chess::minimax::{best_move_from, minimax, opponents_turn, MoveRating, SearchStats};
use chess::piece::{ChessPiece, Side};

fn grid_with(pieces: &[((i8, i8), ChessPiece, Side)]) -> Vec<Vec<Cell>> {
    let mut grid = Vec::new();
    for _ in 0..8 {
        let mut row = Vec::new();
        for _ in 0..8 {
            row.push(Cell::new());
        }
        grid.push(row);
    }
    for (sq, piece, side) in pieces {
        grid[sq.1 as usize][sq.0 as usize].modify_cell(CellState::Piece(*piece), Some(*side));
    }
    grid
}

fn rated(rating: i32, file: i8) -> MoveRating {
    MoveRating { from: (file, 0), to: (file, 1), rating }
}

#[test]
fn selection_maximises_for_white() {
    let moves = vec![rated(3, 0), rated(7, 1), rated(7, 2), rated(1, 3)];
    let best = best_move_from(moves, 0, Side::White);
    assert_eq!(best, rated(7, 1));
}

#[test]
fn selection_minimises_for_black() {
    let moves = vec![rated(3, 0), rated(7, 1), rated(7, 2), rated(1, 3)];
    let best = best_move_from(moves, 1, Side::Black);
    assert_eq!(best, rated(1, 3));
}

#[test]
fn selection_keeps_start_on_ties() {
    let moves = vec![rated(3, 0), rated(7, 1), rated(7, 2), rated(1, 3)];
    assert_eq!(best_move_from(moves.clone(), 2, Side::White), rated(7, 2));
    assert_eq!(best_move_from(moves, 1, Side::White), rated(7, 1));
}

#[test]
fn search_depth_zero_returns_negated_score() {
    let mut board = Board::new();
    // a White pawn takes a Black pawn without the rules check
    assert!(board.make_move(&Move { from: (0, 6), to: (0, 1) }));
    let expected = -Board::evaluate_board_score(board.get_board_state(), Side::White);
    assert_eq!(expected, -7350);
    let before = board.get_board_state().clone();
    let mut stats = SearchStats::new();
    let last = Move { from: (1, 2), to: (3, 4) };
    let r = minimax(0, &last, Side::White, &mut board, &mut stats);
    assert_eq!(r, MoveRating { from: (1, 2), to: (3, 4), rating: -7350 });
    assert_eq!(board.get_board_state(), &before);
    assert_eq!(stats.minimax_calls, 1);
    assert_eq!(stats.evaluated_moves, 1);
}

#[test]
fn search_depth_one_takes_the_pawn() {
    let grid = grid_with(&[
        ((0, 3), ChessPiece::Rook, Side::White),
        ((0, 7), ChessPiece::Pawn, Side::Black),
        ((5, 2), ChessPiece::Pawn, Side::Black),
    ]);
    let mut board = Board { board: grid, last_move: Move { from: (0, 0), to: (0, 0) } };
    let mut stats = SearchStats::new();
    let r = minimax(1, &Move { from: (0, 0), to: (0, 0) }, Side::White, &mut board, &mut stats);
    // every quiet move rates (400 + 50 + 50) * (1 - 2) = -500; the capture,
    // searched last, rates 450 * 0 = 0
    assert_eq!(r, MoveRating { from: (0, 3), to: (0, 7), rating: 0 });
    assert_eq!(stats.evaluated_moves, 14);
    assert_eq!(stats.minimax_calls, 15);
    // taking the capture back lost the pawn on the search's board
    assert_eq!(board.get_board_state()[7][0].get_piece_side(), None);
    assert_eq!(
        board.get_board_state()[3][0].get_piece_side(),
        Some((ChessPiece::Rook, Side::White))
    );
}

#[test]
fn search_without_moves_returns_blank() {
    let grid = grid_with(&[((4, 4), ChessPiece::Pawn, Side::Black)]);
    let mut board = Board { board: grid, last_move: Move { from: (0, 0), to: (0, 0) } };
    let mut stats = SearchStats::new();
    let r = minimax(3, &Move { from: (1, 1), to: (2, 2) }, Side::White, &mut board, &mut stats);
    assert_eq!(r, MoveRating { from: (0, 0), to: (0, 0), rating: 0 });
    assert_eq!(stats.minimax_calls, 1);
    assert_eq!(stats.evaluated_moves, 0);
}

#[test]
fn opponent_plays_its_only_move() {
    let grid = grid_with(&[
        ((0, 1), ChessPiece::Pawn, Side::Black),
        ((7, 6), ChessPiece::Pawn, Side::White),
    ]);
    let mut board = Board { board: grid, last_move: Move { from: (7, 7), to: (7, 6) } };
    let simulated = board.clone();
    let mut stats = SearchStats::new();
    let next = opponents_turn(&mut board, simulated, Side::Black, &mut stats);
    assert_eq!(next, Side::White);
    assert_eq!(board.get_board_state()[1][0].get_piece_side(), None);
    assert_eq!(
        board.get_board_state()[2][0].get_piece_side(),
        Some((ChessPiece::Pawn, Side::Black))
    );
    assert_eq!(board.last_move, Move { from: (0, 1), to: (0, 2) });
    assert!(stats.minimax_calls > 0);
    assert!(stats.evaluated_moves > 0);
}

#[test]
fn opponent_without_moves_leaves_board() {
    let grid = grid_with(&[((4, 4), ChessPiece::Pawn, Side::White)]);
    let mut board = Board { board: grid, last_move: Move { from: (4, 5), to: (4, 4) } };
    let before = board.get_board_state().clone();
    let simulated = board.clone();
    let mut stats = SearchStats::new();
    let next = opponents_turn(&mut board, simulated, Side::Black, &mut stats);
    assert_eq!(next, Side::White);
    assert_eq!(board.get_board_state(), &before);
    assert_eq!(board.last_move, Move { from: (0, 0), to: (0, 0) });
    assert_eq!(stats.minimax_calls, 1);
}
