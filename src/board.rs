//! The 8x8 board: cells, moves, move application and material evaluation.
use vstd::prelude::*;

use crate::movement::{lemma_div_mod_8, on_board};
use crate::piece::{
    lemma_pseudo_moves_on_board,
    piece_value,
    pseudo_moves,
    side_sign,
    side_value,
    ChessPiece,
    Side,
};

verus! {

/// What a cell holds.
#[derive(Clone, Copy, Debug, PartialEq, Eq, Structural)]
pub enum CellState {
    Empty,
    Piece(ChessPiece),
}

/// One square of the board: the piece on it, if any, and that piece's side.
#[derive(Clone, Copy, Debug, PartialEq, Eq, Structural)]
pub struct Cell {
    pub state: CellState,
    pub side: Option<Side>,
}

/// A cell holds a side exactly when it holds a piece.
pub open spec fn cell_wf(c: Cell) -> bool {
    (c.state is Piece) == (c.side is Some)
}

/// The piece and side on a cell, when it holds both.
pub open spec fn occupant(c: Cell) -> Option<(ChessPiece, Side)> {
    match (c.state, c.side) {
        (CellState::Piece(p), Some(s)) => Some((p, s)),
        _ => None,
    }
}

/// The cell holds a piece of the side other than `side`.
pub open spec fn is_opponent_cell(c: Cell, side: Side) -> bool {
    match c.side {
        Some(s) => s != side,
        None => false,
    }
}

/// The rows of a grid of cells, as sequences.
pub open spec fn view_grid(b: &Vec<Vec<Cell>>) -> Seq<Seq<Cell>> {
    b@.map_values(|row: Vec<Cell>| row@)
}

/// Eight rows of eight cells.
pub open spec fn grid_dims(g: Seq<Seq<Cell>>) -> bool {
    &&& g.len() == 8
    &&& forall|r: int| 0 <= r < 8 ==> (#[trigger] g[r]).len() == 8
}

/// Eight rows of eight cells, each holding a side exactly when it holds a piece.
pub open spec fn grid_wf(g: Seq<Seq<Cell>>) -> bool {
    &&& grid_dims(g)
    &&& forall|r: int, f: int| 0 <= r < 8 && 0 <= f < 8 ==> cell_wf(#[trigger] g[r][f])
}

/// The cell of a grid at square `(file, rank)`.
pub open spec fn cell_at(g: Seq<Seq<Cell>>, sq: (i8, i8)) -> Cell {
    g[sq.1 as int][sq.0 as int]
}

pub open spec fn occupied_at(g: Seq<Seq<Cell>>, sq: (i8, i8)) -> bool {
    cell_at(g, sq).state is Piece
}

pub open spec fn opponent_at(g: Seq<Seq<Cell>>, sq: (i8, i8), side: Side) -> bool {
    is_opponent_cell(cell_at(g, sq), side)
}

/// Reads the cell at an on-board square.
pub fn cell_of(board: &Vec<Vec<Cell>>, sq: (i8, i8)) -> (c: Cell)
    requires
        grid_dims(view_grid(board)),
        on_board(sq),
    ensures
        c == cell_at(view_grid(board), sq),
{
    assert(view_grid(board)[sq.1 as int] == board@[sq.1 as int]@);
    board[sq.1 as usize][sq.0 as usize]
}

impl Cell {
    /// An empty cell.
    pub fn new() -> (c: Cell)
        ensures
            c.state == CellState::Empty,
            c.side == None::<Side>,
    {
        Cell { state: CellState::Empty, side: None }
    }

    pub fn modify_cell(&mut self, state: CellState, side: Option<Side>)
        ensures
            final(self).state == state,
            final(self).side == side,
    {
        self.state = state;
        self.side = side;
    }

    /// Whether the cell holds a piece of the side other than `whose_turn`.
    pub fn contains_opponents_piece(&self, whose_turn: Side) -> (r: bool)
        ensures
            r == is_opponent_cell(*self, whose_turn),
    {
        if let Some(side) = self.side {
            if side != whose_turn {
                return true;
            }
        }
        false
    }

    /// Whether the cell holds a piece of side `side`.
    pub fn has_piece_and_side_matches(&self, side: Side) -> (r: bool)
        ensures
            r == (self.state is Piece && self.side == Some(side)),
    {
        if let CellState::Piece(_) = self.state {
            if let Some(self_side) = self.side {
                return Self::sides_match(self_side, side);
            }
        }
        false
    }

    fn sides_match(self_side: Side, side: Side) -> (r: bool)
        ensures
            r == (self_side == side),
    {
        if self_side != side {
            return false;
        }
        true
    }

    pub fn is_occupied(&self) -> (r: bool)
        ensures
            r == (self.state is Piece),
    {
        match self.state {
            CellState::Piece(_) => true,
            CellState::Empty => false,
        }
    }

    pub fn get_piece_side(&self) -> (r: Option<(ChessPiece, Side)>)
        ensures
            r == occupant(*self),
    {
        match self.state {
            CellState::Piece(piece) => {
                match self.side {
                    Some(side) => Some((piece, side)),
                    None => None,
                }
            },
            CellState::Empty => None,
        }
    }
}

/// A move from one square to another. It records nothing else: not the
/// piece taken, if any.
#[derive(Clone, Copy, Debug, PartialEq, Eq)]
pub struct Move {
    pub from: (i8, i8),
    pub to: (i8, i8),
}

/// A piece on the board, with its side and square.
#[derive(Clone, Copy, Debug, PartialEq, Eq)]
pub struct BoardPiece {
    pub piece: ChessPiece,
    pub side: Side,
    pub location: (i8, i8),
}

/// What the material evaluation reads off a grid.
struct BoardEvaluationInfo {
    pieces: Vec<ChessPiece>,
    white_pieces: u8,
    black_pieces: u8,
}

/// The game board: the grid of cells, row by row from rank 0, and the last
/// move that was played on it.
#[derive(Clone)]
pub struct Board {
    pub board: Vec<Vec<Cell>>,
    pub last_move: Move,
}

// ---------------------------------------------------------------------------
// The model of a grid.

/// The grid with cell `c` placed at `sq`.
pub open spec fn set_at(g: Seq<Seq<Cell>>, sq: (i8, i8), c: Cell) -> Seq<Seq<Cell>> {
    g.update(sq.1 as int, g[sq.1 as int].update(sq.0 as int, c))
}

pub open spec fn empty_cell() -> Cell {
    Cell { state: CellState::Empty, side: None }
}

/// The grid after the piece on `from` is moved to `to`: `from` is emptied
/// and `to` receives the piece and its side, whatever it held before.
pub open spec fn moved_grid(g: Seq<Seq<Cell>>, from: (i8, i8), to: (i8, i8)) -> Seq<Seq<Cell>> {
    set_at(set_at(g, from, empty_cell()), to, cell_at(g, from))
}

/// Moving without a rules check: done when `m.from` holds a piece, and the
/// grid is left as it is otherwise. The second part tells which.
pub open spec fn apply_move(g: Seq<Seq<Cell>>, m: Move) -> (Seq<Seq<Cell>>, bool) {
    if cell_at(g, m.from).side is Some && cell_at(g, m.from).state is Piece {
        (moved_grid(g, m.from, m.to), true)
    } else {
        (g, false)
    }
}

/// The move that takes a piece back from `m.to` to `m.from`.
pub open spec fn reverse(m: Move) -> Move {
    Move { from: m.to, to: m.from }
}

/// `to` is a pseudo-legal destination of the piece on `from`, for the side
/// that piece belongs to.
pub open spec fn move_allowed(g: Seq<Seq<Cell>>, from: (i8, i8), to: (i8, i8)) -> bool {
    match occupant(cell_at(g, from)) {
        Some((piece, side)) => pseudo_moves(g, from, piece, side).contains(to),
        None => false,
    }
}

/// The `k`-th square when the board is read row by row.
pub open spec fn row_major_square(k: int) -> (i8, i8) {
    ((k % 8) as i8, (k / 8) as i8)
}

/// The pieces of `side` among the first `n` squares read row by row.
pub open spec fn side_pieces(g: Seq<Seq<Cell>>, side: Side, n: nat) -> Seq<BoardPiece>
    decreases n,
{
    if n == 0 {
        seq![]
    } else {
        let prev = side_pieces(g, side, (n - 1) as nat);
        let sq = row_major_square(n - 1);
        let c = cell_at(g, sq);
        match c.state {
            CellState::Piece(piece) => if c.side == Some(side) {
                prev.push(BoardPiece { piece, side, location: sq })
            } else {
                prev
            },
            CellState::Empty => prev,
        }
    }
}

/// The moves of the given pieces, piece by piece, each in the order its
/// destinations are generated.
pub open spec fn moves_of(g: Seq<Seq<Cell>>, pieces: Seq<BoardPiece>) -> Seq<Move>
    decreases pieces.len(),
{
    if pieces.len() == 0 {
        seq![]
    } else {
        let bp = pieces.last();
        moves_of(g, pieces.drop_last()) + pseudo_moves(g, bp.location, bp.piece, bp.side).map_values(
            |t: (i8, i8)| Move { from: bp.location, to: t },
        )
    }
}

/// Every pseudo-legal move of `side`.
pub open spec fn all_moves(g: Seq<Seq<Cell>>, side: Side) -> Seq<Move> {
    moves_of(g, side_pieces(g, side, 64))
}

/// The kinds of the pieces among the first `n` squares read row by row.
pub open spec fn grid_pieces(g: Seq<Seq<Cell>>, n: nat) -> Seq<ChessPiece>
    decreases n,
{
    if n == 0 {
        seq![]
    } else {
        let prev = grid_pieces(g, (n - 1) as nat);
        match cell_at(g, row_major_square(n - 1)).state {
            CellState::Piece(piece) => prev.push(piece),
            CellState::Empty => prev,
        }
    }
}

/// How many of the first `n` squares read row by row carry side `side`.
pub open spec fn side_count(g: Seq<Seq<Cell>>, side: Side, n: nat) -> nat
    decreases n,
{
    if n == 0 {
        0
    } else {
        side_count(g, side, (n - 1) as nat) + if cell_at(g, row_major_square(n - 1)).side == Some(
            side,
        ) {
            1nat
        } else {
            0nat
        }
    }
}

/// Total material value of a list of pieces.
pub open spec fn material(pieces: Seq<ChessPiece>) -> int
    decreases pieces.len(),
{
    if pieces.len() == 0 {
        0
    } else {
        material(pieces.drop_last()) + piece_value(pieces.last())
    }
}

/// The score of a grid for `side`: the material of every piece on the board,
/// times White's piece count less Black's, times the sign of `side`.
pub open spec fn board_score(g: Seq<Seq<Cell>>, side: Side) -> int {
    material(grid_pieces(g, 64)) * (side_count(g, Side::White, 64) - side_count(
        g,
        Side::Black,
        64,
    )) * side_sign(side)
}

/// The back rank from file 0 to file 7: Rook, Knight, Bishop, Queen, King,
/// Bishop, Knight, Rook.
pub open spec fn back_rank_piece(file: int) -> ChessPiece {
    if file == 0 || file == 7 {
        ChessPiece::Rook
    } else if file == 1 || file == 6 {
        ChessPiece::Knight
    } else if file == 2 || file == 5 {
        ChessPiece::Bishop
    } else if file == 3 {
        ChessPiece::Queen
    } else {
        ChessPiece::King
    }
}

/// The cell at `(file, rank)` in the starting position: Black on ranks 0
/// and 1, White on ranks 6 and 7, pawns on the inner two of those ranks.
pub open spec fn start_cell(file: int, rank: int) -> Cell {
    if rank == 0 {
        Cell { state: CellState::Piece(back_rank_piece(file)), side: Some(Side::Black) }
    } else if rank == 1 {
        Cell { state: CellState::Piece(ChessPiece::Pawn), side: Some(Side::Black) }
    } else if rank == 6 {
        Cell { state: CellState::Piece(ChessPiece::Pawn), side: Some(Side::White) }
    } else if rank == 7 {
        Cell { state: CellState::Piece(back_rank_piece(file)), side: Some(Side::White) }
    } else {
        empty_cell()
    }
}

pub open spec fn start_grid() -> Seq<Seq<Cell>> {
    Seq::new(8, |rank: int| Seq::new(8, |file: int| start_cell(file, rank)))
}

/// The ranks filled after `stage` of the four rows of the starting position
/// have been placed, in the order 0, 7, 1, 6.
pub open spec fn rank_placed(stage: int, rank: int) -> bool {
    (stage > 0 && rank == 0) || (stage > 1 && rank == 7) || (stage > 2 && rank == 1) || (stage > 3
        && rank == 6)
}

// ---------------------------------------------------------------------------
// Lemmas on the model.

/// The first `n` squares read row by row, for `n` up to 64, are on the board.
pub proof fn lemma_row_major_on_board(k: int)
    requires
        0 <= k < 64,
    ensures
        on_board(row_major_square(k)),
        row_major_square(k).0 == k % 8,
        row_major_square(k).1 == k / 8,
{
}

/// The pieces that `side_pieces` lists stand where the grid holds them.
pub proof fn lemma_side_pieces_members(g: Seq<Seq<Cell>>, side: Side, n: nat)
    requires
        n <= 64,
    ensures
        side_pieces(g, side, n).len() <= n,
        forall|j: int|
            0 <= j < side_pieces(g, side, n).len() ==> {
                let bp = #[trigger] side_pieces(g, side, n)[j];
                &&& on_board(bp.location)
                &&& bp.side == side
                &&& cell_at(g, bp.location).state == CellState::Piece(bp.piece)
                &&& cell_at(g, bp.location).side == Some(side)
            },
    decreases n,
{
    if n > 0 {
        lemma_side_pieces_members(g, side, (n - 1) as nat);
        lemma_row_major_on_board(n - 1);
    }
}

/// Every move listed for a list of pieces on the board goes from a square
/// on the board to a square on the board.
pub proof fn lemma_moves_of_on_board(g: Seq<Seq<Cell>>, pieces: Seq<BoardPiece>)
    requires
        forall|j: int| 0 <= j < pieces.len() ==> on_board(#[trigger] pieces[j].location),
    ensures
        forall|j: int|
            0 <= j < moves_of(g, pieces).len() ==> on_board((#[trigger] moves_of(g, pieces)[j]).from)
                && on_board(moves_of(g, pieces)[j].to),
    decreases pieces.len(),
{
    if pieces.len() > 0 {
        let bp = pieces.last();
        assert(on_board(pieces[pieces.len() - 1].location));
        lemma_moves_of_on_board(g, pieces.drop_last());
        lemma_pseudo_moves_on_board(g, bp.location, bp.piece, bp.side);
        let prev = moves_of(g, pieces.drop_last());
        let tail = pseudo_moves(g, bp.location, bp.piece, bp.side).map_values(
            |t: (i8, i8)| Move { from: bp.location, to: t },
        );
        assert(moves_of(g, pieces) == prev + tail);
        assert forall|j: int| 0 <= j < moves_of(g, pieces).len() implies on_board(
            (#[trigger] moves_of(g, pieces)[j]).from,
        ) && on_board(moves_of(g, pieces)[j].to) by {
            if j >= prev.len() {
                let k = j - prev.len();
                assert(moves_of(g, pieces)[j] == tail[k]);
                assert(tail[k].to == pseudo_moves(g, bp.location, bp.piece, bp.side)[k]);
            } else {
                assert(moves_of(g, pieces)[j] == prev[j]);
            }
        }
    }
}

/// Every move of a side goes from a square on the board to a square on the
/// board.
pub proof fn lemma_all_moves_on_board(g: Seq<Seq<Cell>>, side: Side)
    ensures
        forall|j: int|
            0 <= j < all_moves(g, side).len() ==> on_board((#[trigger] all_moves(g, side)[j]).from)
                && on_board(all_moves(g, side)[j].to),
{
    lemma_side_pieces_members(g, side, 64);
    let ps = side_pieces(g, side, 64);
    assert forall|j: int| 0 <= j < ps.len() implies on_board(#[trigger] ps[j].location) by {
        assert(on_board(ps[j].location));
    }
    lemma_moves_of_on_board(g, ps);
}

/// The counts behind the score stay within the number of squares read.
pub proof fn lemma_counts_bounded(g: Seq<Seq<Cell>>, n: nat)
    ensures
        grid_pieces(g, n).len() <= n,
        side_count(g, Side::White, n) <= n,
        side_count(g, Side::Black, n) <= n,
    decreases n,
{
    if n > 0 {
        lemma_counts_bounded(g, (n - 1) as nat);
    }
}

/// Material lies between nothing and a king's value per piece.
pub proof fn lemma_material_bounded(pieces: Seq<ChessPiece>)
    ensures
        0 <= material(pieces) <= 1000 * pieces.len(),
    decreases pieces.len(),
{
    if pieces.len() > 0 {
        lemma_material_bounded(pieces.drop_last());
    }
}

/// The material of a prefix never exceeds the whole.
pub proof fn lemma_material_prefix(pieces: Seq<ChessPiece>, i: int)
    requires
        0 <= i <= pieces.len(),
    ensures
        material(pieces.take(i)) <= material(pieces),
    decreases pieces.len(),
{
    if i < pieces.len() {
        assert(pieces.drop_last().take(i) == pieces.take(i));
        lemma_material_prefix(pieces.drop_last(), i);
    } else {
        assert(pieces.take(i) == pieces);
    }
}

/// The score of a grid stays well inside the range of `i32`.
pub proof fn lemma_board_score_bounded(g: Seq<Seq<Cell>>, side: Side)
    ensures
        -4096000 <= board_score(g, side) <= 4096000,
{
    lemma_counts_bounded(g, 64);
    lemma_material_bounded(grid_pieces(g, 64));
    let m = material(grid_pieces(g, 64));
    let d = side_count(g, Side::White, 64) - side_count(g, Side::Black, 64);
    assert(-4096000 <= m * d <= 4096000) by (nonlinear_arith)
        requires
            0 <= m <= 64000,
            -64 <= d <= 64,
    ;
}

/// Placing a well-formed cell on the board keeps the grid well formed.
pub proof fn lemma_set_at_wf(g: Seq<Seq<Cell>>, sq: (i8, i8), c: Cell)
    requires
        grid_wf(g),
        on_board(sq),
        cell_wf(c),
    ensures
        grid_wf(set_at(g, sq, c)),
{
    let g2 = set_at(g, sq, c);
    assert forall|r: int| 0 <= r < 8 implies (#[trigger] g2[r]).len() == 8 by {
        if r != sq.1 {
            assert(g2[r] == g[r]);
        }
    }
    assert forall|r: int, f: int| 0 <= r < 8 && 0 <= f < 8 implies cell_wf(#[trigger] g2[r][f]) by {
        if r != sq.1 {
            assert(g2[r] == g[r]);
        }
    }
}

/// A move between squares on the board keeps the grid well formed.
pub proof fn lemma_apply_move_wf(g: Seq<Seq<Cell>>, m: Move)
    requires
        grid_wf(g),
        on_board(m.from),
        on_board(m.to),
    ensures
        grid_wf(apply_move(g, m).0),
{
    if apply_move(g, m).1 {
        lemma_set_at_wf(g, m.from, empty_cell());
        lemma_set_at_wf(set_at(g, m.from, empty_cell()), m.to, cell_at(g, m.from));
    }
}

// ---------------------------------------------------------------------------
// Executable grid access.

/// Writes the cell at an on-board square.
fn set_cell(board: &mut Vec<Vec<Cell>>, sq: (i8, i8), c: Cell)
    requires
        grid_dims(view_grid(old(board))),
        on_board(sq),
    ensures
        view_grid(final(board)) == set_at(view_grid(old(board)), sq, c),
{
    let ghost g = view_grid(board);
    assert(g[sq.1 as int] == board@[sq.1 as int]@);
    board[sq.1 as usize][sq.0 as usize] = c;
    assert(view_grid(board) =~= set_at(g, sq, c)) by {
        assert forall|r: int| 0 <= r < 8 implies #[trigger] view_grid(board)[r] == set_at(
            g,
            sq,
            c,
        )[r] by {
            if r == sq.1 {
                assert(view_grid(board)[r] =~= set_at(g, sq, c)[r]);
            }
        }
    }
}

/// Whether a list of squares holds `to`.
fn contains_square(squares: &Vec<(i8, i8)>, to: (i8, i8)) -> (r: bool)
    ensures
        r == squares@.contains(to),
{
    let mut i: usize = 0;
    while i < squares.len()
        invariant
            i <= squares@.len(),
            forall|j: int| 0 <= j < i ==> squares@[j] != to,
        decreases squares@.len() - i,
    {
        let sq = squares[i];
        if sq.0 == to.0 && sq.1 == to.1 {
            return true;
        }
        i += 1;
    }
    false
}

/// Moving a piece relocates it whole: the destination then holds the
/// piece and side that stood on the origin, the origin is empty (unless it
/// is the destination), and every other cell is as it was.
pub proof fn lemma_moved_grid_relocates(g: Seq<Seq<Cell>>, from: (i8, i8), to: (i8, i8))
    requires
        grid_dims(g),
        on_board(from),
        on_board(to),
    ensures
        grid_dims(moved_grid(g, from, to)),
        cell_at(moved_grid(g, from, to), to) == cell_at(g, from),
        from != to ==> cell_at(moved_grid(g, from, to), from) == empty_cell(),
        forall|sq: (i8, i8)|
            on_board(sq) && sq != from && sq != to ==> #[trigger] cell_at(moved_grid(g, from, to), sq)
                == cell_at(g, sq),
{
    let g1 = set_at(g, from, empty_cell());
    assert(g1[from.1 as int].len() == 8);
    assert forall|r: int| 0 <= r < 8 implies (#[trigger] moved_grid(g, from, to)[r]).len() == 8 by {
        assert(g1[r].len() == 8);
    }
    if from != to {
        if from.1 == to.1 {
            assert(from.0 != to.0);
        }
    }
}

/// Taking back a capture does not bring the captured piece back: after a
/// move onto an occupied square and the reverse move, the mover stands on
/// its origin again, the square it captured on is empty, and every other
/// cell is as it was.
pub proof fn lemma_undo_loses_capture(g: Seq<Seq<Cell>>, m: Move)
    requires
        grid_wf(g),
        on_board(m.from),
        on_board(m.to),
        m.from != m.to,
        occupied_at(g, m.from),
        occupied_at(g, m.to),
    ensures
        apply_move(g, m).1,
        apply_move(apply_move(g, m).0, reverse(m)).1,
        cell_at(apply_move(apply_move(g, m).0, reverse(m)).0, m.from) == cell_at(g, m.from),
        cell_at(apply_move(apply_move(g, m).0, reverse(m)).0, m.to) == empty_cell(),
        forall|sq: (i8, i8)|
            on_board(sq) && sq != m.from && sq != m.to ==> #[trigger] cell_at(
                apply_move(apply_move(g, m).0, reverse(m)).0,
                sq,
            ) == cell_at(g, sq),
{
    assert(cell_wf(g[m.from.1 as int][m.from.0 as int]));
    lemma_moved_grid_relocates(g, m.from, m.to);
    let g1 = moved_grid(g, m.from, m.to);
    lemma_moved_grid_relocates(g1, m.to, m.from);
}

impl Board {
    /// The cells, row by row from rank 0.
    pub open spec fn grid(&self) -> Seq<Seq<Cell>> {
        view_grid(&self.board)
    }

    /// Eight rows of eight cells, each holding a side exactly when it holds
    /// a piece.
    pub open spec fn wf(&self) -> bool {
        grid_wf(self.grid())
    }

    /// Places the two back ranks and the two pawn ranks on an empty grid.
    fn add_pieces(&mut self)
        requires
            grid_wf(old(self).grid()),
            forall|r: int, f: int|
                0 <= r < 8 && 0 <= f < 8 ==> #[trigger] old(self).grid()[r][f] == empty_cell(),
        ensures
            grid_wf(final(self).grid()),
            forall|r: int, f: int|
                0 <= r < 8 && 0 <= f < 8 ==> #[trigger] final(self).grid()[r][f] == start_cell(f, r),
            final(self).last_move == old(self).last_move,
    {
        let main_pieces_order: [ChessPiece; 8] = [
            ChessPiece::Rook,
            ChessPiece::Knight,
            ChessPiece::Bishop,
            ChessPiece::Queen,
            ChessPiece::King,
            ChessPiece::Bishop,
            ChessPiece::Knight,
            ChessPiece::Rook,
        ];
        let pawn_rows: [(Side, i8); 2] = [(Side::Black, 1), (Side::White, 6)];
        let main_rows: [(Side, i8); 2] = [(Side::Black, 0), (Side::White, 7)];
        assert forall|f: int| 0 <= f < 8 implies #[trigger] main_pieces_order@[f] == back_rank_piece(
            f,
        ) by {}
        for k in 0usize..2
            invariant
                forall|f: int| 0 <= f < 8 ==> #[trigger] main_pieces_order@[f] == back_rank_piece(f),
                main_rows@ == seq![(Side::Black, 0i8), (Side::White, 7i8)],
                grid_wf(self.grid()),
                forall|r: int, f: int|
                    0 <= r < 8 && 0 <= f < 8 ==> #[trigger] self.grid()[r][f] == if rank_placed(
                        k as int,
                        r,
                    ) {
                        start_cell(f, r)
                    } else {
                        empty_cell()
                    },
                self.last_move == old(self).last_move,
        {
            let (side, row_i) = main_rows[k];
            for i in 0i8..8
                invariant
                    0 <= k < 2,
                    forall|f: int| 0 <= f < 8 ==> #[trigger] main_pieces_order@[f] == back_rank_piece(f),
                    main_rows@ == seq![(Side::Black, 0i8), (Side::White, 7i8)],
                    (side, row_i) == main_rows@[k as int],
                    grid_wf(self.grid()),
                    forall|r: int, f: int|
                        0 <= r < 8 && 0 <= f < 8 ==> #[trigger] self.grid()[r][f] == if rank_placed(
                            k as int,
                            r,
                        ) || (r == row_i && f < i) {
                            start_cell(f, r)
                        } else {
                            empty_cell()
                        },
                    self.last_move == old(self).last_move,
            {
                let c = Cell { state: CellState::Piece(main_pieces_order[i as usize]), side: Some(side) };
                proof {
                    lemma_set_at_wf(self.grid(), (i, row_i), c);
                }
                set_cell(&mut self.board, (i, row_i), c);
            }
        }
        for k in 0usize..2
            invariant
                pawn_rows@ == seq![(Side::Black, 1i8), (Side::White, 6i8)],
                grid_wf(self.grid()),
                forall|r: int, f: int|
                    0 <= r < 8 && 0 <= f < 8 ==> #[trigger] self.grid()[r][f] == if rank_placed(
                        k + 2,
                        r,
                    ) {
                        start_cell(f, r)
                    } else {
                        empty_cell()
                    },
                self.last_move == old(self).last_move,
        {
            let (side, row_i) = pawn_rows[k];
            for i in 0i8..8
                invariant
                    0 <= k < 2,
                    pawn_rows@ == seq![(Side::Black, 1i8), (Side::White, 6i8)],
                    (side, row_i) == pawn_rows@[k as int],
                    grid_wf(self.grid()),
                    forall|r: int, f: int|
                        0 <= r < 8 && 0 <= f < 8 ==> #[trigger] self.grid()[r][f] == if rank_placed(
                            k + 2,
                            r,
                        ) || (r == row_i && f < i) {
                            start_cell(f, r)
                        } else {
                            empty_cell()
                        },
                    self.last_move == old(self).last_move,
            {
                let c = Cell { state: CellState::Piece(ChessPiece::Pawn), side: Some(side) };
                proof {
                    lemma_set_at_wf(self.grid(), (i, row_i), c);
                }
                set_cell(&mut self.board, (i, row_i), c);
            }
        }
    }

    /// A board in the starting position, with no move played yet (the last
    /// move reads `(0, 0)` to `(0, 0)`).
    pub fn new() -> (b: Board)
        ensures
            b.wf(),
            b.grid() == start_grid(),
            b.last_move == (Move { from: (0, 0), to: (0, 0) }),
    {
        let mut board: Vec<Vec<Cell>> = Vec::new();
        for i in 0usize..8
            invariant
                board@.len() == i,
                forall|r: int| 0 <= r < i ==> (#[trigger] board@[r])@.len() == 8,
                forall|r: int, f: int|
                    0 <= r < i && 0 <= f < 8 ==> #[trigger] board@[r]@[f] == empty_cell(),
        {
            let mut row: Vec<Cell> = Vec::new();
            for j in 0usize..8
                invariant
                    row@.len() == j,
                    forall|f: int| 0 <= f < j ==> #[trigger] row@[f] == empty_cell(),
            {
                row.push(Cell::new());
            }
            board.push(row);
        }
        let mut b = Board { board, last_move: Move { from: (0, 0), to: (0, 0) } };
        assert(grid_wf(b.grid())) by {
            assert forall|r: int| 0 <= r < 8 implies (#[trigger] b.grid()[r]).len() == 8 by {
                assert(b.grid()[r] == b.board@[r]@);
            }
            assert forall|r: int, f: int| 0 <= r < 8 && 0 <= f < 8 implies cell_wf(
                #[trigger] b.grid()[r][f],
            ) by {
                assert(b.grid()[r] == b.board@[r]@);
            }
        }
        assert forall|r: int, f: int| 0 <= r < 8 && 0 <= f < 8 implies #[trigger] b.grid()[r][f]
            == empty_cell() by {
            assert(b.grid()[r] == b.board@[r]@);
        }
        b.add_pieces();
        assert(b.grid() =~~= start_grid());
        b
    }

    /// The material evaluation's inputs: every piece, row by row, and the
    /// number of cells carrying each side.
    fn get_board_evaluation_info(board: &Vec<Vec<Cell>>) -> (info: BoardEvaluationInfo)
        requires
            grid_dims(view_grid(board)),
        ensures
            info.pieces@ == grid_pieces(view_grid(board), 64),
            info.white_pieces == side_count(view_grid(board), Side::White, 64),
            info.black_pieces == side_count(view_grid(board), Side::Black, 64),
    {
        let ghost g = view_grid(board);
        let mut pieces: Vec<ChessPiece> = Vec::new();
        let mut white_pieces: u8 = 0;
        let mut black_pieces: u8 = 0;
        for i in 0i8..8
            invariant
                g == view_grid(board),
                grid_dims(g),
                pieces@ == grid_pieces(g, (i * 8) as nat),
                white_pieces == side_count(g, Side::White, (i * 8) as nat),
                black_pieces == side_count(g, Side::Black, (i * 8) as nat),
        {
            for j in 0i8..8
                invariant
                    0 <= i < 8,
                    g == view_grid(board),
                    grid_dims(g),
                    pieces@ == grid_pieces(g, (i * 8 + j) as nat),
                    white_pieces == side_count(g, Side::White, (i * 8 + j) as nat),
                    black_pieces == side_count(g, Side::Black, (i * 8 + j) as nat),
            {
                proof {
                    lemma_div_mod_8(i as int, j as int);
                    lemma_counts_bounded(g, (i * 8 + j) as nat);
                }
                assert(row_major_square(i * 8 + j) == (j, i));
                let cell = cell_of(board, (j, i));
                if let CellState::Piece(piece) = cell.state {
                    pieces.push(piece);
                }
                if let Some(side) = cell.side {
                    match side {
                        Side::White => white_pieces += 1,
                        Side::Black => black_pieces += 1,
                    }
                }
            }
        }
        BoardEvaluationInfo { pieces, white_pieces, black_pieces }
    }

    /// The summed material value of `pieces`.
    pub fn evaluate_material_weight(pieces: Vec<ChessPiece>) -> (score: i32)
        requires
            material(pieces@) <= i32::MAX,
        ensures
            score == material(pieces@),
    {
        let mut score: i32 = 0;
        for k in 0usize..pieces.len()
            invariant
                material(pieces@) <= i32::MAX,
                score == material(pieces@.take(k as int)),
        {
            proof {
                assert(pieces@.take(k + 1).drop_last() == pieces@.take(k as int));
                lemma_material_prefix(pieces@, k + 1);
                lemma_material_bounded(pieces@.take(k as int));
            }
            score += ChessPiece::get_material_price(&pieces[k]);
        }
        assert(pieces@.take(pieces@.len() as int) == pieces@);
        score
    }

    /// The pieces of `side`, read row by row from rank 0.
    pub fn get_sides_boardpieces(&self, side: Side) -> (pieces: Vec<BoardPiece>)
        requires
            self.wf(),
        ensures
            pieces@ == side_pieces(self.grid(), side, 64),
    {
        let ghost g = self.grid();
        let mut pieces: Vec<BoardPiece> = Vec::new();
        for i in 0i8..8
            invariant
                g == self.grid(),
                grid_wf(g),
                pieces@ == side_pieces(g, side, (i * 8) as nat),
        {
            for j in 0i8..8
                invariant
                    0 <= i < 8,
                    g == self.grid(),
                    grid_wf(g),
                    pieces@ == side_pieces(g, side, (i * 8 + j) as nat),
            {
                proof {
                    lemma_div_mod_8(i as int, j as int);
                }
                assert(row_major_square(i * 8 + j) == (j, i));
                let cell = cell_of(&self.board, (j, i));
                if cell.has_piece_and_side_matches(side) {
                    let mut board_piece = BoardPiece {
                        location: (0, 0),
                        side: Side::White,
                        piece: ChessPiece::Pawn,
                    };
                    if let CellState::Piece(piece) = cell.state {
                        board_piece.piece = piece;
                        board_piece.location = (j, i);
                    }
                    if let Some(side) = cell.side {
                        board_piece.side = side;
                    }
                    pieces.push(board_piece);
                }
            }
        }
        pieces
    }

    /// Every pseudo-legal move of `side`: for each of its pieces, row by row,
    /// a move to each of that piece's destinations.
    pub fn get_all_moves_for_side(&self, side: Side) -> (moves: Vec<Move>)
        requires
            self.wf(),
        ensures
            moves@ == all_moves(self.grid(), side),
    {
        let ghost g = self.grid();
        let pieces = self.get_sides_boardpieces(side);
        proof {
            lemma_side_pieces_members(g, side, 64);
        }
        let mut moves_for_boardpiece: Vec<Move> = Vec::new();
        for k in 0usize..pieces.len()
            invariant
                g == self.grid(),
                grid_wf(g),
                pieces@ == side_pieces(g, side, 64),
                forall|j: int|
                    0 <= j < pieces@.len() ==> on_board((#[trigger] pieces@[j]).location),
                moves_for_boardpiece@ == moves_of(g, pieces@.take(k as int)),
        {
            let board_piece = pieces[k];
            let move_for_piece = ChessPiece::get_pseudolegal_moves(
                &self.board,
                board_piece.location,
                &board_piece.piece,
                &board_piece.side,
            );
            let ghost base = moves_for_boardpiece@;
            let ghost dests = pseudo_moves(g, board_piece.location, board_piece.piece, board_piece.side);
            for t in 0usize..move_for_piece.len()
                invariant
                    move_for_piece@ == dests,
                    moves_for_boardpiece@ == base + dests.take(t as int).map_values(
                        |d: (i8, i8)| Move { from: board_piece.location, to: d },
                    ),
            {
                moves_for_boardpiece.push(Move { from: board_piece.location, to: move_for_piece[t] });
                assert(dests.take(t + 1).map_values(
                    |d: (i8, i8)| Move { from: board_piece.location, to: d },
                ) =~= dests.take(t as int).map_values(
                    |d: (i8, i8)| Move { from: board_piece.location, to: d },
                ).push(Move { from: board_piece.location, to: move_for_piece@[t as int] }));
            }
            assert(dests.take(dests.len() as int) == dests);
            assert(pieces@.take(k + 1).drop_last() == pieces@.take(k as int));
        }
        assert(pieces@.take(pieces@.len() as int) == pieces@);
        moves_for_boardpiece
    }

    /// The score of a grid for `whose_turn`: the material of all pieces on it,
    /// times the number of White pieces less the number of Black ones, times
    /// +1 for White and -1 for Black.
    pub fn evaluate_board_score(board: &Vec<Vec<Cell>>, whose_turn: Side) -> (score: i32)
        requires
            grid_dims(view_grid(board)),
        ensures
            score == board_score(view_grid(board), whose_turn),
            -4096000 <= score <= 4096000,
    {
        let ghost g = view_grid(board);
        let board_eval_info = Self::get_board_evaluation_info(board);
        proof {
            lemma_counts_bounded(g, 64);
            lemma_material_bounded(grid_pieces(g, 64));
            lemma_board_score_bounded(g, whose_turn);
        }
        let material_weight = Self::evaluate_material_weight(board_eval_info.pieces);
        let difference = board_eval_info.white_pieces as i32 - board_eval_info.black_pieces as i32;
        assert(-4096000 <= material_weight * difference <= 4096000) by (nonlinear_arith)
            requires
                0 <= material_weight <= 64000,
                -64 <= difference <= 64,
        ;
        let weighted = material_weight * difference;
        let sign = side_value(whose_turn);
        assert(-4096000 <= weighted * sign <= 4096000) by (nonlinear_arith)
            requires
                -4096000 <= weighted <= 4096000,
                sign == 1 || sign == -1,
        ;
        weighted * sign
    }

    /// The kind of piece on square `cell` of a grid, if any.
    pub fn get_piece(board: &Vec<Vec<Cell>>, cell: (i8, i8)) -> (r: Option<ChessPiece>)
        requires
            grid_dims(view_grid(board)),
            on_board(cell),
        ensures
            r == (match cell_at(view_grid(board), cell).state {
                CellState::Piece(p) => Some(p),
                CellState::Empty => None,
            }),
    {
        let c = cell_of(board, cell);
        if let CellState::Piece(piece) = c.state {
            return Some(piece);
        }
        None
    }

    /// The grid of cells, for reading.
    pub fn get_board_state(&self) -> (r: &Vec<Vec<Cell>>)
        ensures
            view_grid(r) == self.grid(),
    {
        &self.board
    }

    /// Which cells hold a piece, row by row.
    pub fn get_occupied_slots(&self) -> (bitfield: Vec<Vec<bool>>)
        requires
            self.wf(),
        ensures
            bitfield@.len() == 8,
            forall|r: int| 0 <= r < 8 ==> (#[trigger] bitfield@[r])@.len() == 8,
            forall|r: int, f: int|
                0 <= r < 8 && 0 <= f < 8 ==> #[trigger] bitfield@[r]@[f] == (
                self.grid()[r][f].state is Piece),
    {
        let mut bitfield: Vec<Vec<bool>> = Vec::new();
        for i in 0i8..8
            invariant
                self.wf(),
                bitfield@.len() == i,
                forall|r: int| 0 <= r < i ==> (#[trigger] bitfield@[r])@.len() == 8,
                forall|r: int, f: int|
                    0 <= r < i && 0 <= f < 8 ==> #[trigger] bitfield@[r]@[f] == (
                    self.grid()[r][f].state is Piece),
        {
            let mut bitfield_row: Vec<bool> = Vec::new();
            for j in 0i8..8
                invariant
                    0 <= i < 8,
                    self.wf(),
                    bitfield_row@.len() == j,
                    forall|f: int|
                        0 <= f < j ==> #[trigger] bitfield_row@[f] == (
                        self.grid()[i as int][f].state is Piece),
            {
                let cell = cell_of(&self.board, (j, i));
                match cell.state {
                    CellState::Empty => bitfield_row.push(false),
                    CellState::Piece(_) => bitfield_row.push(true),
                }
            }
            bitfield.push(bitfield_row);
        }
        bitfield
    }

    /// Takes the piece on `l_move.to` back to `l_move.from`. The piece a move
    /// took, if any, is not brought back.
    pub fn unmake_move(&mut self, l_move: &Move) -> (r: bool)
        requires
            old(self).wf(),
            on_board(l_move.from),
            on_board(l_move.to),
        ensures
            final(self).wf(),
            final(self).grid() == apply_move(old(self).grid(), reverse(*l_move)).0,
            r == apply_move(old(self).grid(), reverse(*l_move)).1,
            final(self).last_move == old(self).last_move,
    {
        let unmake_move = Move { from: l_move.to, to: l_move.from };
        self.make_move(&unmake_move)
    }

    /// Moves the piece on `l_move.from` to `l_move.to` without checking the
    /// rules; whatever stood on the destination is gone. Nothing happens when
    /// the origin is empty.
    pub fn make_move(&mut self, l_move: &Move) -> (r: bool)
        requires
            old(self).wf(),
            on_board(l_move.from),
            on_board(l_move.to),
        ensures
            final(self).wf(),
            final(self).grid() == apply_move(old(self).grid(), *l_move).0,
            r == apply_move(old(self).grid(), *l_move).1,
            final(self).last_move == old(self).last_move,
    {
        let from = l_move.from;
        let to = l_move.to;
        let origin_cell = cell_of(&self.board, from);
        let side = match origin_cell.side {
            Some(side) => side,
            None => return false,
        };
        if let CellState::Piece(piece) = origin_cell.state {
            proof {
                lemma_apply_move_wf(self.grid(), *l_move);
            }
            set_cell(&mut self.board, from, Cell { state: CellState::Empty, side: None });
            set_cell(&mut self.board, to, Cell { state: CellState::Piece(piece), side: Some(side) });
            return true;
        }
        false
    }

    /// Plays `origin` to `to` when `to` is a pseudo-legal destination of the
    /// piece on `origin` for that piece's side: the piece moves, whatever
    /// stood on `to` is gone, and the move is recorded as the last one.
    /// Otherwise the board is left untouched and the result is false.
    pub fn move_piece(&mut self, origin: (i8, i8), to: (i8, i8)) -> (r: bool)
        requires
            old(self).wf(),
            on_board(origin),
        ensures
            final(self).wf(),
            r == move_allowed(old(self).grid(), origin, to),
            r ==> final(self).grid() == moved_grid(old(self).grid(), origin, to),
            r ==> final(self).last_move == (Move { from: origin, to }),
            !r ==> *final(self) == *old(self),
    {
        let origin_cell = cell_of(&self.board, origin);
        let side = match origin_cell.side {
            Some(side) => side,
            None => return false,
        };
        if let CellState::Piece(piece) = origin_cell.state {
            let pseudolegal_moves = ChessPiece::get_pseudolegal_moves(
                &self.board,
                origin,
                &piece,
                &side,
            );
            if contains_square(&pseudolegal_moves, to) {
                proof {
                    lemma_pseudo_moves_on_board(self.grid(), origin, piece, side);
                    let j = choose|j: int|
                        0 <= j < pseudolegal_moves@.len() && pseudolegal_moves@[j] == to;
                    assert(on_board(pseudolegal_moves@[j]));
                    lemma_apply_move_wf(self.grid(), Move { from: origin, to });
                }
                set_cell(&mut self.board, origin, Cell { state: CellState::Empty, side: None });
                set_cell(&mut self.board, to, Cell { state: CellState::Piece(piece), side: Some(side) });
                self.last_move = Move { from: origin, to };
                return true;
            }
        }
        false
    }
}

} // verus!
