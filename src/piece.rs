//! Sides, piece kinds and pseudo-legal move generation.
use vstd::prelude::*;

use crate::board::{
    cell_of,
    grid_wf,
    occupied_at,
    opponent_at,
    view_grid,
    Cell,
};
use crate::movement::{
    compute_nr_of_squares_to_edge,
    delta,
    is_in_l_from_origin,
    is_in_square_from_origin,
    is_same_square,
    knight_jump,
    lemma_div_mod_8,
    on_board,
    pattern_index,
    pattern_at,
    ray_increment,
    ray_step,
    squares_to_edge,
    tuple_to_square_index,
    within_one,
    MovePattern,
};

verus! {

/// A player. White counts as +1 and Black as -1 in scores.
#[derive(Clone, Copy, Debug, PartialEq, Eq, Structural)]
pub enum Side {
    White,
    Black,
}

#[derive(Clone, Copy, Debug, PartialEq, Eq, Structural)]
pub enum ChessPiece {
    King,
    Queen,
    Bishop,
    Pawn,
    Knight,
    Rook,
}

/// The sign a side carries in scores.
pub open spec fn side_sign(side: Side) -> int {
    match side {
        Side::White => 1,
        Side::Black => -1,
    }
}

pub open spec fn other_side(side: Side) -> Side {
    match side {
        Side::White => Side::Black,
        Side::Black => Side::White,
    }
}

/// Material value of a piece kind.
pub open spec fn piece_value(piece: ChessPiece) -> int {
    match piece {
        ChessPiece::King => 1000,
        ChessPiece::Queen => 500,
        ChessPiece::Bishop => 250,
        ChessPiece::Pawn => 50,
        ChessPiece::Knight => 250,
        ChessPiece::Rook => 400,
    }
}

pub open spec fn white_char(piece: ChessPiece) -> char {
    match piece {
        ChessPiece::King => '\u{2654}',
        ChessPiece::Queen => '\u{2655}',
        ChessPiece::Rook => '\u{2656}',
        ChessPiece::Bishop => '\u{2657}',
        ChessPiece::Knight => '\u{2658}',
        ChessPiece::Pawn => '\u{2659}',
    }
}

pub open spec fn black_char(piece: ChessPiece) -> char {
    match piece {
        ChessPiece::King => '\u{265A}',
        ChessPiece::Queen => '\u{265B}',
        ChessPiece::Rook => '\u{265C}',
        ChessPiece::Bishop => '\u{265D}',
        ChessPiece::Knight => '\u{265E}',
        ChessPiece::Pawn => '\u{265F}',
    }
}

/// The side that moves after `whose_turn`.
pub fn swap_turn(whose_turn: Side) -> (r: Side)
    ensures
        r == other_side(whose_turn),
{
    match whose_turn {
        Side::White => Side::Black,
        Side::Black => Side::White,
    }
}

/// The sign of a side as a number: +1 for White, -1 for Black.
pub fn side_value(side: Side) -> (r: i32)
    ensures
        r == side_sign(side),
{
    match side {
        Side::White => 1,
        Side::Black => -1,
    }
}

// ---------------------------------------------------------------------------
// The destinations each piece kind may move to.

/// The square `k` steps from `o` in direction `p`.
pub open spec fn ray_square(o: (i8, i8), p: MovePattern, k: int) -> (i8, i8) {
    ((o.0 + k * ray_step(p).0) as i8, (o.1 + k * ray_step(p).1) as i8)
}

/// Walks the first `k` steps from `o` in direction `p`: the destinations met,
/// and whether the walk has been stopped by a piece.
pub open spec fn ray_walk(g: Seq<Seq<Cell>>, o: (i8, i8), p: MovePattern, side: Side, k: nat) -> (
    Seq<(i8, i8)>,
    bool,
)
    decreases k,
{
    if k == 0 {
        (seq![], false)
    } else {
        let prev = ray_walk(g, o, p, side, (k - 1) as nat);
        if prev.1 {
            prev
        } else {
            let sq = ray_square(o, p, k as int);
            if occupied_at(g, sq) {
                (
                    if opponent_at(g, sq, side) {
                        prev.0.push(sq)
                    } else {
                        prev.0
                    },
                    true,
                )
            } else {
                (prev.0.push(sq), false)
            }
        }
    }
}

/// Destinations of a sliding piece along one direction: every square up to
/// the edge, stopping at the first piece, which is included when it belongs
/// to the opponent.
pub open spec fn ray(g: Seq<Seq<Cell>>, o: (i8, i8), p: MovePattern, side: Side) -> Seq<(i8, i8)> {
    ray_walk(g, o, p, side, squares_to_edge(p, o.0 as int, o.1 as int) as nat).0
}

/// The rays of several directions, one after the other.
pub open spec fn rays(g: Seq<Seq<Cell>>, o: (i8, i8), ps: Seq<MovePattern>, side: Side) -> Seq<
    (i8, i8),
>
    decreases ps.len(),
{
    if ps.len() == 0 {
        seq![]
    } else {
        rays(g, o, ps.drop_last(), side) + ray(g, o, ps.last(), side)
    }
}

/// A square a piece of `side` may land on: empty or held by the opponent.
pub open spec fn free_for(g: Seq<Seq<Cell>>, sq: (i8, i8), side: Side) -> bool {
    !occupied_at(g, sq) || opponent_at(g, sq, side)
}

pub open spec fn king_target(g: Seq<Seq<Cell>>, o: (i8, i8), side: Side, t: (i8, i8)) -> bool {
    within_one(o, t) && o != t && free_for(g, t, side)
}

pub open spec fn knight_target(g: Seq<Seq<Cell>>, o: (i8, i8), side: Side, t: (i8, i8)) -> bool {
    knight_jump(o, t) && free_for(g, t, side)
}

/// The `k`-th square when the board is scanned file by file.
pub open spec fn scan_square(k: int) -> (i8, i8) {
    ((k / 8) as i8, (k % 8) as i8)
}

/// The king (or, with `knight`, knight) destinations among the first `n`
/// squares of a file-by-file scan, in scan order.
pub open spec fn leap_scan(
    g: Seq<Seq<Cell>>,
    o: (i8, i8),
    side: Side,
    knight: bool,
    n: nat,
) -> Seq<(i8, i8)>
    decreases n,
{
    if n == 0 {
        seq![]
    } else {
        let prev = leap_scan(g, o, side, knight, (n - 1) as nat);
        let t = scan_square(n - 1);
        if (if knight {
            knight_target(g, o, side, t)
        } else {
            king_target(g, o, side, t)
        }) {
            prev.push(t)
        } else {
            prev
        }
    }
}

/// The rank a pawn of `side` on rank `rank` moves to: White towards rank 0,
/// Black towards rank 7.
pub open spec fn pawn_forward(side: Side, rank: int) -> int {
    match side {
        Side::White => rank - 1,
        Side::Black => rank + 1,
    }
}

/// The single forward square of a pawn, unless it is off the board or held
/// by its own side.
pub open spec fn pawn_moves(g: Seq<Seq<Cell>>, o: (i8, i8), side: Side) -> Seq<(i8, i8)> {
    let to_y = pawn_forward(side, o.1 as int);
    let to = (o.0, to_y as i8);
    if to_y < 0 || to_y > 7 {
        seq![]
    } else if occupied_at(g, to) && !opponent_at(g, to, side) {
        seq![]
    } else {
        seq![to]
    }
}

pub open spec fn queen_patterns() -> Seq<MovePattern> {
    seq![
        MovePattern::N,
        MovePattern::NE,
        MovePattern::E,
        MovePattern::SE,
        MovePattern::S,
        MovePattern::SW,
        MovePattern::W,
        MovePattern::NW,
    ]
}

pub open spec fn bishop_patterns() -> Seq<MovePattern> {
    seq![MovePattern::NW, MovePattern::NE, MovePattern::SW, MovePattern::SE]
}

pub open spec fn rook_patterns() -> Seq<MovePattern> {
    seq![MovePattern::N, MovePattern::E, MovePattern::W, MovePattern::S]
}

/// The pseudo-legal destinations of a `piece` of `side` standing on `o`, in
/// the order the generator lists them.
pub open spec fn pseudo_moves(g: Seq<Seq<Cell>>, o: (i8, i8), piece: ChessPiece, side: Side) -> Seq<
    (i8, i8),
> {
    match piece {
        ChessPiece::King => leap_scan(g, o, side, false, 64),
        ChessPiece::Queen => rays(g, o, queen_patterns(), side),
        ChessPiece::Bishop => rays(g, o, bishop_patterns(), side),
        ChessPiece::Rook => rays(g, o, rook_patterns(), side),
        ChessPiece::Knight => leap_scan(g, o, side, true, 64),
        ChessPiece::Pawn => pawn_moves(g, o, side),
    }
}

impl ChessPiece {
    /// The symbol of a piece of a side.
    pub fn get_char(piece: &ChessPiece, side: &Side) -> (r: char)
        ensures
            r == (match *side {
                Side::White => white_char(*piece),
                Side::Black => black_char(*piece),
            }),
    {
        if let Side::White = side {
            ChessPiece::white_piece_chars(piece)
        } else {
            ChessPiece::black_piece_chars(piece)
        }
    }

    fn white_piece_chars(piece: &ChessPiece) -> (r: char)
        ensures
            r == white_char(*piece),
    {
        match piece {
            ChessPiece::King => '\u{2654}',
            ChessPiece::Queen => '\u{2655}',
            ChessPiece::Rook => '\u{2656}',
            ChessPiece::Bishop => '\u{2657}',
            ChessPiece::Knight => '\u{2658}',
            ChessPiece::Pawn => '\u{2659}',
        }
    }

    fn black_piece_chars(piece: &ChessPiece) -> (r: char)
        ensures
            r == black_char(*piece),
    {
        match piece {
            ChessPiece::King => '\u{265A}',
            ChessPiece::Queen => '\u{265B}',
            ChessPiece::Rook => '\u{265C}',
            ChessPiece::Bishop => '\u{265D}',
            ChessPiece::Knight => '\u{265E}',
            ChessPiece::Pawn => '\u{265F}',
        }
    }

    pub fn get_material_price(piece: &ChessPiece) -> (r: i32)
        ensures
            r == piece_value(*piece),
    {
        match piece {
            ChessPiece::King => 1000,
            ChessPiece::Queen => 500,
            ChessPiece::Bishop => 250,
            ChessPiece::Pawn => 50,
            ChessPiece::Knight => 250,
            ChessPiece::Rook => 400,
        }
    }

    /// Walks each direction of `patterns` in turn from `origin`.
    fn generate_allowed_moves(
        origin: (i8, i8),
        patterns: Vec<MovePattern>,
        board: &Vec<Vec<Cell>>,
        whose_turn: Side,
    ) -> (moves: Vec<(i8, i8)>)
        requires
            grid_wf(view_grid(board)),
            on_board(origin),
        ensures
            moves@ == rays(view_grid(board), origin, patterns@, whose_turn),
    {
        let ghost g = view_grid(board);
        let table = compute_nr_of_squares_to_edge();
        let square_index = tuple_to_square_index(origin);
        proof {
            lemma_div_mod_8(origin.1 as int, origin.0 as int);
        }
        let mut moves: Vec<(i8, i8)> = Vec::new();
        let mut i: usize = 0;
        while i < patterns.len()
            invariant
                i <= patterns@.len(),
                g == view_grid(board),
                grid_wf(g),
                on_board(origin),
                square_index == origin.0 + origin.1 * 8,
                square_index % 8 == origin.0,
                square_index / 8 == origin.1,
                table@.len() == 8,
                forall|d: int| 0 <= d < 8 ==> (#[trigger] table@[d])@.len() == 64,
                forall|d: int, sq: int|
                    0 <= d < 8 && 0 <= sq < 64 ==> #[trigger] table@[d]@[sq] == squares_to_edge(
                        pattern_at(d),
                        sq % 8,
                        sq / 8,
                    ),
                moves@ == rays(g, origin, patterns@.take(i as int), whose_turn),
            decreases patterns@.len() - i,
        {
            let pattern = patterns[i];
            let d = pattern_index(&pattern);
            let edge_steps = table[d][square_index as usize];
            let increment = ray_increment(&pattern);
            let ghost base = moves@;
            let ghost edge = squares_to_edge(pattern, origin.0 as int, origin.1 as int);
            assert(edge_steps == edge);
            let mut square: i8 = 0;
            while square < edge_steps
                invariant_except_break
                    0 <= square <= edge_steps,
                    moves@ == base + ray_walk(g, origin, pattern, whose_turn, square as nat).0,
                    !ray_walk(g, origin, pattern, whose_turn, square as nat).1,
                invariant
                    g == view_grid(board),
                    grid_wf(g),
                    on_board(origin),
                    edge_steps == edge,
                    edge == squares_to_edge(pattern, origin.0 as int, origin.1 as int),
                    increment.0 == ray_step(pattern).0,
                    increment.1 == ray_step(pattern).1,
                ensures
                    moves@ == base + ray(g, origin, pattern, whose_turn),
                decreases edge_steps - square,
            {
                let step = square + 1;
                proof {
                    lemma_ray_square_on_board(origin, pattern, step as int);
                }
                let to_square = (origin.0 + increment.0 * step, origin.1 + increment.1 * step);
                assert(to_square == ray_square(origin, pattern, step as int));
                let to_cell = cell_of(board, to_square);
                if to_cell.contains_opponents_piece(whose_turn) {
                    moves.push(to_square);
                }
                if to_cell.is_occupied() {
                    proof {
                        lemma_ray_walk_stopped(
                            g,
                            origin,
                            pattern,
                            whose_turn,
                            step as nat,
                            edge as nat,
                        );
                    }
                    break;
                }
                moves.push(to_square);
                square = step;
            }
            proof {
                assert(patterns@.take(i + 1).drop_last() == patterns@.take(i as int));
            }
            i += 1;
        }
        proof {
            assert(patterns@.take(patterns@.len() as int) == patterns@);
        }
        moves
    }

    /// Scans the board file by file for squares next to `origin`.
    fn generate_king_moves(origin: (i8, i8), board: &Vec<Vec<Cell>>, whose_turn: Side) -> (moves: Vec<
        (i8, i8),
    >)
        requires
            grid_wf(view_grid(board)),
            on_board(origin),
        ensures
            moves@ == leap_scan(view_grid(board), origin, whose_turn, false, 64),
    {
        let ghost g = view_grid(board);
        let mut moves: Vec<(i8, i8)> = Vec::new();
        for i in 0i8..8
            invariant
                g == view_grid(board),
                grid_wf(g),
                on_board(origin),
                moves@ == leap_scan(g, origin, whose_turn, false, (i * 8) as nat),
        {
            for j in 0i8..8
                invariant
                    0 <= i < 8,
                    g == view_grid(board),
                    grid_wf(g),
                    on_board(origin),
                    moves@ == leap_scan(g, origin, whose_turn, false, (i * 8 + j) as nat),
            {
                let to = (i, j);
                proof {
                    lemma_div_mod_8(i as int, j as int);
                }
                assert(scan_square(i * 8 + j) == to);
                let cell = cell_of(board, to);
                if is_in_square_from_origin(origin, to) && !is_same_square(origin, to) && (
                !cell.is_occupied() || cell.contains_opponents_piece(whose_turn)) {
                    moves.push((i, j));
                }
            }
        }
        moves
    }

    /// Scans the board file by file for squares a knight's jump from `origin`.
    fn generate_knight_moves(origin: (i8, i8), board: &Vec<Vec<Cell>>, whose_turn: Side) -> (moves:
        Vec<(i8, i8)>)
        requires
            grid_wf(view_grid(board)),
            on_board(origin),
        ensures
            moves@ == leap_scan(view_grid(board), origin, whose_turn, true, 64),
    {
        let ghost g = view_grid(board);
        let mut moves: Vec<(i8, i8)> = Vec::new();
        for i in 0i8..8
            invariant
                g == view_grid(board),
                grid_wf(g),
                on_board(origin),
                moves@ == leap_scan(g, origin, whose_turn, true, (i * 8) as nat),
        {
            for j in 0i8..8
                invariant
                    0 <= i < 8,
                    g == view_grid(board),
                    grid_wf(g),
                    on_board(origin),
                    moves@ == leap_scan(g, origin, whose_turn, true, (i * 8 + j) as nat),
            {
                let to = (i, j);
                proof {
                    lemma_div_mod_8(i as int, j as int);
                }
                assert(scan_square(i * 8 + j) == to);
                let cell = cell_of(board, to);
                if is_in_l_from_origin(origin, to) && (!cell.is_occupied()
                    || cell.contains_opponents_piece(whose_turn)) {
                    moves.push((i, j));
                }
            }
        }
        moves
    }

    /// One step forward, unless that leaves the board or meets a piece of
    /// the pawn's own side.
    fn generate_pawn_moves(origin: (i8, i8), whose_turn: Side, board: &Vec<Vec<Cell>>) -> (moves:
        Vec<(i8, i8)>)
        requires
            grid_wf(view_grid(board)),
            on_board(origin),
        ensures
            moves@ == pawn_moves(view_grid(board), origin, whose_turn),
    {
        let mut moves: Vec<(i8, i8)> = Vec::new();
        let (x, y) = origin;
        let (to_x, to_y) = match whose_turn {
            Side::White => (x, y - 1),
            Side::Black => (x, y + 1),
        };
        if to_y > 7 || to_y < 0 {
            return moves;
        }
        let to_cell = cell_of(board, (to_x, to_y));
        if to_cell.is_occupied() && !to_cell.contains_opponents_piece(whose_turn) {
            return moves;
        }
        moves.push((to_x, to_y));
        moves
    }

    /// The pseudo-legal destinations of `piece`, of side `whose_turn`,
    /// standing on `origin`: movement rules and blocking only, with no
    /// test for check.
    pub fn get_pseudolegal_moves(
        board: &Vec<Vec<Cell>>,
        origin: (i8, i8),
        piece: &ChessPiece,
        whose_turn: &Side,
    ) -> (moves: Vec<(i8, i8)>)
        requires
            grid_wf(view_grid(board)),
            on_board(origin),
        ensures
            moves@ == pseudo_moves(view_grid(board), origin, *piece, *whose_turn),
    {
        match piece {
            ChessPiece::King => Self::generate_king_moves(origin, board, *whose_turn),
            ChessPiece::Queen => Self::generate_allowed_moves(
                origin,
                vec![
                    MovePattern::N,
                    MovePattern::NE,
                    MovePattern::E,
                    MovePattern::SE,
                    MovePattern::S,
                    MovePattern::SW,
                    MovePattern::W,
                    MovePattern::NW,
                ],
                board,
                *whose_turn,
            ),
            ChessPiece::Bishop => Self::generate_allowed_moves(
                origin,
                vec![MovePattern::NW, MovePattern::NE, MovePattern::SW, MovePattern::SE],
                board,
                *whose_turn,
            ),
            ChessPiece::Rook => Self::generate_allowed_moves(
                origin,
                vec![MovePattern::N, MovePattern::E, MovePattern::W, MovePattern::S],
                board,
                *whose_turn,
            ),
            ChessPiece::Knight => Self::generate_knight_moves(origin, board, *whose_turn),
            ChessPiece::Pawn => Self::generate_pawn_moves(origin, *whose_turn, board),
        }
    }
}

// ---------------------------------------------------------------------------
// Lemmas on the walks.

/// Steps up to the edge distance stay on the board.
pub proof fn lemma_ray_square_on_board(o: (i8, i8), p: MovePattern, k: int)
    requires
        on_board(o),
        1 <= k <= squares_to_edge(p, o.0 as int, o.1 as int),
    ensures
        on_board(ray_square(o, p, k)),
        ray_square(o, p, k).0 == o.0 + k * ray_step(p).0,
        ray_square(o, p, k).1 == o.1 + k * ray_step(p).1,
{
}

/// Once a walk has stopped it gains nothing more.
proof fn lemma_ray_walk_stopped(
    g: Seq<Seq<Cell>>,
    o: (i8, i8),
    p: MovePattern,
    side: Side,
    k: nat,
    e: nat,
)
    requires
        k <= e,
        ray_walk(g, o, p, side, k).1,
    ensures
        ray_walk(g, o, p, side, e) == ray_walk(g, o, p, side, k),
    decreases e - k,
{
    if k < e {
        lemma_ray_walk_stopped(g, o, p, side, k, (e - 1) as nat);
    }
}

/// What a walk of `k` steps holds: the squares one step apart from the
/// first on, all empty when the walk has not stopped, and otherwise cut at
/// the first occupied square, which is kept when it holds an opponent.
proof fn lemma_ray_walk_shape(g: Seq<Seq<Cell>>, o: (i8, i8), p: MovePattern, side: Side, k: nat)
    ensures
        ray_walk(g, o, p, side, k).0.len() <= k,
        forall|j: int|
            0 <= j < ray_walk(g, o, p, side, k).0.len() ==> ray_walk(g, o, p, side, k).0[j]
                == ray_square(o, p, j + 1),
        !ray_walk(g, o, p, side, k).1 ==> ray_walk(g, o, p, side, k).0.len() == k && forall|t: int|
            1 <= t <= k ==> !occupied_at(g, #[trigger] ray_square(o, p, t)),
        ray_walk(g, o, p, side, k).1 ==> exists|s: int|
            1 <= s <= k && occupied_at(g, #[trigger] ray_square(o, p, s)) && (forall|t: int|
                1 <= t < s ==> !occupied_at(g, #[trigger] ray_square(o, p, t))) && ray_walk(
                g,
                o,
                p,
                side,
                k,
            ).0.len() == (if opponent_at(g, ray_square(o, p, s), side) {
                s
            } else {
                s - 1
            }),
    decreases k,
{
    if k > 0 {
        lemma_ray_walk_shape(g, o, p, side, (k - 1) as nat);
        let prev = ray_walk(g, o, p, side, (k - 1) as nat);
        if !prev.1 {
            let sq = ray_square(o, p, k as int);
            if occupied_at(g, sq) {
                assert(forall|t: int| 1 <= t < k ==> !occupied_at(g, #[trigger] ray_square(o, p, t)));
            }
        }
    }
}

/// A sliding piece's destinations along a direction are the squares one
/// step apart from the origin on; they never pass the first occupied square,
/// which is among them exactly when it holds an opponent's piece; with no
/// piece before the edge they run to the edge.
pub proof fn lemma_ray_stops_at_first_piece(g: Seq<Seq<Cell>>, o: (i8, i8), p: MovePattern, side: Side)
    requires
        on_board(o),
    ensures
        forall|j: int|
            0 <= j < ray(g, o, p, side).len() ==> #[trigger] ray(g, o, p, side)[j] == ray_square(
                o,
                p,
                j + 1,
            ),
        forall|j: int|
            0 <= j < ray(g, o, p, side).len() - 1 ==> !occupied_at(g, #[trigger] ray(g, o, p, side)[j]),
        forall|s: int|
            1 <= s <= squares_to_edge(p, o.0 as int, o.1 as int) && occupied_at(
                g,
                #[trigger] ray_square(o, p, s),
            ) && (forall|t: int| 1 <= t < s ==> !occupied_at(g, #[trigger] ray_square(o, p, t)))
                ==> (ray(g, o, p, side).len() == s || ray(g, o, p, side).len() == s - 1) && (ray(
                g,
                o,
                p,
                side,
            ).len() == s <==> opponent_at(g, ray_square(o, p, s), side)),
        (forall|t: int|
            1 <= t <= squares_to_edge(p, o.0 as int, o.1 as int) ==> !occupied_at(
                g,
                #[trigger] ray_square(o, p, t),
            )) ==> ray(g, o, p, side).len() == squares_to_edge(p, o.0 as int, o.1 as int),
{
    let e = squares_to_edge(p, o.0 as int, o.1 as int);
    assert(e >= 0);
    lemma_ray_walk_shape(g, o, p, side, e as nat);
    let w = ray_walk(g, o, p, side, e as nat);
    if w.1 {
        let s0 = choose|s: int|
            1 <= s <= e && occupied_at(g, #[trigger] ray_square(o, p, s)) && (forall|t: int|
                1 <= t < s ==> !occupied_at(g, #[trigger] ray_square(o, p, t))) && w.0.len() == (
            if opponent_at(g, ray_square(o, p, s), side) {
                s
            } else {
                s - 1
            });
        assert forall|s: int|
            1 <= s <= e && occupied_at(g, #[trigger] ray_square(o, p, s)) && (forall|t: int|
                1 <= t < s ==> !occupied_at(g, #[trigger] ray_square(o, p, t))) implies (w.0.len()
            == s || w.0.len() == s - 1) && (w.0.len() == s <==> opponent_at(
            g,
            ray_square(o, p, s),
            side,
        )) by {
            if s < s0 {
                assert(!occupied_at(g, ray_square(o, p, s)));
            } else if s0 < s {
                assert(!occupied_at(g, ray_square(o, p, s0)));
            }
        }
        assert forall|j: int| 0 <= j < w.0.len() - 1 implies !occupied_at(g, #[trigger] w.0[j]) by {
            assert(w.0[j] == ray_square(o, p, j + 1));
        }
    }
}

/// Every member of a leap scan passes the scan's test.
proof fn lemma_leap_scan_members(
    g: Seq<Seq<Cell>>,
    o: (i8, i8),
    side: Side,
    knight: bool,
    n: nat,
)
    ensures
        forall|t: (i8, i8)|
            #[trigger] leap_scan(g, o, side, knight, n).contains(t) ==> if knight {
                knight_target(g, o, side, t)
            } else {
                king_target(g, o, side, t)
            },
    decreases n,
{
    if n > 0 {
        lemma_leap_scan_step(g, o, side, knight, n);
        lemma_leap_scan_members(g, o, side, knight, (n - 1) as nat);
    }
}

/// One more square of a leap scan adds at most that square, and adds it
/// only when it passes the scan's test.
proof fn lemma_leap_scan_step(g: Seq<Seq<Cell>>, o: (i8, i8), side: Side, knight: bool, n: nat)
    requires
        n > 0,
    ensures
        forall|t: (i8, i8)|
            #[trigger] leap_scan(g, o, side, knight, n).contains(t) ==> leap_scan(
                g,
                o,
                side,
                knight,
                (n - 1) as nat,
            ).contains(t) || t == scan_square(n - 1),
        leap_scan(g, o, side, knight, n).contains(scan_square(n - 1)) && !leap_scan(
            g,
            o,
            side,
            knight,
            (n - 1) as nat,
        ).contains(scan_square(n - 1)) ==> if knight {
            knight_target(g, o, side, scan_square(n - 1))
        } else {
            king_target(g, o, side, scan_square(n - 1))
        },
{
    let prev = leap_scan(g, o, side, knight, (n - 1) as nat);
    let t = scan_square(n - 1);
    assert forall|u: (i8, i8)| #[trigger] prev.push(t).contains(u) implies prev.contains(u) || u
        == t by {
        let j = choose|j: int| 0 <= j < prev.push(t).len() && prev.push(t)[j] == u;
        if j < prev.len() {
            assert(prev[j] == u);
        }
    }
}

/// A knight's destinations are one file and two ranks away, or two files and
/// one rank; a king's are at most one square away in each coordinate and
/// never the origin itself.
pub proof fn lemma_leaper_locality(g: Seq<Seq<Cell>>, o: (i8, i8), side: Side)
    ensures
        forall|t: (i8, i8)|
            #[trigger] pseudo_moves(g, o, ChessPiece::Knight, side).contains(t) ==> (delta(o, t).0
                == 1 && delta(o, t).1 == 2) || (delta(o, t).0 == 2 && delta(o, t).1 == 1),
        forall|t: (i8, i8)|
            #[trigger] pseudo_moves(g, o, ChessPiece::King, side).contains(t) ==> delta(o, t).0
                <= 1 && delta(o, t).1 <= 1 && !(delta(o, t).0 == 0 && delta(o, t).1 == 0),
{
    lemma_leap_scan_members(g, o, side, true, 64);
    lemma_leap_scan_members(g, o, side, false, 64);
}

/// A pawn has at most one destination: the square one rank forward on its
/// own file. There is none when that square is off the board or holds a
/// piece of the pawn's side. From any rank strictly between the two back
/// ranks the forward square is on the board.
pub proof fn lemma_pawn_single_step(g: Seq<Seq<Cell>>, o: (i8, i8), side: Side)
    requires
        on_board(o),
    ensures
        pseudo_moves(g, o, ChessPiece::Pawn, side).len() <= 1,
        forall|j: int|
            0 <= j < pseudo_moves(g, o, ChessPiece::Pawn, side).len() ==> #[trigger] pseudo_moves(
                g,
                o,
                ChessPiece::Pawn,
                side,
            )[j] == (o.0, pawn_forward(side, o.1 as int) as i8),
        (pawn_forward(side, o.1 as int) < 0 || pawn_forward(side, o.1 as int) > 7) ==> pseudo_moves(
            g,
            o,
            ChessPiece::Pawn,
            side,
        ).len() == 0,
        0 < o.1 < 7 ==> on_board((o.0, pawn_forward(side, o.1 as int) as i8)) && pseudo_moves(
            g,
            o,
            ChessPiece::Pawn,
            side,
        ) == if occupied_at(g, (o.0, pawn_forward(side, o.1 as int) as i8)) && !opponent_at(
            g,
            (o.0, pawn_forward(side, o.1 as int) as i8),
            side,
        ) {
            seq![]
        } else {
            seq![(o.0, pawn_forward(side, o.1 as int) as i8)]
        },
{
}

/// The members of a leap scan are squares of the scan.
proof fn lemma_leap_scan_squares(g: Seq<Seq<Cell>>, o: (i8, i8), side: Side, knight: bool, n: nat)
    requires
        n <= 64,
    ensures
        forall|t: (i8, i8)| #[trigger] leap_scan(g, o, side, knight, n).contains(t) ==> on_board(t),
    decreases n,
{
    if n > 0 {
        lemma_leap_scan_step(g, o, side, knight, n);
        lemma_leap_scan_squares(g, o, side, knight, (n - 1) as nat);
    }
}

/// The rays of any directions from a square on the board stay on the board.
proof fn lemma_rays_on_board(g: Seq<Seq<Cell>>, o: (i8, i8), ps: Seq<MovePattern>, side: Side)
    requires
        on_board(o),
    ensures
        forall|j: int|
            0 <= j < rays(g, o, ps, side).len() ==> on_board(#[trigger] rays(g, o, ps, side)[j]),
    decreases ps.len(),
{
    if ps.len() > 0 {
        lemma_rays_on_board(g, o, ps.drop_last(), side);
        let p = ps.last();
        let e = squares_to_edge(p, o.0 as int, o.1 as int);
        lemma_ray_walk_shape(g, o, p, side, e as nat);
        let prev = rays(g, o, ps.drop_last(), side);
        let r = ray(g, o, p, side);
        assert forall|j: int| 0 <= j < rays(g, o, ps, side).len() implies on_board(
            #[trigger] rays(g, o, ps, side)[j],
        ) by {
            if j >= prev.len() {
                let k = j - prev.len();
                assert(rays(g, o, ps, side)[j] == r[k]);
                assert(r[k] == ray_square(o, p, k + 1));
                lemma_ray_square_on_board(o, p, k + 1);
            } else {
                assert(rays(g, o, ps, side)[j] == prev[j]);
            }
        }
    }
}

/// Every generated destination is on the board.
pub proof fn lemma_pseudo_moves_on_board(g: Seq<Seq<Cell>>, o: (i8, i8), piece: ChessPiece, side: Side)
    requires
        on_board(o),
    ensures
        forall|j: int|
            0 <= j < pseudo_moves(g, o, piece, side).len() ==> on_board(
                #[trigger] pseudo_moves(g, o, piece, side)[j],
            ),
{
    match piece {
        ChessPiece::King => {
            lemma_leap_scan_squares(g, o, side, false, 64);
            let s = leap_scan(g, o, side, false, 64);
            assert forall|j: int| 0 <= j < s.len() implies on_board(#[trigger] s[j]) by {
                assert(s.contains(s[j]));
            }
        },
        ChessPiece::Knight => {
            lemma_leap_scan_squares(g, o, side, true, 64);
            let s = leap_scan(g, o, side, true, 64);
            assert forall|j: int| 0 <= j < s.len() implies on_board(#[trigger] s[j]) by {
                assert(s.contains(s[j]));
            }
        },
        ChessPiece::Queen => lemma_rays_on_board(g, o, queen_patterns(), side),
        ChessPiece::Bishop => lemma_rays_on_board(g, o, bishop_patterns(), side),
        ChessPiece::Rook => lemma_rays_on_board(g, o, rook_patterns(), side),
        ChessPiece::Pawn => {},
    }
}

} // verus!
