//! Fixed-depth minimax search over the board, and the opponent's turn that
//! plays the move it picks.
use vstd::prelude::*;

use crate::board::{
    all_moves,
    apply_move,
    board_score,
    lemma_all_moves_on_board,
    moved_grid,
    move_allowed,
    reverse,
    Board,
    Cell,
    Move,
};
use crate::movement::on_board;
use crate::piece::{other_side, swap_turn, Side};

verus! {

/// How many plies the opponent looks ahead.
pub const SEARCH_DEPTH: u8 = 10;

/// A move with the rating the search gave it.
#[derive(Clone, Copy, Debug, PartialEq, Eq)]
pub struct MoveRating {
    pub from: (i8, i8),
    pub to: (i8, i8),
    pub rating: i32,
}

/// Counters of one search: leaf positions evaluated and search calls made.
/// They stop at `u64::MAX`.
#[derive(Clone, Copy, Debug, PartialEq, Eq)]
pub struct SearchStats {
    pub evaluated_moves: u64,
    pub minimax_calls: u64,
}

impl SearchStats {
    /// Both counters at zero.
    pub fn new() -> (s: SearchStats)
        ensures
            s.evaluated_moves == 0,
            s.minimax_calls == 0,
    {
        SearchStats { evaluated_moves: 0, minimax_calls: 0 }
    }
}

/// A count as a counter that stops at `u64::MAX` holds it.
pub open spec fn saturate(x: int) -> int {
    if x > u64::MAX {
        u64::MAX as int
    } else {
        x
    }
}

/// `a` beats `b` for `side`: White looks for the highest rating, Black for
/// the lowest.
pub open spec fn prefers(side: Side, a: int, b: int) -> bool {
    match side {
        Side::White => a > b,
        Side::Black => a < b,
    }
}

/// The best of a list of ratings for `side`: the maximum for White, the
/// minimum for Black.
pub open spec fn best_rating(rs: Seq<int>, side: Side) -> int
    decreases rs.len(),
{
    if rs.len() == 0 {
        0
    } else if rs.len() == 1 {
        rs[0]
    } else {
        let b = best_rating(rs.drop_last(), side);
        if prefers(side, rs.last(), b) {
            rs.last()
        } else {
            b
        }
    }
}

pub open spec fn ratings_of(ms: Seq<MoveRating>) -> Seq<int> {
    ms.map_values(|m: MoveRating| m.rating as int)
}

/// The pick of the selection: start from `best`, then take each of `rest`
/// in turn that strictly beats the pick so far.
pub open spec fn scan_best(best: MoveRating, rest: Seq<MoveRating>, side: Side) -> MoveRating
    decreases rest.len(),
{
    if rest.len() == 0 {
        best
    } else {
        let b = scan_best(best, rest.drop_last(), side);
        if prefers(side, rest.last().rating as int, b.rating as int) {
            rest.last()
        } else {
            b
        }
    }
}

/// What a search leaves: its rating, the grid it ends on, the search calls
/// it made and the leaves it evaluated.
pub struct SearchOutcome {
    pub rating: int,
    pub grid: Seq<Seq<Cell>>,
    pub calls: nat,
    pub evals: nat,
}

/// What searching the replies to a list of moves leaves: a rating for each
/// move, the grid, the calls and the leaves.
pub struct ReplyOutcomes {
    pub ratings: Seq<int>,
    pub grid: Seq<Seq<Cell>>,
    pub calls: nat,
    pub evals: nat,
}

/// The search of `depth` plies for `side` on grid `g`. At depth 0 the rating
/// is the negated score of `g` for `side`. Deeper, each move of `side` is
/// played, searched one ply shallower for the other side, and taken back by
/// moving the piece back (a piece it took stays lost); the rating is the
/// best of the replies' ratings for `side`, or 0 when `side` has no move.
pub open spec fn search(depth: nat, side: Side, g: Seq<Seq<Cell>>) -> SearchOutcome
    decreases depth, 0nat, 0nat,
{
    if depth == 0 {
        SearchOutcome { rating: -board_score(g, side), grid: g, calls: 1, evals: 1 }
    } else {
        let moves = all_moves(g, side);
        let replies = search_replies((depth - 1) as nat, other_side(side), g, moves);
        SearchOutcome {
            rating: if moves.len() == 0 {
                0
            } else {
                best_rating(replies.ratings, side)
            },
            grid: replies.grid,
            calls: 1 + replies.calls,
            evals: replies.evals,
        }
    }
}

/// Plays each of `moves` in order on `g`, searches `depth` plies for `side`
/// after it and takes it back.
pub open spec fn search_replies(depth: nat, side: Side, g: Seq<Seq<Cell>>, moves: Seq<Move>) -> ReplyOutcomes
    decreases depth, 1nat, moves.len(),
{
    if moves.len() == 0 {
        ReplyOutcomes { ratings: seq![], grid: g, calls: 0, evals: 0 }
    } else {
        let prev = search_replies(depth, side, g, moves.drop_last());
        let m = moves.last();
        let child = search(depth, side, apply_move(prev.grid, m).0);
        ReplyOutcomes {
            ratings: prev.ratings.push(child.rating),
            grid: apply_move(child.grid, reverse(m)).0,
            calls: prev.calls + child.calls,
            evals: prev.evals + child.evals,
        }
    }
}

/// `m` is a move a search of `depth > 0` plies for `side` on `g` may return:
/// one of the side's moves whose reply rating is the search's rating, or
/// `(0, 0)` to `(0, 0)` when the side has no move.
pub open spec fn search_choice(depth: nat, side: Side, g: Seq<Seq<Cell>>, m: Move) -> bool {
    let moves = all_moves(g, side);
    if moves.len() == 0 {
        m == (Move { from: (0, 0), to: (0, 0) })
    } else {
        exists|k: int|
            0 <= k < moves.len() && m == moves[k] && search_replies(
                (depth - 1) as nat,
                other_side(side),
                g,
                moves,
            ).ratings[k] == search(depth, side, g).rating
    }
}

// ---------------------------------------------------------------------------
// Lemmas on the selection.

/// The best rating is one of the ratings and no rating beats it.
pub proof fn lemma_best_rating_extreme(rs: Seq<int>, side: Side)
    requires
        rs.len() > 0,
    ensures
        exists|j: int| 0 <= j < rs.len() && rs[j] == best_rating(rs, side),
        forall|j: int| 0 <= j < rs.len() ==> !prefers(side, #[trigger] rs[j], best_rating(rs, side)),
    decreases rs.len(),
{
    if rs.len() > 1 {
        lemma_best_rating_extreme(rs.drop_last(), side);
        let b = best_rating(rs.drop_last(), side);
        let j0 = choose|j: int| 0 <= j < rs.drop_last().len() && rs.drop_last()[j] == b;
        assert(rs[j0] == b);
        if prefers(side, rs.last(), b) {
            assert(rs[rs.len() - 1] == best_rating(rs, side));
        } else {
            assert(rs[j0] == best_rating(rs, side));
        }
        assert forall|j: int| 0 <= j < rs.len() implies !prefers(
            side,
            #[trigger] rs[j],
            best_rating(rs, side),
        ) by {
            if j < rs.len() - 1 {
                assert(rs[j] == rs.drop_last()[j]);
            }
        }
    } else {
        assert(rs[0] == best_rating(rs, side));
    }
}

/// The pick of the selection is its start or one of the rest, and neither
/// the start nor any of the rest beats it.
pub proof fn lemma_scan_best(best: MoveRating, rest: Seq<MoveRating>, side: Side)
    ensures
        scan_best(best, rest, side) == best || exists|j: int|
            0 <= j < rest.len() && scan_best(best, rest, side) == rest[j],
        !prefers(side, best.rating as int, scan_best(best, rest, side).rating as int),
        forall|j: int|
            0 <= j < rest.len() ==> !prefers(
                side,
                (#[trigger] rest[j]).rating as int,
                scan_best(best, rest, side).rating as int,
            ),
    decreases rest.len(),
{
    if rest.len() > 0 {
        lemma_scan_best(best, rest.drop_last(), side);
        let b = scan_best(best, rest.drop_last(), side);
        if b != best {
            let j0 = choose|j: int| 0 <= j < rest.drop_last().len() && b == rest.drop_last()[j];
            assert(b == rest[j0]);
        }
        assert forall|j: int| 0 <= j < rest.len() implies !prefers(
            side,
            (#[trigger] rest[j]).rating as int,
            scan_best(best, rest, side).rating as int,
        ) by {
            if j < rest.len() - 1 {
                assert(rest[j] == rest.drop_last()[j]);
            }
        }
    }
}

/// Selecting from any start yields a move of the list that carries the best
/// rating of the list.
pub proof fn lemma_scan_best_is_best(moves: Seq<MoveRating>, first: int, side: Side)
    requires
        0 <= first < moves.len(),
    ensures
        exists|k: int| 0 <= k < moves.len() && scan_best(moves[first], moves.remove(first), side) == moves[k],
        scan_best(moves[first], moves.remove(first), side).rating == best_rating(ratings_of(moves), side),
{
    let rest = moves.remove(first);
    let r = scan_best(moves[first], rest, side);
    lemma_scan_best(moves[first], rest, side);
    if r != moves[first] {
        let j = choose|j: int| 0 <= j < rest.len() && r == rest[j];
        if j < first {
            assert(r == moves[j]);
        } else {
            assert(r == moves[j + 1]);
        }
    }
    let rs = ratings_of(moves);
    lemma_best_rating_extreme(rs, side);
    let b = best_rating(rs, side);
    let k = choose|k: int| 0 <= k < moves.len() && scan_best(moves[first], rest, side) == moves[k];
    assert(rs[k] == r.rating);
    let jb = choose|j: int| 0 <= j < rs.len() && rs[j] == b;
    assert(!prefers(side, rs[k], b));
    if jb == first {
        assert(!prefers(side, moves[first].rating as int, r.rating as int));
    } else if jb < first {
        assert(rest[jb] == moves[jb]);
        assert(!prefers(side, rest[jb].rating as int, r.rating as int));
    } else {
        assert(rest[jb - 1] == moves[jb]);
        assert(!prefers(side, rest[jb - 1].rating as int, r.rating as int));
    }
}

// ---------------------------------------------------------------------------
// The search.

/// Relies on macroquad::rand::gen_range: for `0 < n`, a draw from `0..n`.
#[verifier::external_body]
fn random_index(n: usize) -> (r: usize)
    requires
        0 < n,
    ensures
        r < n,
{
    macroquad::rand::gen_range(0, n)
}

/// Whether rating `a` beats rating `b` for `side`.
fn is_better(side: Side, a: i32, b: i32) -> (r: bool)
    ensures
        r == prefers(side, a as int, b as int),
{
    match side {
        Side::White => a > b,
        Side::Black => a < b,
    }
}

/// Selects from `moves`, starting from the one at `first`: each of the
/// others, in order, replaces the pick when its rating is strictly higher
/// (White) or strictly lower (Black).
pub fn best_move_from(moves: Vec<MoveRating>, first: usize, whose_turn: Side) -> (best: MoveRating)
    requires
        first < moves@.len(),
    ensures
        best == scan_best(moves@[first as int], moves@.remove(first as int), whose_turn),
        exists|k: int| 0 <= k < moves@.len() && best == moves@[k],
        best.rating == best_rating(ratings_of(moves@), whose_turn),
{
    proof {
        lemma_scan_best_is_best(moves@, first as int, whose_turn);
    }
    let ghost start = moves@[first as int];
    let mut moves = moves;
    let mut best_move_rating = moves.remove(first);
    let ghost rest = moves@;
    for k in 0usize..moves.len()
        invariant
            moves@ == rest,
            best_move_rating == scan_best(start, rest.take(k as int), whose_turn),
    {
        let move_rating = moves[k];
        assert(rest.take(k + 1).drop_last() == rest.take(k as int));
        if is_better(whose_turn, move_rating.rating, best_move_rating.rating) {
            best_move_rating = move_rating;
        }
    }
    assert(rest.take(rest.len() as int) == rest);
    best_move_rating
}

/// Selects from `moves` starting from a random one, so that ties among the
/// best ratings are broken at random.
fn best_move(moves: Vec<MoveRating>, whose_turn: Side) -> (best: MoveRating)
    requires
        moves@.len() > 0,
    ensures
        exists|k: int| 0 <= k < moves@.len() && best == moves@[k],
        best.rating == best_rating(ratings_of(moves@), whose_turn),
{
    let random = random_index(moves.len());
    best_move_from(moves, random, whose_turn)
}

/// Rates the position a move led to: the negated score of the board for
/// `whose_turn`.
fn evaluate_move(l_move: &Move, board: &Board, whose_turn: Side, stats: &mut SearchStats) -> (r:
    MoveRating)
    requires
        board.wf(),
    ensures
        r.from == l_move.from,
        r.to == l_move.to,
        r.rating == -board_score(board.grid(), whose_turn),
        final(stats).evaluated_moves == saturate(old(stats).evaluated_moves + 1),
        final(stats).minimax_calls == old(stats).minimax_calls,
{
    stats.evaluated_moves = stats.evaluated_moves.saturating_add(1);
    let score = Board::evaluate_board_score(board.get_board_state(), whose_turn);
    MoveRating { from: l_move.from, to: l_move.to, rating: -score }
}

/// Searches `depth` plies for `whose_turn` on `board`, playing and taking
/// back moves on it; `l_move` is the move that led to the position. See
/// `search` for the rating; at depth 0 the result carries `l_move`, deeper
/// a move `search_choice` allows.
pub fn minimax(
    depth: u8,
    l_move: &Move,
    whose_turn: Side,
    board: &mut Board,
    stats: &mut SearchStats,
) -> (r: MoveRating)
    requires
        old(board).wf(),
    ensures
        final(board).wf(),
        final(board).grid() == search(depth as nat, whose_turn, old(board).grid()).grid,
        final(board).last_move == old(board).last_move,
        r.rating == search(depth as nat, whose_turn, old(board).grid()).rating,
        depth == 0 ==> r.rating == -board_score(old(board).grid(), whose_turn),
        depth == 0 ==> r.from == l_move.from && r.to == l_move.to,
        depth > 0 ==> search_choice(
            depth as nat,
            whose_turn,
            old(board).grid(),
            Move { from: r.from, to: r.to },
        ),
        final(stats).minimax_calls == saturate(
            old(stats).minimax_calls + search(depth as nat, whose_turn, old(board).grid()).calls,
        ),
        final(stats).evaluated_moves == saturate(
            old(stats).evaluated_moves + search(depth as nat, whose_turn, old(board).grid()).evals,
        ),
    decreases depth,
{
    stats.minimax_calls = stats.minimax_calls.saturating_add(1);
    if depth == 0 {
        return evaluate_move(l_move, board, whose_turn, stats);
    }
    let ghost g0 = board.grid();
    let ghost calls0 = stats.minimax_calls as int;
    let ghost evals0 = stats.evaluated_moves as int;
    let all_moves_for_side = board.get_all_moves_for_side(whose_turn);
    proof {
        lemma_all_moves_on_board(g0, whose_turn);
    }
    let swapped_turn = swap_turn(whose_turn);
    let ghost child_depth = (depth - 1) as nat;
    let mut rated_moves: Vec<MoveRating> = Vec::new();
    for i in 0usize..all_moves_for_side.len()
        invariant
            depth > 0,
            child_depth == depth - 1,
            board.wf(),
            board.last_move == old(board).last_move,
            all_moves_for_side@ == all_moves(g0, whose_turn),
            forall|j: int|
                0 <= j < all_moves_for_side@.len() ==> on_board(
                    (#[trigger] all_moves_for_side@[j]).from,
                ) && on_board(all_moves_for_side@[j].to),
            swapped_turn == other_side(whose_turn),
            board.grid() == search_replies(
                child_depth,
                swapped_turn,
                g0,
                all_moves_for_side@.take(i as int),
            ).grid,
            ratings_of(rated_moves@) == search_replies(
                child_depth,
                swapped_turn,
                g0,
                all_moves_for_side@.take(i as int),
            ).ratings,
            rated_moves@.len() == i,
            forall|j: int|
                0 <= j < i ==> (#[trigger] rated_moves@[j]).from == all_moves_for_side@[j].from
                    && rated_moves@[j].to == all_moves_for_side@[j].to,
            0 <= calls0 <= u64::MAX,
            0 <= evals0 <= u64::MAX,
            stats.minimax_calls == saturate(
                calls0 + search_replies(
                    child_depth,
                    swapped_turn,
                    g0,
                    all_moves_for_side@.take(i as int),
                ).calls,
            ),
            stats.evaluated_moves == saturate(
                evals0 + search_replies(
                    child_depth,
                    swapped_turn,
                    g0,
                    all_moves_for_side@.take(i as int),
                ).evals,
            ),
    {
        let possible_move = all_moves_for_side[i];
        assert(all_moves_for_side@.take(i + 1).drop_last() == all_moves_for_side@.take(i as int));
        board.make_move(&possible_move);
        let best_move = minimax(depth - 1, &possible_move, swapped_turn, board, stats);
        board.unmake_move(&possible_move);
        rated_moves.push(
            MoveRating { from: possible_move.from, to: possible_move.to, rating: best_move.rating },
        );
        assert(ratings_of(rated_moves@) =~= search_replies(
            child_depth,
            swapped_turn,
            g0,
            all_moves_for_side@.take(i + 1),
        ).ratings);
    }
    assert(all_moves_for_side@.take(all_moves_for_side@.len() as int) == all_moves_for_side@);
    if rated_moves.len() == 0 {
        return MoveRating { from: (0, 0), to: (0, 0), rating: 0 };
    }
    let ghost rated = rated_moves@;
    let best = best_move(rated_moves, whose_turn);
    proof {
        let k = choose|k: int| 0 <= k < rated.len() && best == rated[k];
        assert(ratings_of(rated)[k] == best.rating);
        assert(Move { from: best.from, to: best.to } == all_moves(g0, whose_turn)[k]);
    }
    best
}

/// The opponent's turn: searches `SEARCH_DEPTH` plies for `whose_turn` on
/// `simulated_board`, a copy of the board that the search may wear down, and
/// plays the chosen move on `board` through the rules check. The board's
/// last move is cleared first. `stats` is reset and then counts the search.
/// Returns the side to move next.
pub fn opponents_turn(
    board: &mut Board,
    simulated_board: Board,
    whose_turn: Side,
    stats: &mut SearchStats,
) -> (r: Side)
    requires
        old(board).wf(),
        simulated_board.wf(),
    ensures
        r == other_side(whose_turn),
        final(board).wf(),
        final(stats).minimax_calls == saturate(
            search(SEARCH_DEPTH as nat, whose_turn, simulated_board.grid()).calls as int,
        ),
        final(stats).evaluated_moves == saturate(
            search(SEARCH_DEPTH as nat, whose_turn, simulated_board.grid()).evals as int,
        ),
        exists|m: Move|
            search_choice(SEARCH_DEPTH as nat, whose_turn, simulated_board.grid(), m) && if move_allowed(
                old(board).grid(),
                m.from,
                m.to,
            ) {
                final(board).grid() == moved_grid(old(board).grid(), m.from, m.to)
                    && final(board).last_move == m
            } else {
                final(board).grid() == old(board).grid() && final(board).last_move == (Move {
                    from: (0, 0),
                    to: (0, 0),
                })
            },
{
    stats.evaluated_moves = 0;
    stats.minimax_calls = 0;
    let blank_move = Move { from: (0, 0), to: (0, 0) };
    let last_move = board.last_move;
    board.last_move = blank_move;
    let ghost g = simulated_board.grid();
    let mut simulated_board = simulated_board;
    let best_move = minimax(SEARCH_DEPTH, &last_move, whose_turn, &mut simulated_board, stats);
    let ghost chosen = Move { from: best_move.from, to: best_move.to };
    proof {
        lemma_all_moves_on_board(g, whose_turn);
        if all_moves(g, whose_turn).len() > 0 {
            let k = choose|k: int|
                0 <= k < all_moves(g, whose_turn).len() && chosen == all_moves(g, whose_turn)[k]
                    && search_replies(
                    (SEARCH_DEPTH - 1) as nat,
                    other_side(whose_turn),
                    g,
                    all_moves(g, whose_turn),
                ).ratings[k] == search(SEARCH_DEPTH as nat, whose_turn, g).rating;
            assert(on_board(all_moves(g, whose_turn)[k].from));
        }
    }
    board.move_piece(best_move.from, best_move.to);
    swap_turn(whose_turn)
}

} // verus!
