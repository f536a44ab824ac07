//! Board geometry: the eight compass directions, square indices and the
//! per-square distances to the board edge.
use vstd::prelude::*;

verus! {

/// One of the eight compass directions a sliding piece can travel in.
/// North is towards rank 0.
#[derive(Clone, Copy, Debug, PartialEq, Eq, Structural)]
pub enum MovePattern {
    N,
    NE,
    E,
    SE,
    S,
    SW,
    W,
    NW,
}

/// Position of a direction in the edge-distance table.
pub open spec fn pattern_index_spec(p: MovePattern) -> int {
    match p {
        MovePattern::N => 0,
        MovePattern::NE => 1,
        MovePattern::E => 2,
        MovePattern::SE => 3,
        MovePattern::S => 4,
        MovePattern::SW => 5,
        MovePattern::W => 6,
        MovePattern::NW => 7,
    }
}

/// The direction stored at a row of the edge-distance table.
pub open spec fn pattern_at(d: int) -> MovePattern {
    if d == 0 {
        MovePattern::N
    } else if d == 1 {
        MovePattern::NE
    } else if d == 2 {
        MovePattern::E
    } else if d == 3 {
        MovePattern::SE
    } else if d == 4 {
        MovePattern::S
    } else if d == 5 {
        MovePattern::SW
    } else if d == 6 {
        MovePattern::W
    } else {
        MovePattern::NW
    }
}

/// The `(file, rank)` change of one step in a direction.
pub open spec fn ray_step(p: MovePattern) -> (int, int) {
    match p {
        MovePattern::N => (0, -1),
        MovePattern::NE => (1, -1),
        MovePattern::E => (1, 0),
        MovePattern::SE => (1, 1),
        MovePattern::S => (0, 1),
        MovePattern::SW => (-1, 1),
        MovePattern::W => (-1, 0),
        MovePattern::NW => (-1, -1),
    }
}

pub open spec fn min_int(a: int, b: int) -> int {
    if a < b {
        a
    } else {
        b
    }
}

/// Number of squares between `(file, rank)` and the board edge, walking in
/// direction `p`.
pub open spec fn squares_to_edge(p: MovePattern, file: int, rank: int) -> int {
    let n = rank;
    let e = 7 - file;
    let s = 7 - rank;
    let w = file;
    match p {
        MovePattern::N => n,
        MovePattern::NE => min_int(n, e),
        MovePattern::E => e,
        MovePattern::SE => min_int(s, e),
        MovePattern::S => s,
        MovePattern::SW => min_int(s, w),
        MovePattern::W => w,
        MovePattern::NW => min_int(n, w),
    }
}

pub open spec fn on_board(sq: (i8, i8)) -> bool {
    0 <= sq.0 < 8 && 0 <= sq.1 < 8
}

pub open spec fn abs_int(x: int) -> int {
    if x < 0 {
        -x
    } else {
        x
    }
}

/// Absolute file and rank distance between two squares.
pub open spec fn delta(origin: (i8, i8), to: (i8, i8)) -> (int, int) {
    (abs_int(to.0 - origin.0), abs_int(to.1 - origin.1))
}

/// A knight's jump: one of the deltas is 1 and the other 2.
pub open spec fn knight_jump(origin: (i8, i8), to: (i8, i8)) -> bool {
    let (dx, dy) = delta(origin, to);
    (dx == 1 && dy == 2) || (dx == 2 && dy == 1)
}

/// At most one square away in each coordinate (the origin included).
pub open spec fn within_one(origin: (i8, i8), to: (i8, i8)) -> bool {
    let (dx, dy) = delta(origin, to);
    dx <= 1 && dy <= 1
}

/// Splitting `a * 8 + b` back into `a` and `b`.
pub proof fn lemma_div_mod_8(a: int, b: int)
    requires
        0 <= a,
        0 <= b < 8,
    ensures
        (a * 8 + b) / 8 == a,
        (a * 8 + b) % 8 == b,
{
    assert((a * 8 + b) / 8 == a && (a * 8 + b) % 8 == b) by (nonlinear_arith)
        requires
            0 <= a,
            0 <= b < 8,
    ;
}

/// Row of the edge-distance table that belongs to a direction.
pub fn pattern_index(p: &MovePattern) -> (r: usize)
    ensures
        r == pattern_index_spec(*p),
        pattern_at(r as int) == *p,
{
    match p {
        MovePattern::N => 0,
        MovePattern::NE => 1,
        MovePattern::E => 2,
        MovePattern::SE => 3,
        MovePattern::S => 4,
        MovePattern::SW => 5,
        MovePattern::W => 6,
        MovePattern::NW => 7,
    }
}

/// The `(file, rank)` change of one step in direction `p`.
pub fn ray_increment(p: &MovePattern) -> (r: (i8, i8))
    ensures
        r.0 == ray_step(*p).0,
        r.1 == ray_step(*p).1,
{
    match p {
        MovePattern::N => (0, -1),
        MovePattern::NE => (1, -1),
        MovePattern::E => (1, 0),
        MovePattern::SE => (1, 1),
        MovePattern::S => (0, 1),
        MovePattern::SW => (-1, 1),
        MovePattern::W => (-1, 0),
        MovePattern::NW => (-1, -1),
    }
}

pub fn min_n(n1: i8, n2: i8) -> (r: i8)
    ensures
        r == min_int(n1 as int, n2 as int),
{
    if n1 < n2 {
        n1
    } else {
        n2
    }
}

/// The `(file, rank)` square of a square index `rank * 8 + file`.
pub fn square_index_to_tuple(square_index: i8) -> (r: (i8, i8))
    requires
        0 <= square_index,
    ensures
        r.0 == square_index % 8,
        r.1 == square_index / 8,
        r.0 + r.1 * 8 == square_index,
{
    (square_index % 8, square_index / 8)
}

/// The square index `rank * 8 + file` of a `(file, rank)` square.
pub fn tuple_to_square_index(tuple: (i8, i8)) -> (r: i8)
    requires
        i8::MIN <= tuple.1 * 8 <= i8::MAX,
        i8::MIN <= tuple.0 + tuple.1 * 8 <= i8::MAX,
    ensures
        r == tuple.0 + tuple.1 * 8,
{
    tuple.0 + tuple.1 * 8
}

/// Distance to the board edge from an on-board square.
fn edge_distance(p: &MovePattern, file: i8, rank: i8) -> (r: i8)
    requires
        0 <= file < 8,
        0 <= rank < 8,
    ensures
        r == squares_to_edge(*p, file as int, rank as int),
{
    let n = rank;
    let e = 7 - file;
    let s = 7 - rank;
    let w = file;
    match p {
        MovePattern::N => n,
        MovePattern::NE => min_n(n, e),
        MovePattern::E => e,
        MovePattern::SE => min_n(s, e),
        MovePattern::S => s,
        MovePattern::SW => min_n(s, w),
        MovePattern::W => w,
        MovePattern::NW => min_n(n, w),
    }
}

/// The full edge-distance table: row `d` belongs to direction
/// `pattern_at(d)`, column `rank * 8 + file` to the square `(file, rank)`.
pub fn compute_nr_of_squares_to_edge() -> (table: Vec<Vec<i8>>)
    ensures
        table@.len() == 8,
        forall|d: int| 0 <= d < 8 ==> (#[trigger] table@[d])@.len() == 64,
        forall|d: int, sq: int|
            0 <= d < 8 && 0 <= sq < 64 ==> #[trigger] table@[d]@[sq] == squares_to_edge(
                pattern_at(d),
                sq % 8,
                sq / 8,
            ),
{
    let patterns: [MovePattern; 8] = [
        MovePattern::N,
        MovePattern::NE,
        MovePattern::E,
        MovePattern::SE,
        MovePattern::S,
        MovePattern::SW,
        MovePattern::W,
        MovePattern::NW,
    ];
    let mut table: Vec<Vec<i8>> = Vec::new();
    for d in 0usize..8
        invariant
            table@.len() == d,
            patterns@ == seq![
                MovePattern::N,
                MovePattern::NE,
                MovePattern::E,
                MovePattern::SE,
                MovePattern::S,
                MovePattern::SW,
                MovePattern::W,
                MovePattern::NW,
            ],
            forall|k: int| 0 <= k < d ==> (#[trigger] table@[k])@.len() == 64,
            forall|k: int, sq: int|
                0 <= k < d && 0 <= sq < 64 ==> #[trigger] table@[k]@[sq] == squares_to_edge(
                    pattern_at(k),
                    sq % 8,
                    sq / 8,
                ),
    {
        let p = patterns[d];
        assert(p == pattern_at(d as int));
        let mut row: Vec<i8> = Vec::new();
        for rank in 0i8..8
            invariant
                row@.len() == rank * 8,
                forall|sq: int|
                    0 <= sq < row@.len() ==> #[trigger] row@[sq] == squares_to_edge(
                        p,
                        sq % 8,
                        sq / 8,
                    ),
        {
            for file in 0i8..8
                invariant
                    row@.len() == rank * 8 + file,
                    0 <= rank < 8,
                    forall|sq: int|
                        0 <= sq < row@.len() ==> #[trigger] row@[sq] == squares_to_edge(
                            p,
                            sq % 8,
                            sq / 8,
                        ),
            {
                proof {
                    lemma_div_mod_8(rank as int, file as int);
                }
                row.push(edge_distance(&p, file, rank));
            }
        }
        table.push(row);
    }
    table
}

/// Absolute file and rank distance from `origin` to `to`.
fn find_origin_to_delta(origin: (i8, i8), to: (i8, i8)) -> (r: (i8, i8))
    requires
        -127 <= to.0 - origin.0 <= 127,
        -127 <= to.1 - origin.1 <= 127,
    ensures
        r.0 == delta(origin, to).0,
        r.1 == delta(origin, to).1,
{
    let dx = to.0 - origin.0;
    let dy = to.1 - origin.1;
    let dx = if dx < 0 {
        -dx
    } else {
        dx
    };
    let dy = if dy < 0 {
        -dy
    } else {
        dy
    };
    (dx, dy)
}

/// Whether a move fits a sliding direction. No direction is matched here:
/// sliding moves come from the ray walk of the move generator instead.
pub fn is_allowed_move(_origin: (i8, i8), _to: (i8, i8), _pattern: &MovePattern) -> (r: bool)
    ensures
        !r,
{
    false
}

/// Both deltas are zero: the target is the origin itself.
fn is_origin(dx: i8, dy: i8) -> (r: bool)
    ensures
        r == (dx == 0 && dy == 0),
{
    dx == 0 && dy == 0
}

/// Whether `to` is a knight's jump away from `origin`.
pub fn is_in_l_from_origin(origin: (i8, i8), to: (i8, i8)) -> (r: bool)
    requires
        -127 <= to.0 - origin.0 <= 127,
        -127 <= to.1 - origin.1 <= 127,
    ensures
        r == knight_jump(origin, to),
{
    let (dx, dy) = find_origin_to_delta(origin, to);
    if dx == 0 || dy == 0 {
        return false;
    }
    if dx > 2 || dy > 2 {
        return false;
    }
    let delta = dx - dy;
    delta == 1 || delta == -1
}

/// Whether `to` lies within one square of `origin` in both coordinates.
pub fn is_in_square_from_origin(origin: (i8, i8), to: (i8, i8)) -> (r: bool)
    requires
        -127 <= to.0 - origin.0 <= 127,
        -127 <= to.1 - origin.1 <= 127,
    ensures
        r == within_one(origin, to),
{
    let (dx, dy) = find_origin_to_delta(origin, to);
    dx <= 1 && dy <= 1
}

/// Whether `to` is `origin` itself.
pub fn is_same_square(origin: (i8, i8), to: (i8, i8)) -> (r: bool)
    requires
        -127 <= to.0 - origin.0 <= 127,
        -127 <= to.1 - origin.1 <= 127,
    ensures
        r == (origin == to),
{
    let (dx, dy) = find_origin_to_delta(origin, to);
    is_origin(dx, dy)
}

} // verus!
