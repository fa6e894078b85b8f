use vstd::prelude::*;

use cozy_chess::Board as CozyBoard;
use cozy_chess::Move as CozyMove;

use crate::cozy::{
    board_black_to_move, bit_set, bitboard_len, bits_below, board_contents, board_from_fen, board_hash, board_text, clone_board, colors_bits,
    cozy_checked, cozy_fen, cozy_from_fen, cozy_hash, cozy_legal_moves, cozy_move_to, cozy_parse_move, cozy_play,
    fen_accepted, in_check, legal_moves, make_move, move_target, move_text_accepted, parse_move, piece_on, square_move,
    pieces_bits, same_move, try_play,
};
use crate::hashing::{flag_type, position_hash, transposition_table, Entry, Zobrist};
use crate::pieces::Color;
use crate::search::other;

verus! {

/// The stage of the game the engine plays in (3 would be the endgame).
pub const GAME_STAGE: i32 = 1;

/// A side, as the Python caller names it.
#[derive(Debug, Clone, Copy, PartialEq, Eq, Structural)]
pub enum Color2 {
    White,
    Black,
}

/// The name of a side as the Python caller spells it.
pub fn color_to_str(color: Color) -> (name: &'static str)
    ensures
        name@ == (match color {
            Color::White => "white"@,
            Color::Black => "black"@,
        }),
{
    match color {
        Color::White => "white",
        Color::Black => "black",
    }
}

// ---------------------------------------------------------------------------
// Time management
// ---------------------------------------------------------------------------

/// The milliseconds to think: none once the game is over, 200 when less than ten seconds
/// are left, 750 when behind on material (or in the endgame), 500 otherwise or when the
/// evaluation failed.
pub open spec fn time_for(eval: Result<(i32, i32), String>, time: i32, game_on: bool, mycolor: Color) -> i32 {
    if !game_on {
        0
    } else if time < 10_000 {
        200
    } else {
        match eval {
            Ok((white_pts, black_pts)) => {
                if (mycolor == Color::White && white_pts < black_pts) || (mycolor == Color::Black && black_pts
                    < white_pts) {
                    750
                } else if GAME_STAGE == 3 {
                    750
                } else {
                    500
                }
            },
            Err(_) => 500,
        }
    }
}

/// How long to search, in milliseconds (see `time_for`).
pub fn determine_time(eval: Result<(i32, i32), String>, time: i32, game_on: bool, mycolor: Color) -> (t: i32)
    ensures
        t == time_for(eval, time, game_on, mycolor),
{
    if !game_on {
        return 0;
    }
    if time < 10_000 {
        return 200;
    }
    match eval {
        Ok((white_pts, black_pts)) => {
            if mycolor == Color::White {
                if white_pts < black_pts {
                    return 750;
                }
            } else {
                if black_pts < white_pts {
                    return 750;
                }
            }
        },
        Err(_) => {
            return 500;
        },
    }
    if GAME_STAGE == 3 {
        return 750;
    }
    500
}

// ---------------------------------------------------------------------------
// Material on a cozy_chess board
// ---------------------------------------------------------------------------

// Position tables, indexed by square (0 = a1, ..., 63 = h8).

pub const KNIGHT_POS_MAP: [i32; 64] = [
    -1, 1, -1, -1, -1, -1, 1, -1,
    -2, -1, 1, -1, -1, 1, -1, -2,
    -2, 0, 2, 1, 1, 2, 0, -2,
    -2, 1, 1, 3, 3, 1, 1, -2,
    -2, 1, 1, 3, 3, 1, 1, -2,
    -2, 0, 2, 1, 1, 2, 0, -2,
    -2, -1, 1, -1, -1, 1, -1, -2,
    -2, 1, -1, -1, -1, -1, 1, -2,
];

pub const BISHOP_POS_MAP: [i32; 64] = [
    -2, -1, 1, -1, -1, 1, -1, -2,
    -1, 2, -1, 2, 2, -1, 2, -1,
    1, 1, 3, 2, 2, 3, 1, 1,
    -1, 2, 3, 4, 4, 3, 2, -1,
    -1, 2, 3, 4, 4, 3, 2, -1,
    1, 1, 3, 2, 2, 3, 1, 1,
    -1, 2, -1, 2, 2, -1, 2, -1,
    -2, -1, 1, -1, -1, 1, -1, -2,
];

pub const QUEEN_POS_MAP: [i32; 64] = [
    -2, -2, -2, 1, 1, -2, -2, -2,
    -2, 0, 1, 1, 1, 1, 0, -2,
    -2, 1, 2, 2, 2, 2, 1, -2,
    -2, 2, 2, 3, 3, 2, 2, -2,
    -2, 2, 2, 3, 3, 2, 2, -2,
    -2, 1, 2, 2, 2, 2, 1, -2,
    -2, 0, 1, 1, 1, 1, 0, -2,
    -2, -2, -2, 1, 1, -2, -2, -2,
];

pub const KING_BEGIN_POS_MAP: [i32; 64] = [
    -1, 2, 2, 1, 1, 2, 2, -1,
    0, 0, 0, 0, 0, 0, 0, 0,
    -2, -2, -2, -2, -2, -2, -2, -2,
    -2, -2, -2, -2, -2, -2, -2, -2,
    -2, -2, -2, -2, -2, -2, -2, -2,
    -2, -2, -2, -2, -2, -2, -2, -2,
    0, 0, 0, 0, 0, 0, 0, 0,
    -1, 2, 2, 1, 1, 2, 2, -1,
];

pub const KING_END_POS_MAP: [i32; 64] = [
    -2, -2, -2, 1, 1, -2, -2, -2,
    -2, 0, 0, 1, 1, 0, 0, -2,
    -2, 0, 1, 2, 2, 1, 0, -2,
    -2, 1, 2, 3, 3, 2, 1, -2,
    -2, 1, 2, 3, 3, 2, 1, -2,
    -2, 0, 1, 2, 2, 1, 0, -2,
    -2, 0, 0, 1, 1, 0, 0, -2,
    -2, -2, -2, 1, 1, -2, -2, -2,
];

pub const PAWN_BEGIN_POS_MAP: [i32; 64] = [
    2, 2, 2, 2, 2, 2, 2, 2,
    1, 1, 1, 1, 1, 1, 1, 1,
    0, 0, 1, 2, 2, 1, 0, 0,
    0, 0, 2, 3, 3, 2, 0, 0,
    0, 0, 2, 3, 3, 2, 0, 0,
    0, 0, 1, 2, 2, 1, 0, 0,
    1, 1, 1, 1, 1, 1, 1, 1,
    2, 2, 2, 2, 2, 2, 2, 2,
];

/// The value of a kind of piece: pawn 1, knight 3, bishop 3, rook 5, queen 9, king 0.
pub open spec fn kind_value(kind: int) -> int {
    if kind == 0 {
        1
    } else if kind == 1 || kind == 2 {
        3
    } else if kind == 3 {
        5
    } else if kind == 4 {
        9
    } else {
        0
    }
}

/// The number of a colour.
pub open spec fn color_number(color: Color) -> int {
    match color {
        Color::White => 0,
        Color::Black => 1,
    }
}

/// Square `sq` holds a piece of colour `color` and kind `kind`.
pub open spec fn holds(contents: Map<int, (int, int)>, color: int, kind: int, sq: int) -> bool {
    contents.contains_key(sq) && contents[sq] == (color, kind)
}

/// The table points, times `value`, of the squares `0..n` that hold such a piece.
pub open spec fn table_points(contents: Map<int, (int, int)>, color: int, kind: int, table: Seq<i32>, value: int, n: int) -> int
    decreases n,
{
    if n <= 0 {
        0
    } else {
        table_points(contents, color, kind, table, value, n - 1) + if holds(contents, color, kind, n - 1) {
            table[n - 1] * value
        } else {
            0
        }
    }
}

/// How many of the squares `0..n` hold such a piece.
pub open spec fn piece_count(contents: Map<int, (int, int)>, color: int, kind: int, n: int) -> int
    decreases n,
{
    if n <= 0 {
        0
    } else {
        piece_count(contents, color, kind, n - 1) + if holds(contents, color, kind, n - 1) {
            1int
        } else {
            0
        }
    }
}

/// The points a side scores for its pieces of one kind: by the position tables for knights,
/// bishops, queens, kings and (before the endgame) pawns, by count otherwise.
pub open spec fn kind_points(contents: Map<int, (int, int)>, color: int, kind: int) -> int {
    let value = kind_value(kind);
    if kind == 1 {
        table_points(contents, color, kind, KNIGHT_POS_MAP@, value, 64)
    } else if kind == 2 {
        table_points(contents, color, kind, BISHOP_POS_MAP@, value, 64)
    } else if kind == 4 {
        table_points(contents, color, kind, QUEEN_POS_MAP@, value, 64)
    } else if kind == 5 && GAME_STAGE != 3 {
        table_points(contents, color, kind, KING_BEGIN_POS_MAP@, value, 64)
    } else if kind == 5 && GAME_STAGE == 3 {
        table_points(contents, color, kind, KING_END_POS_MAP@, value, 64)
    } else if kind == 0 && GAME_STAGE != 3 {
        table_points(contents, color, kind, PAWN_BEGIN_POS_MAP@, value, 64)
    } else {
        piece_count(contents, color, kind, 64) * value
    }
}

/// The points of a side for its pieces of the kinds `0..k`.
pub open spec fn side_points(contents: Map<int, (int, int)>, color: int, k: int) -> int
    decreases k,
{
    if k <= 0 {
        0
    } else {
        side_points(contents, color, k - 1) + kind_points(contents, color, k - 1)
    }
}

proof fn lemma_bits(a: u64, b: u64, i: u64)
    requires
        i < 64,
    ensures
        bit_set(a & b, i) == (bit_set(a, i) && bit_set(b, i)),
        ((a & (1u64 << i)) != 0u64) == bit_set(a, i),
{
    assert(bit_set(a & b, i) == (bit_set(a, i) && bit_set(b, i))) by (bit_vector)
        requires
            i < 64,
    ;
    assert(((a & (1u64 << i)) != 0u64) == bit_set(a, i)) by (bit_vector)
        requires
            i < 64,
    ;
}

/// A table's entries lie in -2..=4.
pub open spec fn table_in_range(table: Seq<i32>) -> bool {
    table.len() == 64 && forall|i: int| 0 <= i < 64 ==> -2 <= #[trigger] table[i] <= 4
}

proof fn lemma_tables_in_range()
    ensures
        table_in_range(KNIGHT_POS_MAP@),
        table_in_range(BISHOP_POS_MAP@),
        table_in_range(QUEEN_POS_MAP@),
        table_in_range(KING_BEGIN_POS_MAP@),
        table_in_range(KING_END_POS_MAP@),
        table_in_range(PAWN_BEGIN_POS_MAP@),
{
}

/// The table points, times `value`, of the squares whose bit is set in `bits`.
fn bit_table_points(
    bits: u64,
    table: &[i32; 64],
    value: i32,
    ghost_contents: Ghost<Map<int, (int, int)>>,
    color: Ghost<int>,
    kind: Ghost<int>,
) -> (pts: i32)
    requires
        0 <= value <= 9,
        table_in_range(table@),
        forall|i: u64| i < 64 ==> (#[trigger] bit_set(bits, i) <==> holds(ghost_contents@, color@, kind@, i as int)),
    ensures
        pts == table_points(ghost_contents@, color@, kind@, table@, value as int, 64),
        -64 * 36 <= pts <= 64 * 36,
{
    let mut pts: i32 = 0;
    let mut i: usize = 0;
    while i < 64
        invariant
            i <= 64,
            0 <= value <= 9,
            table_in_range(table@),
            forall|j: u64| j < 64 ==> (#[trigger] bit_set(bits, j) <==> holds(ghost_contents@, color@, kind@, j as int)),
            pts == table_points(ghost_contents@, color@, kind@, table@, value as int, i as int),
            -36 * (i as int) <= pts <= 36 * (i as int),
        decreases 64 - i,
    {
        let shift = i as u64;
        proof {
            lemma_bits(bits, 0, shift);
            assert(bit_set(bits, shift) <==> holds(ghost_contents@, color@, kind@, i as int));
            assert(-2 <= table@[i as int] <= 4);
        }
        if (bits & (1u64 << shift)) != 0 {
            assert(-36 <= table@[i as int] * value <= 36) by (nonlinear_arith)
                requires
                    -2 <= table[i as int] <= 4,
                    0 <= value <= 9,
            ;
            pts = pts + table[i] * value;
        }
        i += 1;
    }
    pts
}

proof fn lemma_count_bits(bits: u64, contents: Map<int, (int, int)>, color: int, kind: int, n: nat)
    requires
        n <= 64,
        forall|i: u64| i < 64 ==> (#[trigger] bit_set(bits, i) <==> holds(contents, color, kind, i as int)),
    ensures
        bits_below(bits, n) == piece_count(contents, color, kind, n as int),
        piece_count(contents, color, kind, n as int) <= n,
    decreases n,
{
    if n > 0 {
        lemma_count_bits(bits, contents, color, kind, (n - 1) as nat);
        assert(bit_set(bits, (n - 1) as u64) <==> holds(contents, color, kind, n - 1));
    }
}

/// The points of one kind of piece for both sides, as `kind_points` gives them.
fn kind_points_both(board: &CozyBoard, kind: usize, value: i32) -> (res: (i32, i32))
    requires
        kind < 6,
        value == kind_value(kind as int),
    ensures
        res.0 == kind_points(board_contents(*board), 0, kind as int),
        res.1 == kind_points(board_contents(*board), 1, kind as int),
        -64 * 36 <= res.0 <= 64 * 36,
        -64 * 36 <= res.1 <= 64 * 36,
{
    let ghost contents = board_contents(*board);
    let piece_bb = pieces_bits(board, kind);
    let white_all = colors_bits(board, Color::White);
    let black_all = colors_bits(board, Color::Black);
    let white_bb = piece_bb & white_all;
    let black_bb = piece_bb & black_all;
    proof {
        lemma_tables_in_range();
        assert forall|i: u64| i < 64 implies (#[trigger] bit_set(white_bb, i) <==> holds(contents, 0, kind as int, i as int)) by {
            lemma_bits(piece_bb, white_all, i);
        }
        assert forall|i: u64| i < 64 implies (#[trigger] bit_set(black_bb, i) <==> holds(contents, 1, kind as int, i as int)) by {
            lemma_bits(piece_bb, black_all, i);
        }
        lemma_count_bits(white_bb, contents, 0, kind as int, 64);
        lemma_count_bits(black_bb, contents, 1, kind as int, 64);
    }
    let white_count = bitboard_len(white_bb) as i32;
    let black_count = bitboard_len(black_bb) as i32;
    if kind == 1 {
        (
            bit_table_points(white_bb, &KNIGHT_POS_MAP, value, Ghost(contents), Ghost(0), Ghost(kind as int)),
            bit_table_points(black_bb, &KNIGHT_POS_MAP, value, Ghost(contents), Ghost(1), Ghost(kind as int)),
        )
    } else if kind == 2 {
        (
            bit_table_points(white_bb, &BISHOP_POS_MAP, value, Ghost(contents), Ghost(0), Ghost(kind as int)),
            bit_table_points(black_bb, &BISHOP_POS_MAP, value, Ghost(contents), Ghost(1), Ghost(kind as int)),
        )
    } else if kind == 4 {
        (
            bit_table_points(white_bb, &QUEEN_POS_MAP, value, Ghost(contents), Ghost(0), Ghost(kind as int)),
            bit_table_points(black_bb, &QUEEN_POS_MAP, value, Ghost(contents), Ghost(1), Ghost(kind as int)),
        )
    } else if kind == 5 && GAME_STAGE != 3 {
        (
            bit_table_points(white_bb, &KING_BEGIN_POS_MAP, value, Ghost(contents), Ghost(0), Ghost(kind as int)),
            bit_table_points(black_bb, &KING_BEGIN_POS_MAP, value, Ghost(contents), Ghost(1), Ghost(kind as int)),
        )
    } else if kind == 5 && GAME_STAGE == 3 {
        (
            bit_table_points(white_bb, &KING_END_POS_MAP, value, Ghost(contents), Ghost(0), Ghost(kind as int)),
            bit_table_points(black_bb, &KING_END_POS_MAP, value, Ghost(contents), Ghost(1), Ghost(kind as int)),
        )
    } else if kind == 0 && GAME_STAGE != 3 {
        (
            bit_table_points(white_bb, &PAWN_BEGIN_POS_MAP, value, Ghost(contents), Ghost(0), Ghost(kind as int)),
            bit_table_points(black_bb, &PAWN_BEGIN_POS_MAP, value, Ghost(contents), Ghost(1), Ghost(kind as int)),
        )
    } else {
        assert(0 <= white_count <= 64 && 0 <= black_count <= 64);
        assert(-64 * 36 <= white_count * value <= 64 * 36) by (nonlinear_arith)
            requires
                0 <= white_count <= 64,
                0 <= value <= 9,
        ;
        assert(-64 * 36 <= black_count * value <= 64 * 36) by (nonlinear_arith)
            requires
                0 <= black_count <= 64,
                0 <= value <= 9,
        ;
        (white_count * value, black_count * value)
    }
}

/// The material and positional points of White and of Black on a board, summed over the
/// kinds of piece (see `kind_points`).  It never fails.
pub fn calculate_material(board: &CozyBoard) -> (res: Result<(i32, i32), String>)
    ensures
        res == Ok::<(i32, i32), String>(
            (
                side_points(board_contents(*board), 0, 6) as i32,
                side_points(board_contents(*board), 1, 6) as i32,
            ),
        ),
        -6 * 64 * 36 <= side_points(board_contents(*board), 0, 6) <= 6 * 64 * 36,
        -6 * 64 * 36 <= side_points(board_contents(*board), 1, 6) <= 6 * 64 * 36,
{
    let piece_values: [i32; 6] = [1, 3, 3, 5, 9, 0];
    let mut white_pts: i32 = 0;
    let mut black_pts: i32 = 0;
    let mut kind: usize = 0;
    while kind < 6
        invariant
            kind <= 6,
            piece_values@ == seq![1i32, 3, 3, 5, 9, 0],
            white_pts == side_points(board_contents(*board), 0, kind as int),
            black_pts == side_points(board_contents(*board), 1, kind as int),
            -2304 * (kind as int) <= white_pts <= 2304 * (kind as int),
            -2304 * (kind as int) <= black_pts <= 2304 * (kind as int),
        decreases 6 - kind,
    {
        let value = piece_values[kind];
        let (w, b) = kind_points_both(board, kind, value);
        white_pts = white_pts + w;
        black_pts = black_pts + b;
        kind += 1;
    }
    Ok((white_pts, black_pts))
}

// ---------------------------------------------------------------------------
// Applying the opponent's move
// ---------------------------------------------------------------------------

/// Why the opponent's move could not be applied.
#[derive(Debug, Clone, Copy, PartialEq, Eq, Structural)]
pub enum UpdateError {
    /// The FEN does not describe a position.
    BadFen,
    /// The move is not legal in the position.
    IllegalMove,
    /// The move is not in UCI notation.
    InvalidMove,
}

/// The FEN after the opponent's move `opp_move` (UCI notation) is played on `fen`.
pub fn update_fen(fen: &str, opp_move: &str) -> (res: Result<String, UpdateError>)
    ensures
        !fen_accepted(fen@, false) ==> res == Err::<String, UpdateError>(UpdateError::BadFen),
        fen_accepted(fen@, false) && !move_text_accepted(opp_move@) ==> res == Err::<String, UpdateError>(
            UpdateError::InvalidMove,
        ),
        fen_accepted(fen@, false) && move_text_accepted(opp_move@) ==> match cozy_play(
            cozy_from_fen(fen@, false)->0,
            cozy_parse_move(opp_move@)->0,
        ) {
            Some(after) => res matches Ok(text) && text@ == cozy_fen(after),
            None => res == Err::<String, UpdateError>(UpdateError::IllegalMove),
        },
{
    let mut board = match board_from_fen(fen, false) {
        Ok(b) => b,
        Err(_) => {
            return Err(UpdateError::BadFen);
        },
    };
    match parse_move(opp_move) {
        Ok(m) => {
            if try_play(&mut board, m) {
                Ok(board_text(&board))
            } else {
                Err(UpdateError::IllegalMove)
            }
        },
        Err(_) => Err(UpdateError::InvalidMove),
    }
}

// ---------------------------------------------------------------------------
// Move ordering
// ---------------------------------------------------------------------------

/// The group a move is searched in.
#[derive(Debug, Clone, Copy, PartialEq, Eq, Structural)]
pub enum MoveType {
    PreviousBest,
    Check,
    Capture,
    Normal,
}

/// The moves among the first `n` whose group is `t`, in order.
pub open spec fn moves_of_type(moves: Seq<CozyMove>, types: Seq<MoveType>, t: MoveType, n: int) -> Seq<CozyMove>
    decreases n,
{
    if n <= 0 {
        Seq::empty()
    } else if types[n - 1] == t {
        moves_of_type(moves, types, t, n - 1).push(moves[n - 1])
    } else {
        moves_of_type(moves, types, t, n - 1)
    }
}

/// The search order: the moves equal to the previous best, the previous best itself again,
/// the checks, the captures, the rest.
pub open spec fn category_order(moves: Seq<CozyMove>, types: Seq<MoveType>, best: Option<CozyMove>) -> Seq<CozyMove> {
    let n = moves.len() as int;
    moves_of_type(moves, types, MoveType::PreviousBest, n) + (match best {
        Some(b) => seq![b],
        None => Seq::empty(),
    }) + moves_of_type(moves, types, MoveType::Check, n) + moves_of_type(moves, types, MoveType::Capture, n)
        + moves_of_type(moves, types, MoveType::Normal, n)
}

/// The board after trying `mv`: the move played when it is legal, the board unchanged else.
pub open spec fn after_try(b: CozyBoard, mv: CozyMove) -> CozyBoard {
    match cozy_play(b, mv) {
        Some(after) => after,
        None => b,
    }
}

/// The move taken as the previous best: the move stored in `table` under the position's
/// hash, when it parses, else `previous_best`.
pub open spec fn best_for(b: CozyBoard, previous_best: Option<CozyMove>, table: Map<u64, Entry>, z: Zobrist) -> Option<CozyMove> {
    let h = position_hash(z, board_contents(b), board_black_to_move(b));
    if table.contains_key(h) && cozy_parse_move(table[h].best_move@) is Some {
        cozy_parse_move(table[h].best_move@)
    } else {
        previous_best
    }
}

/// The group of a move: the previous best; else a check when the side to move after it is
/// in check; else a capture when a piece stands on its target square afterwards; else
/// normal.
pub open spec fn type_of(b: CozyBoard, mv: CozyMove, best: Option<CozyMove>) -> MoveType {
    let after = after_try(b, mv);
    if best == Some(mv) {
        MoveType::PreviousBest
    } else if cozy_checked(after) {
        MoveType::Check
    } else if board_contents(after).contains_key(cozy_move_to(mv)) {
        MoveType::Capture
    } else {
        MoveType::Normal
    }
}

/// The group of each move.
pub open spec fn move_types(b: CozyBoard, moves: Seq<CozyMove>, best: Option<CozyMove>) -> Seq<MoveType> {
    Seq::new(moves.len(), |i: int| type_of(b, moves[i], best))
}

/// The legal moves of `b` in search order.
pub open spec fn categorized(b: CozyBoard, previous_best: Option<CozyMove>, table: Map<u64, Entry>, z: Zobrist) -> Seq<CozyMove> {
    let best = best_for(b, previous_best, table, z);
    category_order(cozy_legal_moves(b), move_types(b, cozy_legal_moves(b), best), best)
}

fn push_all(dst: &mut Vec<CozyMove>, src: &Vec<CozyMove>)
    ensures
        final(dst)@ == old(dst)@ + src@,
{
    let mut i: usize = 0;
    while i < src.len()
        invariant
            i <= src.len(),
            dst@ == old(dst)@ + src@.take(i as int),
        decreases src.len() - i,
    {
        dst.push(src[i]);
        i += 1;
        assert(dst@ == old(dst)@ + src@.take(i as int));
    }
    assert(src@.take(i as int) == src@);
}

impl AlphaBeta {
    /// Puts `moves` in search order, given the group of each (see `category_order`).
    pub fn order_by_category(moves: &Vec<CozyMove>, types: &Vec<MoveType>, best: Option<CozyMove>) -> (sorted: Vec<CozyMove>)
        requires
            moves.len() == types.len(),
        ensures
            sorted@ == category_order(moves@, types@, best),
    {
        let mut sorted: Vec<CozyMove> = Vec::new();
        let mut checks: Vec<CozyMove> = Vec::new();
        let mut captures: Vec<CozyMove> = Vec::new();
        let mut normal: Vec<CozyMove> = Vec::new();
        let mut i: usize = 0;
        while i < moves.len()
            invariant
                i <= moves.len(),
                moves.len() == types.len(),
                sorted@ == moves_of_type(moves@, types@, MoveType::PreviousBest, i as int),
                checks@ == moves_of_type(moves@, types@, MoveType::Check, i as int),
                captures@ == moves_of_type(moves@, types@, MoveType::Capture, i as int),
                normal@ == moves_of_type(moves@, types@, MoveType::Normal, i as int),
            decreases moves.len() - i,
        {
            let m = moves[i];
            match types[i] {
                MoveType::PreviousBest => sorted.push(m),
                MoveType::Check => checks.push(m),
                MoveType::Capture => captures.push(m),
                MoveType::Normal => normal.push(m),
            }
            i += 1;
        }
        if let Some(bm) = best {
            sorted.push(bm);
        }
        push_all(&mut sorted, &checks);
        push_all(&mut sorted, &captures);
        push_all(&mut sorted, &normal);
        sorted
    }

    /// The legal moves of `board` in search order (see `categorized`): the previous best
    /// (the best move stored in `table` for this position, when it parses, else
    /// `previous_best`), checks, captures, the rest.
    pub fn categorize_moves(
        board: &CozyBoard,
        previous_best: Option<CozyMove>,
        color: Color,
        table: &transposition_table,
        zobrist: &Zobrist,
    ) -> (sorted: Vec<CozyMove>)
        ensures
            sorted@ == categorized(*board, previous_best, table@, *zobrist),
    {
        let total = legal_moves(board);
        let mut best_move = previous_best;
        let hash = zobrist.hash_position(board);
        if let Some(entry) = table.get(hash) {
            if let Ok(m) = parse_move(entry.best_move.as_str()) {
                best_move = Some(m);
            }
        }
        assert(best_move == best_for(*board, previous_best, table@, *zobrist));
        let ghost gtypes = move_types(*board, total@, best_move);
        let mut types: Vec<MoveType> = Vec::new();
        let mut i: usize = 0;
        while i < total.len()
            invariant
                i <= total.len(),
                types.len() == i,
                gtypes == move_types(*board, total@, best_move),
                forall|k: int| 0 <= k < i ==> #[trigger] types@[k] == gtypes[k],
            decreases total.len() - i,
        {
            let m = total[i];
            let mut new_board = clone_board(board);
            let _ = try_play(&mut new_board, m);
            let captured = piece_on(&new_board, move_target(&m));
            let is_best = match best_move {
                Some(b) => same_move(&m, &b),
                None => false,
            };
            let t = if is_best {
                MoveType::PreviousBest
            } else if in_check(&new_board) {
                MoveType::Check
            } else if captured.is_some() {
                MoveType::Capture
            } else {
                MoveType::Normal
            };
            assert(t == type_of(*board, m, best_move));
            types.push(t);
            i += 1;
        }
        assert(types@ == gtypes);
        AlphaBeta::order_by_category(&total, &types, best_move)
    }
}

// ---------------------------------------------------------------------------
// Alpha-beta search
// ---------------------------------------------------------------------------

/// The cozy_chess search.
pub struct AlphaBeta;

/// The score of a leaf: the points of the side `color`.
pub open spec fn leaf_score(contents: Map<int, (int, int)>, color: Color) -> int {
    side_points(contents, color_number(color), 6)
}

/// What a stored score and flag of at least the searched depth tell the search:
/// `Ok(score)` to answer at once, or `Err((alpha, beta))`, the window narrowed by a bound.
pub open spec fn probe_fields(score: i32, flag: flag_type, alpha: i32, beta: i32) -> Result<i32, (i32, i32)> {
    match flag {
        flag_type::Exact => Ok(score),
        flag_type::Lower => {
            let a = if score > alpha {
                score
            } else {
                alpha
            };
            if beta <= a {
                Ok(score)
            } else {
                Err((a, beta))
            }
        },
        flag_type::Upper => {
            let b = if score < beta {
                score
            } else {
                beta
            };
            if b <= alpha {
                Ok(score)
            } else {
                Err((alpha, b))
            }
        },
    }
}

/// What a stored entry of at least the searched depth tells the search.
pub open spec fn probe_spec(entry: Entry, alpha: i32, beta: i32) -> Result<i32, (i32, i32)> {
    probe_fields(entry.score, entry.flag, alpha, beta)
}

/// What the search reads of a table: the score, depth and flag stored under each hash.
pub open spec fn tt_view(m: Map<u64, Entry>) -> Map<u64, (i32, i32, flag_type)> {
    Map::new(|k: u64| m.contains_key(k), |k: u64| (m[k].score, m[k].depth, m[k].flag))
}

/// The alpha-beta search of `b`, `depth` plies deep within (`alpha`, `beta`), on the table
/// `t`: its score and the table after it.  A stored entry of at least this depth answers at
/// once or narrows the window; a leaf scores the points of `color`; otherwise the moves are
/// searched in the order of `categorized` and the result is stored, exact, under the
/// board's hash.
pub open spec fn ab_spec(
    b: CozyBoard,
    depth: int,
    alpha: i32,
    beta: i32,
    max_player: bool,
    prev: Option<CozyMove>,
    color: Color,
    t: Map<u64, (i32, i32, flag_type)>,
    table: Map<u64, Entry>,
    z: Zobrist,
) -> (i32, Map<u64, (i32, i32, flag_type)>)
    decreases depth, 1int, 0int,
{
    let h = cozy_hash(b);
    let probed = if t.contains_key(h) && t[h].1 >= depth {
        probe_fields(t[h].0, t[h].2, alpha, beta)
    } else {
        Err((alpha, beta))
    };
    match probed {
        Ok(score) => (score, t),
        Err((a, bt)) => if depth <= 0 {
            (leaf_score(board_contents(b), color) as i32, t)
        } else {
            let r = ab_loop(
                b,
                depth,
                a,
                bt,
                max_player,
                prev,
                color,
                t,
                table,
                z,
                categorized(b, prev, table, z),
                0,
                if max_player {
                    -2147483647i32
                } else {
                    2147483647i32
                },
            );
            (r.0, r.1.insert(h, (r.0, depth as i32, flag_type::Exact)))
        },
    }
}

/// The search over the moves from index `idx` on, with the best score so far `best`: each
/// legal move is searched for the other side, the best and the window are updated, and the
/// loop stops when the window closes.
pub open spec fn ab_loop(
    b: CozyBoard,
    depth: int,
    alpha: i32,
    beta: i32,
    max_player: bool,
    prev: Option<CozyMove>,
    color: Color,
    t: Map<u64, (i32, i32, flag_type)>,
    table: Map<u64, Entry>,
    z: Zobrist,
    moves: Seq<CozyMove>,
    idx: int,
    best: i32,
) -> (i32, Map<u64, (i32, i32, flag_type)>)
    decreases depth, 0int, moves.len() - idx,
{
    if depth <= 0 || idx < 0 || idx >= moves.len() {
        (best, t)
    } else {
        match cozy_play(b, moves[idx]) {
            None => ab_loop(b, depth, alpha, beta, max_player, prev, color, t, table, z, moves, idx + 1, best),
            Some(after) => {
                let r = ab_spec(after, depth - 1, alpha, beta, !max_player, prev, other(color), t, table, z);
                let ev = r.0;
                if max_player {
                    let best2 = if ev > best {
                        ev
                    } else {
                        best
                    };
                    let a2 = if ev > alpha {
                        ev
                    } else {
                        alpha
                    };
                    if beta <= a2 {
                        (best2, r.1)
                    } else {
                        ab_loop(b, depth, a2, beta, max_player, prev, color, r.1, table, z, moves, idx + 1, best2)
                    }
                } else {
                    let best2 = if ev < best {
                        ev
                    } else {
                        best
                    };
                    let b2 = if ev < beta {
                        ev
                    } else {
                        beta
                    };
                    if b2 <= alpha {
                        (best2, r.1)
                    } else {
                        ab_loop(b, depth, alpha, b2, max_player, prev, color, r.1, table, z, moves, idx + 1, best2)
                    }
                }
            },
        }
    }
}

impl AlphaBeta {
    /// Reads a stored entry of at least the searched depth (see `probe_spec`).
    pub fn probe(entry: &Entry, alpha: i32, beta: i32) -> (res: Result<i32, (i32, i32)>)
        ensures
            res == probe_spec(*entry, alpha, beta),
    {
        let mut alpha = alpha;
        let mut beta = beta;
        match entry.flag {
            flag_type::Exact => {
                return Ok(entry.score);
            },
            flag_type::Lower => if entry.score > alpha {
                alpha = entry.score
            },
            flag_type::Upper => if entry.score < beta {
                beta = entry.score
            },
        }
        if beta <= alpha {
            return Ok(entry.score);
        }
        Err((alpha, beta))
    }

    /// The alpha-beta value of `board` searched `depth` plies deep within the window
    /// (`alpha`, `beta`), `max_player` telling whether the side to move maximises; leaves
    /// score the points of `color`, and each result is stored in `tt` (see `ab_spec`).
    pub fn alpha_beta_search(
        board: &CozyBoard,
        depth: i32,
        alpha: i32,
        beta: i32,
        max_player: bool,
        previous_best: Option<CozyMove>,
        color: Color,
        tt: &mut transposition_table,
        table: &transposition_table,
        zobrist: &Zobrist,
    ) -> (score: i32)
        requires
            depth >= 0,
        ensures
            (score, tt_view(final(tt)@)) == ab_spec(
                *board,
                depth as int,
                alpha,
                beta,
                max_player,
                previous_best,
                color,
                tt_view(old(tt)@),
                table@,
                *zobrist,
            ),
            depth == 0 && !old(tt)@.contains_key(cozy_hash(*board)) ==> score == leaf_score(
                board_contents(*board),
                color,
            ),
            depth == 0 ==> final(tt)@ == old(tt)@,
        decreases depth,
    {
        let ghost t0 = tt_view(tt@);
        let mut alpha = alpha;
        let mut beta = beta;
        let hash = board_hash(board);
        if let Some(entry) = tt.get(hash) {
            if entry.depth >= depth {
                match AlphaBeta::probe(&entry, alpha, beta) {
                    Ok(score) => {
                        return score;
                    },
                    Err((a, b)) => {
                        alpha = a;
                        beta = b;
                    },
                }
            }
        }
        if depth == 0 {
            match calculate_material(board) {
                Ok((white_pts, black_pts)) => {
                    if color == Color::White {
                        return white_pts;
                    } else {
                        return black_pts;
                    }
                },
                Err(_) => {
                    return 0;
                },
            }
        }
        let moves = AlphaBeta::categorize_moves(board, previous_best, color, table, zobrist);
        if max_player {
            let ghost target = ab_loop(
                *board,
                depth as int,
                alpha,
                beta,
                true,
                previous_best,
                color,
                t0,
                table@,
                *zobrist,
                moves@,
                0,
                -2147483647i32,
            );
            let mut max_eval: i32 = -i32::MAX;
            let mut i: usize = 0;
            while i < moves.len()
                invariant_except_break
                    i <= moves.len(),
                    depth > 0,
                    ab_loop(
                        *board,
                        depth as int,
                        alpha,
                        beta,
                        true,
                        previous_best,
                        color,
                        tt_view(tt@),
                        table@,
                        *zobrist,
                        moves@,
                        i as int,
                        max_eval,
                    ) == target,
                ensures
                    (max_eval, tt_view(tt@)) == target,
                decreases moves.len() - i,
            {
                let m = moves[i];
                let mut new_board = clone_board(board);
                if try_play(&mut new_board, m) {
                    let opponent_color = other_color(color);
                    let eval = AlphaBeta::alpha_beta_search(
                        &new_board,
                        depth - 1,
                        alpha,
                        beta,
                        false,
                        previous_best,
                        opponent_color,
                        tt,
                        table,
                        zobrist,
                    );
                    if eval > max_eval {
                        max_eval = eval;
                    }
                    if eval > alpha {
                        alpha = eval;
                    }
                    if beta <= alpha {
                        break;
                    }
                }
                i += 1;
            }
            let ghost before = tt@;
            tt.store(hash, Entry { score: max_eval, depth: depth, flag: flag_type::Exact, best_move: "BestMove".to_owned() });
            assert(tt_view(tt@) =~= tt_view(before).insert(hash, (max_eval, depth, flag_type::Exact)));
            max_eval
        } else {
            let ghost target = ab_loop(
                *board,
                depth as int,
                alpha,
                beta,
                false,
                previous_best,
                color,
                t0,
                table@,
                *zobrist,
                moves@,
                0,
                2147483647i32,
            );
            let mut min_eval: i32 = i32::MAX;
            let mut i: usize = 0;
            while i < moves.len()
                invariant_except_break
                    i <= moves.len(),
                    depth > 0,
                    ab_loop(
                        *board,
                        depth as int,
                        alpha,
                        beta,
                        false,
                        previous_best,
                        color,
                        tt_view(tt@),
                        table@,
                        *zobrist,
                        moves@,
                        i as int,
                        min_eval,
                    ) == target,
                ensures
                    (min_eval, tt_view(tt@)) == target,
                decreases moves.len() - i,
            {
                let m = moves[i];
                let mut new_board = clone_board(board);
                if try_play(&mut new_board, m) {
                    let opponent_color = other_color(color);
                    let eval = AlphaBeta::alpha_beta_search(
                        &new_board,
                        depth - 1,
                        alpha,
                        beta,
                        true,
                        previous_best,
                        opponent_color,
                        tt,
                        table,
                        zobrist,
                    );
                    if eval < min_eval {
                        min_eval = eval;
                    }
                    if eval < beta {
                        beta = eval;
                    }
                    if beta <= alpha {
                        break;
                    }
                }
                i += 1;
            }
            let ghost before = tt@;
            tt.store(hash, Entry { score: min_eval, depth: depth, flag: flag_type::Exact, best_move: "BestMove".to_owned() });
            assert(tt_view(tt@) =~= tt_view(before).insert(hash, (min_eval, depth, flag_type::Exact)));
            min_eval
        }
    }
}

fn other_color(color: Color) -> (res: Color)
    ensures
        res == other(color),
{
    match color {
        Color::White => Color::Black,
        Color::Black => Color::White,
    }
}

// ---------------------------------------------------------------------------
// The root of the search
// ---------------------------------------------------------------------------

/// The root move chosen among the first `n` scores (`None` for a move that was not legal):
/// the first whose score beats every earlier one, counting from `-i32::MAX`; with it, the
/// best score.
pub open spec fn root_pick(evals: Seq<Option<i32>>, n: int) -> (Option<int>, int)
    decreases n,
{
    if n <= 0 {
        (None, -i32::MAX as int)
    } else {
        let prev = root_pick(evals, n - 1);
        match evals[n - 1] {
            Some(e) => if e > prev.1 {
                (Some(n - 1), e as int)
            } else {
                prev
            },
            None => prev,
        }
    }
}

proof fn lemma_root_pick_range(evals: Seq<Option<i32>>, n: int)
    requires
        0 <= n,
    ensures
        root_pick(evals, n).0 matches Some(k) ==> 0 <= k < n,
        -i32::MAX <= root_pick(evals, n).1 <= i32::MAX,
    decreases n,
{
    if n > 0 {
        lemma_root_pick_range(evals, n - 1);
    }
}

/// What the engine answers for a position.
pub enum Reply {
    /// A move to play, or `END`.
    Answer(String),
    /// Search this board for this many milliseconds.
    Search { board: CozyBoard, time_limit: i32 },
}

impl AlphaBeta {
    /// The score of playing `mv` at the root: `None` when it is not legal, else the
    /// minimising search of the position after it, `depth - 1` plies deep with a full window.
    pub fn evaluate_root_move(
        board: &CozyBoard,
        mv: CozyMove,
        depth: i32,
        previous_best: Option<CozyMove>,
        color: Color,
        tt: &mut transposition_table,
        table: &transposition_table,
        zobrist: &Zobrist,
    ) -> (eval: Option<i32>)
        requires
            depth >= 1,
        ensures
            eval is Some <==> cozy_play(*board, mv) is Some,
            eval is None ==> final(tt)@ == old(tt)@,
            eval matches Some(s) ==> (s, tt_view(final(tt)@)) == ab_spec(
                cozy_play(*board, mv)->0,
                depth - 1,
                -2147483647i32,
                2147483647i32,
                false,
                previous_best,
                color,
                tt_view(old(tt)@),
                table@,
                *zobrist,
            ),
    {
        let mut new_board = clone_board(board);
        if try_play(&mut new_board, mv) {
            Some(
                AlphaBeta::alpha_beta_search(
                    &new_board,
                    depth - 1,
                    -i32::MAX,
                    i32::MAX,
                    false,
                    previous_best,
                    color,
                    tt,
                    table,
                    zobrist,
                ),
            )
        } else {
            None
        }
    }

    /// The move iterative deepening answers, given the score of each root move (see
    /// `root_pick`): the chosen move, else the first move.  With no move at all, the move
    /// a1a1.
    pub fn pick_root_move(moves: &Vec<CozyMove>, evals: &Vec<Option<i32>>) -> (mv: CozyMove)
        requires
            moves.len() == evals.len(),
        ensures
            moves.len() > 0 ==> mv == (match root_pick(evals@, moves.len() as int).0 {
                Some(k) => moves@[k],
                None => moves@[0],
            }),
            moves.len() == 0 ==> mv == square_move(0, 0),
    {
        if moves.len() == 0 {
            return make_move(0, 0);
        }
        let mut max_eval: i32 = -i32::MAX;
        let mut root: Option<usize> = None;
        let mut i: usize = 0;
        while i < moves.len()
            invariant
                i <= moves.len(),
                moves.len() == evals.len(),
                max_eval as int == root_pick(evals@, i as int).1,
                root_pick(evals@, i as int).0 == (match root {
                    Some(k) => Some(k as int),
                    None => None,
                }),
            decreases moves.len() - i,
        {
            if let Some(eval) = evals[i] {
                if eval > max_eval {
                    max_eval = eval;
                    root = Some(i);
                }
            }
            i += 1;
        }
        proof {
            lemma_root_pick_range(evals@, moves.len() as int);
        }
        match root {
            Some(k) => moves[k],
            None => moves[0],
        }
    }

    /// What the engine does for a FEN before searching: a bad FEN is an error; a position
    /// whose hash is in `table` is answered with the stored move; a finished game with
    /// `END`; otherwise the board is searched for `determine_time` milliseconds, the
    /// evaluation being the material of the board.
    pub fn find_best_move_plan(
        fen: &str,
        my_time: i32,
        game_on: bool,
        color_in: Color2,
        zobrist: &Zobrist,
        table: &transposition_table,
    ) -> (res: Result<Reply, UpdateError>)
        ensures
            res is Err <==> !fen_accepted(fen@, false),
            res matches Err(e) ==> e == UpdateError::BadFen,
            res matches Ok(Reply::Search { board, time_limit }) ==> {
                &&& cozy_from_fen(fen@, false) == Some(board)
                &&& !table@.contains_key(
                    position_hash(*zobrist, board_contents(board), board_black_to_move(board)),
                )
                &&& game_on
                &&& time_limit == time_for(
                    Ok::<(i32, i32), String>(
                        (
                            side_points(board_contents(board), 0, 6) as i32,
                            side_points(board_contents(board), 1, 6) as i32,
                        ),
                    ),
                    my_time,
                    game_on,
                    match color_in {
                        Color2::White => Color::White,
                        Color2::Black => Color::Black,
                    },
                )
            },
            res matches Ok(Reply::Answer(text)) ==> {
                let b = cozy_from_fen(fen@, false)->0;
                let h = position_hash(*zobrist, board_contents(b), board_black_to_move(b));
                if table@.contains_key(h) {
                    text == table@[h].best_move
                } else {
                    !game_on && text@ == seq!['E', 'N', 'D']
                }
            },
            res is Ok && !game_on ==> res matches Ok(Reply::Answer(_)),
    {
        let color = match color_in {
            Color2::White => Color::White,
            Color2::Black => Color::Black,
        };
        let board = match board_from_fen(fen, false) {
            Ok(b) => b,
            Err(_) => {
                return Err(UpdateError::BadFen);
            },
        };
        let hash = zobrist.hash_position(&board);
        if let Some(entry) = table.get(hash) {
            return Ok(Reply::Answer(entry.best_move));
        }
        if !game_on {
            let end = "END".to_owned();
            proof {
                reveal_strlit("END");
            }
            return Ok(Reply::Answer(end));
        }
        let eval = calculate_material(&board);
        let time_limit = determine_time(eval, my_time, game_on, color);
        Ok(Reply::Search { board, time_limit })
    }
}

proof fn lemma_groups_multiset(moves: Seq<CozyMove>, types: Seq<MoveType>, n: int)
    requires
        0 <= n <= moves.len(),
    ensures
        moves_of_type(moves, types, MoveType::PreviousBest, n).to_multiset().add(
            moves_of_type(moves, types, MoveType::Check, n).to_multiset(),
        ).add(moves_of_type(moves, types, MoveType::Capture, n).to_multiset()).add(
            moves_of_type(moves, types, MoveType::Normal, n).to_multiset(),
        ) =~= moves.take(n).to_multiset(),
    decreases n,
{
    broadcast use vstd::seq_lib::group_to_multiset_ensures, vstd::multiset::group_multiset_axioms;

    if n > 0 {
        lemma_groups_multiset(moves, types, n - 1);
        assert(moves.take(n) =~= moves.take(n - 1).push(moves[n - 1]));
    } else {
        assert(moves.take(0) =~= Seq::<CozyMove>::empty());
    }
}

proof fn lemma_best_group(moves: Seq<CozyMove>, types: Seq<MoveType>, m: CozyMove, n: int)
    requires
        0 <= n <= moves.len(),
        forall|j: int| 0 <= j < n && types[j] == MoveType::PreviousBest ==> moves[j] == m,
    ensures
        forall|i: int|
            0 <= i < moves_of_type(moves, types, MoveType::PreviousBest, n).len() ==> #[trigger] moves_of_type(
                moves,
                types,
                MoveType::PreviousBest,
                n,
            )[i] == m,
    decreases n,
{
    if n > 0 {
        lemma_best_group(moves, types, m, n - 1);
        let prev = moves_of_type(moves, types, MoveType::PreviousBest, n - 1);
        if types[n - 1] == MoveType::PreviousBest {
            assert(moves[n - 1] == m);
            let cur = prev.push(moves[n - 1]);
            assert forall|i: int| 0 <= i < cur.len() implies #[trigger] cur[i] == m by {
                if i < prev.len() {
                    assert(cur[i] == prev[i]);
                }
            }
        }
    }
}

/// The search order lists the legal moves: when no previous best applies, it holds each
/// legal move as often as the generator lists it and nothing else; when one applies, that
/// move comes first.
pub proof fn lemma_categorized_moves(b: CozyBoard, previous_best: Option<CozyMove>, table: Map<u64, Entry>, z: Zobrist)
    ensures
        best_for(b, previous_best, table, z) is None ==> categorized(b, previous_best, table, z).to_multiset()
            =~= cozy_legal_moves(b).to_multiset(),
        best_for(b, previous_best, table, z) matches Some(m) ==> categorized(b, previous_best, table, z).len() > 0
            && categorized(b, previous_best, table, z)[0] == m,
{
    broadcast use vstd::seq_lib::group_to_multiset_ensures, vstd::multiset::group_multiset_axioms;

    let best = best_for(b, previous_best, table, z);
    let moves = cozy_legal_moves(b);
    let types = move_types(b, moves, best);
    let n = moves.len() as int;
    let pb = moves_of_type(moves, types, MoveType::PreviousBest, n);
    let ch = moves_of_type(moves, types, MoveType::Check, n);
    let ca = moves_of_type(moves, types, MoveType::Capture, n);
    let no = moves_of_type(moves, types, MoveType::Normal, n);
    let mid: Seq<CozyMove> = match best {
        Some(m) => seq![m],
        None => Seq::empty(),
    };
    assert(categorized(b, previous_best, table, z) == pb + mid + ch + ca + no);
    match best {
        None => {
            lemma_groups_multiset(moves, types, n);
            assert(moves.take(n) =~= moves);
            vstd::seq_lib::lemma_multiset_commutative(pb + mid + ch + ca, no);
            vstd::seq_lib::lemma_multiset_commutative(pb + mid + ch, ca);
            vstd::seq_lib::lemma_multiset_commutative(pb + mid, ch);
            vstd::seq_lib::lemma_multiset_commutative(pb, mid);
        },
        Some(m) => {
            assert forall|j: int| 0 <= j < n && types[j] == MoveType::PreviousBest implies moves[j] == m by {
                assert(types[j] == type_of(b, moves[j], best));
            }
            lemma_best_group(moves, types, m, n);
            let all = pb + mid + ch + ca + no;
            if pb.len() > 0 {
                assert(all[0] == pb[0]);
            } else {
                assert(all[0] == mid[0]);
            }
        },
    }
}

/// The search over the moves from `idx` on never does worse than the best score it starts
/// with, nor than the first move it searches: a maximising node scores at least both, a
/// minimising node at most both.
pub proof fn lemma_ab_loop_bound(
    b: CozyBoard,
    depth: int,
    alpha: i32,
    beta: i32,
    max_player: bool,
    prev: Option<CozyMove>,
    color: Color,
    t: Map<u64, (i32, i32, flag_type)>,
    table: Map<u64, Entry>,
    z: Zobrist,
    moves: Seq<CozyMove>,
    idx: int,
    best: i32,
)
    ensures
        ({
            let r = ab_loop(b, depth, alpha, beta, max_player, prev, color, t, table, z, moves, idx, best).0;
            &&& max_player ==> r >= best
            &&& !max_player ==> r <= best
            &&& depth > 0 && 0 <= idx < moves.len() ==> (cozy_play(b, moves[idx]) matches Some(after) ==> {
                let c = ab_spec(after, depth - 1, alpha, beta, !max_player, prev, other(color), t, table, z).0;
                &&& max_player ==> r >= c
                &&& !max_player ==> r <= c
            })
        }),
    decreases moves.len() - idx,
{
    if !(depth <= 0 || idx < 0 || idx >= moves.len()) {
        match cozy_play(b, moves[idx]) {
            None => {
                lemma_ab_loop_bound(b, depth, alpha, beta, max_player, prev, color, t, table, z, moves, idx + 1, best);
            },
            Some(after) => {
                let r = ab_spec(after, depth - 1, alpha, beta, !max_player, prev, other(color), t, table, z);
                let ev = r.0;
                if max_player {
                    let best2 = if ev > best { ev } else { best };
                    let a2 = if ev > alpha { ev } else { alpha };
                    lemma_ab_loop_bound(b, depth, a2, beta, max_player, prev, color, r.1, table, z, moves, idx + 1, best2);
                } else {
                    let best2 = if ev < best { ev } else { best };
                    let b2 = if ev < beta { ev } else { beta };
                    lemma_ab_loop_bound(b, depth, alpha, b2, max_player, prev, color, r.1, table, z, moves, idx + 1, best2);
                }
            },
        }
    }
}

/// Where the table does not answer, a search with depth left scores a maximising node at
/// least, and a minimising node at most, what its first move in search order scores when
/// that move is legal.
pub proof fn lemma_ab_first_child_bound(
    b: CozyBoard,
    depth: int,
    alpha: i32,
    beta: i32,
    max_player: bool,
    prev: Option<CozyMove>,
    color: Color,
    t: Map<u64, (i32, i32, flag_type)>,
    table: Map<u64, Entry>,
    z: Zobrist,
)
    requires
        depth > 0,
        !(t.contains_key(cozy_hash(b)) && t[cozy_hash(b)].1 >= depth),
        categorized(b, prev, table, z).len() > 0,
    ensures
        cozy_play(b, categorized(b, prev, table, z)[0]) matches Some(after) ==> {
            let r = ab_spec(b, depth, alpha, beta, max_player, prev, color, t, table, z).0;
            let c = ab_spec(after, depth - 1, alpha, beta, !max_player, prev, other(color), t, table, z).0;
            &&& max_player ==> r >= c
            &&& !max_player ==> r <= c
        },
{
    lemma_ab_loop_bound(
        b,
        depth,
        alpha,
        beta,
        max_player,
        prev,
        color,
        t,
        table,
        z,
        categorized(b, prev, table, z),
        0,
        if max_player { -2147483647i32 } else { 2147483647i32 },
    );
}

/// The material values of the kinds of piece, in `cozy_chess`'s order of kinds: pawn 1,
/// knight 3, bishop 3, rook 5, queen 9, king 0.
pub proof fn lemma_kind_values()
    ensures
        kind_value(0) == 1,
        kind_value(1) == 3,
        kind_value(2) == 3,
        kind_value(3) == 5,
        kind_value(4) == 9,
        kind_value(5) == 0,
{
}

} // verus!
