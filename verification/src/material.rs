use vstd::prelude::*;

use crate::pieces::{Board, Color, Piece, PieceState};

verus! {

const PAWN_VALUE: i32 = 1;
const BISHOP_VALUE: i32 = 3;
const KNIGHT_VALUE: i32 = 3;
const ROOK_VALUE: i32 = 5;
const QUEEN_VALUE: i32 = 9;
const KING_VALUE: i32 = 0;

/// The stage of the game, read from the material left on the board.
#[derive(Debug, Clone, Copy, PartialEq, Eq, Structural)]
pub enum GamePhase {
    Opening,
    Middlegame,
    Endgame,
}

// Position tables, indexed by (8 - row) * 8 + (column - 1).

pub const WHITE_PAWN_MAP: [i32; 64] = [
    0, 0, 0, 0, 0, 0, 0, 0,
    4, 4, 4, 4, 4, 4, 4, 4,
    0, 0, 3, 3, 3, 3, 0, 0,
    0, 0, 2, 3, 3, 2, 0, 0,
    0, 0, 2, 3, 3, 2, 0, 0,
    0, 0, 1, 2, 2, 1, 0, 0,
    1, 1, 1, 1, 1, 1, 1, 1,
    0, 0, 0, 0, 0, 0, 0, 0,
];

pub const BLACK_PAWN_MAP: [i32; 64] = [
    0, 0, 0, 0, 0, 0, 0, 0,
    1, 1, 1, 1, 1, 1, 1, 1,
    0, 0, 1, 2, 2, 1, 0, 0,
    0, 0, 2, 3, 3, 2, 0, 0,
    0, 0, 2, 3, 3, 2, 0, 0,
    0, 0, 3, 3, 3, 3, 0, 0,
    4, 4, 4, 4, 4, 4, 4, 4,
    0, 0, 0, 0, 0, 0, 0, 0,
];

pub const BISHOP_MAP: [i32; 64] = [
    -2, -1, 1, -1, -1, 1, -1, -2,
    -1, 2, -1, 2, 2, -1, 2, -1,
    1, 1, 3, 2, 2, 3, 1, 1,
    -1, 2, 3, 4, 4, 3, 2, -1,
    -1, 2, 3, 4, 4, 3, 2, -1,
    1, 1, 3, 2, 2, 3, 1, 1,
    -1, 2, -1, 2, 2, -1, 2, -1,
    -2, -1, 1, -1, -1, 1, -1, -2,
];

pub const KNIGHT_MAP: [i32; 64] = [
    -2, -1, 0, -1, -1, 0, -1, -2,
    -2, 2, 1, 1, 1, 1, 2, -2,
    -2, 0, 2, 1, 1, 2, 0, -2,
    -2, 1, 1, 3, 3, 1, 1, -2,
    -2, 1, 1, 3, 3, 1, 1, -2,
    -2, 0, 2, 1, 1, 2, 0, -2,
    -2, 2, 1, 1, 1, 1, 2, -2,
    -2, -1, 0, -1, -1, 0, -1, -2,
];

pub const QUEEN_MAP: [i32; 64] = [
    -2, -2, -2, 1, 1, -2, -2, -2,
    -2, 0, 1, 1, 1, 1, 0, -2,
    -2, 1, 2, 2, 2, 2, 1, -2,
    -2, 2, 2, 3, 3, 2, 2, -2,
    -2, 2, 2, 3, 3, 2, 2, -2,
    -2, 1, 2, 2, 2, 2, 1, -2,
    -2, 0, 1, 1, 1, 1, 0, -2,
    -2, -2, -2, 1, 1, -2, -2, -2,
];

pub const KING_MAP: [i32; 64] = [
    3, 3, 2, 1, 1, 2, 3, 3,
    0, 0, 0, 0, 0, 0, 0, 0,
    -2, -2, -2, -2, -2, -2, -2, -2,
    -2, -2, -2, -2, -2, -2, -2, -2,
    -2, -2, -2, -2, -2, -2, -2, -2,
    -2, -2, -2, -2, -2, -2, -2, -2,
    0, 0, 0, 0, 0, 0, 0, 0,
    3, 3, 2, 1, 1, 2, 3, 3,
];

pub const END_KING_MAP: [i32; 64] = [
    -2, -2, -2, 1, 1, -2, -2, -2,
    -2, 0, 0, 1, 1, 0, 0, -2,
    -2, 0, 1, 2, 2, 1, 0, -2,
    -2, 1, 2, 3, 3, 2, 1, -2,
    -2, 1, 2, 3, 3, 2, 1, -2,
    -2, 0, 1, 2, 2, 1, 0, -2,
    -2, 0, 0, 1, 1, 0, 0, -2,
    -2, -2, -2, 1, 1, -2, -2, -2,
];

/// The material value of a piece: pawn 1, knight 3, bishop 3, rook 5, queen 9, king 0.
pub open spec fn piece_value(piece: Piece) -> int {
    match piece {
        Piece::Pawn => 1,
        Piece::Knight => 3,
        Piece::Bishop => 3,
        Piece::Rook => 5,
        Piece::Queen => 9,
        Piece::King => 0,
    }
}

/// The positional bonus of a piece on table index `index` in `phase`.
pub open spec fn position_bonus(st: PieceState, index: int, phase: GamePhase) -> int {
    match (st.piece, st.color) {
        (Piece::Pawn, Color::White) => WHITE_PAWN_MAP@[index] as int,
        (Piece::Pawn, Color::Black) => BLACK_PAWN_MAP@[index] as int,
        (Piece::Bishop, _) => BISHOP_MAP@[index] as int,
        (Piece::Knight, _) => KNIGHT_MAP@[index] as int,
        (Piece::Rook, _) => 0,
        (Piece::Queen, _) => QUEEN_MAP@[index] as int,
        (Piece::King, _) => match phase {
            GamePhase::Endgame => END_KING_MAP@[index] as int,
            _ => KING_MAP@[index] as int,
        },
    }
}

/// The piece on the square of row-major index `k` (row `k / 8 + 1`, column `k % 8 + 1`).
pub open spec fn piece_at_index(b: Board, k: int) -> Option<PieceState> {
    b.board[k / 8][k % 8].piece_state
}

/// The position-table index of the square of row-major index `k`: (8 - row) * 8 + column - 1.
pub open spec fn table_index(k: int) -> int {
    (7 - k / 8) * 8 + k % 8
}

/// The material on the first `k` squares, row-major.
pub open spec fn material_upto(b: Board, k: int) -> int
    decreases k,
{
    if k <= 0 {
        0
    } else {
        material_upto(b, k - 1) + match piece_at_index(b, k - 1) {
            Some(s) => piece_value(s.piece),
            None => 0,
        }
    }
}

/// The phase for a total of material: under 12 the endgame, under 25 the middlegame, else the opening.
pub open spec fn phase_of(material: int) -> GamePhase {
    if material < 12 {
        GamePhase::Endgame
    } else if material < 25 {
        GamePhase::Middlegame
    } else {
        GamePhase::Opening
    }
}

pub open spec fn board_phase(b: Board) -> GamePhase {
    phase_of(material_upto(b, 64))
}

/// What the piece on square `k` adds to the score: its value plus its bonus, for White,
/// or the negation of that for Black.
pub open spec fn square_score(b: Board, k: int, phase: GamePhase) -> int {
    match piece_at_index(b, k) {
        Some(s) => {
            let total = piece_value(s.piece) + position_bonus(s, table_index(k), phase);
            if s.color == Color::White {
                total
            } else {
                -total
            }
        },
        None => 0,
    }
}

/// The score of the first `k` squares, row-major.
pub open spec fn score_upto(b: Board, k: int, phase: GamePhase) -> int
    decreases k,
{
    if k <= 0 {
        0
    } else {
        score_upto(b, k - 1, phase) + square_score(b, k - 1, phase)
    }
}

/// The evaluation of the board from White's side: material and position of White's
/// pieces minus those of Black's.
pub open spec fn evaluation(b: Board) -> int {
    score_upto(b, 64, board_phase(b))
}

proof fn lemma_tables(index: int)
    requires
        0 <= index < 64,
    ensures
        -2 <= WHITE_PAWN_MAP@[index] <= 4,
        -2 <= BLACK_PAWN_MAP@[index] <= 4,
        -2 <= BISHOP_MAP@[index] <= 4,
        -2 <= KNIGHT_MAP@[index] <= 4,
        -2 <= QUEEN_MAP@[index] <= 4,
        -2 <= KING_MAP@[index] <= 4,
        -2 <= END_KING_MAP@[index] <= 4,
{
}

/// The material value of a piece.
pub fn get_piece_value(piece: Piece) -> (v: i32)
    ensures
        v == piece_value(piece),
        piece == Piece::Pawn ==> v == 1,
        piece == Piece::Knight ==> v == 3,
        piece == Piece::Bishop ==> v == 3,
        piece == Piece::Rook ==> v == 5,
        piece == Piece::Queen ==> v == 9,
        piece == Piece::King ==> v == 0,
{
    match piece {
        Piece::Pawn => PAWN_VALUE,
        Piece::Knight => KNIGHT_VALUE,
        Piece::Bishop => BISHOP_VALUE,
        Piece::Rook => ROOK_VALUE,
        Piece::Queen => QUEEN_VALUE,
        Piece::King => KING_VALUE,
    }
}

/// The positional bonus of a piece on table index `index`.
pub fn get_position_bonus(piece_state: PieceState, index: usize, phase: GamePhase) -> (v: i32)
    requires
        index < 64,
    ensures
        v == position_bonus(piece_state, index as int, phase),
        -2 <= v <= 4,
{
    proof {
        lemma_tables(index as int);
    }
    match (piece_state.piece, piece_state.color) {
        (Piece::Pawn, Color::White) => WHITE_PAWN_MAP[index],
        (Piece::Pawn, Color::Black) => BLACK_PAWN_MAP[index],
        (Piece::Bishop, _) => BISHOP_MAP[index],
        (Piece::Knight, _) => KNIGHT_MAP[index],
        (Piece::Rook, _) => 0,
        (Piece::Queen, _) => QUEEN_MAP[index],
        (Piece::King, _) => {
            match phase {
                GamePhase::Endgame => END_KING_MAP[index],
                _ => KING_MAP[index],
            }
        },
    }
}

/// The phase of the game on this board.
pub fn evaluate_phase(board: &Board) -> (phase: GamePhase)
    ensures
        phase == board_phase(*board),
{
    let mut material: i32 = 0;
    let mut row: usize = 1;
    while row <= 8
        invariant
            1 <= row <= 9,
            material == material_upto(*board, (row - 1) * 8),
            0 <= material <= 9 * ((row - 1) * 8),
        decreases 9 - row,
    {
        let mut col: usize = 1;
        while col <= 8
            invariant
                1 <= row <= 8,
                1 <= col <= 9,
                material == material_upto(*board, (row - 1) * 8 + (col - 1)),
                0 <= material <= 9 * ((row - 1) * 8 + (col - 1)),
            decreases 9 - col,
        {
            let ghost k: int = (row - 1) * 8 + (col - 1);
            assert(k / 8 == row - 1 && k % 8 == col - 1);
            if let Some(state) = board.board[row - 1][col - 1].piece_state {
                material = material + match state.piece {
                    Piece::Pawn => 1,
                    Piece::Knight | Piece::Bishop => 3,
                    Piece::Rook => 5,
                    Piece::Queen => 9,
                    Piece::King => 0,
                };
            }
            col += 1;
        }
        row += 1;
    }
    if material < 12 {
        GamePhase::Endgame
    } else if material < 25 {
        GamePhase::Middlegame
    } else {
        GamePhase::Opening
    }
}

/// The evaluation of the board from White's side (see `evaluation`).
pub fn calculate_material(board: &Board) -> (score: i32)
    ensures
        score == evaluation(*board),
        -13 * 64 <= score <= 13 * 64,
{
    let mut score: i32 = 0;
    let phase = evaluate_phase(board);
    let mut row: usize = 1;
    while row <= 8
        invariant
            1 <= row <= 9,
            phase == board_phase(*board),
            score == score_upto(*board, (row - 1) * 8, phase),
            -13 * ((row - 1) * 8) <= score <= 13 * ((row - 1) * 8),
        decreases 9 - row,
    {
        let mut col: usize = 1;
        while col <= 8
            invariant
                1 <= row <= 8,
                1 <= col <= 9,
                phase == board_phase(*board),
                score == score_upto(*board, (row - 1) * 8 + (col - 1), phase),
                -13 * ((row - 1) * 8 + (col - 1)) <= score <= 13 * ((row - 1) * 8 + (col - 1)),
            decreases 9 - col,
        {
            let ghost k: int = (row - 1) * 8 + (col - 1);
            assert(k / 8 == row - 1 && k % 8 == col - 1);
            if let Some(piece_state) = board.board[row - 1][col - 1].piece_state {
                let index = (8 - row) * 8 + (col - 1);
                assert(index == table_index(k));
                let material = get_piece_value(piece_state.piece);
                let position = get_position_bonus(piece_state, index, phase);
                let total = material + position;
                score = score + if piece_state.color == Color::White {
                    total
                } else {
                    -total
                };
            }
            col += 1;
        }
        row += 1;
    }
    score
}

/// The row-major index of the square in the same column and the mirrored row.
pub open spec fn mirror_index(k: int) -> int {
    (7 - k / 8) * 8 + k % 8
}

/// `q` is `p` with its colour swapped: the same kind of piece of the other side, or both
/// empty (the other fields, such as the recorded location, may differ).
pub open spec fn swapped(q: Option<PieceState>, p: Option<PieceState>) -> bool {
    match (q, p) {
        (Some(a), Some(b)) => a.piece == b.piece && a.color != b.color,
        (None, None) => true,
        _ => false,
    }
}

/// `mb` is `b` seen from the other side: each square holds the piece of the square in the
/// mirrored row, with its colour swapped.
pub open spec fn mirrored(b: Board, mb: Board) -> bool {
    forall|r: int, c: int|
        #![trigger mb.board[r][c]]
        0 <= r < 8 && 0 <= c < 8 ==> swapped(mb.board[r][c].piece_state, b.board[7 - r][c].piece_state)
}

proof fn lemma_tables_mirror(k: int)
    requires
        0 <= k < 64,
    ensures
        BISHOP_MAP@[mirror_index(k)] == BISHOP_MAP@[k],
        KNIGHT_MAP@[mirror_index(k)] == KNIGHT_MAP@[k],
        QUEEN_MAP@[mirror_index(k)] == QUEEN_MAP@[k],
        KING_MAP@[mirror_index(k)] == KING_MAP@[k],
        END_KING_MAP@[mirror_index(k)] == END_KING_MAP@[k],
        BLACK_PAWN_MAP@[mirror_index(k)] == WHITE_PAWN_MAP@[k],
        WHITE_PAWN_MAP@[mirror_index(k)] == BLACK_PAWN_MAP@[k],
{
    let r = k / 8;
    let c = k % 8;
    assert(k == r * 8 + c);
    assert(mirror_index(k) == (7 - r) * 8 + c);
    if r == 0 {
    } else if r == 1 {
    } else if r == 2 {
    } else if r == 3 {
    } else if r == 4 {
    } else if r == 5 {
    } else if r == 6 {
    } else {
    }
}

proof fn lemma_mirror_index(k: int)
    requires
        0 <= k < 64,
    ensures
        0 <= mirror_index(k) < 64,
        mirror_index(k) / 8 == 7 - k / 8,
        mirror_index(k) % 8 == k % 8,
        mirror_index(mirror_index(k)) == k,
        table_index(k) == mirror_index(k),
        table_index(mirror_index(k)) == k,
{
    let r = k / 8;
    let c = k % 8;
    assert(k == r * 8 + c);
    assert(mirror_index(k) == (7 - r) * 8 + c);
    assert(((7 - r) * 8 + c) / 8 == 7 - r);
    assert(((7 - r) * 8 + c) % 8 == c);
}

/// A square of the mirrored board scores the negation of its mirror, and holds as much
/// material.
proof fn lemma_mirror_square(b: Board, mb: Board, k: int, phase: GamePhase)
    requires
        mirrored(b, mb),
        0 <= k < 64,
    ensures
        square_score(mb, k, phase) == -square_score(b, mirror_index(k), phase),
        swapped(piece_at_index(mb, k), piece_at_index(b, mirror_index(k))),
{
    lemma_mirror_index(k);
    lemma_tables_mirror(k);
    assert(swapped(mb.board[k / 8][k % 8].piece_state, b.board[7 - k / 8][k % 8].piece_state));
}

/// The score of the first `n` squares of row index `i`.
pub open spec fn cols_score(b: Board, i: int, n: int, phase: GamePhase) -> int
    decreases n,
{
    if n <= 0 {
        0
    } else {
        cols_score(b, i, n - 1, phase) + square_score(b, 8 * i + n - 1, phase)
    }
}

/// The score of the first `i` rows.
pub open spec fn rows_score(b: Board, i: int, phase: GamePhase) -> int
    decreases i,
{
    if i <= 0 {
        0
    } else {
        rows_score(b, i - 1, phase) + cols_score(b, i - 1, 8, phase)
    }
}

/// The material of the first `n` squares of row index `i`.
pub open spec fn cols_material(b: Board, i: int, n: int) -> int
    decreases n,
{
    if n <= 0 {
        0
    } else {
        cols_material(b, i, n - 1) + match piece_at_index(b, 8 * i + n - 1) {
            Some(s) => piece_value(s.piece),
            None => 0,
        }
    }
}

/// The material of the first `i` rows.
pub open spec fn rows_material(b: Board, i: int) -> int
    decreases i,
{
    if i <= 0 {
        0
    } else {
        rows_material(b, i - 1) + cols_material(b, i - 1, 8)
    }
}

proof fn lemma_cols(b: Board, i: int, n: int, phase: GamePhase)
    requires
        0 <= n <= 8,
        0 <= i,
    ensures
        score_upto(b, 8 * i + n, phase) == score_upto(b, 8 * i, phase) + cols_score(b, i, n, phase),
        material_upto(b, 8 * i + n) == material_upto(b, 8 * i) + cols_material(b, i, n),
    decreases n,
{
    if n > 0 {
        lemma_cols(b, i, n - 1, phase);
    }
}

proof fn lemma_rows(b: Board, i: int, phase: GamePhase)
    requires
        0 <= i <= 8,
    ensures
        score_upto(b, 8 * i, phase) == rows_score(b, i, phase),
        material_upto(b, 8 * i) == rows_material(b, i),
    decreases i,
{
    if i > 0 {
        lemma_rows(b, i - 1, phase);
        lemma_cols(b, i - 1, 8, phase);
    }
}

proof fn lemma_mirror_cols(b: Board, mb: Board, i: int, n: int, phase: GamePhase)
    requires
        mirrored(b, mb),
        0 <= i < 8,
        0 <= n <= 8,
    ensures
        cols_score(mb, i, n, phase) == -cols_score(b, 7 - i, n, phase),
        cols_material(mb, i, n) == cols_material(b, 7 - i, n),
    decreases n,
{
    if n > 0 {
        lemma_mirror_cols(b, mb, i, n - 1, phase);
        let k = 8 * i + n - 1;
        lemma_mirror_square(b, mb, k, phase);
        assert(k / 8 == i && k % 8 == n - 1);
        assert(mirror_index(k) == 8 * (7 - i) + n - 1);
    }
}

/// Seen from the other side, a position evaluates to the negation: mirroring the board
/// across the middle and swapping the colours of the pieces (whatever locations the pieces
/// then record) negates `evaluation` (the
/// position tables are symmetric, the pawn tables mirror each other, and the phase, read
/// from the material of both sides, does not change).
pub proof fn lemma_evaluation_mirror(b: Board, mb: Board)
    requires
        mirrored(b, mb),
    ensures
        board_phase(mb) == board_phase(b),
        evaluation(mb) == -evaluation(b),
{
    let pb = board_phase(b);
    lemma_rows(b, 8, pb);
    lemma_rows(mb, 8, pb);
    lemma_mirror_cols(b, mb, 0, 8, pb);
    lemma_mirror_cols(b, mb, 1, 8, pb);
    lemma_mirror_cols(b, mb, 2, 8, pb);
    lemma_mirror_cols(b, mb, 3, 8, pb);
    lemma_mirror_cols(b, mb, 4, 8, pb);
    lemma_mirror_cols(b, mb, 5, 8, pb);
    lemma_mirror_cols(b, mb, 6, 8, pb);
    lemma_mirror_cols(b, mb, 7, 8, pb);
    reveal_with_fuel(rows_score, 9);
    reveal_with_fuel(rows_material, 9);
    assert(material_upto(mb, 64) == material_upto(b, 64));
    assert(score_upto(mb, 64, pb) == -score_upto(b, 64, pb));
}

/// The material values: a pawn 1, a knight 3, a bishop 3, a rook 5, a queen 9, a king 0.
/// The game phase counts the material on the board by these values.
pub proof fn lemma_piece_values()
    ensures
        piece_value(Piece::Pawn) == 1,
        piece_value(Piece::Knight) == 3,
        piece_value(Piece::Bishop) == 3,
        piece_value(Piece::Rook) == 5,
        piece_value(Piece::Queen) == 9,
        piece_value(Piece::King) == 0,
{
}

proof fn lemma_score_upto_bound(b: Board, k: int, phase: GamePhase)
    requires
        0 <= k <= 64,
    ensures
        -13 * k <= score_upto(b, k, phase) <= 13 * k,
    decreases k,
{
    if k > 0 {
        lemma_score_upto_bound(b, k - 1, phase);
        assert(0 <= table_index(k - 1) < 64);
        lemma_tables(table_index(k - 1));
    }
}

/// The evaluation of any board lies between -832 and 832: each of the 64 squares adds at
/// most a queen's value and the largest bonus, either way.
pub proof fn lemma_evaluation_bound(b: Board)
    ensures
        -832 <= evaluation(b) <= 832,
{
    lemma_score_upto_bound(b, 64, board_phase(b));
}

} // verus!
