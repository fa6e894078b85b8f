use vstd::prelude::*;

use crate::pieces::{on_board, with_piece, with_square, Board, CheckMask, Color, Piece, PieceState, Square};

verus! {

/// Whether the 1-based `row` and `col` lie on the board.
pub fn in_bounds(row: usize, col: usize) -> (res: bool)
    ensures
        res == on_board(row as int, col as int),
{
    if row <= 8 && row >= 1 && col <= 8 && col >= 1 {
        return true;
    }
    return false;
}

/// The square at 1-based (`r`, `c`), when that lies on the board.
pub open spec fn access(b: Board, r: int, c: int) -> Option<Square> {
    if on_board(r, c) {
        Some(b.at(r, c))
    } else {
        None
    }
}

/// The square at the 1-based `row` and `column`, or `None` off the board.
pub fn access_board(board: &Board, row: usize, column: usize) -> (res: Option<Square>)
    ensures
        res == access(*board, row as int, column as int),
{
    if !in_bounds(row, column) {
        return None;
    }
    let normalized_row = row - 1;
    let normalized_col = column - 1;
    Some(board.board[normalized_row][normalized_col])
}

// ---------------------------------------------------------------------------
// Algebraic notation
// ---------------------------------------------------------------------------

pub open spec fn is_file_char(ch: char) -> bool {
    'a' <= ch <= 'h'
}

pub open spec fn is_rank_char(ch: char) -> bool {
    '1' <= ch <= '8'
}

/// The notation is `-` (no square), or two characters each a file `a`..`h` or a rank `1`..`8`.
pub open spec fn algebraic_ok(s: Seq<char>) -> bool {
    (s.len() > 0 && s[0] == '-') || (s.len() == 2 && (is_file_char(s[0]) || is_rank_char(s[0])) && (
    is_file_char(s[1]) || is_rank_char(s[1])))
}

/// The column named by the last file letter of a two-character notation, 0 if none.
pub open spec fn algebraic_column(s: Seq<char>) -> int {
    if is_file_char(s[1]) {
        s[1] as int - 'a' as int + 1
    } else if is_file_char(s[0]) {
        s[0] as int - 'a' as int + 1
    } else {
        0
    }
}

/// The row named by the last rank digit of a two-character notation, 0 if none.
pub open spec fn algebraic_row(s: Seq<char>) -> int {
    if is_rank_char(s[1]) {
        s[1] as int - '1' as int + 1
    } else if is_rank_char(s[0]) {
        s[0] as int - '1' as int + 1
    } else {
        0
    }
}

/// Reads a square such as `e4` (each character sets the column or the row it names); `-`
/// reads as no square.  Notations of another length, and characters other than the files
/// `a`..`h` and the ranks `1`..`8`, are invalid and left out by `requires`.
pub fn simple_algebraic_to_grid(notation: &str) -> (res: Option<Square>)
    requires
        algebraic_ok(notation@),
    ensures
        notation@[0] == '-' ==> res is None,
        notation@[0] != '-' ==> res == Some(
            Square {
                row: algebraic_row(notation@) as usize,
                column: algebraic_column(notation@) as usize,
                piece_state: None,
            },
        ),
{
    let mut square = Square { row: 0, column: 0, piece_state: None };
    if notation.get_char(0) == '-' {
        return None;
    }
    let mut i: usize = 0;
    while i < 2
        invariant
            i <= 2,
            notation@.len() == 2,
            notation@[0] != '-',
            algebraic_ok(notation@),
            square.piece_state is None,
            i == 0 ==> square.row == 0 && square.column == 0,
            i == 1 ==> square.row == (if is_rank_char(notation@[0]) {
                notation@[0] as int - '1' as int + 1
            } else {
                0
            }) && square.column == (if is_file_char(notation@[0]) {
                notation@[0] as int - 'a' as int + 1
            } else {
                0
            }),
            i == 2 ==> square.row == algebraic_row(notation@) && square.column == algebraic_column(
                notation@,
            ),
        decreases 2 - i,
    {
        let ch = notation.get_char(i);
        if 'a' <= ch && ch <= 'h' {
            square.column = (ch as usize) - ('a' as usize) + 1;
        } else {
            square.row = (ch as usize) - ('1' as usize) + 1;
        }
        i += 1;
    }
    Some(square)
}

// ---------------------------------------------------------------------------
// Lines of attack
// ---------------------------------------------------------------------------
//
// Every way a piece can reach a square is a "candidate": a step (dr, dc), a
// number of steps it may repeat (1 for knights, pawns and kings, 8 for sliders)
// and the piece kinds that attack along it.  Candidates 0..8 are knight jumps,
// 8..12 the straight lines (up, down, right, left), 12..16 the diagonals,
// 16..18 the two pawn captures and 18..26 the king steps.

pub open spec fn knight_dr(k: int) -> int {
    if k == 0 || k == 1 { 2 } else if k == 2 || k == 3 { 1 } else if k == 4 || k == 5 { -2 } else { -1 }
}

pub open spec fn knight_dc(k: int) -> int {
    if k == 0 || k == 4 { 1 } else if k == 1 || k == 5 { -1 } else if k == 2 || k == 6 { 2 } else { -2 }
}

/// The diagonal steps (1,1), (1,-1), (-1,1), (-1,-1).
pub open spec fn diag_dr(k: int) -> int {
    if k < 2 { 1 } else { -1 }
}

pub open spec fn diag_dc(k: int) -> int {
    if k % 2 == 0 { 1 } else { -1 }
}

/// The straight steps (1,0), (-1,0), (0,1), (0,-1).
pub open spec fn line_dr(k: int) -> int {
    if k == 0 { 1 } else if k == 1 { -1 } else { 0 }
}

pub open spec fn line_dc(k: int) -> int {
    if k == 2 { 1 } else if k == 3 { -1 } else { 0 }
}

/// The king steps: the four diagonals, then the four straight steps.
pub open spec fn king_dr(k: int) -> int {
    if k < 4 { diag_dr(k) } else { line_dr(k - 4) }
}

pub open spec fn king_dc(k: int) -> int {
    if k < 4 { diag_dc(k) } else { line_dc(k - 4) }
}

/// The row offset at which an enemy pawn is looked for, seen from a piece of `color`.
pub open spec fn pawn_offset(color: Color) -> int {
    match color {
        Color::White => -1,
        Color::Black => 1,
    }
}

pub open spec fn cand_dr(idx: int, color: Color) -> int {
    if idx < 8 {
        knight_dr(idx)
    } else if idx < 12 {
        line_dr(idx - 8)
    } else if idx < 16 {
        diag_dr(idx - 12)
    } else if idx < 18 {
        pawn_offset(color)
    } else {
        king_dr(idx - 18)
    }
}

pub open spec fn cand_dc(idx: int) -> int {
    if idx < 8 {
        knight_dc(idx)
    } else if idx < 12 {
        line_dc(idx - 8)
    } else if idx < 16 {
        diag_dc(idx - 12)
    } else if idx == 16 {
        1
    } else if idx == 17 {
        -1
    } else {
        king_dc(idx - 18)
    }
}

/// Sliders repeat their step; every other candidate takes one step.
pub open spec fn cand_is_ray(idx: int) -> bool {
    8 <= idx < 16
}

pub open spec fn cand_maxd(idx: int) -> int {
    if cand_is_ray(idx) { 8 } else { 1 }
}

/// The piece kinds that attack along candidate `idx`.
pub open spec fn cand_kind(idx: int, piece: Piece) -> bool {
    if idx < 8 {
        piece == Piece::Knight
    } else if idx < 12 {
        piece == Piece::Rook || piece == Piece::Queen
    } else if idx < 16 {
        piece == Piece::Queen || piece == Piece::Bishop
    } else if idx < 18 {
        piece == Piece::Pawn
    } else {
        piece == Piece::King
    }
}

/// The first piece met when stepping by (dr, dc) from (tr, tc), which is step number `m`,
/// up to step `maxd` and stopping at the edge: its step number, square and state.
pub open spec fn scan(
    b: Board,
    tr: int,
    tc: int,
    dr: int,
    dc: int,
    m: int,
    maxd: int,
) -> Option<(int, int, int, PieceState)>
    decreases maxd + 1 - m,
{
    if m > maxd || !on_board(tr, tc) {
        None
    } else {
        match b.piece_at(tr, tc) {
            Some(p) => Some((m, tr, tc, p)),
            None => scan(b, tr + dr, tc + dc, dr, dc, m + 1, maxd),
        }
    }
}

/// The first piece along candidate `idx`, seen from (r, c).
pub open spec fn cand_scan(b: Board, r: int, c: int, color: Color, idx: int) -> Option<
    (int, int, int, PieceState),
> {
    let dr = cand_dr(idx, color);
    let dc = cand_dc(idx);
    scan(b, r + dr, c + dc, dr, dc, 1, cand_maxd(idx))
}

/// An enemy of `color` attacks (r, c) along candidate `idx`.
pub open spec fn cand_hit(b: Board, r: int, c: int, color: Color, idx: int) -> bool {
    match cand_scan(b, r, c, color, idx) {
        Some((m, tr, tc, p)) => cand_kind(idx, p.piece) && p.color != color,
        None => false,
    }
}

pub open spec fn hit_in(b: Board, r: int, c: int, color: Color, lo: int, hi: int) -> bool {
    exists|idx: int| lo <= idx < hi && #[trigger] cand_hit(b, r, c, color, idx)
}

pub open spec fn knight_attacks(b: Board, r: int, c: int, color: Color) -> bool {
    hit_in(b, r, c, color, 0, 8)
}

pub open spec fn column_attacks(b: Board, r: int, c: int, color: Color) -> bool {
    cand_hit(b, r, c, color, 8) || cand_hit(b, r, c, color, 9)
}

pub open spec fn row_attacks(b: Board, r: int, c: int, color: Color) -> bool {
    cand_hit(b, r, c, color, 10) || cand_hit(b, r, c, color, 11)
}

pub open spec fn diagonal_attacks(b: Board, r: int, c: int, color: Color) -> bool {
    hit_in(b, r, c, color, 12, 16)
}

pub open spec fn pawn_attacks(b: Board, r: int, c: int, color: Color) -> bool {
    hit_in(b, r, c, color, 16, 18)
}

pub open spec fn king_attacks(b: Board, r: int, c: int, color: Color) -> bool {
    hit_in(b, r, c, color, 18, 26)
}

/// A piece of the other side than `color` attacks the square (r, c).
pub open spec fn attacked(b: Board, r: int, c: int, color: Color) -> bool {
    ||| knight_attacks(b, r, c, color)
    ||| row_attacks(b, r, c, color)
    ||| column_attacks(b, r, c, color)
    ||| diagonal_attacks(b, r, c, color)
    ||| pawn_attacks(b, r, c, color)
    ||| king_attacks(b, r, c, color)
}

fn cand_delta(idx: usize, color: Color) -> (res: (i32, i32))
    requires
        idx < 26,
    ensures
        res.0 == cand_dr(idx as int, color),
        res.1 == cand_dc(idx as int),
{
    if idx < 8 {
        let d: (i32, i32) = if idx == 0 {
            (2, 1)
        } else if idx == 1 {
            (2, -1)
        } else if idx == 2 {
            (1, 2)
        } else if idx == 3 {
            (1, -2)
        } else if idx == 4 {
            (-2, 1)
        } else if idx == 5 {
            (-2, -1)
        } else if idx == 6 {
            (-1, 2)
        } else {
            (-1, -2)
        };
        d
    } else if idx < 12 {
        let d: (i32, i32) = if idx == 8 {
            (1, 0)
        } else if idx == 9 {
            (-1, 0)
        } else if idx == 10 {
            (0, 1)
        } else {
            (0, -1)
        };
        d
    } else if idx < 16 {
        let d: (i32, i32) = if idx == 12 {
            (1, 1)
        } else if idx == 13 {
            (1, -1)
        } else if idx == 14 {
            (-1, 1)
        } else {
            (-1, -1)
        };
        d
    } else if idx < 18 {
        let off: i32 = match color {
            Color::White => -1,
            Color::Black => 1,
        };
        if idx == 16 {
            (off, 1)
        } else {
            (off, -1)
        }
    } else {
        let k = idx - 18;
        let d: (i32, i32) = if k == 0 {
            (1, 1)
        } else if k == 1 {
            (1, -1)
        } else if k == 2 {
            (-1, 1)
        } else if k == 3 {
            (-1, -1)
        } else if k == 4 {
            (1, 0)
        } else if k == 5 {
            (-1, 0)
        } else if k == 6 {
            (0, 1)
        } else {
            (0, -1)
        };
        d
    }
}

fn cand_kind_exec(idx: usize, piece: Piece) -> (res: bool)
    requires
        idx < 26,
    ensures
        res == cand_kind(idx as int, piece),
{
    if idx < 8 {
        piece == Piece::Knight
    } else if idx < 12 {
        piece == Piece::Rook || piece == Piece::Queen
    } else if idx < 16 {
        piece == Piece::Queen || piece == Piece::Bishop
    } else if idx < 18 {
        piece == Piece::Pawn
    } else {
        piece == Piece::King
    }
}

/// Steps from (sr, sc), step number 1, by (dr, dc) up to `maxd` steps and reports the first
/// piece met.
fn scan_from(board: &Board, sr: i64, sc: i64, dr: i32, dc: i32, maxd: usize) -> (res: Option<
    (usize, usize, usize, PieceState),
>)
    requires
        -2 <= dr <= 2,
        -2 <= dc <= 2,
        1 <= maxd <= 8,
    ensures
        match res {
            Some((m, tr, tc, p)) => scan(*board, sr as int, sc as int, dr as int, dc as int, 1, maxd as int) == Some(
                (m as int, tr as int, tc as int, p),
            ),
            None => scan(*board, sr as int, sc as int, dr as int, dc as int, 1, maxd as int) is None,
        },
{
    if !(1 <= sr && sr <= 8 && 1 <= sc && sc <= 8) {
        return None;
    }
    let mut tr: i32 = sr as i32;
    let mut tc: i32 = sc as i32;
    let mut m: usize = 1;
    while m <= maxd
        invariant
            1 <= m <= maxd + 1,
            maxd <= 8,
            -2 <= dr <= 2,
            -2 <= dc <= 2,
            -1 <= tr <= 10,
            -1 <= tc <= 10,
            scan(*board, sr as int, sc as int, dr as int, dc as int, 1, maxd as int) == scan(
                *board,
                tr as int,
                tc as int,
                dr as int,
                dc as int,
                m as int,
                maxd as int,
            ),
        decreases maxd + 1 - m,
    {
        if !(1 <= tr && tr <= 8 && 1 <= tc && tc <= 8) {
            return None;
        }
        let ur = tr as usize;
        let uc = tc as usize;
        if let Some(p) = board.board[ur - 1][uc - 1].piece_state {
            return Some((m, ur, uc, p));
        }
        tr = tr + dr;
        tc = tc + dc;
        m = m + 1;
    }
    None
}

/// Steps from (r, c) by (dr, dc) up to `maxd` times and reports the first piece met.
fn scan_exec(board: &Board, r: usize, c: usize, dr: i32, dc: i32, maxd: usize) -> (res: Option<
    (usize, usize, usize, PieceState),
>)
    requires
        r <= i32::MAX,
        c <= i32::MAX,
        -2 <= dr <= 2,
        -2 <= dc <= 2,
        1 <= maxd <= 8,
    ensures
        match res {
            Some((m, tr, tc, p)) => scan(
                *board,
                r + dr,
                c + dc,
                dr as int,
                dc as int,
                1,
                maxd as int,
            ) == Some((m as int, tr as int, tc as int, p)),
            None => scan(*board, r + dr, c + dc, dr as int, dc as int, 1, maxd as int) is None,
        },
{
    scan_from(board, r as i64 + dr as i64, c as i64 + dc as i64, dr, dc, maxd)
}

/// Whether an enemy of `color` attacks (r, c) along candidate `idx`.
fn cand_hit_exec(board: &Board, r: usize, c: usize, color: Color, idx: usize) -> (res: bool)
    requires
        r <= i32::MAX,
        c <= i32::MAX,
        idx < 26,
    ensures
        res == cand_hit(*board, r as int, c as int, color, idx as int),
{
    let (dr, dc) = cand_delta(idx, color);
    let maxd: usize = if 8 <= idx && idx < 16 { 8 } else { 1 };
    match scan_exec(board, r, c, dr, dc, maxd) {
        Some((_m, _tr, _tc, p)) => cand_kind_exec(idx, p.piece) && p.color != color,
        None => false,
    }
}

/// Whether some candidate in `lo..hi` attacks (r, c).
fn hit_in_exec(board: &Board, r: usize, c: usize, color: Color, lo: usize, hi: usize) -> (res: bool)
    requires
        r <= i32::MAX,
        c <= i32::MAX,
        lo <= hi <= 26,
    ensures
        res == hit_in(*board, r as int, c as int, color, lo as int, hi as int),
{
    let mut idx = lo;
    while idx < hi
        invariant
            lo <= idx <= hi,
            hi <= 26,
            r <= i32::MAX,
            c <= i32::MAX,
            forall|j: int| lo <= j < idx ==> !#[trigger] cand_hit(*board, r as int, c as int, color, j),
        decreases hi - idx,
    {
        if cand_hit_exec(board, r, c, color, idx) {
            return true;
        }
        idx += 1;
    }
    false
}

/// An enemy rook or queen is the first piece met going from (sr, sc) by (dr, dc).
pub open spec fn line_hit(b: Board, sr: int, sc: int, dr: int, dc: int, color: Color) -> bool {
    match scan(b, sr, sc, dr, dc, 1, 8) {
        Some((m, tr, tc, p)) => (p.piece == Piece::Rook || p.piece == Piece::Queen) && p.color != color,
        None => false,
    }
}

/// Where a scan towards row (or column) 1 starts from line `r`: the next line, but never
/// beyond the board's last line.
pub open spec fn back_start(r: int) -> int {
    if r - 1 > 8 {
        8
    } else {
        r - 1
    }
}

/// An enemy rook or queen attacks (r, c) along column `c`, the square itself possibly off
/// the board: upwards from row r + 1, downwards from row r - 1 (or the last row).
pub open spec fn column_attacks_from(b: Board, r: int, c: int, color: Color) -> bool {
    line_hit(b, r + 1, c, 1, 0, color) || line_hit(b, back_start(r), c, -1, 0, color)
}

/// An enemy rook or queen attacks (r, c) along row `r`, the square itself possibly off the
/// board.
pub open spec fn row_attacks_from(b: Board, r: int, c: int, color: Color) -> bool {
    line_hit(b, r, c + 1, 0, 1, color) || line_hit(b, r, back_start(c), 0, -1, color)
}

/// A piece of the other side than `color` attacks (r, c), the square possibly off the board.
pub open spec fn attacked_from(b: Board, r: int, c: int, color: Color) -> bool {
    ||| knight_attacks(b, r, c, color)
    ||| row_attacks_from(b, r, c, color)
    ||| column_attacks_from(b, r, c, color)
    ||| diagonal_attacks(b, r, c, color)
    ||| pawn_attacks(b, r, c, color)
    ||| king_attacks(b, r, c, color)
}

/// On the board, the lines seen from a square are its two candidate rays.
proof fn lemma_lines_on_board(b: Board, r: int, c: int, color: Color)
    requires
        on_board(r, c),
    ensures
        column_attacks_from(b, r, c, color) == column_attacks(b, r, c, color),
        row_attacks_from(b, r, c, color) == row_attacks(b, r, c, color),
        attacked_from(b, r, c, color) == attacked(b, r, c, color),
{
}

/// Whether an enemy rook or queen is the first piece met from (sr, sc) by (dr, dc).
fn line_hit_exec(board: &Board, sr: i64, sc: i64, dr: i32, dc: i32, color: Color) -> (res: bool)
    requires
        -1 <= dr <= 1,
        -1 <= dc <= 1,
    ensures
        res == line_hit(*board, sr as int, sc as int, dr as int, dc as int, color),
{
    match scan_from(board, sr, sc, dr, dc, 8) {
        Some((_m, _tr, _tc, p)) => (p.piece == Piece::Rook || p.piece == Piece::Queen) && p.color != color,
        None => false,
    }
}

/// Where the scan towards line 1 starts, from line `r`.
fn back_start_exec(r: usize) -> (s: i64)
    ensures
        s == back_start(r as int),
{
    if r > 9 {
        8
    } else {
        r as i64 - 1
    }
}

/// Whether an enemy rook or queen attacks the square along its column.
pub fn column_is_attacked(square: Square, active_color: Color, board: &Board) -> (res: bool)
    requires
        square.row < usize::MAX,
    ensures
        res == column_attacks_from(*board, square.row as int, square.column as int, active_color),
        on_board(square.row as int, square.column as int) ==> res == column_attacks(
            *board,
            square.row as int,
            square.column as int,
            active_color,
        ),
{
    proof {
        if on_board(square.row as int, square.column as int) {
            lemma_lines_on_board(*board, square.row as int, square.column as int, active_color);
        }
    }
    let r = square.row;
    let c = square.column;
    if !(1 <= c && c <= 8) {
        return false;
    }
    let up: i64 = if r < 9 { r as i64 + 1 } else { 10 };
    assert(scan(*board, up as int, c as int, 1, 0, 1, 8) == scan(*board, r + 1, c as int, 1, 0, 1, 8));
    if line_hit_exec(board, up, c as i64, 1, 0, active_color) {
        return true;
    }
    line_hit_exec(board, back_start_exec(r), c as i64, -1, 0, active_color)
}

/// Whether an enemy rook or queen attacks the square along its row.
pub fn row_is_attacked(square: Square, active_color: Color, board: &Board) -> (res: bool)
    requires
        square.column < usize::MAX,
    ensures
        res == row_attacks_from(*board, square.row as int, square.column as int, active_color),
        on_board(square.row as int, square.column as int) ==> res == row_attacks(
            *board,
            square.row as int,
            square.column as int,
            active_color,
        ),
{
    proof {
        if on_board(square.row as int, square.column as int) {
            lemma_lines_on_board(*board, square.row as int, square.column as int, active_color);
        }
    }
    let r = square.row;
    let c = square.column;
    if !(1 <= r && r <= 8) {
        return false;
    }
    let right: i64 = if c < 9 { c as i64 + 1 } else { 10 };
    assert(scan(*board, r as int, right as int, 0, 1, 1, 8) == scan(*board, r as int, c + 1, 0, 1, 1, 8));
    if line_hit_exec(board, r as i64, right, 0, 1, active_color) {
        return true;
    }
    line_hit_exec(board, r as i64, back_start_exec(c), 0, -1, active_color)
}

/// Whether an enemy queen or bishop attacks the square along a diagonal.
pub fn diagonal_is_attacked(square: Square, active_color: Color, board: &Board) -> (res: bool)
    requires
        square.row < i32::MAX,
        square.column < i32::MAX,
    ensures
        res == diagonal_attacks(*board, square.row as int, square.column as int, active_color),
{
    hit_in_exec(board, square.row, square.column, active_color, 12, 16)
}

/// Whether any enemy piece of `active_color` attacks the square.
pub fn square_is_attacked(square: Square, active_color: Color, board: &Board) -> (res: bool)
    requires
        square.row <= i32::MAX - 2,
        square.column <= i32::MAX - 2,
    ensures
        res == attacked_from(*board, square.row as int, square.column as int, active_color),
        on_board(square.row as int, square.column as int) ==> res == attacked(
            *board,
            square.row as int,
            square.column as int,
            active_color,
        ),
{
    proof {
        if on_board(square.row as int, square.column as int) {
            lemma_lines_on_board(*board, square.row as int, square.column as int, active_color);
        }
    }
    if hit_in_exec(board, square.row, square.column, active_color, 0, 8) {
        return true;
    }
    if row_is_attacked(square, active_color, board) {
        return true;
    }
    if column_is_attacked(square, active_color, board) {
        return true;
    }
    if diagonal_is_attacked(square, active_color, board) {
        return true;
    }
    if hit_in_exec(board, square.row, square.column, active_color, 16, 18) {
        return true;
    }
    hit_in_exec(board, square.row, square.column, active_color, 18, 26)
}

// ---------------------------------------------------------------------------
// Kings, legality and checks
// ---------------------------------------------------------------------------

pub open spec fn is_king_of(sq: Square, color: Color) -> bool {
    sq.piece_state matches Some(s) && s.piece == Piece::King && s.color == color
}

/// The first square holding the king of `color`, scanning rows 1..8 and within
/// each row columns 1..8, starting at linear index `k` (0-based, row-major).
pub open spec fn king_scan(b: Board, color: Color, k: int) -> Option<Square>
    decreases 64 - k,
{
    if k < 0 || k >= 64 {
        None
    } else if is_king_of(b.board[k / 8][k % 8], color) {
        Some(b.board[k / 8][k % 8])
    } else {
        king_scan(b, color, k + 1)
    }
}

/// The square of the king of `color`, if there is one.
pub open spec fn king_square(b: Board, color: Color) -> Option<Square> {
    king_scan(b, color, 0)
}

proof fn lemma_king_scan_on_board(b: Board, color: Color, k: int)
    requires
        b.coords_ok(),
        0 <= k,
    ensures
        king_scan(b, color, k) matches Some(sq) ==> on_board(sq.row as int, sq.column as int)
            && is_king_of(sq, color),
    decreases 64 - k,
{
    if k < 64 {
        let sq = b.board[k / 8][k % 8];
        if !is_king_of(sq, color) {
            lemma_king_scan_on_board(b, color, k + 1);
        }
    }
}

/// The king of `color`, when it is found its square lies on a board whose squares know their coordinates.
pub proof fn lemma_king_square_on_board(b: Board, color: Color)
    requires
        b.coords_ok(),
    ensures
        king_square(b, color) matches Some(sq) ==> on_board(sq.row as int, sq.column as int)
            && is_king_of(sq, color),
{
    lemma_king_scan_on_board(b, color, 0);
}

/// Finds the square of the king of `color`.
pub fn find_king(board: &Board, color: Color) -> (res: Option<Square>)
    ensures
        res == king_square(*board, color),
{
    let mut row: usize = 1;
    while row <= 8
        invariant
            1 <= row <= 9,
            king_scan(*board, color, 0) == king_scan(*board, color, (row - 1) * 8),
        decreases 9 - row,
    {
        let mut col: usize = 1;
        while col <= 8
            invariant
                1 <= row <= 8,
                1 <= col <= 9,
                king_scan(*board, color, 0) == king_scan(*board, color, (row - 1) * 8 + (col - 1)),
            decreases 9 - col,
        {
            let ghost k: int = (row - 1) * 8 + (col - 1);
            assert(k / 8 == row - 1 && k % 8 == col - 1);
            if let Some(square) = access_board(board, row, col) {
                if let Some(state) = square.piece_state {
                    if state.piece == Piece::King && state.color == color {
                        return Some(square);
                    }
                }
            }
            col += 1;
        }
        row += 1;
    }
    None
}

/// The board on which a move is tried: its origin emptied, its destination square
/// replaced by the move's, and the square its captured piece records emptied.
pub open spec fn tried_board(b: Board, mv: crate::moves::Move) -> Board {
    let b0 = with_piece(b, mv.previous_square.row - 1, mv.previous_square.column - 1, None);
    let b1 = with_square(b0, mv.current_square.row - 1, mv.current_square.column - 1, mv.current_square);
    match mv.captured_piece {
        Some(cap) => with_piece(b1, cap.location.0 - 1, cap.location.1 - 1, None),
        None => b1,
    }
}

/// After the move, the king of `color` (when there is one) is not attacked.
pub open spec fn legal_spec(b: Board, mv: crate::moves::Move, color: Color) -> bool {
    let tb = tried_board(b, mv);
    match king_square(tb, color) {
        None => true,
        Some(k) => !attacked(tb, k.row as int, k.column as int, color),
    }
}

/// The move's squares, and the location of any piece it captures, lie on the board.
pub open spec fn move_on_board(mv: crate::moves::Move) -> bool {
    &&& on_board(mv.previous_square.row as int, mv.previous_square.column as int)
    &&& on_board(mv.current_square.row as int, mv.current_square.column as int)
    &&& (mv.captured_piece matches Some(cap) ==> on_board(cap.location.0 as int, cap.location.1 as int))
}

/// Whether making the move leaves the mover's king unattacked.
pub fn is_legal_move(mv: &crate::moves::Move, board: &Board, color: Color) -> (res: bool)
    requires
        board.coords_ok(),
        move_on_board(*mv),
    ensures
        res == legal_spec(*board, *mv, color),
{
    let mut test_board = *board;
    test_board.board[mv.previous_square.row - 1][mv.previous_square.column - 1].piece_state = None;
    test_board.board[mv.current_square.row - 1][mv.current_square.column - 1] = mv.current_square;
    if let Some(captured) = mv.captured_piece {
        test_board.board[captured.location.0 - 1][captured.location.1 - 1].piece_state = None;
    }
    assert(test_board == tried_board(*board, *mv));
    assert(test_board.coords_ok());
    proof {
        lemma_king_square_on_board(test_board, color);
    }
    let Some(king_square) = find_king(&test_board, color) else {
        return true;
    };
    !square_is_attacked(king_square, color, &test_board)
}

/// The squares (pr, pc), (pr + dr, pc + dc), ... , `len` steps in all.
pub open spec fn seg(pr: int, pc: int, dr: int, dc: int, len: int, i: int, j: int) -> bool
    decreases len,
{
    if len < 0 {
        false
    } else {
        (i == pr && j == pc) || (len > 0 && seg(pr + dr, pc + dc, dr, dc, len - 1, i, j))
    }
}

/// The squares an attacker along candidate `idx` marks as answering the check: the
/// attacker's square, and for sliders every square between it and the king, the king's too.
pub open spec fn cand_marks(b: Board, r: int, c: int, color: Color, idx: int, i: int, j: int) -> bool {
    let dr = cand_dr(idx, color);
    let dc = cand_dc(idx);
    match cand_scan(b, r, c, color, idx) {
        Some((m, tr, tc, p)) => if cand_is_ray(idx) {
            seg(r, c, dr, dc, m, i, j)
        } else {
            seg(r + dr, c + dc, dr, dc, m - 1, i, j)
        },
        None => false,
    }
}

/// The number of checking candidates among the first `n`.
pub open spec fn check_count(b: Board, r: int, c: int, color: Color, n: int) -> int
    decreases n,
{
    if n <= 0 {
        0
    } else {
        check_count(b, r, c, color, n - 1) + if cand_hit(b, r, c, color, n - 1) {
            1int
        } else {
            0int
        }
    }
}

/// Some checking candidate among the first `n` marks (i, j).
pub open spec fn check_marked(b: Board, r: int, c: int, color: Color, n: int, i: int, j: int) -> bool
    decreases n,
{
    if n <= 0 {
        false
    } else {
        check_marked(b, r, c, color, n - 1, i, j) || (cand_hit(b, r, c, color, n - 1) && cand_marks(
            b,
            r,
            c,
            color,
            n - 1,
            i,
            j,
        ))
    }
}

/// The check mask of the king of `color` on (r, c): every square when no piece gives check,
/// no square when two or more do, else the checker's square and the squares between.
pub open spec fn check_mask_at(b: Board, r: int, c: int, color: Color, i: int, j: int) -> bool {
    let n = check_count(b, r, c, color, 18);
    n == 0 || (n == 1 && check_marked(b, r, c, color, 18, i, j))
}

proof fn lemma_scan_seg_on_board(b: Board, tr: int, tc: int, dr: int, dc: int, m0: int, maxd: int)
    ensures
        scan(b, tr, tc, dr, dc, m0, maxd) matches Some((m, er, ec, p)) ==> m >= m0 && m <= maxd && forall|i: int, j: int|
            seg(tr, tc, dr, dc, m - m0, i, j) ==> on_board(i, j),
    decreases maxd + 1 - m0,
{
    if !(m0 > maxd || !on_board(tr, tc)) {
        if b.piece_at(tr, tc) is None {
            lemma_scan_seg_on_board(b, tr + dr, tc + dc, dr, dc, m0 + 1, maxd);
            if let Some((m, er, ec, p)) = scan(b, tr, tc, dr, dc, m0, maxd) {
                assert forall|i: int, j: int| seg(tr, tc, dr, dc, m - m0, i, j) implies on_board(i, j) by {
                    if !(i == tr && j == tc) {
                        assert(seg(tr + dr, tc + dc, dr, dc, m - (m0 + 1), i, j));
                    }
                }
            }
        } else {
            if let Some((m, er, ec, p)) = scan(b, tr, tc, dr, dc, m0, maxd) {
                assert forall|i: int, j: int| seg(tr, tc, dr, dc, m - m0, i, j) implies on_board(i, j) by {
                    assert(m - m0 == 0);
                }
            }
        }
    }
}

/// Sets the mask on the `len + 1` squares from (sr, sc) stepping by (dr, dc).
fn mark_segment(mask: &mut CheckMask, sr: i32, sc: i32, dr: i32, dc: i32, len: usize)
    requires
        -2 <= dr <= 2,
        -2 <= dc <= 2,
        len <= 8,
        forall|i: int, j: int| seg(sr as int, sc as int, dr as int, dc as int, len as int, i, j) ==> on_board(i, j),
    ensures
        forall|i: int, j: int|
            #![trigger final(mask).check_mask[i][j]]
            0 <= i < 8 && 0 <= j < 8 ==> final(mask).check_mask[i][j] == (old(mask).check_mask[i][j]
                || seg(sr as int, sc as int, dr as int, dc as int, len as int, i + 1, j + 1)),
{
    let mut pr = sr;
    let mut pc = sc;
    let mut s: usize = 0;
    proof {
        assert(seg(sr as int, sc as int, dr as int, dc as int, len as int, sr as int, sc as int));
        assert(on_board(sr as int, sc as int));
    }
    while s <= len
        invariant
            s <= len + 1,
            len <= 8,
            -2 <= dr <= 2,
            -2 <= dc <= 2,
            s <= len ==> on_board(pr as int, pc as int),
            -2 <= pr <= 11,
            -2 <= pc <= 11,
            forall|i: int, j: int|
                s <= len && seg(pr as int, pc as int, dr as int, dc as int, (len - s) as int, i, j)
                    ==> on_board(i, j),
            forall|i: int, j: int|
                #![trigger mask.check_mask[i][j]]
                0 <= i < 8 && 0 <= j < 8 ==> (mask.check_mask[i][j] || (s <= len && seg(
                    pr as int,
                    pc as int,
                    dr as int,
                    dc as int,
                    (len - s) as int,
                    i + 1,
                    j + 1,
                ))) == (old(mask).check_mask[i][j] || seg(
                    sr as int,
                    sc as int,
                    dr as int,
                    dc as int,
                    len as int,
                    i + 1,
                    j + 1,
                )),
        decreases len + 1 - s,
    {
        let ghost prev = *mask;
        let ghost (opr, opc) = (pr as int, pc as int);
        let ghost l = (len - s) as int;
        mask.check_mask[(pr - 1) as usize][(pc - 1) as usize] = true;
        pr = pr + dr;
        pc = pc + dc;
        s = s + 1;
        proof {
            assert forall|i: int, j: int|
                s <= len && seg(pr as int, pc as int, dr as int, dc as int, (len - s) as int, i, j)
                implies on_board(i, j) by {
                assert(seg(opr, opc, dr as int, dc as int, l, i, j));
            }
            if s <= len {
                assert(seg(pr as int, pc as int, dr as int, dc as int, (len - s) as int, pr as int, pc as int));
            }
            assert forall|i: int, j: int|
                #![trigger mask.check_mask[i][j]]
                0 <= i < 8 && 0 <= j < 8 implies (mask.check_mask[i][j] || (s <= len && seg(
                    pr as int,
                    pc as int,
                    dr as int,
                    dc as int,
                    (len - s) as int,
                    i + 1,
                    j + 1,
                ))) == (prev.check_mask[i][j] || seg(
                    opr,
                    opc,
                    dr as int,
                    dc as int,
                    l,
                    i + 1,
                    j + 1,
                )) by {
                assert(seg(opr, opc, dr as int, dc as int, l, i + 1, j + 1) == ((i + 1 == opr && j + 1 == opc) || (l > 0 && seg(
                    pr as int,
                    pc as int,
                    dr as int,
                    dc as int,
                    l - 1,
                    i + 1,
                    j + 1,
                ))));
            }
        }
    }
}

/// Off the board, a king that no rook, queen or bishop attacks along the lines the search
/// reads has no checking candidate along a line or a diagonal.
proof fn lemma_off_board_lines(b: Board, r: int, c: int, color: Color)
    requires
        0 <= r,
        0 <= c,
        !on_board(r, c),
        !column_attacks_from(b, r, c, color),
        !row_attacks_from(b, r, c, color),
        !diagonal_attacks(b, r, c, color),
    ensures
        forall|k: int| 8 <= k < 16 ==> !#[trigger] cand_hit(b, r, c, color, k),
{
    assert forall|k: int| 8 <= k < 16 implies !#[trigger] cand_hit(b, r, c, color, k) by {
        if k == 9 && r - 1 > 8 {
            assert(!on_board(r - 1, c));
        }
        if k == 11 && c - 1 > 8 {
            assert(!on_board(r, c - 1));
        }
        if 12 <= k {
            assert(!hit_in(b, r, c, color, 12, 16));
        }
    }
}

/// The check mask of a king standing on `king_square`: every square when it is not in
/// check, no square under a double check, else the squares that capture or block the checker.
pub fn get_checks(king_square: Square, active_color: Color, board: &Board) -> (mask: CheckMask)
    requires
        king_square.piece_state is Some ==> king_square.row <= i32::MAX - 2 && king_square.column <= i32::MAX - 2,
        king_square.piece_state is Some && !on_board(king_square.row as int, king_square.column as int) ==> {
            &&& !column_attacks_from(*board, king_square.row as int, king_square.column as int, active_color)
            &&& !row_attacks_from(*board, king_square.row as int, king_square.column as int, active_color)
            &&& !diagonal_attacks(*board, king_square.row as int, king_square.column as int, active_color)
        },
    ensures
        king_square.piece_state is None ==> forall|i: int, j: int|
            0 <= i < 8 && 0 <= j < 8 ==> #[trigger] mask.check_mask[i][j],
        king_square.piece_state is Some ==> forall|i: int, j: int|
            #![trigger mask.check_mask[i][j]]
            0 <= i < 8 && 0 <= j < 8 ==> mask.check_mask[i][j] == check_mask_at(
                *board,
                king_square.row as int,
                king_square.column as int,
                active_color,
                i + 1,
                j + 1,
            ),
{
    if king_square.piece_state.is_none() {
        return CheckMask { check_mask: [[true; 8]; 8] };
    }
    let cur_row = king_square.row;
    let cur_col = king_square.column;
    let ghost r = cur_row as int;
    let ghost c = cur_col as int;
    let mut num_attacking_pieces: usize = 0;
    let mut mask = CheckMask { check_mask: [[false; 8]; 8] };
    proof {
        if !on_board(r, c) {
            lemma_off_board_lines(*board, r, c, active_color);
        }
    }
    let mut idx: usize = 0;
    while idx < 18
        invariant
            idx <= 18,
            0 <= r <= i32::MAX - 2,
            0 <= c <= i32::MAX - 2,
            !on_board(r, c) ==> forall|k: int| 8 <= k < 16 ==> !#[trigger] cand_hit(*board, r, c, active_color, k),
            r == cur_row,
            c == cur_col,
            num_attacking_pieces == check_count(*board, r, c, active_color, idx as int),
            num_attacking_pieces <= idx,
            forall|i: int, j: int|
                #![trigger mask.check_mask[i][j]]
                0 <= i < 8 && 0 <= j < 8 ==> mask.check_mask[i][j] == check_marked(
                    *board,
                    r,
                    c,
                    active_color,
                    idx as int,
                    i + 1,
                    j + 1,
                ),
        decreases 18 - idx,
    {
        let (dr, dc) = cand_delta(idx, active_color);
        let is_ray = 8 <= idx && idx < 16;
        let maxd: usize = if is_ray { 8 } else { 1 };
        let ghost prev = mask;
        proof {
            lemma_scan_seg_on_board(*board, r + dr, c + dc, dr as int, dc as int, 1, maxd as int);
        }
        if let Some((m, tr, tc, p)) = scan_exec(board, cur_row, cur_col, dr, dc, maxd) {
            if cand_kind_exec(idx, p.piece) && p.color != active_color {
                if is_ray {
                    assert(cand_hit(*board, r, c, active_color, idx as int));
                    assert(on_board(r, c));
                    proof {
                        assert forall|i: int, j: int| seg(r, c, dr as int, dc as int, m as int, i, j) implies on_board(i, j) by {
                            if !(i == r && j == c) {
                                assert(seg(r + dr, c + dc, dr as int, dc as int, m - 1, i, j));
                            }
                        }
                    }
                    mark_segment(&mut mask, cur_row as i32, cur_col as i32, dr, dc, m);
                } else {
                    mark_segment(&mut mask, cur_row as i32 + dr, cur_col as i32 + dc, dr, dc, m - 1);
                }
                num_attacking_pieces += 1;
            }
        }
        idx += 1;
    }
    if num_attacking_pieces == 0 {
        return CheckMask { check_mask: [[true; 8]; 8] };
    }
    if num_attacking_pieces > 1 {
        return CheckMask { check_mask: [[false; 8]; 8] };
    }
    mask
}

/// The check mask of the king of `color`, or every square when there is no such king.
pub fn create_check_mask(board: &Board, color: Color) -> (mask: CheckMask)
    requires
        board.coords_ok(),
    ensures
        king_square(*board, color) is None ==> forall|i: int, j: int|
            0 <= i < 8 && 0 <= j < 8 ==> #[trigger] mask.check_mask[i][j],
        king_square(*board, color) matches Some(k) ==> forall|i: int, j: int|
            #![trigger mask.check_mask[i][j]]
            0 <= i < 8 && 0 <= j < 8 ==> mask.check_mask[i][j] == check_mask_at(
                *board,
                k.row as int,
                k.column as int,
                color,
                i + 1,
                j + 1,
            ),
{
    proof {
        lemma_king_square_on_board(*board, color);
    }
    let Some(king_square) = find_king(board, color) else {
        return CheckMask { check_mask: [[true; 8]; 8] };
    };
    get_checks(king_square, color, board)
}

/// The square `m` steps from (r, c) along (dr, dc) is empty.
pub open spec fn line_empty(b: Board, r: int, c: int, dr: int, dc: int, m: int) -> bool {
    b.piece_at(r + m * dr, c + m * dc) is None
}

/// The first piece met from (r, c) along (dr, dc) stands `k` steps away: that square is on
/// the board and occupied, and every square before it is empty.
pub open spec fn line_first(b: Board, r: int, c: int, dr: int, dc: int, k: int) -> bool {
    &&& 1 <= k
    &&& on_board(r + k * dr, c + k * dc)
    &&& b.piece_at(r + k * dr, c + k * dc) is Some
    &&& forall|m: int| 1 <= m < k ==> #[trigger] line_empty(b, r, c, dr, dc, m)
}

/// A rook or queen of the other side than `color`.
pub open spec fn enemy_line_piece(p: Option<PieceState>, color: Color) -> bool {
    p matches Some(q) && (q.piece == Piece::Rook || q.piece == Piece::Queen) && q.color != color
}

proof fn lemma_scan_first(b: Board, r: int, c: int, dr: int, dc: int, m: int)
    requires
        on_board(r, c),
        -1 <= dr <= 1,
        -1 <= dc <= 1,
        dr != 0 || dc != 0,
        1 <= m,
        forall|j: int| 1 <= j < m ==> #[trigger] line_empty(b, r, c, dr, dc, j),
    ensures
        scan(b, r + m * dr, c + m * dc, dr, dc, m, 8) matches Some((k, tr, tc, p)) ==> line_first(b, r, c, dr, dc, k)
            && tr == r + k * dr && tc == c + k * dc && b.piece_at(tr, tc) == Some(p),
        forall|k: int| k >= m && #[trigger] line_first(b, r, c, dr, dc, k) ==> scan(b, r + m * dr, c + m * dc, dr, dc, m, 8) is Some,
    decreases 9 - m,
{
    let tr = r + m * dr;
    let tc = c + m * dc;
    assert(tr + dr == r + (m + 1) * dr && tc + dc == c + (m + 1) * dc) by (nonlinear_arith)
        requires tr == r + m * dr, tc == c + m * dc;
    if m > 8 {
        assert forall|k: int| k >= m && #[trigger] line_first(b, r, c, dr, dc, k) implies false by {
            assert(-1 <= dr <= 1 && -1 <= dc <= 1 && k >= 9 ==> (dr == 0 || k * dr >= 9 || k * dr <= -9)
                && (dc == 0 || k * dc >= 9 || k * dc <= -9)) by (nonlinear_arith);
        }
    } else if !on_board(tr, tc) {
        assert forall|k: int| k >= m && #[trigger] line_first(b, r, c, dr, dc, k) implies false by {
            assert(k > m ==> line_empty(b, r, c, dr, dc, m));
            assert(1 <= r <= 8 && 1 <= c <= 8 && -1 <= dr <= 1 && -1 <= dc <= 1 && 1 <= m < k && !(1 <= r + m * dr
                <= 8 && 1 <= c + m * dc <= 8) ==> !(1 <= r + k * dr <= 8 && 1 <= c + k * dc <= 8)) by (nonlinear_arith);
        }
    } else if b.piece_at(tr, tc) is None {
        assert(line_empty(b, r, c, dr, dc, m));
        assert forall|j: int| 1 <= j < m + 1 implies #[trigger] line_empty(b, r, c, dr, dc, j) by {
            if j < m {
                assert(line_empty(b, r, c, dr, dc, j));
            }
        }
        lemma_scan_first(b, r, c, dr, dc, m + 1);
        assert forall|k: int| k >= m && #[trigger] line_first(b, r, c, dr, dc, k) implies scan(
            b,
            tr,
            tc,
            dr,
            dc,
            m,
            8,
        ) is Some by {
            if k == m {
                assert(b.piece_at(r + k * dr, c + k * dc) is Some);
            }
        }
    } else {
        assert(line_first(b, r, c, dr, dc, m));
    }
}

/// Two first pieces along one line stand at the same distance.
proof fn lemma_line_first_unique(b: Board, r: int, c: int, dr: int, dc: int, k1: int, k2: int)
    requires
        line_first(b, r, c, dr, dc, k1),
        line_first(b, r, c, dr, dc, k2),
    ensures
        k1 == k2,
{
    if k1 < k2 {
        assert(line_empty(b, r, c, dr, dc, k1));
    } else if k2 < k1 {
        assert(line_empty(b, r, c, dr, dc, k2));
    }
}

proof fn lemma_line_hit_first(b: Board, r: int, c: int, dr: int, dc: int, color: Color)
    requires
        on_board(r, c),
        -1 <= dr <= 1,
        -1 <= dc <= 1,
        dr != 0 || dc != 0,
    ensures
        line_hit(b, r + dr, c + dc, dr, dc, color) <==> exists|k: int|
            #[trigger] line_first(b, r, c, dr, dc, k) && enemy_line_piece(b.piece_at(r + k * dr, c + k * dc), color),
{
    assert(r + 1 * dr == r + dr && c + 1 * dc == c + dc);
    lemma_scan_first(b, r, c, dr, dc, 1);
    if line_hit(b, r + dr, c + dc, dr, dc, color) {
        let (k, tr, tc, p) = scan(b, r + dr, c + dc, dr, dc, 1, 8)->0;
        assert(line_first(b, r, c, dr, dc, k) && enemy_line_piece(b.piece_at(r + k * dr, c + k * dc), color));
    }
    if exists|k: int| #[trigger] line_first(b, r, c, dr, dc, k) && enemy_line_piece(b.piece_at(r + k * dr, c + k * dc), color) {
        let k = choose|k: int| #[trigger] line_first(b, r, c, dr, dc, k) && enemy_line_piece(b.piece_at(r + k * dr, c + k * dc), color);
        assert(scan(b, r + dr, c + dc, dr, dc, 1, 8) is Some);
        let (k2, tr, tc, p) = scan(b, r + dr, c + dc, dr, dc, 1, 8)->0;
        lemma_line_first_unique(b, r, c, dr, dc, k, k2);
    }
}

/// A square on the board is attacked along its column exactly when, upwards or downwards,
/// the first piece met is a rook or queen of the other side; and along its row exactly when,
/// rightwards or leftwards, the first piece met is one.
pub proof fn lemma_line_attacks_first_piece(b: Board, r: int, c: int, color: Color)
    requires
        on_board(r, c),
    ensures
        column_attacks_from(b, r, c, color) <==> exists|dir: int, k: int|
            (dir == 1 || dir == -1) && #[trigger] line_first(b, r, c, dir, 0, k) && enemy_line_piece(
                b.piece_at(r + k * dir, c),
                color,
            ),
        row_attacks_from(b, r, c, color) <==> exists|dir: int, k: int|
            (dir == 1 || dir == -1) && #[trigger] line_first(b, r, c, 0, dir, k) && enemy_line_piece(
                b.piece_at(r, c + k * dir),
                color,
            ),
{
    lemma_line_hit_first(b, r, c, 1, 0, color);
    lemma_line_hit_first(b, r, c, -1, 0, color);
    lemma_line_hit_first(b, r, c, 0, 1, color);
    lemma_line_hit_first(b, r, c, 0, -1, color);
    assert(back_start(r) == r + -1 && back_start(c) == c + -1);
    if column_attacks_from(b, r, c, color) {
        if line_hit(b, r + 1, c, 1, 0, color) {
            assert(r + 1 == r + 1 && c + 0 == c);
            let k = choose|k: int| #[trigger] line_first(b, r, c, 1, 0, k) && enemy_line_piece(b.piece_at(r + k * 1, c + k * 0), color);
            assert(r + k * 1 == r + k && c + k * 0 == c);
            assert(line_first(b, r, c, 1, 0, k) && enemy_line_piece(b.piece_at(r + k * 1, c), color));
        } else {
            let k = choose|k: int| #[trigger] line_first(b, r, c, -1, 0, k) && enemy_line_piece(b.piece_at(r + k * -1, c + k * 0), color);
            assert(line_first(b, r, c, -1, 0, k) && enemy_line_piece(b.piece_at(r + k * -1, c), color));
        }
    }
    if exists|dir: int, k: int| (dir == 1 || dir == -1) && #[trigger] line_first(b, r, c, dir, 0, k) && enemy_line_piece(b.piece_at(r + k * dir, c), color) {
        let (dir, k) = choose|dir: int, k: int| (dir == 1 || dir == -1) && #[trigger] line_first(b, r, c, dir, 0, k) && enemy_line_piece(b.piece_at(r + k * dir, c), color);
        assert(c + k * 0 == c);
        assert(enemy_line_piece(b.piece_at(r + k * dir, c + k * 0), color));
    }
    if row_attacks_from(b, r, c, color) {
        if line_hit(b, r, c + 1, 0, 1, color) {
            let k = choose|k: int| #[trigger] line_first(b, r, c, 0, 1, k) && enemy_line_piece(b.piece_at(r + k * 0, c + k * 1), color);
            assert(r + k * 0 == r);
            assert(line_first(b, r, c, 0, 1, k) && enemy_line_piece(b.piece_at(r, c + k * 1), color));
        } else {
            let k = choose|k: int| #[trigger] line_first(b, r, c, 0, -1, k) && enemy_line_piece(b.piece_at(r + k * 0, c + k * -1), color);
            assert(r + k * 0 == r);
            assert(line_first(b, r, c, 0, -1, k) && enemy_line_piece(b.piece_at(r, c + k * -1), color));
        }
    }
    if exists|dir: int, k: int| (dir == 1 || dir == -1) && #[trigger] line_first(b, r, c, 0, dir, k) && enemy_line_piece(b.piece_at(r, c + k * dir), color) {
        let (dir, k) = choose|dir: int, k: int| (dir == 1 || dir == -1) && #[trigger] line_first(b, r, c, 0, dir, k) && enemy_line_piece(b.piece_at(r, c + k * dir), color);
        assert(r + k * 0 == r);
        assert(enemy_line_piece(b.piece_at(r + k * 0, c + k * dir), color));
    }
}

} // verus!
