use vstd::prelude::*;

use crate::pieces::{on_board, Board, BoardState, CheckMask, Color, Piece, PieceState, Square};
use crate::utils::{
    access, access_board, attacked, diag_dc, diag_dr, in_bounds, king_dc, king_dr, knight_dc,
    knight_dr, line_dc, line_dr, square_is_attacked,
};

verus! {

/// A move: the square left (as it was before the move), the square reached (holding
/// the moved piece), the mover, any piece captured, any promotion and whether it castles.
#[derive(Debug, Clone, Copy, PartialEq)]
pub struct Move {
    pub previous_square: Square,
    pub current_square: Square,
    pub color: Color,
    pub captured_piece: Option<PieceState>,
    pub promotion: Option<Piece>,
    pub castling: bool,
}

/// The placeholder move: both squares at (0, 0) and empty.
pub open spec fn empty_move_spec() -> Move {
    Move {
        previous_square: Square { row: 0, column: 0, piece_state: None },
        current_square: Square { row: 0, column: 0, piece_state: None },
        color: Color::White,
        captured_piece: None,
        promotion: None,
        castling: false,
    }
}

/// The placeholder move that fills unused slots of a move list.
pub fn empty_move() -> (mv: Move)
    ensures
        mv == empty_move_spec(),
{
    Move {
        previous_square: Square { row: 0, column: 0, piece_state: None },
        current_square: Square { row: 0, column: 0, piece_state: None },
        color: Color::White,
        captured_piece: None,
        promotion: None,
        castling: false,
    }
}

/// What `Move::validate` accepts.
pub open spec fn valid_move(mv: Move) -> bool {
    &&& on_board(mv.current_square.row as int, mv.current_square.column as int)
    &&& on_board(mv.previous_square.row as int, mv.previous_square.column as int)
    &&& mv.previous_square != mv.current_square
    &&& mv.previous_square.piece_state is Some
    &&& mv.current_square.piece_state is Some
    &&& mv.previous_square.piece_state.unwrap().color == mv.color
    &&& mv.current_square.piece_state.unwrap().color == mv.color
    &&& (mv.captured_piece matches Some(cap) ==> cap.color != mv.color)
    &&& !(mv.promotion is Some && mv.castling)
    &&& (mv.castling ==> mv.current_square.piece_state.unwrap().piece == Piece::King
        && mv.previous_square.piece_state.unwrap().piece == Piece::King)
}

fn piece_state_eq(a: PieceState, b: PieceState) -> (res: bool)
    ensures
        res == (a == b),
{
    a.color == b.color && a.piece == b.piece && a.location.0 == b.location.0 && a.location.1
        == b.location.1 && a.has_moved == b.has_moved && a.dead == b.dead
}

fn square_eq(a: Square, b: Square) -> (res: bool)
    ensures
        res == (a == b),
{
    if a.row != b.row || a.column != b.column {
        return false;
    }
    match (a.piece_state, b.piece_state) {
        (Some(x), Some(y)) => piece_state_eq(x, y),
        (None, None) => true,
        _ => false,
    }
}

impl Move {
    /// Checks the move's shape: both squares on the board and distinct, both holding a
    /// piece of the mover, no capture of the mover's own colour, no promotion while
    /// castling, and only kings castle.
    pub fn validate(&self) -> (res: bool)
        ensures
            res == valid_move(*self),
    {
        if self.current_square.row > 8 || self.current_square.row < 1 || self.current_square.column
            > 8 || self.current_square.column < 1 {
            return false;
        }
        if self.previous_square.row > 8 || self.previous_square.row < 1
            || self.previous_square.column > 8 || self.previous_square.column < 1 {
            return false;
        }
        if square_eq(self.previous_square, self.current_square) {
            return false;
        }
        if self.previous_square.piece_state.is_none() {
            return false;
        }
        if self.current_square.piece_state.is_none() {
            return false;
        }
        if let (Some(prev), Some(cur)) = (self.previous_square.piece_state, self.current_square.piece_state) {
            if prev.color != cur.color || prev.color != self.color || cur.color != self.color {
                return false;
            }
        }
        if let Some(captured) = self.captured_piece {
            if captured.color == self.color {
                return false;
            }
        }
        if self.promotion.is_some() && self.castling {
            return false;
        }
        if let (Some(cur_state), Some(prev_state)) = (self.current_square.piece_state, self.previous_square.piece_state) {
            if self.castling && (cur_state.piece != Piece::King || prev_state.piece != Piece::King) {
                return false;
            }
        }
        true
    }
}

/// The move built from its parts, when it validates.
pub open spec fn create_spec(
    prev_square: Square,
    cur_square: Square,
    color: Color,
    captured_piece: Option<PieceState>,
    promotion: Option<Piece>,
    castling: bool,
) -> Option<Move> {
    let mv = Move {
        previous_square: prev_square,
        current_square: cur_square,
        color: color,
        captured_piece: captured_piece,
        promotion: promotion,
        castling: castling,
    };
    if valid_move(mv) {
        Some(mv)
    } else {
        None
    }
}

/// Builds a move from its parts and keeps it only when it validates.
pub fn create(
    state: PieceState,
    prev_square: Square,
    cur_square: Square,
    color: Color,
    captured_piece: Option<PieceState>,
    promotion: Option<Piece>,
    castling: bool,
) -> (res: Option<Move>)
    ensures
        res == create_spec(prev_square, cur_square, color, captured_piece, promotion, castling),
{
    let mut state = state;
    state.has_moved = true;
    let mv = Move {
        previous_square: prev_square,
        current_square: cur_square,
        color: color,
        captured_piece: captured_piece,
        promotion: promotion,
        castling: castling,
    };
    if !mv.validate() {
        return None;
    }
    return Some(mv);
}

pub open spec fn opt_seq(o: Option<Move>) -> Seq<Move> {
    match o {
        Some(m) => seq![m],
        None => Seq::empty(),
    }
}

/// The mask as a predicate on 1-based squares: false off the board.
pub open spec fn mask_fn(mask: CheckMask) -> spec_fn(int, int) -> bool {
    |r: int, c: int| on_board(r, c) && mask.check_mask[r - 1][c - 1]
}

/// The square a piece in `st` lands on at (r, c).
pub open spec fn landing(st: PieceState, r: int, c: int) -> Square {
    Square { row: r as usize, column: c as usize, piece_state: Some(st) }
}

// ---------------------------------------------------------------------------
// Knights
// ---------------------------------------------------------------------------

/// The knight move along jump `k`, if there is one.
pub open spec fn knight_cand(st: PieceState, b: Board, mask: spec_fn(int, int) -> bool, k: int) -> Option<Move> {
    let r = st.location.0 as int;
    let c = st.location.1 as int;
    let tr = r + knight_dr(k);
    let tc = c + knight_dc(k);
    if !on_board(tr, tc) || !mask(tr, tc) {
        None
    } else {
        match access(b, r, c) {
            Some(prev) => match b.piece_at(tr, tc) {
                Some(cap) => if cap.color != st.color {
                    create_spec(prev, landing(st, tr, tc), st.color, Some(PieceState { dead: true, ..cap }), None, false)
                } else {
                    None
                },
                None => create_spec(prev, landing(st, tr, tc), st.color, None, None, false),
            },
            None => None,
        }
    }
}

/// The knight moves along the first `k` jumps, in order.
pub open spec fn knight_moves_upto(st: PieceState, b: Board, mask: spec_fn(int, int) -> bool, k: int) -> Seq<Move>
    decreases k,
{
    if k <= 0 {
        Seq::empty()
    } else {
        knight_moves_upto(st, b, mask, k - 1) + opt_seq(knight_cand(st, b, mask, k - 1))
    }
}

/// The moves of a knight: no moves unless `st` is a knight on the board.
pub open spec fn knight_moves(st: PieceState, b: Board, mask: spec_fn(int, int) -> bool) -> Seq<Move> {
    if st.piece != Piece::Knight || !on_board(st.location.0 as int, st.location.1 as int) {
        Seq::empty()
    } else {
        knight_moves_upto(st, b, mask, 8)
    }
}

fn knight_delta(k: usize) -> (d: (i32, i32))
    requires
        k < 8,
    ensures
        d.0 == knight_dr(k as int),
        d.1 == knight_dc(k as int),
{
    if k == 0 {
        (2, 1)
    } else if k == 1 {
        (2, -1)
    } else if k == 2 {
        (1, 2)
    } else if k == 3 {
        (1, -2)
    } else if k == 4 {
        (-2, 1)
    } else if k == 5 {
        (-2, -1)
    } else if k == 6 {
        (-1, 2)
    } else {
        (-1, -2)
    }
}

/// The knight's moves to free squares and enemy pieces that the mask allows.
pub fn get_knight_moves(state: PieceState, board: &Board, check_mask: &CheckMask) -> (moves: Vec<Move>)
    ensures
        moves@ == knight_moves(state, *board, mask_fn(*check_mask)),
{
    let mut moves: Vec<Move> = Vec::new();
    if state.piece != Piece::Knight {
        return moves;
    }
    let cur_row = state.location.0;
    let cur_col = state.location.1;
    if !in_bounds(cur_row, cur_col) {
        return moves;
    }
    let mut k: usize = 0;
    while k < 8
        invariant
            k <= 8,
            on_board(cur_row as int, cur_col as int),
            cur_row == state.location.0,
            cur_col == state.location.1,
            moves@ == knight_moves_upto(state, *board, mask_fn(*check_mask), k as int),
        decreases 8 - k,
    {
        let (row, col) = knight_delta(k);
        let tr: i32 = cur_row as i32 + row;
        let tc: i32 = cur_col as i32 + col;
        if 1 <= tr && tr <= 8 && 1 <= tc && tc <= 8 && check_mask.check_mask[(tr - 1) as usize][(tc
            - 1) as usize] {
            let target_row = tr as usize;
            let target_col = tc as usize;
            if let (Some(previous_square), Some(target_square)) = (
                access_board(board, cur_row, cur_col),
                access_board(board, target_row, target_col),
            ) {
                let landed = Square { row: target_row, column: target_col, piece_state: Some(state) };
                match target_square.piece_state {
                    Some(captured) => {
                        if captured.color != state.color {
                            let mut captured = captured;
                            captured.dead = true;
                            if let Some(mv) = create(state, previous_square, landed, state.color, Some(captured), None, false) {
                                moves.push(mv);
                            }
                        }
                    },
                    None => {
                        if let Some(mv) = create(state, previous_square, landed, state.color, None, None, false) {
                            moves.push(mv);
                        }
                    },
                }
            }
        }
        k += 1;
    }
    moves
}


// ---------------------------------------------------------------------------
// Sliding pieces
// ---------------------------------------------------------------------------

/// The moves of a slider from (tr, tc), its `off`-th step along (dr, dc): a free square the
/// mask refuses is passed over, an occupied one stops the slide; on a square the mask admits,
/// a free square is a move and the slide goes on, an enemy piece is a capture and the slide
/// stops, an own piece stops it.  At most 7 steps.
pub open spec fn slide(
    st: PieceState,
    b: Board,
    mask: spec_fn(int, int) -> bool,
    prev: Square,
    dr: int,
    dc: int,
    tr: int,
    tc: int,
    off: int,
) -> Seq<Move>
    decreases 8 - off,
{
    if off >= 8 || !on_board(tr, tc) {
        Seq::empty()
    } else if !mask(tr, tc) {
        if b.piece_at(tr, tc) is Some {
            Seq::empty()
        } else {
            slide(st, b, mask, prev, dr, dc, tr + dr, tc + dc, off + 1)
        }
    } else {
        match b.piece_at(tr, tc) {
            Some(cap) => if cap.color != st.color {
                opt_seq(create_spec(prev, landing(st, tr, tc), st.color, Some(cap), None, false))
            } else {
                Seq::empty()
            },
            None => opt_seq(create_spec(prev, landing(st, tr, tc), st.color, None, None, false))
                + slide(st, b, mask, prev, dr, dc, tr + dr, tc + dc, off + 1),
        }
    }
}

/// Direction `d` of a bishop (kind 0: the diagonals), a rook (kind 1: the straight
/// lines) or a queen (kind 2: the diagonals, then the straight lines).
pub open spec fn slider_dr(kind: int, d: int) -> int {
    if kind == 0 { diag_dr(d) } else if kind == 1 { line_dr(d) } else { king_dr(d) }
}

pub open spec fn slider_dc(kind: int, d: int) -> int {
    if kind == 0 { diag_dc(d) } else if kind == 1 { line_dc(d) } else { king_dc(d) }
}

/// The slides along the first `n` directions of `kind`, in order.
pub open spec fn slider_moves_upto(st: PieceState, b: Board, mask: spec_fn(int, int) -> bool, kind: int, n: int) -> Seq<Move>
    decreases n,
{
    if n <= 0 {
        Seq::empty()
    } else {
        let r = st.location.0 as int;
        let c = st.location.1 as int;
        let dr = slider_dr(kind, n - 1);
        let dc = slider_dc(kind, n - 1);
        slider_moves_upto(st, b, mask, kind, n - 1) + slide(st, b, mask, b.at(r, c), dr, dc, r + dr, c + dc, 1)
    }
}

pub open spec fn slider_piece(kind: int) -> Piece {
    if kind == 0 { Piece::Bishop } else if kind == 1 { Piece::Rook } else { Piece::Queen }
}

pub open spec fn slider_ndirs(kind: int) -> int {
    if kind == 2 { 8 } else { 4 }
}

/// The moves of a bishop, rook or queen (`kind` 0, 1, 2): none unless `st` is that piece on the board.
pub open spec fn slider_moves(st: PieceState, b: Board, mask: spec_fn(int, int) -> bool, kind: int) -> Seq<Move> {
    if st.piece != slider_piece(kind) || !on_board(st.location.0 as int, st.location.1 as int) {
        Seq::empty()
    } else {
        slider_moves_upto(st, b, mask, kind, slider_ndirs(kind))
    }
}

fn slider_delta(kind: usize, d: usize) -> (res: (i32, i32))
    requires
        kind < 3,
        d < slider_ndirs(kind as int),
    ensures
        res.0 == slider_dr(kind as int, d as int),
        res.1 == slider_dc(kind as int, d as int),
{
    let diag = kind == 0 || (kind == 2 && d < 4);
    let k = if kind == 2 && d >= 4 { d - 4 } else { d };
    if diag {
        if k == 0 {
            (1, 1)
        } else if k == 1 {
            (1, -1)
        } else if k == 2 {
            (-1, 1)
        } else {
            (-1, -1)
        }
    } else {
        if k == 0 {
            (1, 0)
        } else if k == 1 {
            (-1, 0)
        } else if k == 2 {
            (0, 1)
        } else {
            (0, -1)
        }
    }
}

/// Appends the moves of one slide.
fn push_slide(
    state: PieceState,
    board: &Board,
    check_mask: &CheckMask,
    previous_square: Square,
    dr: i32,
    dc: i32,
    moves: &mut Vec<Move>,
)
    requires
        on_board(state.location.0 as int, state.location.1 as int),
        -1 <= dr <= 1,
        -1 <= dc <= 1,
    ensures
        final(moves)@ == old(moves)@ + slide(
            state,
            *board,
            mask_fn(*check_mask),
            previous_square,
            dr as int,
            dc as int,
            state.location.0 + dr,
            state.location.1 + dc,
            1,
        ),
{
    let ghost target = old(moves)@ + slide(
        state,
        *board,
        mask_fn(*check_mask),
        previous_square,
        dr as int,
        dc as int,
        state.location.0 + dr,
        state.location.1 + dc,
        1,
    );
    let mut tr: i32 = state.location.0 as i32 + dr;
    let mut tc: i32 = state.location.1 as i32 + dc;
    let mut offset: usize = 1;
    loop
        invariant_except_break
            1 <= offset <= 8,
            -1 <= dr <= 1,
            -1 <= dc <= 1,
            0 <= tr <= 9,
            0 <= tc <= 9,
            moves@ + slide(
                state,
                *board,
                mask_fn(*check_mask),
                previous_square,
                dr as int,
                dc as int,
                tr as int,
                tc as int,
                offset as int,
            ) == target,
        ensures
            moves@ == target,
        decreases 8 - offset,
    {
        if offset >= 8 || !(1 <= tr && tr <= 8 && 1 <= tc && tc <= 8) {
            assert(moves@ + Seq::<Move>::empty() == moves@);
            break;
        }
        let target_row = tr as usize;
        let target_col = tc as usize;
        let landed = Square { row: target_row, column: target_col, piece_state: Some(state) };
        if check_mask.check_mask[target_row - 1][target_col - 1] {
            if let Some(captured) = board.board[target_row - 1][target_col - 1].piece_state {
                if captured.color != state.color {
                    if let Some(mv) = create(state, previous_square, landed, state.color, Some(captured), None, false) {
                        moves.push(mv);
                    }
                } else {
                    assert(moves@ + Seq::<Move>::empty() == moves@);
                }
                break;
            } else {
                let ghost before = moves@;
                if let Some(mv) = create(state, previous_square, landed, state.color, None, None, false) {
                    moves.push(mv);
                }
                assert(before + opt_seq(create_spec(previous_square, landed, state.color, None, None, false)) == moves@);
                assert(moves@ + slide(
                    state,
                    *board,
                    mask_fn(*check_mask),
                    previous_square,
                    dr as int,
                    dc as int,
                    tr + dr,
                    tc + dc,
                    offset + 1,
                ) == target);
            }
        } else if board.board[target_row - 1][target_col - 1].piece_state.is_some() {
            assert(moves@ + Seq::<Move>::empty() == moves@);
            break;
        }
        tr = tr + dr;
        tc = tc + dc;
        offset += 1;
    }
}

/// The moves of a bishop (`kind` 0), rook (1) or queen (2).
fn get_slider_moves(state: PieceState, board: &Board, check_mask: &CheckMask, kind: usize) -> (moves: Vec<Move>)
    requires
        kind < 3,
    ensures
        moves@ == slider_moves(state, *board, mask_fn(*check_mask), kind as int),
{
    let mut moves: Vec<Move> = Vec::new();
    let piece = if kind == 0 {
        Piece::Bishop
    } else if kind == 1 {
        Piece::Rook
    } else {
        Piece::Queen
    };
    if state.piece != piece {
        return moves;
    }
    let cur_row = state.location.0;
    let cur_col = state.location.1;
    if !in_bounds(cur_row, cur_col) {
        return moves;
    }
    let previous_square = board.board[cur_row - 1][cur_col - 1];
    let ndirs: usize = if kind == 2 { 8 } else { 4 };
    let mut d: usize = 0;
    while d < ndirs
        invariant
            kind < 3,
            ndirs == slider_ndirs(kind as int),
            d <= ndirs,
            on_board(cur_row as int, cur_col as int),
            cur_row == state.location.0,
            cur_col == state.location.1,
            previous_square == board.at(cur_row as int, cur_col as int),
            moves@ == slider_moves_upto(state, *board, mask_fn(*check_mask), kind as int, d as int),
        decreases ndirs - d,
    {
        let (dr, dc) = slider_delta(kind, d);
        push_slide(state, board, check_mask, previous_square, dr, dc, &mut moves);
        d += 1;
    }
    moves
}

/// The bishop's moves along the diagonals.
pub fn get_bishop_moves(state: PieceState, board: &Board, check_mask: &CheckMask) -> (moves: Vec<Move>)
    ensures
        moves@ == slider_moves(state, *board, mask_fn(*check_mask), 0),
{
    get_slider_moves(state, board, check_mask, 0)
}

/// The rook's moves along the rows and columns.
pub fn get_rook_moves(state: PieceState, board: &Board, check_mask: &CheckMask) -> (moves: Vec<Move>)
    ensures
        moves@ == slider_moves(state, *board, mask_fn(*check_mask), 1),
{
    get_slider_moves(state, board, check_mask, 1)
}

/// The queen's moves along the diagonals, then the rows and columns.
pub fn get_queen_moves(state: PieceState, board: &Board, check_mask: &CheckMask) -> (moves: Vec<Move>)
    ensures
        moves@ == slider_moves(state, *board, mask_fn(*check_mask), 2),
{
    get_slider_moves(state, board, check_mask, 2)
}


// ---------------------------------------------------------------------------
// Kings
// ---------------------------------------------------------------------------

/// The king step along direction `k`: to a square the mask allows, not attacked, and free
/// or held by an enemy piece.
pub open spec fn king_cand(st: PieceState, b: Board, mask: spec_fn(int, int) -> bool, k: int) -> Option<Move> {
    let r = st.location.0 as int;
    let c = st.location.1 as int;
    let tr = r + king_dr(k);
    let tc = c + king_dc(k);
    if !on_board(tr, tc) || !mask(tr, tc) {
        None
    } else {
        match access(b, r, c) {
            Some(prev) => {
                let t = b.at(tr, tc);
                if attacked(b, t.row as int, t.column as int, st.color) {
                    None
                } else {
                    match t.piece_state {
                        Some(cap) => if cap.color != st.color {
                            create_spec(prev, landing(st, tr, tc), st.color, Some(cap), None, false)
                        } else {
                            None
                        },
                        None => create_spec(prev, landing(st, tr, tc), st.color, None, None, false),
                    }
                }
            },
            None => None,
        }
    }
}

pub open spec fn king_steps_upto(st: PieceState, b: Board, mask: spec_fn(int, int) -> bool, k: int) -> Seq<Move>
    decreases k,
{
    if k <= 0 {
        Seq::empty()
    } else {
        king_steps_upto(st, b, mask, k - 1) + opt_seq(king_cand(st, b, mask, k - 1))
    }
}

/// Kingside castling is open: an unmoved own rook on column 8 of `row`, the king unmoved,
/// and columns 6 and 7 free.
pub open spec fn kingside_ok(king: PieceState, b: Board, row: int) -> bool {
    match b.board[row - 1][7].piece_state {
        Some(rook) => rook.piece == Piece::Rook && rook.color == king.color && !rook.has_moved
            && !king.has_moved && b.board[row - 1][5].piece_state is None && b.board[row
            - 1][6].piece_state is None,
        None => false,
    }
}

/// Queenside castling is open: an unmoved own rook on column 1 of `row`, the king unmoved,
/// and columns 2, 3 and 4 free.
pub open spec fn queenside_ok(king: PieceState, b: Board, row: int) -> bool {
    match b.board[row - 1][0].piece_state {
        Some(rook) => rook.piece == Piece::Rook && rook.color == king.color && !rook.has_moved
            && !king.has_moved && b.board[row - 1][1].piece_state is None && b.board[row
            - 1][2].piece_state is None && b.board[row - 1][3].piece_state is None,
        None => false,
    }
}

/// The castling moves of an unmoved king: to column 7 (crossing 6) or column 3 (crossing 4)
/// of its row, when neither those squares nor column 5 of the row is attacked and the side is open.
pub open spec fn castle_moves(st: PieceState, b: Board) -> Seq<Move> {
    let r = st.location.0 as int;
    let c = st.location.1 as int;
    if st.has_moved {
        Seq::empty()
    } else {
        match access(b, r, c) {
            Some(prev) => {
                let ks = if !attacked(b, r, 7, st.color) && !attacked(b, r, 6, st.color) && !attacked(
                    b,
                    r,
                    5,
                    st.color,
                ) && kingside_ok(st, b, r) {
                    opt_seq(create_spec(prev, landing(st, r, 7), st.color, None, None, true))
                } else {
                    Seq::empty()
                };
                let qs = if !attacked(b, r, 3, st.color) && !attacked(b, r, 4, st.color) && !attacked(
                    b,
                    r,
                    5,
                    st.color,
                ) && queenside_ok(st, b, r) {
                    opt_seq(create_spec(prev, landing(st, r, 3), st.color, None, None, true))
                } else {
                    Seq::empty()
                };
                ks + qs
            },
            None => Seq::empty(),
        }
    }
}

/// The moves of a king: its steps, then its castling moves; none unless `st` is a king on the board.
pub open spec fn king_moves(st: PieceState, b: Board, mask: spec_fn(int, int) -> bool) -> Seq<Move> {
    if st.piece != Piece::King || !on_board(st.location.0 as int, st.location.1 as int) {
        Seq::empty()
    } else {
        king_steps_upto(st, b, mask, 8) + castle_moves(st, b)
    }
}

fn king_delta(k: usize) -> (d: (i32, i32))
    requires
        k < 8,
    ensures
        d.0 == king_dr(k as int),
        d.1 == king_dc(k as int),
{
    if k == 0 {
        (1, 1)
    } else if k == 1 {
        (1, -1)
    } else if k == 2 {
        (-1, 1)
    } else if k == 3 {
        (-1, -1)
    } else if k == 4 {
        (1, 0)
    } else if k == 5 {
        (-1, 0)
    } else if k == 6 {
        (0, 1)
    } else {
        (0, -1)
    }
}

/// Whether the king may castle kingside on `row`.
fn is_kingside_castling_valid(king: PieceState, board: &Board, row: usize) -> (res: bool)
    requires
        1 <= row <= 8,
    ensures
        res == kingside_ok(king, *board, row as int),
{
    if let Some(rook) = board.board[row - 1][7].piece_state {
        if rook.piece == Piece::Rook && rook.color == king.color && !rook.has_moved && !king.has_moved {
            return board.board[row - 1][5].piece_state.is_none() && board.board[row - 1][6].piece_state.is_none();
        }
    }
    false
}

/// Whether the king may castle queenside on `row`.
fn is_queenside_castling_valid(king: PieceState, board: &Board, row: usize) -> (res: bool)
    requires
        1 <= row <= 8,
    ensures
        res == queenside_ok(king, *board, row as int),
{
    if let Some(rook) = board.board[row - 1][0].piece_state {
        if rook.piece == Piece::Rook && rook.color == king.color && !rook.has_moved && !king.has_moved {
            return board.board[row - 1][1].piece_state.is_none() && board.board[row - 1][2].piece_state.is_none()
                && board.board[row - 1][3].piece_state.is_none();
        }
    }
    false
}

/// The king's steps to safe squares the mask allows, then its castling moves.
pub fn get_king_moves(state: PieceState, board: &Board, check_mask: &CheckMask) -> (moves: Vec<Move>)
    requires
        board.coords_ok(),
    ensures
        moves@ == king_moves(state, *board, mask_fn(*check_mask)),
{
    let mut moves: Vec<Move> = Vec::new();
    if state.piece != Piece::King {
        return moves;
    }
    let cur_row = state.location.0;
    let cur_col = state.location.1;
    if !in_bounds(cur_row, cur_col) {
        return moves;
    }
    let mut k: usize = 0;
    while k < 8
        invariant
            k <= 8,
            board.coords_ok(),
            on_board(cur_row as int, cur_col as int),
            cur_row == state.location.0,
            cur_col == state.location.1,
            moves@ == king_steps_upto(state, *board, mask_fn(*check_mask), k as int),
        decreases 8 - k,
    {
        let (row_offset, col_offset) = king_delta(k);
        let tr: i32 = cur_row as i32 + row_offset;
        let tc: i32 = cur_col as i32 + col_offset;
        if 1 <= tr && tr <= 8 && 1 <= tc && tc <= 8 && check_mask.check_mask[(tr - 1) as usize][(tc
            - 1) as usize] {
            let target_row = tr as usize;
            let target_col = tc as usize;
            if let (Some(previous_square), Some(target_square)) = (
                access_board(board, cur_row, cur_col),
                access_board(board, target_row, target_col),
            ) {
                if !square_is_attacked(target_square, state.color, board) {
                    let landed = Square { row: target_row, column: target_col, piece_state: Some(state) };
                    if let Some(captured) = target_square.piece_state {
                        if captured.color != state.color {
                            if let Some(mv) = create(state, previous_square, landed, state.color, Some(captured), None, false) {
                                moves.push(mv);
                            }
                        }
                    } else {
                        if let Some(mv) = create(state, previous_square, landed, state.color, None, None, false) {
                            moves.push(mv);
                        }
                    }
                }
            }
        }
        k += 1;
    }
    let ghost steps = moves@;
    if !state.has_moved {
        if let Some(previous_square) = access_board(board, cur_row, cur_col) {
            let mut target_king_square = Square { row: cur_row, column: 7, piece_state: Some(state) };
            let king_square = Square { row: cur_row, column: 5, piece_state: Some(state) };
            let king_side_transit_square = Square { row: cur_row, column: 6, piece_state: Some(state) };
            if !square_is_attacked(target_king_square, state.color, board) && !square_is_attacked(
                king_side_transit_square,
                state.color,
                board,
            ) && !square_is_attacked(king_square, state.color, board) {
                if is_kingside_castling_valid(state, board, cur_row) {
                    if let Some(mv) = create(state, previous_square, target_king_square, state.color, None, None, true) {
                        moves.push(mv);
                    }
                }
            }
            let ghost after_ks = moves@;
            target_king_square = Square { row: cur_row, column: 3, piece_state: Some(state) };
            let queen_side_transit_square = Square { row: cur_row, column: 4, piece_state: Some(state) };
            if !square_is_attacked(target_king_square, state.color, board) && !square_is_attacked(
                queen_side_transit_square,
                state.color,
                board,
            ) && !square_is_attacked(king_square, state.color, board) {
                if is_queenside_castling_valid(state, board, cur_row) {
                    if let Some(mv) = create(state, previous_square, target_king_square, state.color, None, None, true) {
                        moves.push(mv);
                    }
                }
            }
            assert(moves@ == steps + castle_moves(state, *board));
        }
    } else {
        assert(moves@ == steps + Seq::<Move>::empty());
    }
    moves
}


// ---------------------------------------------------------------------------
// Pawns
// ---------------------------------------------------------------------------

/// The row on which a pawn of `color` promotes.
pub open spec fn promotion_row(color: Color) -> int {
    match color {
        Color::White => 8,
        Color::Black => 1,
    }
}

/// The moves of a pawn in `st` leaving `prev` for (tr, tc), capturing `cap` (marked dead):
/// none when the move does not validate, four (queen, rook, bishop, knight) on the
/// promotion row, else one.
pub open spec fn pawn_adds(st: PieceState, prev: Square, tr: int, tc: int, cap: Option<PieceState>) -> Seq<Move> {
    let st2 = PieceState { has_moved: true, location: (tr as usize, tc as usize), ..st };
    let cap2 = match cap {
        Some(p) => Some(PieceState { dead: true, ..p }),
        None => None,
    };
    match create_spec(prev, landing(st2, tr, tc), st2.color, cap2, None, false) {
        Some(mv) => if tr == promotion_row(st.color) {
            seq![
                Move { promotion: Some(Piece::Queen), ..mv },
                Move { promotion: Some(Piece::Rook), ..mv },
                Move { promotion: Some(Piece::Bishop), ..mv },
                Move { promotion: Some(Piece::Knight), ..mv },
            ]
        } else {
            seq![mv]
        },
        None => Seq::empty(),
    }
}

fn add_pawn_move(
    moves: &mut Vec<Move>,
    state: PieceState,
    prev_square: Square,
    target_row: usize,
    target_col: usize,
    captured: Option<PieceState>,
)
    ensures
        final(moves)@ == old(moves)@ + pawn_adds(state, prev_square, target_row as int, target_col as int, captured),
        final(moves)@.subrange(0, old(moves)@.len() as int) == old(moves)@,
        pawn_move_sound(state, prev_square, target_row as int, target_col as int, captured) ==> pawn_added(
            state,
            prev_square,
            target_row as int,
            target_col as int,
            captured,
            final(moves)@.subrange(old(moves)@.len() as int, final(moves)@.len() as int),
        ),
{
    let ghost (st0, cap0) = (state, captured);
    let mut state = state;
    let mut captured = captured;
    state.has_moved = true;
    state.location = (target_row, target_col);
    if let Some(cap) = captured {
        let mut cap = cap;
        cap.dead = true;
        captured = Some(cap);
    }
    let ghost before = moves@;
    if let Some(mv) = create(
        state,
        prev_square,
        Square { row: target_row, column: target_col, piece_state: Some(state) },
        state.color,
        captured,
        None,
        false,
    ) {
        let mut final_move = mv;
        let promotes = match state.color {
            Color::White => target_row == 8,
            Color::Black => target_row == 1,
        };
        if promotes {
            final_move.promotion = Some(Piece::Queen);
            moves.push(final_move);
            final_move.promotion = Some(Piece::Rook);
            moves.push(final_move);
            final_move.promotion = Some(Piece::Bishop);
            moves.push(final_move);
            final_move.promotion = Some(Piece::Knight);
            moves.push(final_move);
        } else {
            moves.push(final_move);
        }
    } else {
        assert(moves@ == before + Seq::<Move>::empty());
    }
    proof {
        let added = pawn_adds(st0, prev_square, target_row as int, target_col as int, cap0);
        assert(moves@.subrange(0, before.len() as int) =~= before);
        assert(moves@.subrange(before.len() as int, moves@.len() as int) =~= added);
        if pawn_move_sound(st0, prev_square, target_row as int, target_col as int, cap0) {
            lemma_pawn_adds(st0, prev_square, target_row as int, target_col as int, cap0);
        }
    }
}

/// The double step from the start row `start` in direction `d`, through a free square to a free square.
pub open spec fn pawn_double(st: PieceState, b: Board, mask: spec_fn(int, int) -> bool, d: int, start: int) -> Seq<Move> {
    let r = st.location.0 as int;
    let c = st.location.1 as int;
    if r == start {
        match (access(b, r, c), access(b, r + d, c), access(b, r + 2 * d, c)) {
            (Some(sq), Some(mid), Some(t)) => if mask(t.row as int, t.column as int)
                && mid.piece_state is None && t.piece_state is None {
                pawn_adds(st, sq, r + 2 * d, c, None)
            } else {
                Seq::empty()
            },
            _ => Seq::empty(),
        }
    } else {
        Seq::empty()
    }
}

/// The single step in direction `d` to a free square.
pub open spec fn pawn_single(st: PieceState, b: Board, mask: spec_fn(int, int) -> bool, d: int) -> Seq<Move> {
    let r = st.location.0 as int;
    let c = st.location.1 as int;
    match (access(b, r, c), access(b, r + d, c)) {
        (Some(sq), Some(t)) => if mask(t.row as int, t.column as int) && t.piece_state is None {
            pawn_adds(st, sq, r + d, c, None)
        } else {
            Seq::empty()
        },
        _ => Seq::empty(),
    }
}

/// The capture toward column offset `dc` in direction `d`: of the piece on the target
/// square, or else, en passant, of the piece beside the pawn when `ep` names that square.
/// Also tells whether the en passant capture was the one taken.
pub open spec fn pawn_capture(st: PieceState, b: Board, mask: spec_fn(int, int) -> bool, ep: Option<Square>, d: int, dc: int) -> (
    Seq<Move>,
    bool,
) {
    let r = st.location.0 as int;
    let c = st.location.1 as int;
    match (access(b, r, c), access(b, r + d, c + dc)) {
        (Some(sq), Some(t)) => if !mask(t.row as int, t.column as int) {
            (Seq::empty(), false)
        } else {
            match t.piece_state {
                Some(tp) => (pawn_adds(st, sq, r + d, c + dc, Some(tp)), false),
                None => match (ep, access(b, r, c + dc)) {
                    (Some(es), Some(ss)) => match ss.piece_state {
                        Some(tp) => if es.row == ss.row && es.column == ss.column {
                            (pawn_adds(st, sq, r + d, c + dc, Some(tp)), true)
                        } else {
                            (Seq::empty(), false)
                        },
                        None => (Seq::empty(), false),
                    },
                    _ => (Seq::empty(), false),
                },
            }
        },
        _ => (Seq::empty(), false),
    }
}

/// The moves of a pawn going up the board: double step from row 2, single step, then the
/// captures to the left and to the right; en passant against Black's recorded square, which
/// a left en passant capture uses up.
pub open spec fn white_pawn_moves(st: PieceState, b: Board, bs: BoardState, mask: spec_fn(int, int) -> bool) -> Seq<Move> {
    if !on_board(st.location.0 as int, st.location.1 as int) {
        Seq::empty()
    } else {
        let ep = bs.black_state.en_passant;
        let left = pawn_capture(st, b, mask, ep, 1, -1);
        let ep2 = if left.1 { None } else { ep };
        let right = pawn_capture(st, b, mask, ep2, 1, 1);
        pawn_double(st, b, mask, 1, 2) + pawn_single(st, b, mask, 1) + left.0 + right.0
    }
}

/// The moves of a pawn going down the board: double step from row 7, single step, then the
/// captures to the left and to the right; en passant against White's recorded square.
pub open spec fn black_pawn_moves(st: PieceState, b: Board, bs: BoardState, mask: spec_fn(int, int) -> bool) -> Seq<Move> {
    if !on_board(st.location.0 as int, st.location.1 as int) {
        Seq::empty()
    } else {
        let ep = bs.white_state.en_passant;
        pawn_double(st, b, mask, -1, 7) + pawn_single(st, b, mask, -1) + pawn_capture(
            st,
            b,
            mask,
            ep,
            -1,
            -1,
        ).0 + pawn_capture(st, b, mask, ep, -1, 1).0
    }
}

fn push_pawn_double(
    state: PieceState,
    board: &Board,
    check_mask: &CheckMask,
    d: i32,
    start: usize,
    moves: &mut Vec<Move>,
)
    requires
        board.coords_ok(),
        on_board(state.location.0 as int, state.location.1 as int),
        d == 1 || d == -1,
    ensures
        final(moves)@ == old(moves)@ + pawn_double(state, *board, mask_fn(*check_mask), d as int, start as int),
{
    let cur_row = state.location.0;
    let cur_col = state.location.1;
    if cur_row == start {
        let mid_row = (cur_row as i32 + d) as usize;
        let far_i = cur_row as i32 + 2 * d;
        if 1 <= far_i && far_i <= 8 {
            let far_row = far_i as usize;
            if let (Some(square), Some(inbetween_square), Some(target_square)) = (
                access_board(board, cur_row, cur_col),
                access_board(board, mid_row, cur_col),
                access_board(board, far_row, cur_col),
            ) {
                if check_mask.check_mask[target_square.row - 1][target_square.column - 1] {
                    if inbetween_square.piece_state.is_none() && target_square.piece_state.is_none() {
                        add_pawn_move(moves, state, square, far_row, cur_col, None);
                        return;
                    }
                }
            }
        }
    }
    assert(moves@ == old(moves)@ + Seq::<Move>::empty());
}

fn push_pawn_single(state: PieceState, board: &Board, check_mask: &CheckMask, d: i32, moves: &mut Vec<Move>)
    requires
        board.coords_ok(),
        on_board(state.location.0 as int, state.location.1 as int),
        d == 1 || d == -1,
    ensures
        final(moves)@ == old(moves)@ + pawn_single(state, *board, mask_fn(*check_mask), d as int),
{
    let cur_row = state.location.0;
    let cur_col = state.location.1;
    let next_i = cur_row as i32 + d;
    if 1 <= next_i && next_i <= 8 {
        let next_row = next_i as usize;
        if let (Some(square), Some(target_square)) = (
            access_board(board, cur_row, cur_col),
            access_board(board, next_row, cur_col),
        ) {
            if check_mask.check_mask[target_square.row - 1][target_square.column - 1] {
                if target_square.piece_state.is_none() {
                    add_pawn_move(moves, state, square, next_row, cur_col, None);
                    return;
                }
            }
        }
    }
    assert(moves@ == old(moves)@ + Seq::<Move>::empty());
}

fn push_pawn_capture(
    state: PieceState,
    board: &Board,
    check_mask: &CheckMask,
    ep: Option<Square>,
    d: i32,
    dc: i32,
    moves: &mut Vec<Move>,
) -> (took_en_passant: bool)
    requires
        board.coords_ok(),
        on_board(state.location.0 as int, state.location.1 as int),
        d == 1 || d == -1,
        dc == 1 || dc == -1,
    ensures
        final(moves)@ == old(moves)@ + pawn_capture(state, *board, mask_fn(*check_mask), ep, d as int, dc as int).0,
        took_en_passant == pawn_capture(state, *board, mask_fn(*check_mask), ep, d as int, dc as int).1,
{
    let cur_row = state.location.0;
    let cur_col = state.location.1;
    let tr_i = cur_row as i32 + d;
    let tc_i = cur_col as i32 + dc;
    if 1 <= tr_i && tr_i <= 8 && 1 <= tc_i && tc_i <= 8 {
        let target_row = tr_i as usize;
        let target_col = tc_i as usize;
        if let (Some(square), Some(target_square)) = (
            access_board(board, cur_row, cur_col),
            access_board(board, target_row, target_col),
        ) {
            if check_mask.check_mask[target_square.row - 1][target_square.column - 1] {
                if let Some(target_piece) = target_square.piece_state {
                    add_pawn_move(moves, state, square, target_row, target_col, Some(target_piece));
                    return false;
                } else {
                    if let (Some(enemy_square), Some(special_square)) = (ep, access_board(board, cur_row, target_col)) {
                        if let Some(target_piece) = special_square.piece_state {
                            if enemy_square.row == special_square.row && enemy_square.column
                                == special_square.column {
                                add_pawn_move(moves, state, square, target_row, target_col, Some(target_piece));
                                return true;
                            }
                        }
                    }
                }
            }
        }
    }
    assert(moves@ == old(moves)@ + Seq::<Move>::empty());
    false
}

/// The moves of a pawn going up the board (see `white_pawn_moves`).
pub fn get_white_pawn_moves(
    state: PieceState,
    board: &Board,
    board_state: BoardState,
    check_mask: &CheckMask,
) -> (moves: Vec<Move>)
    requires
        board.coords_ok(),
        state.location.0 < usize::MAX,
    ensures
        moves@ == white_pawn_moves(state, *board, board_state, mask_fn(*check_mask)),
{
    let mut moves: Vec<Move> = Vec::new();
    if !in_bounds(state.location.0, state.location.1) {
        return moves;
    }
    push_pawn_double(state, board, check_mask, 1, 2, &mut moves);
    push_pawn_single(state, board, check_mask, 1, &mut moves);
    let ep = board_state.black_state.en_passant;
    let took = push_pawn_capture(state, board, check_mask, ep, 1, -1, &mut moves);
    let ep2 = if took { None } else { ep };
    push_pawn_capture(state, board, check_mask, ep2, 1, 1, &mut moves);
    moves
}

/// The moves of a pawn going down the board (see `black_pawn_moves`).
pub fn get_black_pawn_moves(
    state: PieceState,
    board: &Board,
    board_state: BoardState,
    check_mask: &CheckMask,
) -> (moves: Vec<Move>)
    requires
        board.coords_ok(),
        state.location.0 >= 1,
    ensures
        moves@ == black_pawn_moves(state, *board, board_state, mask_fn(*check_mask)),
{
    let mut moves: Vec<Move> = Vec::new();
    if !in_bounds(state.location.0, state.location.1) {
        return moves;
    }
    push_pawn_double(state, board, check_mask, -1, 7, &mut moves);
    push_pawn_single(state, board, check_mask, -1, &mut moves);
    let ep = board_state.white_state.en_passant;
    push_pawn_capture(state, board, check_mask, ep, -1, -1, &mut moves);
    push_pawn_capture(state, board, check_mask, ep, -1, 1, &mut moves);
    moves
}

/// The moves of a pawn, by its colour; none for a piece that is not a pawn.
pub open spec fn pawn_moves(st: PieceState, b: Board, bs: BoardState, mask: spec_fn(int, int) -> bool) -> Seq<Move> {
    if st.piece != Piece::Pawn {
        Seq::empty()
    } else {
        match st.color {
            Color::White => white_pawn_moves(st, b, bs, mask),
            Color::Black => black_pawn_moves(st, b, bs, mask),
        }
    }
}

/// The requirement of the pawn move generators on the pawn's row.
pub open spec fn pawn_row_ok(st: PieceState) -> bool {
    match st.color {
        Color::White => st.location.0 < usize::MAX,
        Color::Black => st.location.0 >= 1,
    }
}

/// The moves of a pawn of either colour.
pub fn get_pawn_moves(
    state: PieceState,
    board: &Board,
    board_state: BoardState,
    check_mask: &CheckMask,
) -> (moves: Vec<Move>)
    requires
        board.coords_ok(),
        state.piece == Piece::Pawn ==> pawn_row_ok(state),
    ensures
        moves@ == pawn_moves(state, *board, board_state, mask_fn(*check_mask)),
{
    if state.piece != Piece::Pawn {
        return Vec::new();
    }
    match state.color {
        Color::White => get_white_pawn_moves(state, board, board_state, check_mask),
        Color::Black => get_black_pawn_moves(state, board, board_state, check_mask),
    }
}


// ---------------------------------------------------------------------------
// Every generated move is sound
// ---------------------------------------------------------------------------

/// A move validates, and any piece it captures records a location on the board.
pub open spec fn move_sound(mv: Move) -> bool {
    &&& valid_move(mv)
    &&& (mv.captured_piece matches Some(cap) ==> on_board(cap.location.0 as int, cap.location.1 as int))
}

pub open spec fn all_sound(s: Seq<Move>) -> bool {
    forall|i: int| 0 <= i < s.len() ==> move_sound(#[trigger] s[i])
}

pub proof fn lemma_all_sound_concat(a: Seq<Move>, b: Seq<Move>)
    requires
        all_sound(a),
        all_sound(b),
    ensures
        all_sound(a + b),
{
    assert forall|i: int| 0 <= i < (a + b).len() implies move_sound(#[trigger] (a + b)[i]) by {
        if i < a.len() {
            assert((a + b)[i] == a[i]);
        } else {
            assert((a + b)[i] == b[i - a.len()]);
        }
    }
}

/// A piece found on a well-formed board records a location on the board.
proof fn lemma_piece_on_board(b: Board, r: int, c: int)
    requires
        b.wf(),
        on_board(r, c),
    ensures
        b.piece_at(r, c) matches Some(p) ==> on_board(p.location.0 as int, p.location.1 as int),
{
    assert(b.board[r - 1][c - 1] == b.at(r, c));
}

proof fn lemma_knight_sound(st: PieceState, b: Board, mask: spec_fn(int, int) -> bool, k: int)
    requires
        b.wf(),
    ensures
        all_sound(knight_moves_upto(st, b, mask, k)),
    decreases k,
{
    if k > 0 {
        lemma_knight_sound(st, b, mask, k - 1);
        let r = st.location.0 as int;
        let c = st.location.1 as int;
        let tr = r + knight_dr(k - 1);
        let tc = c + knight_dc(k - 1);
        if on_board(tr, tc) {
            lemma_piece_on_board(b, tr, tc);
        }
        assert(all_sound(opt_seq(knight_cand(st, b, mask, k - 1))));
        lemma_all_sound_concat(knight_moves_upto(st, b, mask, k - 1), opt_seq(knight_cand(st, b, mask, k - 1)));
    }
}

proof fn lemma_slide_sound(
    st: PieceState,
    b: Board,
    mask: spec_fn(int, int) -> bool,
    prev: Square,
    dr: int,
    dc: int,
    tr: int,
    tc: int,
    off: int,
)
    requires
        b.wf(),
    ensures
        all_sound(slide(st, b, mask, prev, dr, dc, tr, tc, off)),
    decreases 8 - off,
{
    if !(off >= 8 || !on_board(tr, tc)) {
        lemma_piece_on_board(b, tr, tc);
        lemma_slide_sound(st, b, mask, prev, dr, dc, tr + dr, tc + dc, off + 1);
        if mask(tr, tc) && b.piece_at(tr, tc) is None {
            lemma_all_sound_concat(
                opt_seq(create_spec(prev, landing(st, tr, tc), st.color, None, None, false)),
                slide(st, b, mask, prev, dr, dc, tr + dr, tc + dc, off + 1),
            );
        }
    }
}

proof fn lemma_slider_sound(st: PieceState, b: Board, mask: spec_fn(int, int) -> bool, kind: int, n: int)
    requires
        b.wf(),
    ensures
        all_sound(slider_moves_upto(st, b, mask, kind, n)),
    decreases n,
{
    if n > 0 {
        let r = st.location.0 as int;
        let c = st.location.1 as int;
        let dr = slider_dr(kind, n - 1);
        let dc = slider_dc(kind, n - 1);
        lemma_slider_sound(st, b, mask, kind, n - 1);
        lemma_slide_sound(st, b, mask, b.at(r, c), dr, dc, r + dr, c + dc, 1);
        lemma_all_sound_concat(
            slider_moves_upto(st, b, mask, kind, n - 1),
            slide(st, b, mask, b.at(r, c), dr, dc, r + dr, c + dc, 1),
        );
    }
}

proof fn lemma_king_steps_sound(st: PieceState, b: Board, mask: spec_fn(int, int) -> bool, k: int)
    requires
        b.wf(),
    ensures
        all_sound(king_steps_upto(st, b, mask, k)),
    decreases k,
{
    if k > 0 {
        lemma_king_steps_sound(st, b, mask, k - 1);
        let r = st.location.0 as int;
        let c = st.location.1 as int;
        let tr = r + king_dr(k - 1);
        let tc = c + king_dc(k - 1);
        if on_board(tr, tc) {
            lemma_piece_on_board(b, tr, tc);
        }
        assert(all_sound(opt_seq(king_cand(st, b, mask, k - 1))));
        lemma_all_sound_concat(king_steps_upto(st, b, mask, k - 1), opt_seq(king_cand(st, b, mask, k - 1)));
    }
}

proof fn lemma_pawn_capture_sound(st: PieceState, b: Board, mask: spec_fn(int, int) -> bool, ep: Option<Square>, d: int, dc: int)
    requires
        b.wf(),
    ensures
        all_sound(pawn_capture(st, b, mask, ep, d, dc).0),
{
    let r = st.location.0 as int;
    let c = st.location.1 as int;
    if on_board(r + d, c + dc) {
        lemma_piece_on_board(b, r + d, c + dc);
    }
    if on_board(r, c + dc) {
        lemma_piece_on_board(b, r, c + dc);
    }
}

proof fn lemma_pawn_sound(st: PieceState, b: Board, bs: BoardState, mask: spec_fn(int, int) -> bool)
    requires
        b.wf(),
    ensures
        all_sound(white_pawn_moves(st, b, bs, mask)),
        all_sound(black_pawn_moves(st, b, bs, mask)),
{
    let r = st.location.0 as int;
    let c = st.location.1 as int;
    if on_board(r, c) {
        let ep_b = bs.black_state.en_passant;
        let left = pawn_capture(st, b, mask, ep_b, 1, -1);
        let ep2 = if left.1 { None } else { ep_b };
        let right = pawn_capture(st, b, mask, ep2, 1, 1);
        lemma_pawn_capture_sound(st, b, mask, ep_b, 1, -1);
        lemma_pawn_capture_sound(st, b, mask, ep2, 1, 1);
        let w0 = pawn_double(st, b, mask, 1, 2);
        let w1 = pawn_single(st, b, mask, 1);
        assert(all_sound(w0));
        assert(all_sound(w1));
        lemma_all_sound_concat(w0, w1);
        lemma_all_sound_concat(w0 + w1, left.0);
        lemma_all_sound_concat(w0 + w1 + left.0, right.0);
        let ep_w = bs.white_state.en_passant;
        lemma_pawn_capture_sound(st, b, mask, ep_w, -1, -1);
        lemma_pawn_capture_sound(st, b, mask, ep_w, -1, 1);
        let b0 = pawn_double(st, b, mask, -1, 7);
        let b1 = pawn_single(st, b, mask, -1);
        assert(all_sound(b0));
        assert(all_sound(b1));
        let l2 = pawn_capture(st, b, mask, ep_w, -1, -1).0;
        let r2 = pawn_capture(st, b, mask, ep_w, -1, 1).0;
        lemma_all_sound_concat(b0, b1);
        lemma_all_sound_concat(b0 + b1, l2);
        lemma_all_sound_concat(b0 + b1 + l2, r2);
    }
}

/// Every move the generators give for a piece of a well-formed board validates, and any
/// piece it captures records a location on the board.
pub proof fn lemma_generators_sound(st: PieceState, b: Board, bs: BoardState, mask: spec_fn(int, int) -> bool)
    requires
        b.wf(),
    ensures
        all_sound(knight_moves(st, b, mask)),
        all_sound(slider_moves(st, b, mask, 0)),
        all_sound(slider_moves(st, b, mask, 1)),
        all_sound(slider_moves(st, b, mask, 2)),
        all_sound(king_moves(st, b, mask)),
        all_sound(white_pawn_moves(st, b, bs, mask)),
        all_sound(black_pawn_moves(st, b, bs, mask)),
{
    lemma_knight_sound(st, b, mask, 8);
    lemma_slider_sound(st, b, mask, 0, 4);
    lemma_slider_sound(st, b, mask, 1, 4);
    lemma_slider_sound(st, b, mask, 2, 8);
    lemma_king_steps_sound(st, b, mask, 8);
    lemma_all_sound_concat(king_steps_upto(st, b, mask, 8), castle_moves(st, b));
    lemma_pawn_sound(st, b, bs, mask);
}

/// A pawn move from `prev` to (tr, tc) that validates: `prev` is on the board and holds a
/// piece of the pawn's colour, the target is another square on the board, and what is
/// captured, if anything, is of the other colour.
pub open spec fn pawn_move_sound(st: PieceState, prev: Square, tr: int, tc: int, cap: Option<PieceState>) -> bool {
    &&& on_board(prev.row as int, prev.column as int)
    &&& (prev.piece_state matches Some(p) && p.color == st.color)
    &&& on_board(tr, tc)
    &&& !(tr == prev.row && tc == prev.column)
    &&& (cap matches Some(c) ==> c.color != st.color)
}

/// `added` are the moves of a pawn in `st` from `prev` to (tr, tc) capturing `cap`: four on
/// the promotion row, promoting to a queen, rook, bishop and knight in that order, and one
/// elsewhere, with no promotion.  Each goes from `prev` to the target square, which holds the
/// pawn marked as moved there, captures the captured piece marked dead, is the pawn's side's
/// and is no castling.
pub open spec fn pawn_added(st: PieceState, prev: Square, tr: int, tc: int, cap: Option<PieceState>, added: Seq<Move>) -> bool {
    &&& added.len() == (if tr == promotion_row(st.color) { 4int } else { 1int })
    &&& forall|i: int|
        0 <= i < added.len() ==> {
            let mv = #[trigger] added[i];
            &&& mv.color == st.color
            &&& mv.previous_square == prev
            &&& mv.current_square == (Square {
                row: tr as usize,
                column: tc as usize,
                piece_state: Some(PieceState { has_moved: true, location: (tr as usize, tc as usize), ..st }),
            })
            &&& mv.captured_piece == (match cap {
                Some(p) => Some(PieceState { dead: true, ..p }),
                None => None,
            })
            &&& !mv.castling
        }
    &&& tr != promotion_row(st.color) ==> added[0].promotion is None
    &&& tr == promotion_row(st.color) ==> {
        &&& added[0].promotion == Some(Piece::Queen)
        &&& added[1].promotion == Some(Piece::Rook)
        &&& added[2].promotion == Some(Piece::Bishop)
        &&& added[3].promotion == Some(Piece::Knight)
    }
}

/// A pawn move that validates adds exactly the moves `pawn_added` describes.
pub proof fn lemma_pawn_adds(st: PieceState, prev: Square, tr: int, tc: int, cap: Option<PieceState>)
    requires
        pawn_move_sound(st, prev, tr, tc, cap),
    ensures
        pawn_added(st, prev, tr, tc, cap, pawn_adds(st, prev, tr, tc, cap)),
{
    let st2 = PieceState { has_moved: true, location: (tr as usize, tc as usize), ..st };
    let cap2 = match cap {
        Some(p) => Some(PieceState { dead: true, ..p }),
        None => None,
    };
    let mv = Move {
        previous_square: prev,
        current_square: landing(st2, tr, tc),
        color: st2.color,
        captured_piece: cap2,
        promotion: None,
        castling: false,
    };
    assert(prev != landing(st2, tr, tc));
    assert(valid_move(mv));
}

/// Where a move goes, and whether it captures.
pub open spec fn target_of(mv: Move) -> (int, int, bool) {
    (mv.current_square.row as int, mv.current_square.column as int, mv.captured_piece is Some)
}

/// Where each move goes, and whether it captures.
pub open spec fn targets(s: Seq<Move>) -> Seq<(int, int, bool)> {
    s.map_values(|mv: Move| target_of(mv))
}

/// (tr, tc) lies beyond (pr, pc) in the direction (dr, dc).
pub open spec fn ahead(pr: int, pc: int, tr: int, tc: int, dr: int, dc: int) -> bool {
    (dr > 0 && tr > pr) || (dr < 0 && tr < pr) || (dc > 0 && tc > pc) || (dc < 0 && tc < pc)
}

proof fn lemma_targets_concat(a: Seq<Move>, b: Seq<Move>)
    ensures
        targets(a + b) == targets(a) + targets(b),
{
    assert(targets(a + b) =~= targets(a) + targets(b));
}

proof fn lemma_slide_targets(
    st1: PieceState,
    st2: PieceState,
    b: Board,
    mask: spec_fn(int, int) -> bool,
    prev: Square,
    dr: int,
    dc: int,
    tr: int,
    tc: int,
    off: int,
)
    requires
        st1.color == st2.color,
        -1 <= dr <= 1,
        -1 <= dc <= 1,
        ahead(prev.row as int, prev.column as int, tr, tc, dr, dc),
    ensures
        targets(slide(st1, b, mask, prev, dr, dc, tr, tc, off)) == targets(slide(st2, b, mask, prev, dr, dc, tr, tc, off)),
    decreases 8 - off,
{
    if !(off >= 8 || !on_board(tr, tc)) {
        lemma_slide_targets(st1, st2, b, mask, prev, dr, dc, tr + dr, tc + dc, off + 1);
        assert(prev != landing(st1, tr, tc));
        assert(prev != landing(st2, tr, tc));
        let rest1 = slide(st1, b, mask, prev, dr, dc, tr + dr, tc + dc, off + 1);
        let rest2 = slide(st2, b, mask, prev, dr, dc, tr + dr, tc + dc, off + 1);
        match b.piece_at(tr, tc) {
            Some(cap) => {
                assert(targets(opt_seq(create_spec(prev, landing(st1, tr, tc), st1.color, Some(cap), None, false)))
                    =~= targets(opt_seq(create_spec(prev, landing(st2, tr, tc), st2.color, Some(cap), None, false))));
            },
            None => {
                let h1 = opt_seq(create_spec(prev, landing(st1, tr, tc), st1.color, None, None, false));
                let h2 = opt_seq(create_spec(prev, landing(st2, tr, tc), st2.color, None, None, false));
                assert(targets(h1) =~= targets(h2));
                lemma_targets_concat(h1, rest1);
                lemma_targets_concat(h2, rest2);
            },
        }
    }
}

proof fn lemma_queen_upto(q: PieceState, b: Board, mask: spec_fn(int, int) -> bool, n: int)
    requires
        b.coords_ok(),
        on_board(q.location.0 as int, q.location.1 as int),
        0 <= n <= 8,
    ensures
        n <= 4 ==> targets(slider_moves_upto(q, b, mask, 2, n)) == targets(
            slider_moves_upto(PieceState { piece: Piece::Bishop, ..q }, b, mask, 0, n),
        ),
        n >= 4 ==> targets(slider_moves_upto(q, b, mask, 2, n)) == targets(
            slider_moves_upto(PieceState { piece: Piece::Bishop, ..q }, b, mask, 0, 4),
        ) + targets(slider_moves_upto(PieceState { piece: Piece::Rook, ..q }, b, mask, 1, n - 4)),
    decreases n,
{
    let bq = PieceState { piece: Piece::Bishop, ..q };
    let rq = PieceState { piece: Piece::Rook, ..q };
    let r = q.location.0 as int;
    let c = q.location.1 as int;
    let prev = b.at(r, c);
    assert(prev == b.board[r - 1][c - 1]);
    if n > 0 {
        lemma_queen_upto(q, b, mask, n - 1);
        let dr = slider_dr(2, n - 1);
        let dc = slider_dc(2, n - 1);
        lemma_slide_targets(q, bq, b, mask, prev, dr, dc, r + dr, c + dc, 1);
        lemma_slide_targets(q, rq, b, mask, prev, dr, dc, r + dr, c + dc, 1);
        let sq = slide(q, b, mask, prev, dr, dc, r + dr, c + dc, 1);
        lemma_targets_concat(slider_moves_upto(q, b, mask, 2, n - 1), sq);
        if n <= 4 {
            let sb = slide(bq, b, mask, prev, dr, dc, r + dr, c + dc, 1);
            lemma_targets_concat(slider_moves_upto(bq, b, mask, 0, n - 1), sb);
        } else {
            let sr = slide(rq, b, mask, prev, dr, dc, r + dr, c + dc, 1);
            lemma_targets_concat(slider_moves_upto(rq, b, mask, 1, n - 5), sr);
            assert(slider_dr(1, n - 5) == dr && slider_dc(1, n - 5) == dc);
            assert(targets(slider_moves_upto(bq, b, mask, 0, 4)) + targets(slider_moves_upto(rq, b, mask, 1, n - 5))
                + targets(sr) == targets(slider_moves_upto(bq, b, mask, 0, 4)) + (targets(
                slider_moves_upto(rq, b, mask, 1, n - 5),
            ) + targets(sr)));
        }
    } else {
        assert(targets(Seq::<Move>::empty()) =~= Seq::<(int, int, bool)>::empty());
    }
}

/// A queen moves as a bishop and a rook on its square together: where its moves go, and
/// whether they capture, is what the bishop's moves give followed by what the rook's give.
pub proof fn lemma_queen_moves_combine(q: PieceState, b: Board, mask: spec_fn(int, int) -> bool)
    requires
        q.piece == Piece::Queen,
        b.coords_ok(),
    ensures
        targets(slider_moves(q, b, mask, 2)) == targets(slider_moves(PieceState { piece: Piece::Bishop, ..q }, b, mask, 0))
            + targets(slider_moves(PieceState { piece: Piece::Rook, ..q }, b, mask, 1)),
{
    if on_board(q.location.0 as int, q.location.1 as int) {
        lemma_queen_upto(q, b, mask, 8);
    } else {
        assert(targets(Seq::<Move>::empty()) =~= Seq::<(int, int, bool)>::empty());
        assert(targets(Seq::<Move>::empty()) + targets(Seq::<Move>::empty()) =~= Seq::<(int, int, bool)>::empty());
    }
}

/// The square jump `j` of a knight in `st` lands on.
pub open spec fn jump_square(st: PieceState, j: int) -> (int, int) {
    (st.location.0 + knight_dr(j), st.location.1 + knight_dc(j))
}

/// Jump `j` is open to a knight in `st`: it lands on the board, on a square the mask admits
/// that is empty or holds a piece of the other side.
pub open spec fn jump_open(st: PieceState, b: Board, mask: spec_fn(int, int) -> bool, j: int) -> bool {
    let t = jump_square(st, j);
    &&& on_board(t.0, t.1)
    &&& mask(t.0, t.1)
    &&& (b.piece_at(t.0, t.1) matches Some(p) ==> p.color != st.color)
}

/// A move of the knight in `st` along jump `j`: it lands on the jump's square, is the
/// knight's side's, and captures exactly when the square is occupied.
pub open spec fn knight_move_along(st: PieceState, b: Board, mv: Move, j: int) -> bool {
    let t = jump_square(st, j);
    &&& mv.current_square.row == t.0
    &&& mv.current_square.column == t.1
    &&& mv.color == st.color
    &&& (mv.captured_piece is Some <==> b.piece_at(t.0, t.1) is Some)
}

/// `mv` is a move of the knight in `st` along one of its open jumps.
pub open spec fn on_open_jump(st: PieceState, b: Board, mask: spec_fn(int, int) -> bool, mv: Move) -> bool {
    exists|j: int| 0 <= j < 8 && jump_open(st, b, mask, j) && #[trigger] knight_move_along(st, b, mv, j)
}

/// Some move of `moves` goes along jump `j` of the knight in `st`.
pub open spec fn jump_taken(st: PieceState, b: Board, moves: Seq<Move>, j: int) -> bool {
    exists|i: int| 0 <= i < moves.len() && #[trigger] knight_move_along(st, b, moves[i], j)
}

/// Two different jumps land on different squares.
proof fn lemma_jumps_differ(st: PieceState, j1: int, j2: int)
    requires
        0 <= j1 < 8,
        0 <= j2 < 8,
        j1 != j2,
    ensures
        jump_square(st, j1) != jump_square(st, j2),
{
}

/// One jump: the candidate move exists exactly when the jump is open, and goes along it.
proof fn lemma_knight_cand(st: PieceState, b: Board, mask: spec_fn(int, int) -> bool, j: int)
    requires
        b.coords_ok(),
        on_board(st.location.0 as int, st.location.1 as int),
        b.piece_at(st.location.0 as int, st.location.1 as int) == Some(st),
        0 <= j < 8,
    ensures
        knight_cand(st, b, mask, j) is Some <==> jump_open(st, b, mask, j),
        knight_cand(st, b, mask, j) matches Some(m) ==> knight_move_along(st, b, m, j),
{
    let r = st.location.0 as int;
    let c = st.location.1 as int;
    assert(b.at(r, c) == b.board[r - 1][c - 1]);
}

#[verifier::spinoff_prover]
proof fn lemma_knight_upto(st: PieceState, b: Board, mask: spec_fn(int, int) -> bool, k: int)
    requires
        b.coords_ok(),
        on_board(st.location.0 as int, st.location.1 as int),
        b.piece_at(st.location.0 as int, st.location.1 as int) == Some(st),
        0 <= k <= 8,
    ensures
        forall|i: int|
            0 <= i < knight_moves_upto(st, b, mask, k).len() ==> on_open_jump(
                st,
                b,
                mask,
                #[trigger] knight_moves_upto(st, b, mask, k)[i],
            ),
        forall|j: int|
            0 <= j < k && jump_open(st, b, mask, j) ==> #[trigger] jump_taken(st, b, knight_moves_upto(st, b, mask, k), j),
        forall|i1: int, i2: int|
            0 <= i1 < i2 < knight_moves_upto(st, b, mask, k).len() ==> (#[trigger] knight_moves_upto(st, b, mask, k)[i1]).current_square
                != (#[trigger] knight_moves_upto(st, b, mask, k)[i2]).current_square,
        forall|i: int, j: int|
            0 <= i < knight_moves_upto(st, b, mask, k).len() && #[trigger] knight_move_along(
                st,
                b,
                knight_moves_upto(st, b, mask, k)[i],
                j,
            ) && 0 <= j < 8 ==> j < k,
    decreases k,
{
    if k > 0 {
        lemma_knight_upto(st, b, mask, k - 1);
        lemma_knight_cand(st, b, mask, k - 1);
        let u = knight_moves_upto(st, b, mask, k - 1);
        let o = opt_seq(knight_cand(st, b, mask, k - 1));
        let w = u + o;
        assert(knight_moves_upto(st, b, mask, k) == w);
        if o.len() > 0 {
            assert(knight_move_along(st, b, o[0], k - 1));
            assert(jump_open(st, b, mask, k - 1));
        }
        assert forall|i: int| 0 <= i < w.len() implies on_open_jump(st, b, mask, #[trigger] w[i]) by {
            if i < u.len() {
                assert(w[i] == u[i]);
            } else {
                assert(w[i] == o[0]);
                assert(knight_move_along(st, b, w[i], k - 1));
            }
        }
        assert forall|j: int| 0 <= j < k && jump_open(st, b, mask, j) implies #[trigger] jump_taken(st, b, w, j) by {
            if j < k - 1 {
                assert(jump_taken(st, b, u, j));
                let i = choose|i: int| 0 <= i < u.len() && #[trigger] knight_move_along(st, b, u[i], j);
                assert(w[i] == u[i]);
                assert(knight_move_along(st, b, w[i], j));
            } else {
                assert(w[u.len() as int] == o[0]);
                assert(knight_move_along(st, b, w[u.len() as int], j));
            }
        }
        assert forall|i: int, j: int|
            0 <= i < w.len() && #[trigger] knight_move_along(st, b, w[i], j) && 0 <= j < 8 implies j < k by {
            if i < u.len() {
                assert(w[i] == u[i]);
                assert(knight_move_along(st, b, u[i], j));
            } else {
                assert(w[i] == o[0]);
                if j != k - 1 {
                    lemma_jumps_differ(st, j, k - 1);
                }
            }
        }
        assert forall|i1: int, i2: int| 0 <= i1 < i2 < w.len() implies (#[trigger] w[i1]).current_square
            != (#[trigger] w[i2]).current_square by {
            assert(w[i1] == u[i1]);
            if i2 < u.len() {
                assert(w[i2] == u[i2]);
            } else {
                assert(w[i2] == o[0]);
                assert(on_open_jump(st, b, mask, u[i1]));
                let j = choose|j: int| 0 <= j < 8 && jump_open(st, b, mask, j) && #[trigger] knight_move_along(st, b, u[i1], j);
                assert(j < k - 1);
                lemma_jumps_differ(st, j, k - 1);
            }
        }
    } else {
        assert(knight_moves_upto(st, b, mask, k) =~= Seq::<Move>::empty());
    }
}

/// A knight on its square moves along exactly its open jumps, once each: every move goes to
/// the square of an open jump (on the board, admitted by the mask, empty or holding a piece
/// of the other side), is the knight's side's and captures exactly when that square is
/// occupied; every open jump is taken; and no two moves go to the same square.
pub proof fn lemma_knight_moves_exact(st: PieceState, b: Board, mask: spec_fn(int, int) -> bool)
    requires
        st.piece == Piece::Knight,
        b.coords_ok(),
        on_board(st.location.0 as int, st.location.1 as int),
        b.piece_at(st.location.0 as int, st.location.1 as int) == Some(st),
    ensures
        forall|i: int|
            0 <= i < knight_moves(st, b, mask).len() ==> on_open_jump(st, b, mask, #[trigger] knight_moves(st, b, mask)[i]),
        forall|j: int|
            0 <= j < 8 && jump_open(st, b, mask, j) ==> #[trigger] jump_taken(st, b, knight_moves(st, b, mask), j),
        forall|i1: int, i2: int|
            0 <= i1 < i2 < knight_moves(st, b, mask).len() ==> (#[trigger] knight_moves(st, b, mask)[i1]).current_square
                != (#[trigger] knight_moves(st, b, mask)[i2]).current_square,
{
    assert(knight_moves(st, b, mask) == knight_moves_upto(st, b, mask, 8));
    lemma_knight_upto(st, b, mask, 8);
}

/// The square `n` steps from the piece in `st` along (dr, dc) is empty.
pub open spec fn ray_empty(st: PieceState, b: Board, dr: int, dc: int, n: int) -> bool {
    b.piece_at(st.location.0 + n * dr, st.location.1 + n * dc) is None
}

/// `mv` takes the piece in `st` `n` steps along (dr, dc): every square passed over is
/// empty; the square reached is on the board, admitted by the mask, and empty or held by
/// the other side; the move is the piece's side's and captures exactly when that square is
/// occupied.
pub open spec fn ray_move(st: PieceState, b: Board, mask: spec_fn(int, int) -> bool, dr: int, dc: int, n: int, mv: Move) -> bool {
    let tr = st.location.0 + n * dr;
    let tc = st.location.1 + n * dc;
    &&& 1 <= n < 8
    &&& mv.current_square.row == tr
    &&& mv.current_square.column == tc
    &&& on_board(tr, tc)
    &&& mask(tr, tc)
    &&& mv.color == st.color
    &&& (b.piece_at(tr, tc) matches Some(p) ==> p.color != st.color)
    &&& (mv.captured_piece is Some <==> b.piece_at(tr, tc) is Some)
    &&& ray_clear(st, b, dr, dc, n)
}

/// Every square strictly before the `n`-th step from the piece in `st` along (dr, dc) is empty.
pub open spec fn ray_clear(st: PieceState, b: Board, dr: int, dc: int, n: int) -> bool {
    forall|m: int| 1 <= m < n ==> #[trigger] ray_empty(st, b, dr, dc, m)
}

/// `mv` takes the piece in `st` along one of the first `nd` directions of `kind`.
pub open spec fn along_some_ray(st: PieceState, b: Board, mask: spec_fn(int, int) -> bool, kind: int, nd: int, mv: Move) -> bool {
    exists|d: int| 0 <= d < nd && #[trigger] on_ray(st, b, mask, slider_dr(kind, d), slider_dc(kind, d), mv)
}

/// Every move of `s` takes the piece in `st` some number of steps along (dr, dc).
pub open spec fn all_on_ray(st: PieceState, b: Board, mask: spec_fn(int, int) -> bool, dr: int, dc: int, s: Seq<Move>) -> bool {
    forall|i: int| 0 <= i < s.len() ==> #[trigger] on_ray(st, b, mask, dr, dc, s[i])
}

/// `mv` takes the piece in `st` some number of steps along (dr, dc).
pub open spec fn on_ray(st: PieceState, b: Board, mask: spec_fn(int, int) -> bool, dr: int, dc: int, mv: Move) -> bool {
    exists|n: int| #[trigger] ray_move(st, b, mask, dr, dc, n, mv)
}

proof fn lemma_all_on_ray_concat(st: PieceState, b: Board, mask: spec_fn(int, int) -> bool, dr: int, dc: int, s: Seq<Move>, t: Seq<Move>)
    requires
        all_on_ray(st, b, mask, dr, dc, s),
        all_on_ray(st, b, mask, dr, dc, t),
    ensures
        all_on_ray(st, b, mask, dr, dc, s + t),
{
    assert forall|i: int| 0 <= i < (s + t).len() implies #[trigger] on_ray(st, b, mask, dr, dc, (s + t)[i]) by {
        if i < s.len() {
            assert((s + t)[i] == s[i]);
            assert(on_ray(st, b, mask, dr, dc, s[i]));
        } else {
            assert((s + t)[i] == t[i - s.len()]);
            assert(on_ray(st, b, mask, dr, dc, t[i - s.len()]));
        }
    }
}

proof fn lemma_slide_rays(
    st: PieceState,
    b: Board,
    mask: spec_fn(int, int) -> bool,
    prev: Square,
    dr: int,
    dc: int,
    tr: int,
    tc: int,
    off: int,
)
    requires
        1 <= off,
        -1 <= dr <= 1,
        -1 <= dc <= 1,
        tr == st.location.0 + off * dr,
        tc == st.location.1 + off * dc,
        forall|m: int| 1 <= m < off ==> #[trigger] ray_empty(st, b, dr, dc, m),
    ensures
        all_on_ray(st, b, mask, dr, dc, slide(st, b, mask, prev, dr, dc, tr, tc, off)),
    decreases 8 - off,
{
    let sl = slide(st, b, mask, prev, dr, dc, tr, tc, off);
    if off >= 8 || !on_board(tr, tc) {
        assert(sl =~= Seq::<Move>::empty());
    } else {
        assert(tr + dr == st.location.0 + (off + 1) * dr) by (nonlinear_arith)
            requires tr == st.location.0 + off * dr;
        assert(tc + dc == st.location.1 + (off + 1) * dc) by (nonlinear_arith)
            requires tc == st.location.1 + off * dc;
        let rest = slide(st, b, mask, prev, dr, dc, tr + dr, tc + dc, off + 1);
        if b.piece_at(tr, tc) is None {
            assert(ray_empty(st, b, dr, dc, off));
            assert forall|m: int| 1 <= m < off + 1 implies #[trigger] ray_empty(st, b, dr, dc, m) by {
                if m < off {
                    assert(ray_empty(st, b, dr, dc, m));
                }
            }
            lemma_slide_rays(st, b, mask, prev, dr, dc, tr + dr, tc + dc, off + 1);
        }
        let head = opt_seq(create_spec(prev, landing(st, tr, tc), st.color, b.piece_at(tr, tc), None, false));
        if mask(tr, tc) {
            if head.len() > 0 {
                assert(ray_move(st, b, mask, dr, dc, off, head[0]));
            }
            assert(all_on_ray(st, b, mask, dr, dc, head));
            if b.piece_at(tr, tc) is None {
                assert(sl == head + rest);
                lemma_all_on_ray_concat(st, b, mask, dr, dc, head, rest);
            } else if b.piece_at(tr, tc).unwrap().color != st.color {
                assert(sl == head);
            } else {
                assert(sl =~= Seq::<Move>::empty());
            }
        } else if b.piece_at(tr, tc) is None {
            assert(sl == rest);
        } else {
            assert(sl =~= Seq::<Move>::empty());
        }
    }
}

proof fn lemma_slider_rays_upto(st: PieceState, b: Board, mask: spec_fn(int, int) -> bool, kind: int, nd: int)
    requires
        0 <= kind < 3,
        0 <= nd <= slider_ndirs(kind),
    ensures
        forall|i: int|
            0 <= i < slider_moves_upto(st, b, mask, kind, nd).len() ==> along_some_ray(
                st,
                b,
                mask,
                kind,
                nd,
                #[trigger] slider_moves_upto(st, b, mask, kind, nd)[i],
            ),
    decreases nd,
{
    let w = slider_moves_upto(st, b, mask, kind, nd);
    if nd > 0 {
        lemma_slider_rays_upto(st, b, mask, kind, nd - 1);
        let r = st.location.0 as int;
        let c = st.location.1 as int;
        let dr = slider_dr(kind, nd - 1);
        let dc = slider_dc(kind, nd - 1);
        let u = slider_moves_upto(st, b, mask, kind, nd - 1);
        let sl = slide(st, b, mask, b.at(r, c), dr, dc, r + dr, c + dc, 1);
        assert(w == u + sl);
        lemma_slide_rays(st, b, mask, b.at(r, c), dr, dc, r + dr, c + dc, 1);
        assert forall|i: int| 0 <= i < w.len() implies along_some_ray(st, b, mask, kind, nd, #[trigger] w[i]) by {
            if i < u.len() {
                assert(w[i] == u[i]);
                assert(along_some_ray(st, b, mask, kind, nd - 1, u[i]));
                let d = choose|d: int| 0 <= d < nd - 1 && #[trigger] on_ray(st, b, mask, slider_dr(kind, d), slider_dc(kind, d), u[i]);
                assert(on_ray(st, b, mask, slider_dr(kind, d), slider_dc(kind, d), w[i]));
            } else {
                assert(w[i] == sl[i - u.len()]);
                assert(on_ray(st, b, mask, dr, dc, sl[i - u.len()]));
                assert(on_ray(st, b, mask, slider_dr(kind, nd - 1), slider_dc(kind, nd - 1), w[i]));
            }
        }
    } else {
        assert(w =~= Seq::<Move>::empty());
    }
}

/// Every move of a bishop, rook or queen (`kind` 0, 1, 2) goes some number of steps along
/// one of its directions (the diagonals for a bishop, the straight lines for a rook, both for
/// a queen), over empty squares only, to a square on the board that the mask admits and that
/// is empty or held by the other side; it is the piece's side's and captures exactly when
/// that square is occupied.
pub proof fn lemma_slider_moves_on_rays(st: PieceState, b: Board, mask: spec_fn(int, int) -> bool, kind: int)
    requires
        0 <= kind < 3,
    ensures
        forall|i: int|
            0 <= i < slider_moves(st, b, mask, kind).len() ==> along_some_ray(
                st,
                b,
                mask,
                kind,
                slider_ndirs(kind),
                #[trigger] slider_moves(st, b, mask, kind)[i],
            ),
{
    if st.piece != slider_piece(kind) || !on_board(st.location.0 as int, st.location.1 as int) {
        assert(slider_moves(st, b, mask, kind) =~= Seq::<Move>::empty());
    } else {
        lemma_slider_rays_upto(st, b, mask, kind, slider_ndirs(kind));
    }
}

proof fn lemma_king_steps_not_castling(st: PieceState, b: Board, mask: spec_fn(int, int) -> bool, k: int)
    ensures
        forall|i: int| 0 <= i < king_steps_upto(st, b, mask, k).len() ==> !(#[trigger] king_steps_upto(st, b, mask, k)[i]).castling,
    decreases k,
{
    if k > 0 {
        lemma_king_steps_not_castling(st, b, mask, k - 1);
        let u = king_steps_upto(st, b, mask, k - 1);
        let o = opt_seq(king_cand(st, b, mask, k - 1));
        assert(king_steps_upto(st, b, mask, k) == u + o);
        assert forall|i: int| 0 <= i < (u + o).len() implies !(#[trigger] (u + o)[i]).castling by {
            if i < u.len() {
                assert((u + o)[i] == u[i]);
            } else {
                assert((u + o)[i] == o[0]);
            }
        }
    } else {
        assert(king_steps_upto(st, b, mask, k) =~= Seq::<Move>::empty());
    }
}

/// A castling move of a king leaves it unmoved on its own row, to column 7 or column 3.
/// To column 7: the own unmoved rook stands on column 8 of the row, columns 6 and 7 are
/// empty, and none of columns 5, 6 and 7 of the row is attacked.  To column 3: the own
/// unmoved rook stands on column 1, columns 2, 3 and 4 are empty, and none of columns 3, 4
/// and 5 is attacked.
pub proof fn lemma_castling_needs_free_path(st: PieceState, b: Board, mask: spec_fn(int, int) -> bool)
    ensures
        forall|i: int|
            0 <= i < king_moves(st, b, mask).len() && (#[trigger] king_moves(st, b, mask)[i]).castling ==> {
                let mv = king_moves(st, b, mask)[i];
                let r = st.location.0 as int;
                &&& !st.has_moved
                &&& on_board(r, st.location.1 as int)
                &&& mv.current_square.row == r
                &&& !attacked(b, r, 5, st.color)
                &&& (mv.current_square.column == 7 || mv.current_square.column == 3)
                &&& mv.current_square.column == 7 ==> {
                    &&& b.board[r - 1][7].piece_state matches Some(rook) && rook.piece == Piece::Rook
                        && rook.color == st.color && !rook.has_moved
                    &&& b.board[r - 1][5].piece_state is None
                    &&& b.board[r - 1][6].piece_state is None
                    &&& !attacked(b, r, 6, st.color)
                    &&& !attacked(b, r, 7, st.color)
                }
                &&& mv.current_square.column == 3 ==> {
                    &&& b.board[r - 1][0].piece_state matches Some(rook) && rook.piece == Piece::Rook
                        && rook.color == st.color && !rook.has_moved
                    &&& b.board[r - 1][1].piece_state is None
                    &&& b.board[r - 1][2].piece_state is None
                    &&& b.board[r - 1][3].piece_state is None
                    &&& !attacked(b, r, 3, st.color)
                    &&& !attacked(b, r, 4, st.color)
                }
            },
{
    let km = king_moves(st, b, mask);
    if st.piece == Piece::King && on_board(st.location.0 as int, st.location.1 as int) {
        let steps = king_steps_upto(st, b, mask, 8);
        let cm = castle_moves(st, b);
        assert(km == steps + cm);
        lemma_king_steps_not_castling(st, b, mask, 8);
        assert forall|i: int| 0 <= i < km.len() && (#[trigger] km[i]).castling implies i >= steps.len() && km[i]
            == cm[i - steps.len()] by {
            if i < steps.len() {
                assert(km[i] == steps[i]);
            }
        }
    } else {
        assert(km =~= Seq::<Move>::empty());
    }
}

} // verus!
