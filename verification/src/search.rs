use vstd::prelude::*;

use crate::material::{calculate_material, evaluation, lemma_evaluation_bound};
use crate::move_ordering::{generated_moves, lemma_generated_moves_sound, MoveList};
use crate::moves::{all_sound, move_sound, valid_move, Move};
use crate::pieces::{on_board, with_piece, Board, BoardState, Color, Piece, PieceState};
use crate::utils::{access, access_board};

verus! {

/// Principal variation search over the boards of this crate.
pub struct PVS;

/// The other side.
pub open spec fn other(color: Color) -> Color {
    match color {
        Color::White => Color::Black,
        Color::Black => Color::White,
    }
}

/// Moves the rook on 0-based `row` from column `from` to column `to`.
pub open spec fn move_rook(b: Board, row: int, from: int, to: int) -> Board {
    with_piece(with_piece(b, row, from, None), row, to, b.board[row][from].piece_state)
}

/// After a castling king move, the rook that castling moves.
pub open spec fn castle_rook(b: Board, mv: Move) -> Board {
    let new = mv.current_square;
    match access(b, new.row as int, new.column as int) {
        Some(sq) => match sq.piece_state {
            Some(st) => if st.piece == Piece::King && mv.castling {
                match st.color {
                    Color::White => if st.location == (1usize, 3usize) {
                        move_rook(b, 0, 0, 3)
                    } else if st.location == (1usize, 7usize) {
                        move_rook(b, 0, 7, 5)
                    } else {
                        b
                    },
                    Color::Black => if st.location == (8usize, 3usize) {
                        move_rook(b, 7, 0, 3)
                    } else if st.location == (8usize, 7usize) {
                        move_rook(b, 7, 7, 5)
                    } else {
                        b
                    },
                }
            } else {
                b
            },
            None => b,
        },
        None => b,
    }
}

/// The board after the move: the captured piece's recorded square emptied, the piece on the
/// origin (of the board before the move) placed on the destination with its location
/// updated and marked as moved, the origin emptied, then the castling rook moved.
pub open spec fn placed_board(b: Board, mv: Move) -> Board {
    let prev = mv.previous_square;
    let new = mv.current_square;
    let b0 = match mv.captured_piece {
        Some(cap) => with_piece(b, cap.location.0 - 1, cap.location.1 - 1, None),
        None => b,
    };
    let b1 = match access(b, prev.row as int, prev.column as int) {
        Some(sq) => {
            let b_moved = match sq.piece_state {
                Some(st) => with_piece(
                    b0,
                    new.row - 1,
                    new.column - 1,
                    Some(PieceState { location: (new.row, new.column), has_moved: true, ..st }),
                ),
                None => b0,
            };
            with_piece(b_moved, prev.row - 1, prev.column - 1, None)
        },
        None => b0,
    };
    castle_rook(b1, mv)
}

/// The state after the move: no en passant square, except after a pawn's double step,
/// which records the destination square (as it was before the move) for its side.
pub open spec fn updated_state(bs: BoardState, mv: Move, b: Board) -> BoardState {
    let cleared = BoardState {
        white_state: crate::pieces::ColorState { en_passant: None, ..bs.white_state },
        black_state: crate::pieces::ColorState { en_passant: None, ..bs.black_state },
        ..bs
    };
    match mv.previous_square.piece_state {
        Some(p) => if p.piece == Piece::Pawn {
            let diff = mv.current_square.row - mv.previous_square.row;
            let target = access(b, mv.current_square.row as int, mv.current_square.column as int);
            if diff == 2 {
                BoardState { white_state: crate::pieces::ColorState { en_passant: target, ..cleared.white_state }, ..cleared }
            } else if diff == -2 {
                BoardState { black_state: crate::pieces::ColorState { en_passant: target, ..cleared.black_state }, ..cleared }
            } else {
                cleared
            }
        } else {
            cleared
        },
        None => cleared,
    }
}

/// The `i`-th move generated for `color`, made on the board.
pub open spec fn child_board(b: Board, color: Color, bs: BoardState, i: int) -> Board {
    placed_board(b, generated_moves(b, color, bs)[i])
}

pub open spec fn child_state(b: Board, color: Color, bs: BoardState, i: int) -> BoardState {
    updated_state(bs, generated_moves(b, color, bs)[i], b)
}

/// Every position reached within `depth` moves has at most 218 generated moves: the
/// capacity of a move list.
pub open spec fn fits(b: Board, color: Color, bs: BoardState, depth: int) -> bool
    decreases depth, 1int, 0int,
{
    if depth <= 0 {
        true
    } else {
        generated_moves(b, color, bs).len() <= 218 && fits_children(
            b,
            color,
            bs,
            depth,
            generated_moves(b, color, bs).len() as int,
        )
    }
}

/// The children of the first `k` moves all fit at `depth - 1`.
pub open spec fn fits_children(b: Board, color: Color, bs: BoardState, depth: int, k: int) -> bool
    decreases depth, 0int, k,
{
    if depth <= 0 || k <= 0 {
        true
    } else {
        fits_children(b, color, bs, depth, k - 1) && fits(
            child_board(b, color, bs, k - 1),
            other(color),
            child_state(b, color, bs, k - 1),
            depth - 1,
        )
    }
}

/// The number of positions at the end of all move sequences of length `depth`.
pub open spec fn perft_spec(b: Board, color: Color, bs: BoardState, depth: nat) -> nat
    decreases depth, 1nat, 0nat,
{
    if depth == 0 {
        1
    } else {
        perft_sum(b, color, bs, depth, generated_moves(b, color, bs).len())
    }
}

/// The sum of `perft_spec` at `depth - 1` over the children of the first `k` moves.
pub open spec fn perft_sum(b: Board, color: Color, bs: BoardState, depth: nat, k: nat) -> nat
    decreases depth, 0nat, k,
{
    if depth == 0 || k == 0 {
        0
    } else {
        perft_sum(b, color, bs, depth, (k - 1) as nat) + perft_spec(
            child_board(b, color, bs, k - 1),
            other(color),
            child_state(b, color, bs, k - 1),
            (depth - 1) as nat,
        )
    }
}

pub open spec fn min_score() -> int {
    i32::MIN + 1
}

/// The score at depth 0: the evaluation from the side of `color`.
pub open spec fn leaf_score(b: Board, color: Color) -> int {
    match color {
        Color::White => evaluation(b),
        Color::Black => -evaluation(b),
    }
}

/// Principal variation search (negamax with a null window after the first move): the
/// score of the position for `color`, within the window (alpha, beta).
pub open spec fn search_spec(alpha: int, beta: int, depth: int, b: Board, color: Color, bs: BoardState) -> int
    decreases depth, 1int, 0int,
{
    if depth <= 0 {
        leaf_score(b, color)
    } else if generated_moves(b, color, bs).len() == 0 {
        min_score()
    } else {
        search_loop(alpha, beta, depth, b, color, bs, 0)
    }
}

/// The search over the moves from index `idx` on, with the current `alpha`.
pub open spec fn search_loop(alpha: int, beta: int, depth: int, b: Board, color: Color, bs: BoardState, idx: int) -> int
    decreases depth, 0int, generated_moves(b, color, bs).len() - idx,
{
    if depth <= 0 || idx < 0 || idx >= generated_moves(b, color, bs).len() {
        alpha
    } else {
        let cb = child_board(b, color, bs, idx);
        let cs = child_state(b, color, bs, idx);
        let oc = other(color);
        let score = if idx == 0 {
            -search_spec(-beta, -alpha, depth - 1, cb, oc, cs)
        } else {
            let r = -search_spec(-alpha - 1, -alpha, depth - 1, cb, oc, cs);
            if r > alpha && r < beta {
                -search_spec(-beta, -alpha, depth - 1, cb, oc, cs)
            } else {
                r
            }
        };
        let a2 = if alpha >= score { alpha } else { score };
        if a2 >= beta {
            a2
        } else {
            search_loop(a2, beta, depth, b, color, bs, idx + 1)
        }
    }
}

/// The index of the move `best_move` chooses among those from `idx` on: the first move
/// whose score beats every earlier one.
pub open spec fn best_loop(
    depth: int,
    b: Board,
    color: Color,
    bs: BoardState,
    idx: int,
    best_idx: int,
    best_score: int,
    alpha: int,
) -> int
    decreases generated_moves(b, color, bs).len() - idx,
{
    if idx < 0 || idx >= generated_moves(b, color, bs).len() {
        best_idx
    } else {
        let score = -search_spec(
            -(i32::MAX as int),
            -alpha,
            depth - 1,
            child_board(b, color, bs, idx),
            other(color),
            child_state(b, color, bs, idx),
        );
        if score > best_score {
            best_loop(depth, b, color, bs, idx + 1, idx, score, score)
        } else {
            best_loop(depth, b, color, bs, idx + 1, best_idx, best_score, alpha)
        }
    }
}

/// The move `best_move` chooses, if there is a move.
pub open spec fn best_move_spec(depth: int, b: Board, color: Color, bs: BoardState) -> Option<Move> {
    if generated_moves(b, color, bs).len() == 0 {
        None
    } else {
        Some(generated_moves(b, color, bs)[best_loop(depth, b, color, bs, 0, 0, min_score(), min_score())])
    }
}

proof fn lemma_with_piece_wf(b: Board, r: int, c: int, p: Option<PieceState>)
    requires
        b.wf(),
        0 <= r < 8,
        0 <= c < 8,
        p matches Some(x) ==> on_board(x.location.0 as int, x.location.1 as int),
    ensures
        with_piece(b, r, c, p).wf(),
{
    let nb = with_piece(b, r, c, p);
    assert forall|i: int, j: int| 0 <= i < 8 && 0 <= j < 8 implies #[trigger] nb.board[i][j] == if i == r && j == c {
        crate::pieces::Square { piece_state: p, ..b.board[r][c] }
    } else {
        b.board[i][j]
    } by {
        assert(nb.board[i]@ == b.board[i]@.update(c, crate::pieces::Square { piece_state: p, ..b.board[r][c] }) || i != r);
    }
}

proof fn lemma_placed_board_wf(b: Board, mv: Move)
    requires
        b.wf(),
        move_sound(mv),
    ensures
        placed_board(b, mv).wf(),
{
    let prev = mv.previous_square;
    let new = mv.current_square;
    let b0 = match mv.captured_piece {
        Some(cap) => with_piece(b, cap.location.0 - 1, cap.location.1 - 1, None),
        None => b,
    };
    if let Some(cap) = mv.captured_piece {
        lemma_with_piece_wf(b, cap.location.0 - 1, cap.location.1 - 1, None);
    }
    assert(b0.wf());
    let b1 = match access(b, prev.row as int, prev.column as int) {
        Some(sq) => {
            let b_moved = match sq.piece_state {
                Some(st) => with_piece(
                    b0,
                    new.row - 1,
                    new.column - 1,
                    Some(PieceState { location: (new.row, new.column), has_moved: true, ..st }),
                ),
                None => b0,
            };
            with_piece(b_moved, prev.row - 1, prev.column - 1, None)
        },
        None => b0,
    };
    if let Some(sq) = access(b, prev.row as int, prev.column as int) {
        if let Some(st) = sq.piece_state {
            lemma_with_piece_wf(
                b0,
                new.row - 1,
                new.column - 1,
                Some(PieceState { location: (new.row, new.column), has_moved: true, ..st }),
            );
            let bm = with_piece(
                b0,
                new.row - 1,
                new.column - 1,
                Some(PieceState { location: (new.row, new.column), has_moved: true, ..st }),
            );
            lemma_with_piece_wf(bm, prev.row - 1, prev.column - 1, None);
        } else {
            lemma_with_piece_wf(b0, prev.row - 1, prev.column - 1, None);
        }
    }
    assert(b1.wf());
    assert forall|row: int, from: int, to: int| 0 <= row < 8 && 0 <= from < 8 && 0 <= to < 8 implies #[trigger] move_rook(b1, row, from, to).wf() by {
        lemma_with_piece_wf(b1, row, from, None);
        assert(b1.board[row][from] == b1.board[row][from]);
        lemma_with_piece_wf(with_piece(b1, row, from, None), row, to, b1.board[row][from].piece_state);
    }
    assert(castle_rook(b1, mv).wf());
}

/// Every child of a well-formed board is well-formed.
pub proof fn lemma_child_wf(b: Board, color: Color, bs: BoardState, i: int)
    requires
        b.wf(),
        0 <= i < generated_moves(b, color, bs).len(),
    ensures
        child_board(b, color, bs, i).wf(),
        move_sound(generated_moves(b, color, bs)[i]),
{
    lemma_generated_moves_sound(b, color, bs);
    lemma_placed_board_wf(b, generated_moves(b, color, bs)[i]);
}

/// Castling moves the king two squares and the rook over it: a king castling from column 5
/// of its home row (row 1 for White, row 8 for Black) to column 7 ends on column 7 with the
/// rook from column 8 on column 6, columns 5 and 8 left empty; castling to column 3 ends on
/// column 3 with the rook from column 1 on column 4, columns 1 and 5 left empty.
pub proof fn lemma_castling_places_rook(b: Board, mv: Move, king: PieceState)
    requires
        b.coords_ok(),
        mv.castling,
        mv.captured_piece is None,
        mv.previous_square.row == mv.current_square.row,
        mv.previous_square.column == 5,
        mv.current_square.column == 7 || mv.current_square.column == 3,
        b.board[mv.previous_square.row - 1][4].piece_state == Some(king),
        king.piece == Piece::King,
        king.color == Color::White ==> mv.current_square.row == 1,
        king.color == Color::Black ==> mv.current_square.row == 8,
    ensures
        ({
            let n = placed_board(b, mv);
            let r = mv.current_square.row - 1;
            let moved_king = Some(PieceState { location: (mv.current_square.row, mv.current_square.column), has_moved: true, ..king });
            &&& n.board[r][4].piece_state is None
            &&& mv.current_square.column == 7 ==> {
                &&& n.board[r][6].piece_state == moved_king
                &&& n.board[r][5].piece_state == b.board[r][7].piece_state
                &&& n.board[r][7].piece_state is None
            }
            &&& mv.current_square.column == 3 ==> {
                &&& n.board[r][2].piece_state == moved_king
                &&& n.board[r][3].piece_state == b.board[r][0].piece_state
                &&& n.board[r][0].piece_state is None
            }
            &&& forall|i: int, j: int|
                0 <= i < 8 && 0 <= j < 8 && !(i == r && (j == 4 || (mv.current_square.column == 7 && 5 <= j <= 7) || (
                mv.current_square.column == 3 && 0 <= j <= 3))) ==> (#[trigger] n.board[i][j]).piece_state
                    == b.board[i][j].piece_state
        }),
{
    let r = mv.current_square.row - 1;
    assert(b.board[r][4] == b.at(r + 1, 5));
    let new = mv.current_square;
    let st = PieceState { location: (new.row, new.column), has_moved: true, ..king };
    let bm = with_piece(b, r, new.column - 1, Some(st));
    lemma_with_piece_at(b, r, new.column - 1, Some(st));
    let b1 = with_piece(bm, r, 4, None);
    lemma_with_piece_at(bm, r, 4, None);
    assert(placed_board(b, mv) == castle_rook(b1, mv));
    let (from, to) = if new.column == 7 { (7int, 5int) } else { (0int, 3int) };
    let c1 = with_piece(b1, r, from, None);
    lemma_with_piece_at(b1, r, from, None);
    lemma_with_piece_at(c1, r, to, b1.board[r][from].piece_state);
    assert(b1.at(new.row as int, new.column as int) == b1.board[r][new.column - 1]);
    assert(castle_rook(b1, mv) == move_rook(b1, r, from, to));
}

proof fn lemma_with_piece_at(b: Board, r: int, c: int, p: Option<PieceState>)
    requires
        0 <= r < 8,
        0 <= c < 8,
    ensures
        forall|i: int, j: int|
            0 <= i < 8 && 0 <= j < 8 ==> (#[trigger] with_piece(b, r, c, p).board[i][j]).piece_state == if i == r && j
                == c {
                p
            } else {
                b.board[i][j].piece_state
            },
{
    let nb = with_piece(b, r, c, p);
    assert forall|i: int, j: int| 0 <= i < 8 && 0 <= j < 8 implies (#[trigger] nb.board[i][j]).piece_state == if i == r
        && j == c {
        p
    } else {
        b.board[i][j].piece_state
    } by {
        assert(nb.board[i]@ == b.board[i]@.update(c, crate::pieces::Square { piece_state: p, ..b.board[r][c] }) || i != r);
    }
}

/// An ordinary move (no castling) from (pr, pc) to (tr, tc) puts the piece that stood on
/// (pr, pc) on (tr, tc), recording its new square and that it has moved; it empties (pr, pc)
/// and the square of the captured piece; every other square keeps what it held.
pub proof fn lemma_move_places_piece(b: Board, mv: Move, p: PieceState)
    requires
        !mv.castling,
        on_board(mv.previous_square.row as int, mv.previous_square.column as int),
        on_board(mv.current_square.row as int, mv.current_square.column as int),
        !(mv.previous_square.row == mv.current_square.row && mv.previous_square.column == mv.current_square.column),
        b.board[mv.previous_square.row - 1][mv.previous_square.column - 1].piece_state == Some(p),
        mv.captured_piece matches Some(cap) ==> on_board(cap.location.0 as int, cap.location.1 as int),
    ensures
        ({
            let n = placed_board(b, mv);
            let (pr, pc) = (mv.previous_square.row - 1, mv.previous_square.column - 1);
            let (tr, tc) = (mv.current_square.row - 1, mv.current_square.column - 1);
            &&& n.board[tr][tc].piece_state == Some(
                PieceState { location: (mv.current_square.row, mv.current_square.column), has_moved: true, ..p },
            )
            &&& n.board[pr][pc].piece_state is None
            &&& (mv.captured_piece matches Some(cap) ==> (cap.location.0 - 1 == tr && cap.location.1 - 1 == tc)
                || n.board[cap.location.0 - 1][cap.location.1 - 1].piece_state is None)
            &&& forall|i: int, j: int|
                0 <= i < 8 && 0 <= j < 8 && !(i == tr && j == tc) && !(i == pr && j == pc) && !(mv.captured_piece matches Some(
                    cap,
                ) && i == cap.location.0 - 1 && j == cap.location.1 - 1) ==> (#[trigger] n.board[i][j]).piece_state
                    == b.board[i][j].piece_state
        }),
{
    let prev = mv.previous_square;
    let new = mv.current_square;
    let b0 = match mv.captured_piece {
        Some(cap) => with_piece(b, cap.location.0 - 1, cap.location.1 - 1, None),
        None => b,
    };
    if let Some(cap) = mv.captured_piece {
        lemma_with_piece_at(b, cap.location.0 - 1, cap.location.1 - 1, None);
    }
    assert(b.at(prev.row as int, prev.column as int) == b.board[prev.row - 1][prev.column - 1]);
    let st = PieceState { location: (new.row, new.column), has_moved: true, ..p };
    let bm = with_piece(b0, new.row - 1, new.column - 1, Some(st));
    lemma_with_piece_at(b0, new.row - 1, new.column - 1, Some(st));
    lemma_with_piece_at(bm, prev.row - 1, prev.column - 1, None);
    let b1 = with_piece(bm, prev.row - 1, prev.column - 1, None);
    assert(placed_board(b, mv) == castle_rook(b1, mv));
    assert(castle_rook(b1, mv) == b1);
}

/// Making a move changes only the two en-passant squares of the state: White's is the square
/// the move reaches when it is a pawn going up two rows, Black's when it is a pawn going down
/// two rows, and each is cleared otherwise.
pub proof fn lemma_update_state_only_en_passant(bs: BoardState, mv: Move, b: Board)
    ensures
        ({
            let n = updated_state(bs, mv, b);
            let pawn = mv.previous_square.piece_state matches Some(p) && p.piece == Piece::Pawn;
            let dr = mv.current_square.row - mv.previous_square.row;
            let target = access(b, mv.current_square.row as int, mv.current_square.column as int);
            &&& n.board == bs.board
            &&& n.active_color == bs.active_color
            &&& n.draw == bs.draw
            &&& n.time == bs.time
            &&& n.white_state == crate::pieces::ColorState { en_passant: n.white_state.en_passant, ..bs.white_state }
            &&& n.black_state == crate::pieces::ColorState { en_passant: n.black_state.en_passant, ..bs.black_state }
            &&& n.white_state.en_passant == (if pawn && dr == 2 { target } else { None })
            &&& n.black_state.en_passant == (if pawn && dr == -2 { target } else { None })
        }),
{
}

/// `switch_color` swaps the sides, so applying it twice gives back the side it started from.
pub proof fn lemma_switch_color_involution(color: Color)
    ensures
        other(other(color)) == color,
        other(color) != color,
{
}

impl PVS {
    /// The other side.
    pub fn switch_color(&self, color: Color) -> (res: Color)
        ensures
            res == other(color),
    {
        match color {
            Color::White => Color::Black,
            Color::Black => Color::White,
        }
    }

    /// The board after the move in slot `index` of the list (see `placed_board`).
    pub fn setup_new_board(&self, board: &Board, index: usize, move_list: &MoveList) -> (res: Board)
        requires
            index < 218,
            move_sound(move_list.moves[index as int]),
        ensures
            res == placed_board(*board, move_list.moves[index as int]),
    {
        let mut new_board: Board = *board;
        let mv = move_list.moves[index];
        let prev_square = mv.previous_square;
        let new_square = mv.current_square;
        if let Some(captured) = mv.captured_piece {
            new_board.board[captured.location.0 - 1][captured.location.1 - 1].piece_state = None;
        }
        if let Some(square) = access_board(board, prev_square.row, prev_square.column) {
            if let Some(state) = square.piece_state {
                let mut state = state;
                state.location = (new_square.row, new_square.column);
                state.has_moved = true;
                new_board.board[new_square.row - 1][new_square.column - 1].piece_state = Some(state);
            }
            new_board.board[prev_square.row - 1][prev_square.column - 1].piece_state = None;
        }
        let ghost b1 = new_board;
        if let Some(square) = access_board(&new_board, new_square.row, new_square.column) {
            if let Some(state) = square.piece_state {
                if state.piece == Piece::King && mv.castling == true {
                    match state.color {
                        Color::White => {
                            if state.location.0 == 1 && state.location.1 == 3 {
                                let rook_state = new_board.board[0][0].piece_state;
                                new_board.board[0][0].piece_state = None;
                                new_board.board[0][3].piece_state = rook_state;
                            } else if state.location.0 == 1 && state.location.1 == 7 {
                                let rook_state = new_board.board[0][7].piece_state;
                                new_board.board[0][7].piece_state = None;
                                new_board.board[0][5].piece_state = rook_state;
                            }
                        },
                        Color::Black => {
                            if state.location.0 == 8 && state.location.1 == 3 {
                                let rook_state = new_board.board[7][0].piece_state;
                                new_board.board[7][0].piece_state = None;
                                new_board.board[7][3].piece_state = rook_state;
                            } else if state.location.0 == 8 && state.location.1 == 7 {
                                let rook_state = new_board.board[7][7].piece_state;
                                new_board.board[7][7].piece_state = None;
                                new_board.board[7][5].piece_state = rook_state;
                            }
                        },
                    }
                }
            }
        }
        new_board
    }

    /// The state after the move (see `updated_state`).
    pub fn update_board_state(&self, board_state: BoardState, mv: &Move, board: &Board) -> (res: BoardState)
        requires
            mv.current_square.row <= i32::MAX,
            mv.previous_square.row <= i32::MAX,
        ensures
            res == updated_state(board_state, *mv, *board),
    {
        let mut new_state = board_state;
        new_state.white_state.en_passant = None;
        new_state.black_state.en_passant = None;
        if let Some(piece_state) = mv.previous_square.piece_state {
            if piece_state.piece == Piece::Pawn {
                let row_diff = mv.current_square.row as i32 - mv.previous_square.row as i32;
                if row_diff == 2 {
                    new_state.white_state.en_passant = access_board(board, mv.current_square.row, mv.current_square.column);
                } else if row_diff == -2 {
                    new_state.black_state.en_passant = access_board(board, mv.current_square.row, mv.current_square.column);
                }
            }
        }
        new_state
    }

    /// The number of positions at the end of all move sequences of length `depth`.
    pub fn perft(&self, board: &Board, color: Color, depth: u32, board_state: BoardState) -> (nodes: u64)
        requires
            board.wf(),
            fits(*board, color, board_state, depth as int),
            perft_spec(*board, color, board_state, depth as nat) <= u64::MAX,
        ensures
            nodes == perft_spec(*board, color, board_state, depth as nat),
        decreases depth,
    {
        if depth == 0 {
            return 1;
        }
        let mut move_list = MoveList::new();
        move_list.generate_moves(board, color, board_state);
        let ghost gen = generated_moves(*board, color, board_state);
        assert(move_list.moves@.subrange(0, move_list.move_count as int) =~= gen);
        let mut nodes: u64 = 0;
        let mut index: usize = 0;
        while index < move_list.move_count
            invariant
                board.wf(),
                depth >= 1,
                move_list.move_count == gen.len(),
                gen.len() <= 218,
                gen == generated_moves(*board, color, board_state),
                forall|i: int| 0 <= i < gen.len() ==> #[trigger] move_list.moves[i] == gen[i],
                fits(*board, color, board_state, depth as int),
                perft_spec(*board, color, board_state, depth as nat) <= u64::MAX,
                index <= gen.len(),
                nodes == perft_sum(*board, color, board_state, depth as nat, index as nat),
            decreases move_list.move_count - index,
        {
            assert(move_list.moves[index as int] == move_list.moves@.subrange(0, move_list.move_count as int)[index as int]);
            proof {
                lemma_child_wf(*board, color, board_state, index as int);
                lemma_perft_sum_grows(*board, color, board_state, depth as nat, (index + 1) as nat, gen.len());
            }
            let mv = move_list.moves[index];
            let new_board = self.setup_new_board(board, index, &move_list);
            let new_board_state = self.update_board_state(board_state, &mv, board);
            let next_color = match color {
                Color::White => Color::Black,
                Color::Black => Color::White,
            };
            assert(new_board == child_board(*board, color, board_state, index as int));
            assert(new_board_state == child_state(*board, color, board_state, index as int));
            proof {
                lemma_fits_child(*board, color, board_state, depth as int, index as int);
            }
            assert(fits(
                child_board(*board, color, board_state, index as int),
                other(color),
                child_state(*board, color, board_state, index as int),
                depth - 1,
            ));
            let count = self.perft(&new_board, next_color, depth - 1, new_board_state);
            nodes = nodes + count;
            index += 1;
        }
        nodes
    }
}

impl PVS {
    /// Principal variation search (see `search_spec`): at depth 0 the evaluation from the
    /// side of `color`, with no move `i32::MIN + 1`, else the best score found, cut off at `beta`.
    pub fn search(
        &self,
        alpha: i32,
        beta: i32,
        depth_left: i32,
        board: &Board,
        color: Color,
        board_state: BoardState,
    ) -> (score: i32)
        requires
            board.wf(),
            depth_left >= 0,
            fits(*board, color, board_state, depth_left as int),
            depth_left > 0 ==> i32::MIN + 1 <= alpha && i32::MIN + 1 <= beta,
        ensures
            score == search_spec(alpha as int, beta as int, depth_left as int, *board, color, board_state),
            score >= i32::MIN + 1,
        decreases depth_left,
    {
        if depth_left == 0 {
            return match color {
                Color::White => calculate_material(board),
                Color::Black => -calculate_material(board),
            };
        }
        let mut move_list = MoveList::new();
        move_list.generate_moves(board, color, board_state);
        let ghost gen = generated_moves(*board, color, board_state);
        assert(move_list.moves@.subrange(0, move_list.move_count as int) =~= gen);
        if move_list.move_count == 0 {
            return i32::MIN + 1;
        }
        let ghost alpha0 = alpha as int;
        let mut alpha = alpha;
        let mut index: usize = 0;
        while index < move_list.move_count
            invariant_except_break
                board.wf(),
                depth_left >= 1,
                move_list.move_count == gen.len(),
                gen.len() <= 218,
                gen.len() > 0,
                gen == generated_moves(*board, color, board_state),
                forall|i: int| 0 <= i < gen.len() ==> #[trigger] move_list.moves[i] == gen[i],
                fits(*board, color, board_state, depth_left as int),
                i32::MIN + 1 <= alpha,
                i32::MIN + 1 <= beta,
                index <= gen.len(),
                index > 0 ==> alpha < beta,
                search_spec(alpha0, beta as int, depth_left as int, *board, color, board_state) == search_loop(
                    alpha as int,
                    beta as int,
                    depth_left as int,
                    *board,
                    color,
                    board_state,
                    index as int,
                ),
            ensures
                i32::MIN + 1 <= alpha,
                search_spec(alpha0, beta as int, depth_left as int, *board, color, board_state) == alpha,
            decreases move_list.move_count - index,
        {
            assert(move_list.moves[index as int] == move_list.moves@.subrange(0, move_list.move_count as int)[index as int]);
            proof {
                lemma_child_wf(*board, color, board_state, index as int);
                lemma_fits_child(*board, color, board_state, depth_left as int, index as int);
            }
            let mv = move_list.moves[index];
            let new_board = self.setup_new_board(board, index, &move_list);
            let new_board_state = self.update_board_state(board_state, &mv, board);
            let next = self.switch_color(color);
            assert(new_board == child_board(*board, color, board_state, index as int));
            assert(new_board_state == child_state(*board, color, board_state, index as int));
            let score: i32 = if index == 0 {
                -self.search(-beta, -alpha, depth_left - 1, &new_board, next, new_board_state)
            } else {
                let mut search_result = -self.search(-alpha - 1, -alpha, depth_left - 1, &new_board, next, new_board_state);
                if search_result > alpha && search_result < beta {
                    search_result = -self.search(-beta, -alpha, depth_left - 1, &new_board, next, new_board_state);
                }
                search_result
            };
            if score > alpha {
                alpha = score;
            }
            if alpha >= beta {
                break;
            }
            index += 1;
        }
        alpha
    }

    /// The move the search prefers for `color` (see `best_move_spec`): each move is scored by a
    /// search of its child with the window (-i32::MAX, -best score so far), and the first move
    /// with the highest score is kept; `None` when there is no move.
    pub fn best_move(&self, depth_left: i32, board: &Board, color: Color, board_state: BoardState) -> (res: Option<Move>)
        requires
            board.wf(),
            (depth_left >= 1 && fits(*board, color, board_state, depth_left as int)) || generated_moves(
                *board,
                color,
                board_state,
            ).len() == 0,
        ensures
            res == best_move_spec(depth_left as int, *board, color, board_state),
    {
        let mut move_list = MoveList::new();
        move_list.generate_moves(board, color, board_state);
        let ghost gen = generated_moves(*board, color, board_state);
        assert(move_list.moves@.subrange(0, move_list.move_count as int) =~= gen);
        if move_list.move_count == 0 {
            return None;
        }
        assert(move_list.moves[0] == move_list.moves@.subrange(0, move_list.move_count as int)[0]);
        let mut best_move = move_list.moves[0];
        let mut best_score: i32 = i32::MIN + 1;
        let mut alpha: i32 = i32::MIN + 1;
        let beta: i32 = i32::MAX;
        let ghost mut best_idx: int = 0;
        let mut index: usize = 0;
        while index < move_list.move_count
            invariant
                board.wf(),
                depth_left >= 1,
                move_list.move_count == gen.len(),
                gen.len() <= 218,
                gen.len() > 0,
                gen == generated_moves(*board, color, board_state),
                forall|i: int| 0 <= i < gen.len() ==> #[trigger] move_list.moves[i] == gen[i],
                fits(*board, color, board_state, depth_left as int),
                beta == i32::MAX,
                alpha == best_score,
                i32::MIN + 1 <= alpha,
                index <= gen.len(),
                0 <= best_idx < gen.len(),
                best_move == gen[best_idx],
                best_loop(depth_left as int, *board, color, board_state, 0, 0, min_score(), min_score())
                    == best_loop(depth_left as int, *board, color, board_state, index as int, best_idx, best_score as int, alpha as int),
            decreases move_list.move_count - index,
        {
            assert(move_list.moves[index as int] == move_list.moves@.subrange(0, move_list.move_count as int)[index as int]);
            proof {
                lemma_child_wf(*board, color, board_state, index as int);
                lemma_fits_child(*board, color, board_state, depth_left as int, index as int);
            }
            let mv = move_list.moves[index];
            let new_board = self.setup_new_board(board, index, &move_list);
            let new_board_state = self.update_board_state(board_state, &mv, board);
            assert(new_board == child_board(*board, color, board_state, index as int));
            assert(new_board_state == child_state(*board, color, board_state, index as int));
            let score = -self.search(-beta, -alpha, depth_left - 1, &new_board, self.switch_color(color), new_board_state);
            if score > best_score {
                best_score = score;
                best_move = move_list.moves[index];
                alpha = score;
                proof {
                    best_idx = index as int;
                }
            }
            index += 1;
        }
        Some(best_move)
    }

    /// For each move, in order, the move and the number of positions at the end of all move
    /// sequences of length `depth` that start with it.
    pub fn perft_divide(&self, board: &Board, color: Color, depth: u32, board_state: BoardState) -> (counts: Vec<(Move, u64)>)
        requires
            board.wf(),
            depth >= 1,
            fits(*board, color, board_state, depth as int),
            perft_spec(*board, color, board_state, depth as nat) <= u64::MAX,
        ensures
            counts@.len() == generated_moves(*board, color, board_state).len(),
            forall|i: int|
                0 <= i < counts@.len() ==> #[trigger] counts@[i] == (
                    generated_moves(*board, color, board_state)[i],
                    perft_spec(
                        child_board(*board, color, board_state, i),
                        other(color),
                        child_state(*board, color, board_state, i),
                        (depth - 1) as nat,
                    ) as u64,
                ),
    {
        let mut move_list = MoveList::new();
        move_list.generate_moves(board, color, board_state);
        let ghost gen = generated_moves(*board, color, board_state);
        assert(move_list.moves@.subrange(0, move_list.move_count as int) =~= gen);
        let mut counts: Vec<(Move, u64)> = Vec::new();
        let mut total: u64 = 0;
        let mut index: usize = 0;
        while index < move_list.move_count
            invariant
                board.wf(),
                depth >= 1,
                move_list.move_count == gen.len(),
                gen.len() <= 218,
                gen == generated_moves(*board, color, board_state),
                forall|i: int| 0 <= i < gen.len() ==> #[trigger] move_list.moves[i] == gen[i],
                fits(*board, color, board_state, depth as int),
                perft_spec(*board, color, board_state, depth as nat) <= u64::MAX,
                index <= gen.len(),
                counts@.len() == index,
                total == perft_sum(*board, color, board_state, depth as nat, index as nat),
                forall|i: int|
                    0 <= i < index ==> #[trigger] counts@[i] == (
                        gen[i],
                        perft_spec(
                            child_board(*board, color, board_state, i),
                            other(color),
                            child_state(*board, color, board_state, i),
                            (depth - 1) as nat,
                        ) as u64,
                    ),
            decreases move_list.move_count - index,
        {
            assert(move_list.moves[index as int] == move_list.moves@.subrange(0, move_list.move_count as int)[index as int]);
            proof {
                lemma_child_wf(*board, color, board_state, index as int);
                lemma_fits_child(*board, color, board_state, depth as int, index as int);
                lemma_perft_sum_grows(*board, color, board_state, depth as nat, (index + 1) as nat, gen.len());
            }
            let mv = move_list.moves[index];
            let new_board = self.setup_new_board(board, index, &move_list);
            let next_color = self.switch_color(color);
            let updated_board = self.update_board_state(board_state, &mv, board);
            assert(new_board == child_board(*board, color, board_state, index as int));
            assert(updated_board == child_state(*board, color, board_state, index as int));
            let count = self.perft(&new_board, next_color, depth - 1, updated_board);
            counts.push((mv, count));
            total = total + count;
            index += 1;
        }
        counts
    }
}

proof fn lemma_fits_children(b: Board, color: Color, bs: BoardState, depth: int, k: int, i: int)
    requires
        depth >= 1,
        fits_children(b, color, bs, depth, k),
        0 <= i < k,
    ensures
        fits(child_board(b, color, bs, i), other(color), child_state(b, color, bs, i), depth - 1),
    decreases k,
{
    if i < k - 1 {
        lemma_fits_children(b, color, bs, depth, k - 1, i);
    }
}

proof fn lemma_fits_child(b: Board, color: Color, bs: BoardState, depth: int, i: int)
    requires
        depth >= 1,
        fits(b, color, bs, depth),
        0 <= i < generated_moves(b, color, bs).len(),
    ensures
        fits(child_board(b, color, bs, i), other(color), child_state(b, color, bs, i), depth - 1),
        generated_moves(b, color, bs).len() <= 218,
{
    lemma_fits_children(b, color, bs, depth, generated_moves(b, color, bs).len() as int, i);
}

proof fn lemma_perft_sum_grows(b: Board, color: Color, bs: BoardState, depth: nat, k: nat, n: nat)
    requires
        k <= n,
    ensures
        perft_sum(b, color, bs, depth, k) <= perft_sum(b, color, bs, depth, n),
    decreases n - k,
{
    if k < n {
        lemma_perft_sum_grows(b, color, bs, depth, k, (n - 1) as nat);
    }
}

/// The sum of the counts of a divide.
pub open spec fn divide_total(counts: Seq<(Move, u64)>) -> int
    decreases counts.len(),
{
    if counts.len() == 0 {
        0
    } else {
        divide_total(counts.drop_last()) + counts.last().1
    }
}

/// Dividing a perft count by first move loses nothing: the counts that `perft_divide` lists
/// add up to what `perft` counts.
pub proof fn lemma_divide_total_is_perft(b: Board, color: Color, bs: BoardState, depth: nat, counts: Seq<(Move, u64)>)
    requires
        depth >= 1,
        perft_spec(b, color, bs, depth) <= u64::MAX,
        counts.len() == generated_moves(b, color, bs).len(),
        forall|i: int|
            0 <= i < counts.len() ==> #[trigger] counts[i] == (
                generated_moves(b, color, bs)[i],
                perft_spec(child_board(b, color, bs, i), other(color), child_state(b, color, bs, i), (depth - 1) as nat)
                    as u64,
            ),
    ensures
        divide_total(counts) == perft_spec(b, color, bs, depth),
{
    lemma_divide_prefix(b, color, bs, depth, counts, counts.len() as int);
    assert(counts.take(counts.len() as int) == counts);
}

proof fn lemma_divide_prefix(b: Board, color: Color, bs: BoardState, depth: nat, counts: Seq<(Move, u64)>, k: int)
    requires
        depth >= 1,
        0 <= k <= counts.len(),
        perft_spec(b, color, bs, depth) <= u64::MAX,
        counts.len() == generated_moves(b, color, bs).len(),
        forall|i: int|
            0 <= i < counts.len() ==> #[trigger] counts[i] == (
                generated_moves(b, color, bs)[i],
                perft_spec(child_board(b, color, bs, i), other(color), child_state(b, color, bs, i), (depth - 1) as nat)
                    as u64,
            ),
    ensures
        divide_total(counts.take(k)) == perft_sum(b, color, bs, depth, k as nat),
    decreases k,
{
    if k > 0 {
        lemma_divide_prefix(b, color, bs, depth, counts, k - 1);
        assert(counts.take(k).drop_last() == counts.take(k - 1));
        lemma_perft_sum_grows(b, color, bs, depth, k as nat, counts.len());
        assert(counts[k - 1] == counts.take(k).last());
    } else {
        assert(counts.take(0).len() == 0);
    }
}

proof fn lemma_search_loop_at_least_alpha(alpha: int, beta: int, depth: int, b: Board, color: Color, bs: BoardState, idx: int)
    ensures
        search_loop(alpha, beta, depth, b, color, bs, idx) >= alpha,
    decreases generated_moves(b, color, bs).len() - idx,
{
    if !(depth <= 0 || idx < 0 || idx >= generated_moves(b, color, bs).len()) {
        let cb = child_board(b, color, bs, idx);
        let cs = child_state(b, color, bs, idx);
        let oc = other(color);
        let score = if idx == 0 {
            -search_spec(-beta, -alpha, depth - 1, cb, oc, cs)
        } else {
            let r = -search_spec(-alpha - 1, -alpha, depth - 1, cb, oc, cs);
            if r > alpha && r < beta {
                -search_spec(-beta, -alpha, depth - 1, cb, oc, cs)
            } else {
                r
            }
        };
        let a2 = if alpha >= score {
            alpha
        } else {
            score
        };
        if a2 < beta {
            lemma_search_loop_at_least_alpha(a2, beta, depth, b, color, bs, idx + 1);
        }
    }
}

/// The search never scores a position with moves below the lower end of its window: with
/// depth left and a move to play, the score is at least `alpha`; with no move, it is the
/// lowest score.
pub proof fn lemma_search_at_least_alpha(alpha: int, beta: int, depth: int, b: Board, color: Color, bs: BoardState)
    ensures
        depth > 0 && generated_moves(b, color, bs).len() > 0 ==> search_spec(alpha, beta, depth, b, color, bs) >= alpha,
        depth > 0 && generated_moves(b, color, bs).len() == 0 ==> search_spec(alpha, beta, depth, b, color, bs)
            == min_score(),
        depth <= 0 ==> search_spec(alpha, beta, depth, b, color, bs) == leaf_score(b, color),
{
    if depth > 0 && generated_moves(b, color, bs).len() > 0 {
        lemma_search_loop_at_least_alpha(alpha, beta, depth, b, color, bs, 0);
    }
}

proof fn lemma_best_loop_in_range(
    depth: int,
    b: Board,
    color: Color,
    bs: BoardState,
    idx: int,
    best_idx: int,
    best_score: int,
    alpha: int,
)
    requires
        0 <= best_idx < generated_moves(b, color, bs).len(),
        0 <= idx,
    ensures
        0 <= best_loop(depth, b, color, bs, idx, best_idx, best_score, alpha) < generated_moves(b, color, bs).len(),
    decreases generated_moves(b, color, bs).len() - idx,
{
    if idx < generated_moves(b, color, bs).len() {
        let score = -search_spec(
            -(i32::MAX as int),
            -alpha,
            depth - 1,
            child_board(b, color, bs, idx),
            other(color),
            child_state(b, color, bs, idx),
        );
        if score > best_score {
            lemma_best_loop_in_range(depth, b, color, bs, idx + 1, idx, score, score);
        } else {
            lemma_best_loop_in_range(depth, b, color, bs, idx + 1, best_idx, best_score, alpha);
        }
    }
}

/// The move `best_move` answers is one of the side's legal moves, and there is an answer
/// exactly when the side has a move.
pub proof fn lemma_best_move_is_generated(depth: int, b: Board, color: Color, bs: BoardState)
    ensures
        best_move_spec(depth, b, color, bs) is Some <==> generated_moves(b, color, bs).len() > 0,
        best_move_spec(depth, b, color, bs) matches Some(m) ==> exists|i: int|
            0 <= i < generated_moves(b, color, bs).len() && #[trigger] generated_moves(b, color, bs)[i] == m,
{
    if generated_moves(b, color, bs).len() > 0 {
        lemma_best_loop_in_range(depth, b, color, bs, 0, 0, min_score(), min_score());
        let i = best_loop(depth, b, color, bs, 0, 0, min_score(), min_score());
        assert(generated_moves(b, color, bs)[i] == best_move_spec(depth, b, color, bs)->0);
    }
}

proof fn lemma_perft_sum_one(b: Board, color: Color, bs: BoardState, k: nat)
    ensures
        perft_sum(b, color, bs, 1, k) == k,
    decreases k,
{
    if k > 0 {
        lemma_perft_sum_one(b, color, bs, (k - 1) as nat);
        assert(perft_spec(child_board(b, color, bs, k - 1), other(color), child_state(b, color, bs, k - 1), 0) == 1);
    }
}

/// One ply deep, perft counts the side's legal moves.
pub proof fn lemma_perft_one_counts_moves(b: Board, color: Color, bs: BoardState)
    ensures
        perft_spec(b, color, bs, 1) == generated_moves(b, color, bs).len(),
{
    lemma_perft_sum_one(b, color, bs, generated_moves(b, color, bs).len());
}

/// The negamax value of the position for `color`, `depth` plies deep, with no window: the
/// evaluation at depth 0, the lowest score when there is no move, else the best over the
/// moves of the negated value of the position after the move.
pub open spec fn negamax(depth: int, b: Board, color: Color, bs: BoardState) -> int
    decreases depth, 1int, 0int,
{
    if depth <= 0 {
        leaf_score(b, color)
    } else if generated_moves(b, color, bs).len() == 0 {
        min_score()
    } else {
        best_child(depth, b, color, bs, 0)
    }
}

/// The best negated negamax value over the moves from index `idx` on.
pub open spec fn best_child(depth: int, b: Board, color: Color, bs: BoardState, idx: int) -> int
    decreases depth, 0int, generated_moves(b, color, bs).len() - idx,
{
    if depth <= 0 || idx < 0 || idx >= generated_moves(b, color, bs).len() {
        min_score()
    } else {
        let v = -negamax(depth - 1, child_board(b, color, bs, idx), other(color), child_state(b, color, bs, idx));
        if idx + 1 >= generated_moves(b, color, bs).len() {
            v
        } else {
            let w = best_child(depth, b, color, bs, idx + 1);
            if v >= w {
                v
            } else {
                w
            }
        }
    }
}

proof fn lemma_pvs_loop(a: int, beta: int, depth: int, b: Board, color: Color, bs: BoardState, idx: int)
    requires
        a < beta,
        depth > 0,
        0 <= idx < generated_moves(b, color, bs).len(),
    ensures
        ({
            let r = search_loop(a, beta, depth, b, color, bs, idx);
            let m = best_child(depth, b, color, bs, idx);
            &&& r >= a
            &&& r == a ==> m <= a
            &&& a < r < beta ==> m == r
            &&& r >= beta ==> m >= r
        }),
    decreases depth, 0int, generated_moves(b, color, bs).len() - idx,
{
    let n = generated_moves(b, color, bs).len();
    let cb = child_board(b, color, bs, idx);
    let cs = child_state(b, color, bs, idx);
    let oc = other(color);
    let v = -negamax(depth - 1, cb, oc, cs);
    lemma_pvs(-beta, -a, depth - 1, cb, oc, cs);
    if idx > 0 {
        lemma_pvs(-a - 1, -a, depth - 1, cb, oc, cs);
    }
    let score = if idx == 0 {
        -search_spec(-beta, -a, depth - 1, cb, oc, cs)
    } else {
        let r = -search_spec(-a - 1, -a, depth - 1, cb, oc, cs);
        if r > a && r < beta {
            -search_spec(-beta, -a, depth - 1, cb, oc, cs)
        } else {
            r
        }
    };
    assert(score >= beta ==> v >= score);
    assert(a < score < beta ==> v == score);
    assert(score <= a ==> v <= score);
    let a2 = if a >= score { a } else { score };
    assert(search_loop(a, beta, depth, b, color, bs, idx) == if a2 >= beta {
        a2
    } else {
        search_loop(a2, beta, depth, b, color, bs, idx + 1)
    });
    if idx + 1 < n {
        let w = best_child(depth, b, color, bs, idx + 1);
        assert(best_child(depth, b, color, bs, idx) == if v >= w { v } else { w });
        if a2 < beta {
            lemma_pvs_loop(a2, beta, depth, b, color, bs, idx + 1);
        }
    } else {
        assert(best_child(depth, b, color, bs, idx) == v);
        assert(search_loop(a2, beta, depth, b, color, bs, idx + 1) == a2);
    }
}

/// Principal variation search is exact inside its window: for `alpha < beta`, a result at or
/// below `alpha` bounds the negamax value from above, a result strictly inside the window is
/// the negamax value, and a result at or above `beta` bounds it from below.  So when the
/// negamax value lies strictly inside the window, the search returns it.
pub proof fn lemma_pvs(alpha: int, beta: int, depth: int, b: Board, color: Color, bs: BoardState)
    requires
        alpha < beta,
    ensures
        ({
            let r = search_spec(alpha, beta, depth, b, color, bs);
            let v = negamax(depth, b, color, bs);
            &&& r <= alpha ==> v <= r
            &&& alpha < r < beta ==> v == r
            &&& r >= beta ==> v >= r
            &&& alpha < v < beta ==> r == v
        }),
    decreases depth, 1int, 0int,
{
    if depth > 0 && generated_moves(b, color, bs).len() > 0 {
        lemma_pvs_loop(alpha, beta, depth, b, color, bs, 0);
    }
}

proof fn lemma_negamax_range(depth: int, b: Board, color: Color, bs: BoardState)
    ensures
        min_score() <= negamax(depth, b, color, bs) <= i32::MAX,
    decreases depth, 1int, 0int,
{
    lemma_evaluation_bound(b);
    if depth > 0 && generated_moves(b, color, bs).len() > 0 {
        lemma_best_child_range(depth, b, color, bs, 0);
    }
}

proof fn lemma_best_child_range(depth: int, b: Board, color: Color, bs: BoardState, idx: int)
    ensures
        min_score() <= best_child(depth, b, color, bs, idx) <= i32::MAX,
    decreases depth, 0int, generated_moves(b, color, bs).len() - idx,
{
    if !(depth <= 0 || idx < 0 || idx >= generated_moves(b, color, bs).len()) {
        lemma_negamax_range(depth - 1, child_board(b, color, bs, idx), other(color), child_state(b, color, bs, idx));
        if idx + 1 < generated_moves(b, color, bs).len() {
            lemma_best_child_range(depth, b, color, bs, idx + 1);
        }
    }
}

/// The negated negamax value of the position after move `i`: what that move is worth to the
/// side that plays it.
pub open spec fn move_value(depth: int, b: Board, color: Color, bs: BoardState, i: int) -> int {
    -negamax(depth - 1, child_board(b, color, bs, i), other(color), child_state(b, color, bs, i))
}

proof fn lemma_best_loop_max(depth: int, b: Board, color: Color, bs: BoardState, idx: int, k: int, best: int)
    requires
        depth >= 1,
        0 <= k < generated_moves(b, color, bs).len(),
        0 <= idx <= generated_moves(b, color, bs).len(),
        min_score() <= best <= i32::MAX,
        forall|j: int| 0 <= j < idx ==> #[trigger] move_value(depth, b, color, bs, j) <= best,
        move_value(depth, b, color, bs, k) >= best,
    ensures
        ({
            let w = best_loop(depth, b, color, bs, idx, k, best, best);
            &&& 0 <= w < generated_moves(b, color, bs).len()
            &&& forall|j: int|
                0 <= j < generated_moves(b, color, bs).len() ==> #[trigger] move_value(depth, b, color, bs, j)
                    <= move_value(depth, b, color, bs, w)
        }),
    decreases generated_moves(b, color, bs).len() - idx,
{
    let n = generated_moves(b, color, bs).len();
    if idx < n {
        let cb = child_board(b, color, bs, idx);
        let cs = child_state(b, color, bs, idx);
        let oc = other(color);
        let v = move_value(depth, b, color, bs, idx);
        lemma_negamax_range(depth - 1, cb, oc, cs);
        lemma_evaluation_bound(cb);
        lemma_search_at_least_alpha(-(i32::MAX as int), -best, depth - 1, cb, oc, cs);
        let score = -search_spec(-(i32::MAX as int), -best, depth - 1, cb, oc, cs);
        assert(score <= i32::MAX);
        if best < i32::MAX {
            lemma_pvs(-(i32::MAX as int), -best, depth - 1, cb, oc, cs);
        }
        if score > best {
            assert(v >= score);
            lemma_best_loop_max(depth, b, color, bs, idx + 1, idx, score);
        } else {
            assert(v <= best);
            lemma_best_loop_max(depth, b, color, bs, idx + 1, k, best);
        }
    } else {
        assert(best_loop(depth, b, color, bs, idx, k, best, best) == k);
    }
}

/// `best_move` answers a move of greatest value: with depth left, the move it chooses is
/// worth, by negamax over the remaining depth, at least as much as every other move.
pub proof fn lemma_best_move_is_best(depth: int, b: Board, color: Color, bs: BoardState)
    requires
        depth >= 1,
        generated_moves(b, color, bs).len() > 0,
    ensures
        exists|k: int|
            0 <= k < generated_moves(b, color, bs).len() && best_move_spec(depth, b, color, bs) == Some(
                generated_moves(b, color, bs)[k],
            ) && forall|j: int|
                0 <= j < generated_moves(b, color, bs).len() ==> #[trigger] move_value(depth, b, color, bs, j)
                    <= move_value(depth, b, color, bs, k),
{
    lemma_negamax_range(depth - 1, child_board(b, color, bs, 0), other(color), child_state(b, color, bs, 0));
    lemma_best_loop_max(depth, b, color, bs, 0, 0, min_score());
    let k = best_loop(depth, b, color, bs, 0, 0, min_score(), min_score());
    assert(best_move_spec(depth, b, color, bs) == Some(generated_moves(b, color, bs)[k]));
}

} // verus!
