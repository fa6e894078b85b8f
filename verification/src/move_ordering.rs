use vstd::prelude::*;

use crate::material::{calculate_material, evaluation};
use crate::moves::{
    all_sound, lemma_all_sound_concat, lemma_generators_sound, move_sound, black_pawn_moves, empty_move, empty_move_spec, get_bishop_moves, get_black_pawn_moves,
    get_king_moves, get_knight_moves, get_queen_moves, get_rook_moves, get_white_pawn_moves,
    king_moves, knight_moves, mask_fn, slider_moves, white_pawn_moves, Move,
};
use crate::pieces::{on_board, with_piece, with_square, Board, BoardState, Color, Piece, PieceState};
use crate::utils::{check_mask_at, create_check_mask, is_legal_move, king_square, legal_spec};

verus! {

/// The capacity of a move list.
pub const MAX_MOVES: usize = 218;

/// A fixed-capacity list of moves with a score for each: the first `move_count` slots are in use.
pub struct MoveList {
    pub moves: [Move; 218],
    pub score: [i32; 218],
    pub move_count: usize,
}

/// The moves of the piece in `st`, by its kind (pawns by their colour).
pub open spec fn piece_moves(st: PieceState, b: Board, bs: BoardState, mask: spec_fn(int, int) -> bool) -> Seq<Move> {
    match st.piece {
        Piece::Pawn => match st.color {
            Color::White => white_pawn_moves(st, b, bs, mask),
            Color::Black => black_pawn_moves(st, b, bs, mask),
        },
        Piece::Bishop => slider_moves(st, b, mask, 0),
        Piece::Knight => knight_moves(st, b, mask),
        Piece::Rook => slider_moves(st, b, mask, 1),
        Piece::Queen => slider_moves(st, b, mask, 2),
        Piece::King => king_moves(st, b, mask),
    }
}

/// The moves of `s` after which the king of `color` is not attacked, in order.
pub open spec fn keep_legal(s: Seq<Move>, b: Board, color: Color) -> Seq<Move>
    decreases s.len(),
{
    if s.len() == 0 {
        Seq::empty()
    } else {
        keep_legal(s.drop_last(), b, color) + if legal_spec(b, s.last(), color) {
            seq![s.last()]
        } else {
            Seq::empty()
        }
    }
}

/// The legal moves of the pieces of `color` on the first `k` squares, row-major.
pub open spec fn moves_upto(b: Board, color: Color, bs: BoardState, mask: spec_fn(int, int) -> bool, k: int) -> Seq<Move>
    decreases k,
{
    if k <= 0 {
        Seq::empty()
    } else {
        moves_upto(b, color, bs, mask, k - 1) + match b.board[(k - 1) / 8][(k - 1) % 8].piece_state {
            Some(s) => if s.color == color {
                keep_legal(piece_moves(s, b, bs, mask), b, color)
            } else {
                Seq::empty()
            },
            None => Seq::empty(),
        }
    }
}

/// The check mask of the king of `color` as a predicate: every square when there is no such king.
pub open spec fn board_mask(b: Board, color: Color) -> spec_fn(int, int) -> bool {
    |r: int, c: int|
        on_board(r, c) && match king_square(b, color) {
            None => true,
            Some(k) => check_mask_at(b, k.row as int, k.column as int, color, r, c),
        }
}

/// The moves `generate_moves` lists for `color`, square by square, row-major: the legal ones.
pub open spec fn generated_moves(b: Board, color: Color, bs: BoardState) -> Seq<Move> {
    moves_upto(b, color, bs, board_mask(b, color), 64)
}

proof fn lemma_moves_upto_grows(b: Board, color: Color, bs: BoardState, mask: spec_fn(int, int) -> bool, k: int, n: int)
    requires
        0 <= k <= n,
    ensures
        moves_upto(b, color, bs, mask, k).len() <= moves_upto(b, color, bs, mask, n).len(),
    decreases n - k,
{
    if k < n {
        lemma_moves_upto_grows(b, color, bs, mask, k, n - 1);
    }
}

/// The board on which a move is scored: its origin emptied and its destination square
/// replaced by the move's.
pub open spec fn scored_board(b: Board, mv: Move) -> Board {
    let b0 = with_piece(b, mv.previous_square.row - 1, mv.previous_square.column - 1, None);
    with_square(b0, mv.current_square.row - 1, mv.current_square.column - 1, mv.current_square)
}

/// Both squares of the move lie on the board.
pub open spec fn squares_on_board(mv: Move) -> bool {
    &&& on_board(mv.previous_square.row as int, mv.previous_square.column as int)
    &&& on_board(mv.current_square.row as int, mv.current_square.column as int)
}

/// The (score, move) pairs of the first `n` slots.
pub open spec fn pairs_of(scores: Seq<i32>, moves: Seq<Move>, n: int) -> Seq<(i32, Move)> {
    Seq::new(n as nat, |i: int| (scores[i], moves[i]))
}

/// The pairs are sorted by score, highest first.
pub open spec fn sorted_desc(p: Seq<(i32, Move)>) -> bool {
    forall|i: int, j: int| 0 <= i <= j < p.len() ==> p[i].0 >= p[j].0
}

/// Sorts the pairs by score, highest first; equal scores end in no particular order
/// (the std `sort_unstable_by_key` with a reversed key).
#[verifier::external_body]
fn sort_by_score_desc(pairs: &mut Vec<(i32, Move)>)
    ensures
        final(pairs)@.to_multiset() == old(pairs)@.to_multiset(),
        final(pairs)@.len() == old(pairs)@.len(),
        sorted_desc(final(pairs)@),
{
    pairs.sort_unstable_by_key(|pair| std::cmp::Reverse(pair.0));
}

/// Keeps the moves after which the king of `color` is not attacked.
fn retain_legal(moves: Vec<Move>, board: &Board, color: Color) -> (res: Vec<Move>)
    requires
        board.coords_ok(),
        all_sound(moves@),
    ensures
        res@ == keep_legal(moves@, *board, color),
{
    let mut res: Vec<Move> = Vec::new();
    let mut i: usize = 0;
    while i < moves.len()
        invariant
            i <= moves@.len(),
            board.coords_ok(),
            all_sound(moves@),
            res@ == keep_legal(moves@.subrange(0, i as int), *board, color),
        decreases moves@.len() - i,
    {
        assert(moves@.subrange(0, i + 1).drop_last() =~= moves@.subrange(0, i as int));
        assert(move_sound(moves@[i as int]));
        if is_legal_move(&moves[i], board, color) {
            res.push(moves[i]);
        }
        i += 1;
    }
    assert(moves@.subrange(0, moves@.len() as int) =~= moves@);
    res
}

impl MoveList {
    /// An empty list: no move in use, every slot the placeholder move with score 0.
    pub fn new() -> (list: Self)
        ensures
            list.move_count == 0,
            forall|i: int| 0 <= i < 218 ==> #[trigger] list.moves[i] == empty_move_spec(),
            forall|i: int| 0 <= i < 218 ==> #[trigger] list.score[i] == 0,
    {
        let e = empty_move();
        Self { moves: [e; 218], score: [0; 218], move_count: 0 }
    }

    /// Puts a move in the next free slot.
    pub fn push(&mut self, mv: Move)
        requires
            old(self).move_count < 218,
        ensures
            final(self).moves@ == old(self).moves@.update(old(self).move_count as int, mv),
            final(self).move_count == old(self).move_count + 1,
            final(self).score == old(self).score,
    {
        self.moves[self.move_count] = mv;
        self.move_count += 1;
    }

    /// Puts the moves, in order, in the next free slots.
    pub fn extend(&mut self, moves: Vec<Move>)
        requires
            old(self).move_count + moves@.len() <= 218,
        ensures
            final(self).move_count == old(self).move_count + moves@.len(),
            final(self).moves@ == old(self).moves@.subrange(0, old(self).move_count as int) + moves@
                + old(self).moves@.subrange(final(self).move_count as int, 218),
            final(self).score == old(self).score,
    {
        let ghost start = self.move_count as int;
        let mut i: usize = 0;
        while i < moves.len()
            invariant
                i <= moves@.len(),
                start + moves@.len() <= 218,
                self.move_count == start + i,
                self.moves@.len() == 218,
                self.moves@ == old(self).moves@.subrange(0, start) + moves@.subrange(0, i as int)
                    + old(self).moves@.subrange(start + i, 218),
                self.score == old(self).score,
            decreases moves@.len() - i,
        {
            let ghost before = self.moves@;
            self.push(moves[i]);
            assert(self.moves@ =~= old(self).moves@.subrange(0, start) + moves@.subrange(0, i + 1)
                + old(self).moves@.subrange(start + i + 1, 218));
            i += 1;
        }
        assert(moves@.subrange(0, moves@.len() as int) =~= moves@);
    }

    /// Lists, after the moves already there, the moves of every piece of `color`, square by
    /// square, row-major, each generator given the check mask of `color`'s king, keeping
    /// only the moves after which that king is not attacked.
    pub fn generate_moves(&mut self, board: &Board, color: Color, board_state: BoardState)
        requires
            board.wf(),
            old(self).move_count + generated_moves(*board, color, board_state).len() <= 218,
        ensures
            final(self).move_count == old(self).move_count + generated_moves(*board, color, board_state).len(),
            final(self).moves@ == old(self).moves@.subrange(0, old(self).move_count as int)
                + generated_moves(*board, color, board_state) + old(self).moves@.subrange(
                final(self).move_count as int,
                218,
            ),
            final(self).score == old(self).score,
    {
        let check_mask = create_check_mask(board, color);
        let ghost mask = board_mask(*board, color);
        assert(mask_fn(check_mask) =~= mask);
        let ghost start = self.move_count as int;
        let ghost all = generated_moves(*board, color, board_state);
        proof {
            lemma_moves_upto_grows(*board, color, board_state, mask, 0, 64);
        }
        let mut row: usize = 0;
        while row <= 7
            invariant
                row <= 8,
                board.wf(),
                mask_fn(check_mask) == mask,
                mask == board_mask(*board, color),
                all == moves_upto(*board, color, board_state, mask, 64),
                start + all.len() <= 218,
                self.move_count == start + moves_upto(*board, color, board_state, mask, row * 8).len(),
                self.moves@ == old(self).moves@.subrange(0, start) + moves_upto(*board, color, board_state, mask, row * 8)
                    + old(self).moves@.subrange(self.move_count as int, 218),
                self.score == old(self).score,
            decreases 8 - row,
        {
            let mut col: usize = 0;
            while col <= 7
                invariant
                    row < 8,
                    col <= 8,
                    board.wf(),
                    mask_fn(check_mask) == mask,
                    mask == board_mask(*board, color),
                    all == moves_upto(*board, color, board_state, mask, 64),
                    start + all.len() <= 218,
                    self.move_count == start + moves_upto(*board, color, board_state, mask, row * 8 + col).len(),
                    self.moves@ == old(self).moves@.subrange(0, start) + moves_upto(
                        *board,
                        color,
                        board_state,
                        mask,
                        row * 8 + col,
                    ) + old(self).moves@.subrange(self.move_count as int, 218),
                    self.score == old(self).score,
                decreases 8 - col,
            {
                let ghost k: int = row * 8 + col;
                assert(k / 8 == row && k % 8 == col);
                proof {
                    lemma_moves_upto_grows(*board, color, board_state, mask, k + 1, 64);
                }
                if let Some(piece_state) = board.board[row][col].piece_state {
                    if piece_state.color == color {
                        let found: Vec<Move> = match piece_state.piece {
                            Piece::Pawn => match piece_state.color {
                                Color::White => get_white_pawn_moves(piece_state, board, board_state, &check_mask),
                                Color::Black => get_black_pawn_moves(piece_state, board, board_state, &check_mask),
                            },
                            Piece::Bishop => get_bishop_moves(piece_state, board, &check_mask),
                            Piece::Knight => get_knight_moves(piece_state, board, &check_mask),
                            Piece::Rook => get_rook_moves(piece_state, board, &check_mask),
                            Piece::Queen => get_queen_moves(piece_state, board, &check_mask),
                            Piece::King => get_king_moves(piece_state, board, &check_mask),
                        };
                        assert(found@ == piece_moves(piece_state, *board, board_state, mask));
                        proof {
                            lemma_generators_sound(piece_state, *board, board_state, mask);
                        }
                        let legal = retain_legal(found, board, color);
                        self.extend(legal);
                    }
                }
                assert(self.moves@ =~= old(self).moves@.subrange(0, start) + moves_upto(
                    *board,
                    color,
                    board_state,
                    mask,
                    k + 1,
                ) + old(self).moves@.subrange(self.move_count as int, 218));
                col += 1;
            }
            row += 1;
        }
    }

    /// Scores each listed move by the evaluation of the board with the move's origin emptied
    /// and its destination square replaced by the move's.
    pub fn score_moves(&mut self, board: &Board)
        requires
            old(self).move_count <= 218,
            forall|i: int| 0 <= i < old(self).move_count ==> squares_on_board(#[trigger] old(self).moves[i]),
        ensures
            final(self).moves == old(self).moves,
            final(self).move_count == old(self).move_count,
            forall|i: int|
                #![trigger final(self).score[i]]
                0 <= i < 218 ==> final(self).score[i] == if i < old(self).move_count {
                    evaluation(scored_board(*board, old(self).moves[i])) as i32
                } else {
                    old(self).score[i]
                },
    {
        let count = self.move_count;
        let mut idx: usize = 0;
        while idx < count
            invariant
                count == old(self).move_count,
                count <= 218,
                idx <= count,
                self.moves == old(self).moves,
                self.move_count == count,
                forall|i: int| 0 <= i < count ==> squares_on_board(#[trigger] old(self).moves[i]),
                forall|i: int|
                    #![trigger self.score[i]]
                    0 <= i < 218 ==> self.score[i] == if i < idx {
                        evaluation(scored_board(*board, old(self).moves[i])) as i32
                    } else {
                        old(self).score[i]
                    },
            decreases count - idx,
        {
            let mv: Move = self.moves[idx];
            let prev_square = mv.previous_square;
            let new_square = mv.current_square;
            let mut new_board = *board;
            new_board.board[prev_square.row - 1][prev_square.column - 1].piece_state = None;
            new_board.board[new_square.row - 1][new_square.column - 1] = new_square;
            assert(new_board == scored_board(*board, mv));
            self.score[idx] = calculate_material(&new_board);
            idx += 1;
        }
    }

    /// Sorts the listed moves with their scores, highest score first (equal scores in no
    /// particular order); the unused slots stay as they are.
    pub fn order_moves(&mut self)
        requires
            old(self).move_count <= 218,
        ensures
            final(self).move_count == old(self).move_count,
            pairs_of(final(self).score@, final(self).moves@, final(self).move_count as int).to_multiset()
                == pairs_of(old(self).score@, old(self).moves@, old(self).move_count as int).to_multiset(),
            sorted_desc(pairs_of(final(self).score@, final(self).moves@, final(self).move_count as int)),
            forall|i: int|
                old(self).move_count <= i < 218 ==> #[trigger] final(self).moves[i] == old(self).moves[i]
                    && final(self).score[i] == old(self).score[i],
    {
        let count = self.move_count;
        let mut pairs: Vec<(i32, Move)> = Vec::new();
        let mut i: usize = 0;
        while i < count
            invariant
                count == old(self).move_count,
                count <= 218,
                i <= count,
                *self == *old(self),
                pairs@ == pairs_of(self.score@, self.moves@, i as int),
            decreases count - i,
        {
            pairs.push((self.score[i], self.moves[i]));
            assert(pairs@ =~= pairs_of(self.score@, self.moves@, i + 1));
            i += 1;
        }
        sort_by_score_desc(&mut pairs);
        let ghost sorted = pairs@;
        let mut idx: usize = 0;
        while idx < count
            invariant
                count == old(self).move_count,
                count <= 218,
                idx <= count,
                pairs@ == sorted,
                sorted.len() == count,
                self.move_count == count,
                forall|j: int|
                    #![trigger self.score[j]]
                    #![trigger self.moves[j]]
                    0 <= j < 218 ==> (self.score[j], self.moves[j]) == if j < idx {
                        sorted[j]
                    } else {
                        (old(self).score[j], old(self).moves[j])
                    },
            decreases count - idx,
        {
            let (score, mv) = pairs[idx];
            self.score[idx] = score;
            self.moves[idx] = mv;
            idx += 1;
        }
        assert(pairs_of(self.score@, self.moves@, count as int) =~= sorted);
    }
}


proof fn lemma_keep_legal_sound(s: Seq<Move>, b: Board, color: Color)
    requires
        all_sound(s),
    ensures
        all_sound(keep_legal(s, b, color)),
    decreases s.len(),
{
    if s.len() > 0 {
        assert(all_sound(s.drop_last()));
        lemma_keep_legal_sound(s.drop_last(), b, color);
        assert(move_sound(s[s.len() - 1]));
        let tail = if legal_spec(b, s.last(), color) { seq![s.last()] } else { Seq::<Move>::empty() };
        lemma_all_sound_concat(keep_legal(s.drop_last(), b, color), tail);
    }
}

proof fn lemma_moves_upto_sound(b: Board, color: Color, bs: BoardState, mask: spec_fn(int, int) -> bool, k: int)
    requires
        b.wf(),
    ensures
        all_sound(moves_upto(b, color, bs, mask, k)),
    decreases k,
{
    if k > 0 {
        lemma_moves_upto_sound(b, color, bs, mask, k - 1);
        match b.board[(k - 1) / 8][(k - 1) % 8].piece_state {
            Some(s) => {
                lemma_generators_sound(s, b, bs, mask);
                if s.color == color {
                    lemma_keep_legal_sound(piece_moves(s, b, bs, mask), b, color);
                    lemma_all_sound_concat(moves_upto(b, color, bs, mask, k - 1), keep_legal(piece_moves(s, b, bs, mask), b, color));
                } else {
                    lemma_all_sound_concat(moves_upto(b, color, bs, mask, k - 1), Seq::empty());
                }
            },
            None => {
                lemma_all_sound_concat(moves_upto(b, color, bs, mask, k - 1), Seq::empty());
            },
        }
    }
}

/// Every move generated on a well-formed board validates, and any piece it captures
/// records a location on the board.
pub proof fn lemma_generated_moves_sound(b: Board, color: Color, bs: BoardState)
    requires
        b.wf(),
    ensures
        all_sound(generated_moves(b, color, bs)),
{
    lemma_moves_upto_sound(b, color, bs, board_mask(b, color), 64);
}

proof fn lemma_keep_legal_legal(s: Seq<Move>, b: Board, color: Color)
    ensures
        forall|i: int|
            0 <= i < keep_legal(s, b, color).len() ==> legal_spec(b, #[trigger] keep_legal(s, b, color)[i], color),
    decreases s.len(),
{
    if s.len() > 0 {
        lemma_keep_legal_legal(s.drop_last(), b, color);
        let head = keep_legal(s.drop_last(), b, color);
        let tail = if legal_spec(b, s.last(), color) {
            seq![s.last()]
        } else {
            Seq::<Move>::empty()
        };
        assert forall|i: int| 0 <= i < (head + tail).len() implies legal_spec(b, #[trigger] (head + tail)[i], color) by {
            if i < head.len() {
                assert((head + tail)[i] == head[i]);
            } else {
                assert((head + tail)[i] == tail[i - head.len()]);
            }
        }
    }
}

proof fn lemma_moves_upto_legal(b: Board, color: Color, bs: BoardState, mask: spec_fn(int, int) -> bool, k: int)
    ensures
        forall|i: int|
            0 <= i < moves_upto(b, color, bs, mask, k).len() ==> legal_spec(
                b,
                #[trigger] moves_upto(b, color, bs, mask, k)[i],
                color,
            ),
    decreases k,
{
    if k > 0 {
        lemma_moves_upto_legal(b, color, bs, mask, k - 1);
        let head = moves_upto(b, color, bs, mask, k - 1);
        let tail = match b.board[(k - 1) / 8][(k - 1) % 8].piece_state {
            Some(s) => if s.color == color {
                keep_legal(piece_moves(s, b, bs, mask), b, color)
            } else {
                Seq::empty()
            },
            None => Seq::empty(),
        };
        match b.board[(k - 1) / 8][(k - 1) % 8].piece_state {
            Some(s) => {
                lemma_keep_legal_legal(piece_moves(s, b, bs, mask), b, color);
            },
            None => {},
        }
        assert forall|i: int| 0 <= i < (head + tail).len() implies legal_spec(b, #[trigger] (head + tail)[i], color) by {
            if i < head.len() {
                assert((head + tail)[i] == head[i]);
            } else {
                assert((head + tail)[i] == tail[i - head.len()]);
            }
        }
    }
}

/// Every move listed for a side is legal: after it, that side's king is not attacked.
pub proof fn lemma_generated_moves_legal(b: Board, color: Color, bs: BoardState)
    ensures
        forall|i: int|
            0 <= i < generated_moves(b, color, bs).len() ==> legal_spec(b, #[trigger] generated_moves(b, color, bs)[i], color),
{
    lemma_moves_upto_legal(b, color, bs, board_mask(b, color), 64);
}

} // verus!
