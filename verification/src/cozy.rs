// The calls into `cozy_chess`, the move generator the engine plays with.  Squares are
// numbered as `cozy_chess::Square` numbers them (0 = a1, 1 = b1, ..., 63 = h8), colours
// 0 = White and 1 = Black, pieces in the order of `cozy_chess::Piece::ALL`: 0 pawn,
// 1 knight, 2 bishop, 3 rook, 4 queen, 5 king.
use vstd::prelude::*;

use crate::pieces::Color;
use crate::utils::{is_file_char, is_rank_char};
use cozy_chess::Board as CozyBoard;
use cozy_chess::Move as CozyMove;

verus! {

#[verifier::external_type_specification]
#[verifier::external_body]
pub struct ExCozyBoard(CozyBoard);

#[verifier::external_type_specification]
#[verifier::external_body]
pub struct ExCozyMove(CozyMove);

#[verifier::external_type_specification]
#[verifier::external_body]
pub struct ExCozyFenParseError(cozy_chess::FenParseError);

#[verifier::external_type_specification]
#[verifier::external_body]
pub struct ExCozyMoveParseError(cozy_chess::MoveParseError);

/// What a `cozy_chess::Board` holds: for each occupied square, the colour and the kind of
/// the piece on it.  The board keeps one bitboard per kind and one per colour; every board
/// the crate hands out is valid (`from_fen` checks it, playing legal moves keeps it), so the
/// kind bitboards are disjoint and every piece has one colour, which is what this map says.
pub uninterp spec fn board_contents(b: CozyBoard) -> Map<int, (int, int)>;

/// Whether Black is to move on a `cozy_chess::Board`.
pub uninterp spec fn board_black_to_move(b: CozyBoard) -> bool;

/// What `cozy_chess::Board::from_fen` gives for `fen`: the board, or `None` when it refuses
/// the text.
pub uninterp spec fn cozy_from_fen(fen: Seq<char>, shredder: bool) -> Option<CozyBoard>;

/// Whether `cozy_chess::Board::from_fen` accepts `fen`.
pub open spec fn fen_accepted(fen: Seq<char>, shredder: bool) -> bool {
    cozy_from_fen(fen, shredder) is Some
}

/// What `cozy_chess::Move::from_str` gives for `text`: the move, or `None` when it refuses
/// the text.
pub uninterp spec fn cozy_parse_move(text: Seq<char>) -> Option<CozyMove>;

/// The number of the square named by a file letter and a rank digit.
pub open spec fn square_index(file: char, rank: char) -> int {
    (rank as int - '1' as int) * 8 + (file as int - 'a' as int)
}

/// A piece letter as `cozy_chess::Piece` parses it: lower case only.
pub open spec fn is_piece_letter(c: char) -> bool {
    c == 'p' || c == 'n' || c == 'b' || c == 'r' || c == 'q' || c == 'k'
}

/// Whether `cozy_chess::Move::from_str` accepts `text`: a square (file `a`..`h`, rank
/// `1`..`8`) to move from, one to move to, and then nothing, a character beyond ASCII, or a
/// piece letter; anything after that is not read.
pub open spec fn move_text_accepted(text: Seq<char>) -> bool {
    &&& text.len() >= 4
    &&& is_file_char(text[0]) && is_rank_char(text[1])
    &&& is_file_char(text[2]) && is_rank_char(text[3])
    &&& (text.len() == 4 || (text[4] as u32) >= 128 || is_piece_letter(text[4]))
}

/// Whether an accepted move text names a promotion (a knight, bishop, rook or queen).
pub open spec fn move_text_promotes(text: Seq<char>) -> bool {
    text.len() > 4 && (text[4] == 'n' || text[4] == 'b' || text[4] == 'r' || text[4] == 'q')
}

/// The legal moves of a board, in the order `cozy_chess::Board::generate_moves` hands them
/// out.
pub uninterp spec fn cozy_legal_moves(b: CozyBoard) -> Seq<CozyMove>;

/// What `cozy_chess::Board::try_play` makes of a board and a move: the board after the move
/// when it is legal, `None` when it is not.
pub uninterp spec fn cozy_play(b: CozyBoard, mv: CozyMove) -> Option<CozyBoard>;

/// Whether the side to move is in check (`cozy_chess::Board::checkers` is not empty).
pub uninterp spec fn cozy_checked(b: CozyBoard) -> bool;

/// The board's own Zobrist hash (`cozy_chess::Board::hash`).
pub uninterp spec fn cozy_hash(b: CozyBoard) -> u64;

/// The FEN text of a board (`Display` of `cozy_chess::Board`).
pub uninterp spec fn cozy_fen(b: CozyBoard) -> Seq<char>;

/// The square a move goes to, numbered as above (the move's `to` field).
pub uninterp spec fn cozy_move_to(mv: CozyMove) -> int;

/// The move from square `from` to square `to`, without promotion.
pub uninterp spec fn square_move(from: int, to: int) -> CozyMove;

/// Bit `i` of `x` is set.
pub open spec fn bit_set(x: u64, i: u64) -> bool {
    (x >> i) & 1u64 == 1u64
}

/// How many of the bits `0..n` of `x` are set.
pub open spec fn bits_below(x: u64, n: nat) -> nat
    decreases n,
{
    if n == 0 {
        0
    } else {
        bits_below(x, (n - 1) as nat) + if bit_set(x, (n - 1) as u64) {
            1nat
        } else {
            0nat
        }
    }
}

/// `cozy_chess::Board::from_fen`: the board the FEN describes, or an error where it refuses
/// the text.
#[verifier::external_body]
pub(crate) fn board_from_fen(fen: &str, shredder: bool) -> (res: Result<CozyBoard, cozy_chess::FenParseError>)
    ensures
        res is Ok <==> cozy_from_fen(fen@, shredder) is Some,
        res matches Ok(b) ==> cozy_from_fen(fen@, shredder) == Some(b),
{
    CozyBoard::from_fen(fen, shredder)
}

/// `cozy_chess::Move::from_str` (a move in UCI notation): the move, or an error where it
/// refuses the text.
#[verifier::external_body]
pub(crate) fn parse_move(text: &str) -> (res: Result<CozyMove, cozy_chess::MoveParseError>)
    ensures
        res is Ok <==> cozy_parse_move(text@) is Some,
        res is Ok <==> move_text_accepted(text@),
        res matches Ok(m) ==> cozy_parse_move(text@) == Some(m),
        res matches Ok(m) ==> cozy_move_to(m) == square_index(text@[2], text@[3]),
        res matches Ok(m) ==> (!move_text_promotes(text@) ==> m == square_move(
            square_index(text@[0], text@[1]),
            square_index(text@[2], text@[3]),
        )),
{
    text.parse::<CozyMove>()
}

/// `Clone` of a `cozy_chess::Board`, a field-by-field copy.
#[verifier::external_body]
pub(crate) fn clone_board(b: &CozyBoard) -> (res: CozyBoard)
    ensures
        res == *b,
{
    b.clone()
}

/// `==` on `cozy_chess::Move`, which compares the squares and the promotion.
#[verifier::external_body]
pub(crate) fn same_move(a: &CozyMove, b: &CozyMove) -> (res: bool)
    ensures
        res == (*a == *b),
{
    *a == *b
}

/// `cozy_chess::Board::piece_on` for square `sq`: the kind of the piece there (the first
/// kind whose bitboard holds the square), as its number.
#[verifier::external_body]
pub(crate) fn piece_on(b: &CozyBoard, sq: usize) -> (res: Option<usize>)
    requires
        sq < 64,
    ensures
        res is Some <==> board_contents(*b).contains_key(sq as int),
        res matches Some(p) ==> p < 6 && board_contents(*b)[sq as int].1 == p as int,
{
    match b.piece_on(cozy_chess::Square::index(sq)) {
        Some(p) => Some(p as usize),
        None => None,
    }
}

/// `cozy_chess::Board::side_to_move`.
#[verifier::external_body]
pub(crate) fn side_to_move(b: &CozyBoard) -> (res: Color)
    ensures
        res == (if board_black_to_move(*b) {
            Color::Black
        } else {
            Color::White
        }),
{
    match b.side_to_move() {
        cozy_chess::Color::White => Color::White,
        cozy_chess::Color::Black => Color::Black,
    }
}

/// `cozy_chess::Board::pieces`: the squares holding a piece of kind `piece`, as the bits of
/// the bitboard.
#[verifier::external_body]
pub(crate) fn pieces_bits(b: &CozyBoard, piece: usize) -> (res: u64)
    requires
        piece < 6,
    ensures
        forall|i: u64|
            i < 64 ==> (#[trigger] bit_set(res, i) <==> (board_contents(*b).contains_key(i as int)
                && board_contents(*b)[i as int].1 == piece)),
{
    b.pieces(cozy_chess::Piece::index(piece)).0
}

/// `cozy_chess::Board::colors`: the squares holding a piece of colour `color`, as the bits of
/// the bitboard.
#[verifier::external_body]
pub(crate) fn colors_bits(b: &CozyBoard, color: Color) -> (res: u64)
    ensures
        forall|i: u64|
            i < 64 ==> (#[trigger] bit_set(res, i) <==> (board_contents(*b).contains_key(i as int)
                && board_contents(*b)[i as int].0 == (match color {
                Color::White => 0int,
                Color::Black => 1int,
            }))),
{
    match color {
        Color::White => b.colors(cozy_chess::Color::White).0,
        Color::Black => b.colors(cozy_chess::Color::Black).0,
    }
}

/// `cozy_chess::BitBoard::len`: how many squares the bitboard `bits` holds.
#[verifier::external_body]
pub(crate) fn bitboard_len(bits: u64) -> (res: u32)
    ensures
        res == bits_below(bits, 64),
{
    cozy_chess::BitBoard(bits).len()
}

/// `cozy_chess::Board::generate_moves`, gathering every legal move in the order handed out.
#[verifier::external_body]
pub(crate) fn legal_moves(b: &CozyBoard) -> (res: Vec<CozyMove>)
    ensures
        res@ == cozy_legal_moves(*b),
{
    let mut total: Vec<CozyMove> = Vec::new();
    b.generate_moves(|moves| {
        total.extend(moves);
        false
    });
    total
}

/// `cozy_chess::Board::try_play`: plays `mv` when it is legal and answers whether it was;
/// an illegal move leaves the board as it was.
#[verifier::external_body]
pub(crate) fn try_play(b: &mut CozyBoard, mv: CozyMove) -> (played: bool)
    ensures
        played == cozy_play(*old(b), mv) is Some,
        played ==> cozy_play(*old(b), mv) == Some(*final(b)),
        !played ==> *final(b) == *old(b),
{
    b.try_play(mv).is_ok()
}

/// `cozy_chess::Board::checkers` is not empty: the side to move is in check.
#[verifier::external_body]
pub(crate) fn in_check(b: &CozyBoard) -> (res: bool)
    ensures
        res == cozy_checked(*b),
{
    b.checkers() != cozy_chess::BitBoard::EMPTY
}

/// A `cozy_chess::Move` from square `from` to square `to`, without promotion (a
/// `cozy_chess::Square` is numbered by rank times 8 plus file).
#[verifier::external_body]
pub(crate) fn make_move(from: usize, to: usize) -> (mv: CozyMove)
    requires
        from < 64,
        to < 64,
    ensures
        mv == square_move(from as int, to as int),
        cozy_move_to(mv) == to,
{
    CozyMove { from: cozy_chess::Square::index(from), to: cozy_chess::Square::index(to), promotion: None }
}

/// The square a move goes to (its `to` field), numbered as above.
#[verifier::external_body]
pub(crate) fn move_target(mv: &CozyMove) -> (res: usize)
    ensures
        res == cozy_move_to(*mv),
        res < 64,
{
    mv.to as usize
}

/// `cozy_chess::Board::hash`, the board's own Zobrist hash.
#[verifier::external_body]
pub(crate) fn board_hash(b: &CozyBoard) -> (res: u64)
    ensures
        res == cozy_hash(*b),
{
    b.hash()
}

/// The FEN of a board (`Display` of `cozy_chess::Board`).
#[verifier::external_body]
pub(crate) fn board_text(b: &CozyBoard) -> (res: String)
    ensures
        res@ == cozy_fen(*b),
{
    b.to_string()
}

} // verus!
