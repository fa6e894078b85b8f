use vstd::prelude::*;

use crate::pieces::{piece_letter, empty_board, Board, BoardState, CastlingRights, Color, ColorState, DrawConditions, Piece, PieceState, Square};
use crate::text::{find_char, push_char, chars_of, float_syntax, float_syntax_ok, parse_usize, parse_usize_spec, split_chars, split_on, lemma_split_nonempty};
use crate::utils::{algebraic_ok, simple_algebraic_to_grid};

verus! {

/// A position in Forsyth-Edwards Notation.
pub struct FEN {
    fen_str: String,
}

impl View for FEN {
    type V = Seq<char>;

    closed spec fn view(&self) -> Seq<char> {
        self.fen_str@
    }
}

// ---------------------------------------------------------------------------
// What a valid FEN is
// ---------------------------------------------------------------------------

/// A piece letter of the placement field.
pub open spec fn is_piece_char(c: char) -> bool {
    c == 'r' || c == 'n' || c == 'b' || c == 'q' || c == 'k' || c == 'p' || c == 'R' || c == 'N' || c == 'B'
        || c == 'Q' || c == 'K' || c == 'P'
}

/// A character a rank of the placement field may hold: a piece letter or a run of 1 to 8
/// empty squares.
pub open spec fn row_char_ok(c: char) -> bool {
    is_piece_char(c) || ('1' <= c <= '8')
}

/// How many squares a character of a rank covers.
pub open spec fn char_width(c: char) -> int {
    if is_piece_char(c) {
        1
    } else {
        c as int - '0' as int
    }
}

/// How many squares the characters of a rank cover.
pub open spec fn row_width(s: Seq<char>) -> int
    decreases s.len(),
{
    if s.len() == 0 {
        0
    } else {
        row_width(s.drop_last()) + char_width(s.last())
    }
}

/// A rank of the placement field: only valid characters, covering exactly eight squares.
pub open spec fn row_ok(s: Seq<char>) -> bool {
    &&& forall|i: int| 0 <= i < s.len() ==> row_char_ok(#[trigger] s[i])
    &&& row_width(s) == 8
}

pub open spec fn castling_char(c: char) -> bool {
    c == 'K' || c == 'Q' || c == 'k' || c == 'q' || c == '-'
}

/// What `char::is_alphanumeric` answers for `c` (Unicode's alphabetic and numeric classes).
pub uninterp spec fn char_alphanumeric(c: char) -> bool;

/// `char::is_alphanumeric`: the contract names its answer, which the Unicode tables decide.
#[verifier::external_body]
fn is_alphanumeric(c: char) -> (b: bool)
    ensures
        b == char_alphanumeric(c),
{
    c.is_alphanumeric()
}

/// The space-separated fields of a FEN.
pub open spec fn fen_fields(s: Seq<char>) -> Seq<Seq<char>> {
    split_on(s, ' ')
}

/// The ranks of the placement field, from the eighth down to the first.
pub open spec fn fen_rows(s: Seq<char>) -> Seq<Seq<char>> {
    split_on(fen_fields(s)[0], '/')
}

/// A FEN as `FEN::fen_is_valid` accepts it: six fields; eight ranks, each covering eight
/// squares; an active colour starting with `w` or `b`; castling letters among `KQkq-`; an
/// en-passant field of `-` and alphanumeric characters; two counters that parse as numbers.
pub open spec fn fen_valid(s: Seq<char>) -> bool {
    let f = fen_fields(s);
    &&& f.len() == 6
    &&& fen_rows(s).len() == 8
    &&& f[1].len() > 0 && (f[1][0] == 'w' || f[1][0] == 'b')
    &&& forall|i: int| 0 <= i < f[2].len() ==> castling_char(#[trigger] f[2][i])
    &&& forall|i: int| 0 <= i < f[3].len() ==> (#[trigger] f[3][i] == '-' || char_alphanumeric(f[3][i]))
    &&& float_syntax(f[4])
    &&& float_syntax(f[5])
    &&& forall|r: int| 0 <= r < 8 ==> row_ok(#[trigger] fen_rows(s)[r])
}

proof fn lemma_row_width_grows(s: Seq<char>, i: int)
    requires
        0 <= i <= s.len(),
        forall|j: int| 0 <= j < s.len() ==> row_char_ok(#[trigger] s[j]),
    ensures
        row_width(s.take(i)) <= row_width(s),
    decreases s.len() - i,
{
    if i < s.len() {
        lemma_row_width_grows(s, i + 1);
        assert(s.take(i + 1).drop_last() == s.take(i));
        assert(s.take(i + 1).last() == s[i]);
    } else {
        assert(s.take(i) == s);
    }
}

/// Whether one rank of the placement field is valid.
fn row_valid(row: &Vec<char>) -> (res: bool)
    ensures
        res == row_ok(row@),
{
    let mut count: usize = 0;
    let mut i: usize = 0;
    assert(row@.take(0) == Seq::<char>::empty());
    while i < row.len()
        invariant
            i <= row.len(),
            forall|j: int| 0 <= j < i ==> row_char_ok(#[trigger] row@[j]),
            count == row_width(row@.take(i as int)),
            count <= 8,
        decreases row.len() - i,
    {
        let c = row[i];
        assert(row@.take(i + 1).drop_last() == row@.take(i as int));
        assert(row@.take(i + 1).last() == c);
        if c == 'r' || c == 'n' || c == 'b' || c == 'q' || c == 'k' || c == 'p' || c == 'R' || c == 'N'
            || c == 'B' || c == 'Q' || c == 'K' || c == 'P' {
            count = count + 1;
        } else if '1' <= c && c <= '8' {
            count = count + (c as usize - '0' as usize);
        } else {
            return false;
        }
        i += 1;
        if count > 8 {
            proof {
                if forall|j: int| 0 <= j < row@.len() ==> row_char_ok(#[trigger] row@[j]) {
                    lemma_row_width_grows(row@, i as int);
                }
            }
            return false;
        }
    }
    assert(row@.take(i as int) == row@);
    count == 8
}

impl FEN {
    /// Checks `fen_str`, and keeps it when it is a valid FEN.
    pub fn new(fen_str: &str) -> (res: Option<FEN>)
        ensures
            res is Some <==> fen_valid(fen_str@),
            res matches Some(f) ==> f@ == fen_str@,
    {
        let fen = FEN { fen_str: fen_str.to_owned() };
        if !fen.fen_is_valid(fen_str) {
            return None;
        }
        Some(fen)
    }

    /// Whether `fen_str` is a valid FEN.
    pub fn fen_is_valid(&self, fen_str: &str) -> (res: bool)
        ensures
            res == fen_valid(fen_str@),
    {
        let chars = chars_of(fen_str);
        let sections = split_chars(&chars, ' ');
        if sections.len() != 6 {
            return false;
        }
        let rows = split_chars(&sections[0], '/');
        if rows.len() != 8 {
            return false;
        }
        let side = &sections[1];
        if !(side.len() > 0 && (side[0] == 'w' || side[0] == 'b')) {
            return false;
        }
        let castling = &sections[2];
        let mut i: usize = 0;
        while i < castling.len()
            invariant
                i <= castling.len(),
                castling@ == fen_fields(fen_str@)[2],
                forall|j: int| 0 <= j < i ==> castling_char(#[trigger] castling@[j]),
            decreases castling.len() - i,
        {
            let c = castling[i];
            if c != 'K' && c != 'Q' && c != 'k' && c != 'q' && c != '-' {
                return false;
            }
            i += 1;
        }
        let passant = &sections[3];
        let mut i: usize = 0;
        while i < passant.len()
            invariant
                i <= passant.len(),
                passant@ == fen_fields(fen_str@)[3],
                forall|j: int| 0 <= j < i ==> (#[trigger] passant@[j] == '-' || char_alphanumeric(passant@[j])),
            decreases passant.len() - i,
        {
            let c = passant[i];
            if c != '-' && !is_alphanumeric(c) {
                return false;
            }
            i += 1;
        }
        if !float_syntax_ok(&sections[4]) || !float_syntax_ok(&sections[5]) {
            return false;
        }
        let mut r: usize = 0;
        while r < 8
            invariant
                r <= 8,
                rows.len() == 8,
                forall|k: int| 0 <= k < 8 ==> #[trigger] rows[k]@ == fen_rows(fen_str@)[k],
                forall|k: int| 0 <= k < r ==> row_ok(#[trigger] fen_rows(fen_str@)[k]),
            decreases 8 - r,
        {
            if !row_valid(&rows[r]) {
                return false;
            }
            r += 1;
        }
        true
    }
}

// ---------------------------------------------------------------------------
// The board a FEN describes
// ---------------------------------------------------------------------------

/// The piece a letter of the placement field names.
pub open spec fn piece_of_char(c: char) -> Option<(Color, Piece)> {
    if c == 'P' {
        Some((Color::White, Piece::Pawn))
    } else if c == 'R' {
        Some((Color::White, Piece::Rook))
    } else if c == 'N' {
        Some((Color::White, Piece::Knight))
    } else if c == 'B' {
        Some((Color::White, Piece::Bishop))
    } else if c == 'Q' {
        Some((Color::White, Piece::Queen))
    } else if c == 'K' {
        Some((Color::White, Piece::King))
    } else if c == 'p' {
        Some((Color::Black, Piece::Pawn))
    } else if c == 'r' {
        Some((Color::Black, Piece::Rook))
    } else if c == 'n' {
        Some((Color::Black, Piece::Knight))
    } else if c == 'b' {
        Some((Color::Black, Piece::Bishop))
    } else if c == 'q' {
        Some((Color::Black, Piece::Queen))
    } else if c == 'k' {
        Some((Color::Black, Piece::King))
    } else {
        None
    }
}

/// The squares one character of a rank stands for: its piece, or a run of empty squares.
pub open spec fn cells_of_char(c: char) -> Seq<Option<(Color, Piece)>> {
    match piece_of_char(c) {
        Some(x) => seq![Some(x)],
        None => Seq::new((c as int - '0' as int) as nat, |i: int| None),
    }
}

/// The squares of a rank, from the first column on.
pub open spec fn row_cells(s: Seq<char>) -> Seq<Option<(Color, Piece)>>
    decreases s.len(),
{
    if s.len() == 0 {
        Seq::empty()
    } else {
        row_cells(s.drop_last()) + cells_of_char(s.last())
    }
}

/// The square at 0-based row `r` and column `c` of the board whose ranks, from the eighth
/// down, are `rows`: pieces stand unmoved and alive.
pub open spec fn fen_square(rows: Seq<Seq<char>>, r: int, c: int) -> Square {
    Square {
        row: (r + 1) as usize,
        column: (c + 1) as usize,
        piece_state: match row_cells(rows[7 - r])[c] {
            Some((color, piece)) => Some(
                PieceState {
                    color: color,
                    piece: piece,
                    location: ((r + 1) as usize, (c + 1) as usize),
                    has_moved: false,
                    dead: false,
                },
            ),
            None => None,
        },
    }
}

/// The board of the placement field of `s`.
pub open spec fn fen_board_ok(b: Board, s: Seq<char>) -> bool {
    forall|r: int, c: int|
        #![trigger b.board[r][c]]
        0 <= r < 8 && 0 <= c < 8 ==> b.board[r][c] == fen_square(fen_rows(s), r, c)
}

proof fn lemma_row_cells_len(s: Seq<char>)
    requires
        forall|j: int| 0 <= j < s.len() ==> row_char_ok(#[trigger] s[j]),
    ensures
        row_cells(s).len() == row_width(s),
    decreases s.len(),
{
    if s.len() > 0 {
        assert(row_char_ok(s[s.len() - 1]));
        lemma_row_cells_len(s.drop_last());
    }
}

proof fn lemma_row_cells_prefix(s: Seq<char>, i: int)
    requires
        0 <= i <= s.len(),
    ensures
        row_cells(s.take(i)).len() <= row_cells(s).len(),
        forall|c: int| 0 <= c < row_cells(s.take(i)).len() ==> #[trigger] row_cells(s.take(i))[c] == row_cells(s)[c],
    decreases s.len() - i,
{
    if i < s.len() {
        lemma_row_cells_prefix(s, i + 1);
        assert(s.take(i + 1).drop_last() == s.take(i));
        let a = row_cells(s.take(i));
        let b = row_cells(s.take(i + 1));
        assert(b == a + cells_of_char(s.take(i + 1).last()));
        assert forall|c: int| 0 <= c < a.len() implies #[trigger] a[c] == row_cells(s)[c] by {
            assert(a[c] == b[c]);
        }
    } else {
        assert(s.take(i) == s);
    }
}

fn piece_from_char(c: char) -> (res: Option<(Color, Piece)>)
    ensures
        res == piece_of_char(c),
{
    if c == 'P' {
        Some((Color::White, Piece::Pawn))
    } else if c == 'R' {
        Some((Color::White, Piece::Rook))
    } else if c == 'N' {
        Some((Color::White, Piece::Knight))
    } else if c == 'B' {
        Some((Color::White, Piece::Bishop))
    } else if c == 'Q' {
        Some((Color::White, Piece::Queen))
    } else if c == 'K' {
        Some((Color::White, Piece::King))
    } else if c == 'p' {
        Some((Color::Black, Piece::Pawn))
    } else if c == 'r' {
        Some((Color::Black, Piece::Rook))
    } else if c == 'n' {
        Some((Color::Black, Piece::Knight))
    } else if c == 'b' {
        Some((Color::Black, Piece::Bishop))
    } else if c == 'q' {
        Some((Color::Black, Piece::Queen))
    } else if c == 'k' {
        Some((Color::Black, Piece::King))
    } else {
        None
    }
}

/// Sets the squares of one rank of `board`, from a valid rank of the placement field.
fn place_row(board: &mut Board, row_idx: usize, row: &Vec<char>, ghost_rows: Ghost<Seq<Seq<char>>>)
    requires
        row_idx < 8,
        ghost_rows@.len() == 8,
        row@ == ghost_rows@[7 - row_idx],
        row_ok(row@),
        forall|c: int|
            #![trigger old(board).board[row_idx as int][c]]
            0 <= c < 8 ==> old(board).board[row_idx as int][c] == (Square {
                row: (row_idx + 1) as usize,
                column: (c + 1) as usize,
                piece_state: None,
            }),
    ensures
        forall|r: int, c: int|
            #![trigger final(board).board[r][c]]
            0 <= r < 8 && 0 <= c < 8 && r != row_idx ==> final(board).board[r][c] == old(board).board[r][c],
        forall|c: int|
            #![trigger final(board).board[row_idx as int][c]]
            0 <= c < 8 ==> final(board).board[row_idx as int][c] == fen_square(ghost_rows@, row_idx as int, c),
{
    let ghost rows = ghost_rows@;
    let ghost cells = row_cells(row@);
    proof {
        lemma_row_cells_len(row@);
    }
    let mut col_idx: usize = 0;
    let mut j: usize = 0;
    assert(row@.take(0) == Seq::<char>::empty());
    while j < row.len()
        invariant
            j <= row.len(),
            row_idx < 8,
            rows.len() == 8,
            row@ == rows[7 - row_idx],
            row_ok(row@),
            cells == row_cells(row@),
            cells.len() == 8,
            col_idx == row_cells(row@.take(j as int)).len(),
            col_idx <= 8,
            forall|r: int, c: int|
                #![trigger board.board[r][c]]
                0 <= r < 8 && 0 <= c < 8 && r != row_idx ==> board.board[r][c] == old(board).board[r][c],
            forall|c: int|
                #![trigger board.board[row_idx as int][c]]
                0 <= c < col_idx ==> board.board[row_idx as int][c] == fen_square(rows, row_idx as int, c),
            forall|c: int|
                #![trigger board.board[row_idx as int][c]]
                col_idx <= c < 8 ==> board.board[row_idx as int][c] == (Square {
                    row: (row_idx + 1) as usize,
                    column: (c + 1) as usize,
                    piece_state: None,
                }),
        decreases row.len() - j,
    {
        let c = row[j];
        proof {
            assert(row@.take(j + 1).drop_last() == row@.take(j as int));
            assert(row@.take(j + 1).last() == c);
            lemma_row_cells_prefix(row@, j + 1);
            assert(row_char_ok(row@[j as int]));
        }
        match piece_from_char(c) {
            Some((color, piece)) => {
                assert(col_idx < 8);
                let loc = (row_idx + 1, col_idx + 1);
                board.board[row_idx][col_idx] = Square {
                    row: row_idx + 1,
                    column: col_idx + 1,
                    piece_state: Some(PieceState { color: color, piece: piece, location: loc, has_moved: false, dead: false }),
                };
                assert(row_cells(row@.take(j + 1))[col_idx as int] == Some((color, piece)));
                col_idx += 1;
            },
            None => {
                let n = c as usize - '0' as usize;
                assert forall|k: int| col_idx <= k < col_idx + n implies #[trigger] cells[k] is None by {
                    assert(row_cells(row@.take(j + 1))[k] == cells[k]);
                }
                col_idx += n;
            },
        }
        j += 1;
    }
    assert(row@.take(j as int) == row@);
}

impl FEN {
    /// The board of the placement field, when the FEN is valid: every piece unmoved and alive.
    pub fn to_board(&self) -> (res: Option<Board>)
        ensures
            res is Some <==> fen_valid(self@),
            res matches Some(b) ==> b.wf() && fen_board_ok(b, self@),
    {
        if !self.fen_is_valid(self.fen_str.as_str()) {
            return None;
        }
        let chars = chars_of(self.fen_str.as_str());
        let sections = split_chars(&chars, ' ');
        let rows = split_chars(&sections[0], '/');
        let ghost rs = fen_rows(self@);
        let mut board = empty_board();
        let mut row_idx: usize = 0;
        while row_idx < 8
            invariant
                row_idx <= 8,
                rows.len() == 8,
                rs.len() == 8,
                forall|k: int| 0 <= k < 8 ==> #[trigger] rows[k]@ == rs[k],
                forall|k: int| 0 <= k < 8 ==> row_ok(#[trigger] rs[k]),
                forall|r: int, c: int|
                    #![trigger board.board[r][c]]
                    0 <= r < row_idx && 0 <= c < 8 ==> board.board[r][c] == fen_square(rs, r, c),
                forall|r: int, c: int|
                    #![trigger board.board[r][c]]
                    row_idx <= r < 8 && 0 <= c < 8 ==> board.board[r][c] == (Square {
                        row: (r + 1) as usize,
                        column: (c + 1) as usize,
                        piece_state: None,
                    }),
            decreases 8 - row_idx,
        {
            assert(rows[7 - row_idx as int]@ == rs[7 - row_idx]);
            assert(row_ok(rs[7 - row_idx]));
            place_row(&mut board, row_idx, &rows[7 - row_idx], Ghost(rs));
            row_idx += 1;
        }
        Some(board)
    }
}

// ---------------------------------------------------------------------------
// The placement field of a board
// ---------------------------------------------------------------------------

/// The digit for a run of `n` (1 to 8) empty squares.
pub open spec fn digit_char(n: int) -> char {
    if n == 1 {
        '1'
    } else if n == 2 {
        '2'
    } else if n == 3 {
        '3'
    } else if n == 4 {
        '4'
    } else if n == 5 {
        '5'
    } else if n == 6 {
        '6'
    } else if n == 7 {
        '7'
    } else {
        '8'
    }
}

/// The text for a run of `empty` empty squares: nothing when there is none.
pub open spec fn run_text(empty: int) -> Seq<char> {
    if empty > 0 {
        seq![digit_char(empty)]
    } else {
        Seq::empty()
    }
}

/// The text of 0-based row `r` from column `c` on, after a run of `empty` empty squares.
pub open spec fn rank_text(b: Board, r: int, c: int, empty: int) -> Seq<char>
    decreases 8 - c,
{
    if c >= 8 {
        run_text(empty)
    } else {
        match b.board[r][c].piece_state {
            Some(p) => run_text(empty) + seq![piece_letter(p.piece, p.color)] + rank_text(b, r, c + 1, 0),
            None => rank_text(b, r, c + 1, empty + 1),
        }
    }
}

/// The ranks of 0-based rows `r` down to 0, separated by `/`.
pub open spec fn placement_text(b: Board, r: int) -> Seq<char>
    decreases r,
{
    if r <= 0 {
        rank_text(b, 0, 0, 0)
    } else {
        rank_text(b, r, 0, 0) + seq!['/'] + placement_text(b, r - 1)
    }
}

/// What follows the text of row `r`: a `/` and the rows below, if any.
pub open spec fn rows_after(b: Board, r: int) -> Seq<char> {
    if r > 0 {
        seq!['/'] + placement_text(b, r - 1)
    } else {
        Seq::empty()
    }
}

fn digit_of(n: usize) -> (c: char)
    requires
        1 <= n <= 8,
    ensures
        c == digit_char(n as int),
{
    if n == 1 {
        '1'
    } else if n == 2 {
        '2'
    } else if n == 3 {
        '3'
    } else if n == 4 {
        '4'
    } else if n == 5 {
        '5'
    } else if n == 6 {
        '6'
    } else if n == 7 {
        '7'
    } else {
        '8'
    }
}

fn letter_of(piece: Piece, color: Color) -> (c: char)
    ensures
        c == piece_letter(piece, color),
{
    match color {
        Color::White => match piece {
            Piece::Pawn => 'P',
            Piece::Rook => 'R',
            Piece::Knight => 'N',
            Piece::Bishop => 'B',
            Piece::Queen => 'Q',
            Piece::King => 'K',
        },
        Color::Black => match piece {
            Piece::Pawn => 'p',
            Piece::Rook => 'r',
            Piece::Knight => 'n',
            Piece::Bishop => 'b',
            Piece::Queen => 'q',
            Piece::King => 'k',
        },
    }
}

impl FEN {
    /// The placement field of `board`: its ranks from the eighth down, separated by `/`.
    pub fn from_board(board: &Board) -> (res: String)
        ensures
            res@ == placement_text(*board, 7),
    {
        let ghost b = *board;
        let ghost target = placement_text(b, 7);
        let mut fen_string = String::new();
        let mut row: usize = 8;
        assert(fen_string@ + placement_text(b, 7) == target);
        while row > 0
            invariant
                row <= 8,
                b == *board,
                row > 0 ==> fen_string@ + placement_text(b, row - 1) == target,
                row == 0 ==> fen_string@ == target,
            decreases row,
        {
            row -= 1;
            assert(placement_text(b, row as int) == rank_text(b, row as int, 0, 0) + rows_after(b, row as int));
            let mut empty_count: usize = 0;
            let mut col: usize = 0;
            while col < 8
                invariant
                    row < 8,
                    b == *board,
                    empty_count <= col <= 8,
                    fen_string@ + rank_text(b, row as int, col as int, empty_count as int) + rows_after(b, row as int)
                        == target,
                decreases 8 - col,
            {
                let ghost before = fen_string@;
                let ghost e = empty_count as int;
                if let Some(state) = board.board[row][col].piece_state {
                    if empty_count > 0 {
                        push_char(&mut fen_string, digit_of(empty_count));
                    }
                    assert(fen_string@ == before + run_text(empty_count as int));
                    empty_count = 0;
                    push_char(&mut fen_string, letter_of(state.piece, state.color));
                    assert(fen_string@ + rank_text(b, row as int, col + 1, 0) == before + rank_text(
                        b,
                        row as int,
                        col as int,
                        e,
                    ));
                } else {
                    empty_count += 1;
                }
                col += 1;
            }
            let ghost before = fen_string@;
            if empty_count > 0 {
                push_char(&mut fen_string, digit_of(empty_count));
            }
            assert(fen_string@ == before + run_text(empty_count as int));
            if row > 0 {
                push_char(&mut fen_string, '/');
            }
        }
        fen_string
    }
}

// ---------------------------------------------------------------------------
// The state a FEN describes
// ---------------------------------------------------------------------------

/// The castling field grants `ch`: it holds `ch` before any `-`.
pub open spec fn castle_flag(s: Seq<char>, ch: char) -> bool {
    exists|i: int| 0 <= i < s.len() && #[trigger] s[i] == ch && forall|j: int| 0 <= j < i ==> s[j] != '-'
}

/// The fields that building a state reads beyond validity: an en-passant field that names a
/// square or starts with `-`, and a halfmove clock that is a `usize`.
pub open spec fn state_fields_ok(s: Seq<char>) -> bool {
    &&& algebraic_ok(fen_fields(s)[3])
    &&& parse_usize_spec(fen_fields(s)[4]) is Some
}

/// The side to move.
pub open spec fn fen_color(s: Seq<char>) -> Color {
    if fen_fields(s)[1][0] == 'w' {
        Color::White
    } else {
        Color::Black
    }
}

/// The halfmove clock.
pub open spec fn fen_fifty(s: Seq<char>) -> usize {
    parse_usize_spec(fen_fields(s)[4])->0
}

/// The state of a side: not in check, no en-passant square, the castling rights granted by
/// the letters `kingside` and `queenside`.
pub open spec fn fen_color_state(s: Seq<char>, color: Color, kingside: char, queenside: char) -> ColorState {
    ColorState {
        color: color,
        in_check: false,
        en_passant: None,
        castling: CastlingRights {
            castle_kingside: castle_flag(fen_fields(s)[2], kingside),
            castle_queenside: castle_flag(fen_fields(s)[2], queenside),
        },
    }
}

/// A `String` holding the characters `v`.
fn string_of(v: &Vec<char>) -> (s: String)
    ensures
        s@ == v@,
{
    let mut s = String::new();
    let mut i: usize = 0;
    while i < v.len()
        invariant
            i <= v.len(),
            s@ == v@.take(i as int),
        decreases v.len() - i,
    {
        push_char(&mut s, v[i]);
        i += 1;
        assert(s@ == v@.take(i as int));
    }
    assert(v@.take(i as int) == v@);
    s
}

/// Which of `K`, `Q`, `k`, `q` the castling field grants.
fn castling_flags(s: &Vec<char>) -> (res: (bool, bool, bool, bool))
    ensures
        res.0 == castle_flag(s@, 'K'),
        res.1 == castle_flag(s@, 'Q'),
        res.2 == castle_flag(s@, 'k'),
        res.3 == castle_flag(s@, 'q'),
{
    let stop = find_char(s, 0, s.len(), '-');
    let mut flags = (false, false, false, false);
    let mut i: usize = 0;
    while i < stop
        invariant
            i <= stop <= s.len(),
            flags.0 == exists|j: int| 0 <= j < i && #[trigger] s@[j] == 'K',
            flags.1 == exists|j: int| 0 <= j < i && #[trigger] s@[j] == 'Q',
            flags.2 == exists|j: int| 0 <= j < i && #[trigger] s@[j] == 'k',
            flags.3 == exists|j: int| 0 <= j < i && #[trigger] s@[j] == 'q',
        decreases stop - i,
    {
        let c = s[i];
        if c == 'K' {
            flags.0 = true;
        } else if c == 'Q' {
            flags.1 = true;
        } else if c == 'k' {
            flags.2 = true;
        } else if c == 'q' {
            flags.3 = true;
        }
        i += 1;
    }
    proof {
        assert forall|ch: char| ch != '-' implies castle_flag(s@, ch) == exists|j: int|
            0 <= j < stop && #[trigger] s@[j] == ch by {
            if castle_flag(s@, ch) {
                let w = choose|w: int| 0 <= w < s@.len() && #[trigger] s@[w] == ch && forall|j: int| 0 <= j < w ==> s@[j] != '-';
                if w >= stop {
                    assert(s@[stop as int] == '-');
                }
                assert(0 <= w < stop && s@[w] == ch);
            }
            if exists|j: int| 0 <= j < stop && #[trigger] s@[j] == ch {
                let w = choose|w: int| 0 <= w < stop && #[trigger] s@[w] == ch;
                assert(forall|j: int| 0 <= j < w ==> s@[j] != '-');
            }
        }
    }
    flags
}

impl FEN {
    /// The game state of a valid FEN: its board, side to move, castling rights and halfmove
    /// clock (a clock of 50 marks the game drawn); no side in check, no en-passant square.
    pub fn to_board_state(&self) -> (res: Option<BoardState>)
        requires
            fen_valid(self@) ==> state_fields_ok(self@),
        ensures
            res is Some <==> fen_valid(self@),
            res matches Some(st) ==> {
                &&& st.board.wf()
                &&& fen_board_ok(st.board, self@)
                &&& st.active_color == fen_color(self@)
                &&& st.white_state == fen_color_state(self@, Color::White, 'K', 'Q')
                &&& st.black_state == fen_color_state(self@, Color::Black, 'k', 'q')
                &&& st.draw == (DrawConditions {
                    draw: fen_fifty(self@) == 50,
                    fifty_move_counter: fen_fifty(self@),
                    threefold_counter: 0,
                })
                &&& st.time is None
            },
    {
        if !self.fen_is_valid(self.fen_str.as_str()) {
            return None;
        }
        let chars = chars_of(self.fen_str.as_str());
        let fen_sections = split_chars(&chars, ' ');
        let board = match self.to_board() {
            Some(b) => b,
            None => {
                return None;
            },
        };
        let color = if fen_sections[1][0] == 'w' {
            Color::White
        } else {
            Color::Black
        };
        let (wk, wq, bk, bq) = castling_flags(&fen_sections[2]);
        let white_castling = CastlingRights { castle_kingside: wk, castle_queenside: wq };
        let black_castling = CastlingRights { castle_kingside: bk, castle_queenside: bq };
        let passant_text = string_of(&fen_sections[3]);
        let _en_passant: Option<Square> = simple_algebraic_to_grid(passant_text.as_str());
        let fifty = match parse_usize(&fen_sections[4]) {
            Some(n) => n,
            None => {
                return None;
            },
        };
        let mut draw: DrawConditions = DrawConditions { draw: false, fifty_move_counter: fifty, threefold_counter: 0 };
        if draw.fifty_move_counter == 50 {
            draw.draw = true;
        }
        let white_color_state = ColorState {
            color: Color::White,
            in_check: false,
            en_passant: None,
            castling: white_castling,
        };
        let black_color_state = ColorState {
            color: Color::Black,
            in_check: false,
            en_passant: None,
            castling: black_castling,
        };
        Some(
            BoardState {
                board: board,
                active_color: color,
                white_state: white_color_state,
                black_state: black_color_state,
                draw: draw,
                time: None,
            },
        )
    }
}

// ---------------------------------------------------------------------------
// Writing a board and reading it back
// ---------------------------------------------------------------------------

/// A board as a FEN can describe it: every square knows its coordinates, and every piece
/// stands where it records, unmoved and alive.
pub open spec fn fresh_board(b: Board) -> bool {
    &&& b.coords_ok()
    &&& forall|r: int, c: int|
        #![trigger b.board[r][c]]
        0 <= r < 8 && 0 <= c < 8 ==> (b.board[r][c].piece_state matches Some(p) ==> {
            &&& p.location == ((r + 1) as usize, (c + 1) as usize)
            &&& !p.has_moved
            &&& !p.dead
        })
}

/// The FEN of a board with White to move, no castling rights, no en-passant square and the
/// counters at 0 and 1.
pub open spec fn board_fen(b: Board) -> Seq<char> {
    placement_text(b, 7) + seq![' '] + seq!['w', ' ', '-', ' ', '-', ' ', '0', ' ', '1']
}

/// The kind and colour of what stands on a square.
pub open spec fn cell_of(p: Option<PieceState>) -> Option<(Color, Piece)> {
    match p {
        Some(s) => Some((s.color, s.piece)),
        None => None,
    }
}

/// What stands on 0-based row `r` from column `c` on.
pub open spec fn board_cells(b: Board, r: int, c: int) -> Seq<Option<(Color, Piece)>>
    decreases 8 - c,
{
    if c >= 8 {
        Seq::empty()
    } else {
        seq![cell_of(b.board[r][c].piece_state)] + board_cells(b, r, c + 1)
    }
}

/// `n` empty squares.
pub open spec fn nones(n: int) -> Seq<Option<(Color, Piece)>> {
    Seq::new(n as nat, |i: int| None)
}

/// The ranks of a placement text from 0-based row `r` down to row 0.
pub open spec fn ranks_from(b: Board, r: int) -> Seq<Seq<char>>
    decreases r,
{
    if r <= 0 {
        seq![rank_text(b, 0, 0, 0)]
    } else {
        seq![rank_text(b, r, 0, 0)] + ranks_from(b, r - 1)
    }
}

proof fn lemma_row_cells_concat(x: Seq<char>, y: Seq<char>)
    ensures
        row_cells(x + y) == row_cells(x) + row_cells(y),
        row_width(x + y) == row_width(x) + row_width(y),
    decreases y.len(),
{
    if y.len() == 0 {
        assert(x + y == x);
    } else {
        lemma_row_cells_concat(x, y.drop_last());
        assert((x + y).drop_last() == x + y.drop_last());
        assert((x + y).last() == y.last());
        assert(row_cells(x) + row_cells(y.drop_last()) + cells_of_char(y.last()) == row_cells(x) + (row_cells(
            y.drop_last(),
        ) + cells_of_char(y.last())));
    }
}

proof fn lemma_letter_cell(piece: Piece, color: Color)
    ensures
        piece_of_char(piece_letter(piece, color)) == Some((color, piece)),
        is_piece_char(piece_letter(piece, color)),
{
}

proof fn lemma_digit_cells(e: int)
    requires
        1 <= e <= 8,
    ensures
        cells_of_char(digit_char(e)) == nones(e),
        row_char_ok(digit_char(e)),
        !is_piece_char(digit_char(e)),
        char_width(digit_char(e)) == e,
{
    assert(cells_of_char(digit_char(e)) =~= nones(e));
}

/// The characters of a rank text are valid, cover `8 - c + e` squares, and read back as the
/// run of `e` empty squares followed by the squares from column `c` on.
proof fn lemma_rank_text(b: Board, r: int, c: int, e: int)
    requires
        0 <= e <= c <= 8,
    ensures
        forall|i: int| 0 <= i < rank_text(b, r, c, e).len() ==> row_char_ok(#[trigger] rank_text(b, r, c, e)[i]),
        row_width(rank_text(b, r, c, e)) == 8 - c + e,
        row_cells(rank_text(b, r, c, e)) == nones(e) + board_cells(b, r, c),
    decreases 8 - c,
{
    if c >= 8 {
        if e > 0 {
            lemma_digit_cells(e);
            assert(seq![digit_char(e)].drop_last() == Seq::<char>::empty());
            assert(row_cells(seq![digit_char(e)]) == row_cells(Seq::<char>::empty()) + cells_of_char(digit_char(e)));
            assert(row_cells(Seq::<char>::empty()) + cells_of_char(digit_char(e)) == cells_of_char(digit_char(e)));
            assert(row_width(seq![digit_char(e)]) == row_width(Seq::<char>::empty()) + char_width(digit_char(e)));
        } else {
            assert(nones(0) + Seq::<Option<(Color, Piece)>>::empty() =~= Seq::<Option<(Color, Piece)>>::empty());
        }
        assert(board_cells(b, r, c) == Seq::<Option<(Color, Piece)>>::empty());
        assert(nones(e) + Seq::<Option<(Color, Piece)>>::empty() == nones(e));
    } else {
        match b.board[r][c].piece_state {
            Some(p) => {
                lemma_rank_text(b, r, c + 1, 0);
                lemma_letter_cell(p.piece, p.color);
                let run = run_text(e);
                let letter = seq![piece_letter(p.piece, p.color)];
                let rest = rank_text(b, r, c + 1, 0);
                if e > 0 {
                    lemma_digit_cells(e);
                    assert(seq![digit_char(e)].drop_last() == Seq::<char>::empty());
                    assert(row_cells(seq![digit_char(e)]) == row_cells(Seq::<char>::empty()) + cells_of_char(digit_char(e)));
                    assert(row_cells(Seq::<char>::empty()) + cells_of_char(digit_char(e)) == cells_of_char(digit_char(e)));
                    assert(row_width(seq![digit_char(e)]) == row_width(Seq::<char>::empty()) + char_width(digit_char(e)));
                }
                assert(letter.drop_last() == Seq::<char>::empty());
                assert(letter.last() == piece_letter(p.piece, p.color));
                assert(row_width(letter) == row_width(Seq::<char>::empty()) + char_width(piece_letter(p.piece, p.color)));
                assert(row_cells(run) == nones(e) && row_width(run) == e) by {
                    if e == 0 {
                        assert(row_cells(run) =~= nones(e));
                    }
                }
                assert(letter.drop_last() == Seq::<char>::empty());
                assert(row_cells(letter) =~= seq![Some((p.color, p.piece))]);
                lemma_row_cells_concat(run, letter);
                lemma_row_cells_concat(run + letter, rest);
                assert(nones(0) + board_cells(b, r, c + 1) =~= board_cells(b, r, c + 1));
                assert(nones(e) + seq![Some((p.color, p.piece))] + board_cells(b, r, c + 1) =~= nones(e) + board_cells(
                    b,
                    r,
                    c,
                ));
                assert forall|i: int| 0 <= i < (run + letter + rest).len() implies row_char_ok(
                    #[trigger] (run + letter + rest)[i],
                ) by {
                    if i < run.len() {
                        assert((run + letter + rest)[i] == run[i]);
                    } else if i < run.len() + 1 {
                        assert((run + letter + rest)[i] == letter[0]);
                    } else {
                        assert((run + letter + rest)[i] == rest[i - run.len() - 1]);
                    }
                }
            },
            None => {
                lemma_rank_text(b, r, c + 1, e + 1);
                assert(nones(e + 1) + board_cells(b, r, c + 1) =~= nones(e) + board_cells(b, r, c));
            },
        }
    }
}

proof fn lemma_split_single(a: Seq<char>, sep: char)
    requires
        forall|i: int| 0 <= i < a.len() ==> #[trigger] a[i] != sep,
    ensures
        split_on(a, sep) == seq![a],
    decreases a.len(),
{
    if a.len() == 0 {
        assert(a == Seq::<char>::empty());
        assert(split_on(a, sep) =~= seq![a]);
    } else {
        lemma_split_single(a.drop_last(), sep);
        assert(a.last() == a[a.len() - 1]);
        assert(a.drop_last().push(a.last()) == a);
        assert(split_on(a, sep) =~= seq![a]);
    }
}

proof fn lemma_split_join(a: Seq<char>, sep: char, c: Seq<char>)
    requires
        forall|i: int| 0 <= i < a.len() ==> #[trigger] a[i] != sep,
    ensures
        split_on(a + seq![sep] + c, sep) == seq![a] + split_on(c, sep),
    decreases c.len(),
{
    let w = a + seq![sep] + c;
    if c.len() == 0 {
        lemma_split_single(a, sep);
        assert(w.drop_last() == a);
        assert(w.last() == sep);
        assert(split_on(w, sep) =~= seq![a] + split_on(c, sep));
    } else {
        lemma_split_join(a, sep, c.drop_last());
        lemma_split_nonempty(c.drop_last(), sep);
        assert(w.drop_last() == a + seq![sep] + c.drop_last());
        assert(w.last() == c.last());
        let q = split_on(c.drop_last(), sep);
        if c.last() == sep {
            assert(split_on(w, sep) =~= seq![a] + split_on(c, sep));
        } else {
            let qq = seq![a] + q;
            assert(qq.last() == q.last());
            assert(qq.update(qq.len() - 1, qq.last().push(c.last())) =~= seq![a] + q.update(
                q.len() - 1,
                q.last().push(c.last()),
            ));
        }
    }
}

proof fn lemma_no_separator(s: Seq<char>, sep: char)
    requires
        forall|i: int| 0 <= i < s.len() ==> row_char_ok(#[trigger] s[i]),
        !row_char_ok(sep),
    ensures
        forall|i: int| 0 <= i < s.len() ==> #[trigger] s[i] != sep,
{
}

proof fn lemma_placement_split(b: Board, r: int)
    requires
        0 <= r <= 7,
    ensures
        split_on(placement_text(b, r), '/') == ranks_from(b, r),
        forall|i: int| 0 <= i < placement_text(b, r).len() ==> #[trigger] placement_text(b, r)[i] != ' ',
    decreases r,
{
    lemma_rank_text(b, r, 0, 0);
    lemma_no_separator(rank_text(b, r, 0, 0), '/');
    lemma_no_separator(rank_text(b, r, 0, 0), ' ');
    if r <= 0 {
        lemma_split_single(rank_text(b, 0, 0, 0), '/');
    } else {
        lemma_placement_split(b, r - 1);
        lemma_split_join(rank_text(b, r, 0, 0), '/', placement_text(b, r - 1));
        let a = rank_text(b, r, 0, 0);
        let t = placement_text(b, r - 1);
        assert forall|i: int| 0 <= i < (a + seq!['/'] + t).len() implies #[trigger] (a + seq!['/'] + t)[i] != ' ' by {
            if i < a.len() {
                assert((a + seq!['/'] + t)[i] == a[i]);
            } else if i == a.len() {
                assert((a + seq!['/'] + t)[i] == '/');
            } else {
                assert((a + seq!['/'] + t)[i] == t[i - a.len() - 1]);
            }
        }
    }
}

proof fn lemma_ranks_from(b: Board, k: int, r: int)
    requires
        0 <= r <= k,
    ensures
        ranks_from(b, k).len() == k + 1,
        ranks_from(b, k)[k - r] == rank_text(b, r, 0, 0),
    decreases k,
{
    if k > 0 {
        if r < k {
            lemma_ranks_from(b, k - 1, r);
        } else {
            lemma_ranks_from(b, k - 1, 0);
        }
    }
}

proof fn lemma_board_cells(b: Board, r: int, c: int, j: int)
    requires
        0 <= c <= 8,
        0 <= j < 8 - c,
    ensures
        board_cells(b, r, c).len() == 8 - c,
        board_cells(b, r, c)[j] == cell_of(b.board[r][c + j].piece_state),
    decreases 8 - c,
{
    if j > 0 {
        lemma_board_cells(b, r, c + 1, j - 1);
    } else if c + 1 < 8 {
        lemma_board_cells(b, r, c + 1, 0);
    }
}

proof fn lemma_counter_syntax()
    ensures
        float_syntax(seq!['0']),
        float_syntax(seq!['1']),
{
    assert(crate::text::all_digits(seq!['0']));
    assert(crate::text::all_digits(seq!['1']));
}

/// Writing any board as a FEN and reading it back gives back what stands on each square:
/// the FEN that `from_board` starts is valid, and `to_board` puts on every square a piece of
/// the same kind and colour as the board had there, or leaves it empty as the board had it.
pub proof fn lemma_fen_round_trip_cells(b: Board)
    ensures
        fen_valid(board_fen(b)),
        forall|r: int, c: int|
            0 <= r < 8 && 0 <= c < 8 ==> cell_of(#[trigger] fen_square(fen_rows(board_fen(b)), r, c).piece_state)
                == cell_of(b.board[r][c].piece_state),
{
    let p = placement_text(b, 7);
    let tail = seq!['w', ' ', '-', ' ', '-', ' ', '0', ' ', '1'];
    lemma_placement_split(b, 7);
    lemma_split_join(p, ' ', tail);
    lemma_split_join(seq!['w'], ' ', seq!['-', ' ', '-', ' ', '0', ' ', '1']);
    lemma_split_join(seq!['-'], ' ', seq!['-', ' ', '0', ' ', '1']);
    lemma_split_join(seq!['-'], ' ', seq!['0', ' ', '1']);
    lemma_split_join(seq!['0'], ' ', seq!['1']);
    lemma_split_single(seq!['1'], ' ');
    assert(seq!['w'] + seq![' '] + seq!['-', ' ', '-', ' ', '0', ' ', '1'] == tail);
    assert(seq!['-'] + seq![' '] + seq!['-', ' ', '0', ' ', '1'] == seq!['-', ' ', '-', ' ', '0', ' ', '1']);
    assert(seq!['-'] + seq![' '] + seq!['0', ' ', '1'] == seq!['-', ' ', '0', ' ', '1']);
    assert(seq!['0'] + seq![' '] + seq!['1'] == seq!['0', ' ', '1']);
    let f = fen_fields(board_fen(b));
    assert(f =~= seq![p, seq!['w'], seq!['-'], seq!['-'], seq!['0'], seq!['1']]);
    lemma_counter_syntax();
    assert(fen_rows(board_fen(b)) == ranks_from(b, 7));
    assert forall|r: int| 0 <= r < 8 implies row_ok(#[trigger] fen_rows(board_fen(b))[r]) by {
        lemma_ranks_from(b, 7, 7 - r);
        lemma_rank_text(b, 7 - r, 0, 0);
    }
    lemma_ranks_from(b, 7, 0);
    assert forall|r: int, c: int| 0 <= r < 8 && 0 <= c < 8 implies cell_of(
        #[trigger] fen_square(fen_rows(board_fen(b)), r, c).piece_state,
    ) == cell_of(b.board[r][c].piece_state) by {
        lemma_ranks_from(b, 7, r);
        lemma_rank_text(b, r, 0, 0);
        lemma_board_cells(b, r, 0, c);
        assert(nones(0) + board_cells(b, r, 0) =~= board_cells(b, r, 0));
    }
}

/// On a board whose pieces stand where they record and have not moved, writing it as a FEN
/// and reading it back gives the very board: every square comes back as it was.
pub proof fn lemma_fen_round_trip(b: Board)
    requires
        fresh_board(b),
    ensures
        fen_valid(board_fen(b)),
        forall|r: int, c: int| 0 <= r < 8 && 0 <= c < 8 ==> #[trigger] fen_square(fen_rows(board_fen(b)), r, c) == b.board[r][c],
{
    lemma_fen_round_trip_cells(b);
    assert forall|r: int, c: int| 0 <= r < 8 && 0 <= c < 8 implies #[trigger] fen_square(fen_rows(board_fen(b)), r, c)
        == b.board[r][c] by {
        assert(cell_of(fen_square(fen_rows(board_fen(b)), r, c).piece_state) == cell_of(b.board[r][c].piece_state));
    }
}

} // verus!
