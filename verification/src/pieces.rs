use vstd::prelude::*;

verus! {

/// The side a piece belongs to.
#[derive(Debug, Clone, Copy, PartialEq, Eq, Structural)]
pub enum Color {
    White,
    Black,
}

/// The kind of a chess piece.
#[derive(Debug, Clone, Copy, PartialEq, Eq, Structural)]
pub enum Piece {
    Pawn,
    Rook,
    Knight,
    Bishop,
    Queen,
    King,
}

/// The FEN letter of a piece: upper case for White, lower case for Black.
pub open spec fn piece_letter(piece: Piece, color: Color) -> char {
    match color {
        Color::White => match piece {
            Piece::Pawn => 'P',
            Piece::Rook => 'R',
            Piece::Knight => 'N',
            Piece::Bishop => 'B',
            Piece::Queen => 'Q',
            Piece::King => 'K',
        },
        Color::Black => match piece {
            Piece::Pawn => 'p',
            Piece::Rook => 'r',
            Piece::Knight => 'n',
            Piece::Bishop => 'b',
            Piece::Queen => 'q',
            Piece::King => 'k',
        },
    }
}

/// A one-character string holding `c` (the std conversion `char::to_string`).
#[verifier::external_body]
pub(crate) fn char_to_string(c: char) -> (res: String)
    ensures
        res@ == seq![c],
{
    c.to_string()
}

impl Piece {
    /// The piece's FEN letter as a string.
    pub fn to_char(self, color: Color) -> (res: String)
        ensures
            res@ == seq![piece_letter(self, color)],
    {
        let c = match color {
            Color::White => match self {
                Piece::Pawn => 'P',
                Piece::Rook => 'R',
                Piece::Knight => 'N',
                Piece::Bishop => 'B',
                Piece::Queen => 'Q',
                Piece::King => 'K',
            },
            Color::Black => match self {
                Piece::Pawn => 'p',
                Piece::Rook => 'r',
                Piece::Knight => 'n',
                Piece::Bishop => 'b',
                Piece::Queen => 'q',
                Piece::King => 'k',
            },
        };
        char_to_string(c)
    }
}

/// Castling rights of one side.
#[derive(Debug, Clone, Copy, PartialEq, Eq)]
pub struct CastlingRights {
    pub castle_kingside: bool,
    pub castle_queenside: bool,
}

#[derive(Debug, Clone, Copy, PartialEq, Eq)]
pub struct DrawConditions {
    pub draw: bool,
    pub fifty_move_counter: usize,
    pub threefold_counter: usize,
}

#[derive(Debug, Clone, Copy, PartialEq, Eq)]
pub struct Time {
    pub alloted_time: u32,
    pub cur_time: u32,
}

/// A piece together with the square (row, column), both 1-based, it stands on.
#[derive(Debug, Clone, Copy, PartialEq, Eq)]
pub struct PieceState {
    pub color: Color,
    pub piece: Piece,
    pub location: (usize, usize),
    pub has_moved: bool,
    pub dead: bool,
}

/// A square of the board, with 1-based row and column.
#[derive(Debug, Clone, Copy, PartialEq, Eq)]
pub struct Square {
    pub row: usize,
    pub column: usize,
    pub piece_state: Option<PieceState>,
}

/// The board: `board[r][c]` is the square of row `r + 1` and column `c + 1`.
#[derive(Debug, Clone, Copy, PartialEq, Eq)]
pub struct Board {
    pub board: [[Square; 8]; 8],
}

/// `check_mask[r][c]` tells whether a move to row `r + 1`, column `c + 1` can answer a check.
#[derive(Debug)]
pub struct CheckMask {
    pub check_mask: [[bool; 8]; 8],
}

#[derive(Debug, Clone, Copy, PartialEq, Eq)]
pub struct ColorState {
    pub color: Color,
    pub in_check: bool,
    pub en_passant: Option<Square>,
    pub castling: CastlingRights,
}

#[derive(Debug, Clone, Copy, PartialEq, Eq)]
pub struct BoardState {
    pub board: Board,
    pub active_color: Color,
    pub white_state: ColorState,
    pub black_state: ColorState,
    pub draw: DrawConditions,
    pub time: Option<Time>,
}

/// Row `r` and column `c` (1-based) lie on the board.
pub open spec fn on_board(r: int, c: int) -> bool {
    1 <= r <= 8 && 1 <= c <= 8
}

impl Board {
    /// The square of 1-based row `r` and column `c`.
    pub open spec fn at(self, r: int, c: int) -> Square {
        self.board[r - 1][c - 1]
    }

    /// The piece on 1-based row `r` and column `c`, if any.
    pub open spec fn piece_at(self, r: int, c: int) -> Option<PieceState> {
        self.at(r, c).piece_state
    }

    /// Every square knows its own coordinates.
    pub open spec fn coords_ok(self) -> bool {
        forall|r: int, c: int|
            #![trigger self.board[r][c]]
            0 <= r < 8 && 0 <= c < 8 ==> {
                &&& self.board[r][c].row == r + 1
                &&& self.board[r][c].column == c + 1
            }
    }

    /// Every square knows its own coordinates, and every piece records a location on the board.
    pub open spec fn wf(self) -> bool {
        &&& self.coords_ok()
        &&& forall|r: int, c: int|
            #![trigger self.board[r][c]]
            0 <= r < 8 && 0 <= c < 8 ==> (self.board[r][c].piece_state matches Some(p)
                ==> on_board(p.location.0 as int, p.location.1 as int))
    }
}

/// The board with 0-based square (r, c) replaced by `sq`.
pub open spec fn with_square(b: Board, r: int, c: int, sq: Square) -> Board {
    Board { board: vstd::array::spec_array_update(b.board, r, vstd::array::spec_array_update(b.board[r], c, sq)) }
}

/// The board with the piece on 0-based square (r, c) replaced by `p`.
pub open spec fn with_piece(b: Board, r: int, c: int, p: Option<PieceState>) -> Board {
    with_square(b, r, c, Square { piece_state: p, ..b.board[r][c] })
}

/// The piece on the back rank at 0-based column `c` in the starting position.
pub open spec fn back_rank_piece(c: int) -> Piece {
    if c == 0 || c == 7 {
        Piece::Rook
    } else if c == 1 || c == 6 {
        Piece::Knight
    } else if c == 2 || c == 5 {
        Piece::Bishop
    } else if c == 3 {
        Piece::Queen
    } else {
        Piece::King
    }
}

/// The piece on 0-based row `r`, column `c` of the starting position.
pub open spec fn start_piece(r: int, c: int) -> Option<PieceState> {
    let loc = ((r + 1) as usize, (c + 1) as usize);
    if r == 0 {
        Some(PieceState { color: Color::White, piece: back_rank_piece(c), location: loc, has_moved: false, dead: false })
    } else if r == 1 {
        Some(PieceState { color: Color::White, piece: Piece::Pawn, location: loc, has_moved: false, dead: false })
    } else if r == 6 {
        Some(PieceState { color: Color::Black, piece: Piece::Pawn, location: loc, has_moved: false, dead: false })
    } else if r == 7 {
        Some(PieceState { color: Color::Black, piece: back_rank_piece(c), location: loc, has_moved: false, dead: false })
    } else {
        None
    }
}

fn back_rank(c: usize) -> (p: Piece)
    requires
        c < 8,
    ensures
        p == back_rank_piece(c as int),
{
    if c == 0 || c == 7 {
        Piece::Rook
    } else if c == 1 || c == 6 {
        Piece::Knight
    } else if c == 2 || c == 5 {
        Piece::Bishop
    } else if c == 3 {
        Piece::Queen
    } else {
        Piece::King
    }
}

/// The board with no pieces on it.
pub fn empty_board() -> (b: Board)
    ensures
        forall|r: int, c: int|
            #![trigger b.board[r][c]]
            0 <= r < 8 && 0 <= c < 8 ==> b.board[r][c] == (Square {
                row: (r + 1) as usize,
                column: (c + 1) as usize,
                piece_state: None,
            }),
        b.wf(),
{
    let blank = Square { row: 0, column: 0, piece_state: None };
    let mut b = Board { board: [[blank; 8]; 8] };
    let mut r: usize = 0;
    while r < 8
        invariant
            r <= 8,
            forall|i: int, c: int|
                #![trigger b.board[i][c]]
                0 <= i < r && 0 <= c < 8 ==> b.board[i][c] == (Square {
                    row: (i + 1) as usize,
                    column: (c + 1) as usize,
                    piece_state: None,
                }),
        decreases 8 - r,
    {
        let mut c: usize = 0;
        while c < 8
            invariant
                r < 8,
                c <= 8,
                forall|i: int, j: int|
                    #![trigger b.board[i][j]]
                    0 <= i < r && 0 <= j < 8 ==> b.board[i][j] == (Square {
                        row: (i + 1) as usize,
                        column: (j + 1) as usize,
                        piece_state: None,
                    }),
                forall|j: int|
                    #![trigger b.board[r as int][j]]
                    0 <= j < c ==> b.board[r as int][j] == (Square {
                        row: (r + 1) as usize,
                        column: (j + 1) as usize,
                        piece_state: None,
                    }),
            decreases 8 - c,
        {
            b.board[r][c] = Square { row: r + 1, column: c + 1, piece_state: None };
            c += 1;
        }
        r += 1;
    }
    b
}

/// The board of the starting position.
pub fn start_board() -> (b: Board)
    ensures
        forall|r: int, c: int|
            #![trigger b.board[r][c]]
            0 <= r < 8 && 0 <= c < 8 ==> b.board[r][c] == (Square {
                row: (r + 1) as usize,
                column: (c + 1) as usize,
                piece_state: start_piece(r, c),
            }),
        b.wf(),
{
    let mut b = empty_board();
    let mut c: usize = 0;
    while c < 8
        invariant
            c <= 8,
            forall|i: int, j: int|
                #![trigger b.board[i][j]]
                0 <= i < 8 && 0 <= j < 8 ==> b.board[i][j] == (Square {
                    row: (i + 1) as usize,
                    column: (j + 1) as usize,
                    piece_state: if j < c { start_piece(i, j) } else { None },
                }),
        decreases 8 - c,
    {
        let loc0 = (1usize, c + 1);
        let loc1 = (2usize, c + 1);
        let loc6 = (7usize, c + 1);
        let loc7 = (8usize, c + 1);
        let p = back_rank(c);
        b.board[0][c].piece_state = Some(PieceState { color: Color::White, piece: p, location: loc0, has_moved: false, dead: false });
        b.board[1][c].piece_state = Some(PieceState { color: Color::White, piece: Piece::Pawn, location: loc1, has_moved: false, dead: false });
        b.board[6][c].piece_state = Some(PieceState { color: Color::Black, piece: Piece::Pawn, location: loc6, has_moved: false, dead: false });
        b.board[7][c].piece_state = Some(PieceState { color: Color::Black, piece: p, location: loc7, has_moved: false, dead: false });
        c += 1;
    }
    b
}

impl BoardState {
    /// The state at the start of a game: the starting board, White to move, every castling right.
    pub fn start() -> (s: BoardState)
        ensures
            s.board.wf(),
            forall|r: int, c: int|
                #![trigger s.board.board[r][c]]
                0 <= r < 8 && 0 <= c < 8 ==> s.board.board[r][c].piece_state == start_piece(r, c),
            s.active_color == Color::White,
            s.white_state == (ColorState {
                color: Color::White,
                in_check: false,
                en_passant: None,
                castling: CastlingRights { castle_kingside: true, castle_queenside: true },
            }),
            s.black_state == (ColorState {
                color: Color::Black,
                in_check: false,
                en_passant: None,
                castling: CastlingRights { castle_kingside: true, castle_queenside: true },
            }),
            s.draw == (DrawConditions { draw: false, fifty_move_counter: 0, threefold_counter: 0 }),
            s.time is None,
    {
        let white_color_state = ColorState {
            color: Color::White,
            in_check: false,
            en_passant: None,
            castling: CastlingRights { castle_kingside: true, castle_queenside: true },
        };
        let black_color_state = ColorState {
            color: Color::Black,
            in_check: false,
            en_passant: None,
            castling: CastlingRights { castle_kingside: true, castle_queenside: true },
        };
        BoardState {
            board: start_board(),
            active_color: Color::White,
            black_state: black_color_state,
            white_state: white_color_state,
            draw: DrawConditions { draw: false, fifty_move_counter: 0, threefold_counter: 0 },
            time: None,
        }
    }
}

} // verus!
