use chessbot::fen::FEN;
use chessbot::move_ordering::MoveList;
use chessbot::pieces::{start_board, BoardState, CastlingRights, Color, ColorState, DrawConditions, Piece, PieceState, Square, empty_board};
use chessbot::search::PVS;
use chessbot::utils::{column_is_attacked, find_king, row_is_attacked, square_is_attacked};

fn quiet_state() -> BoardState {
    let rights = CastlingRights { castle_kingside: false, castle_queenside: false };
    BoardState {
        board: empty_board(),
        active_color: Color::White,
        white_state: ColorState { color: Color::White, in_check: false, en_passant: None, castling: rights },
        black_state: ColorState { color: Color::Black, in_check: false, en_passant: None, castling: rights },
        draw: DrawConditions { draw: false, fifty_move_counter: 0, threefold_counter: 0 },
        time: None,
    }
}

#[test]
fn divide_counts_add_up_to_perft() {
    let pvs = PVS;
    let board = start_board();
    for depth in 1..=3u32 {
        let counts = pvs.perft_divide(&board, Color::White, depth, quiet_state());
        let total: u64 = counts.iter().map(|(_, c)| *c).sum();
        assert_eq!(total, pvs.perft(&board, Color::White, depth, quiet_state()));
    }
    let counts = pvs.perft_divide(&board, Color::White, 1, quiet_state());
    assert_eq!(counts.len(), 20);
}

#[test]
fn generated_moves_leave_the_king_safe() {
    // the white king on e1 is checked by a rook on e8; a knight on b1 can block on... nothing
    let mut board = empty_board();
    let put = |board: &mut chessbot::pieces::Board, r: usize, c: usize, piece: Piece, color: Color| {
        board.board[r - 1][c - 1].piece_state =
            Some(PieceState { color, piece, location: (r, c), has_moved: false, dead: false });
    };
    put(&mut board, 1, 5, Piece::King, Color::White);
    put(&mut board, 8, 5, Piece::Rook, Color::Black);
    put(&mut board, 8, 1, Piece::King, Color::Black);
    put(&mut board, 2, 1, Piece::Rook, Color::White);
    let mut list = MoveList::new();
    list.generate_moves(&board, Color::White, quiet_state());
    assert!(list.move_count > 0);
    for i in 0..list.move_count {
        let mv = list.moves[i];
        let mut after = board;
        after.board[mv.previous_square.row - 1][mv.previous_square.column - 1].piece_state = None;
        after.board[mv.current_square.row - 1][mv.current_square.column - 1] = mv.current_square;
        let king = find_king(&after, Color::White).unwrap();
        assert!(!square_is_attacked(king, Color::White, &after));
    }
    // the rook can block on e2, the king can step aside
    assert!((0..list.move_count).any(|i| list.moves[i].current_square.row == 2 && list.moves[i].current_square.column == 5));
}

#[test]
fn search_stays_within_its_window() {
    let pvs = PVS;
    let board = start_board();
    for alpha in [-50, -3, 0, 7] {
        let score = pvs.search(alpha, 100, 2, &board, Color::White, quiet_state());
        assert!(score >= alpha);
    }
}

#[test]
fn best_move_is_a_generated_move() {
    let pvs = PVS;
    let board = start_board();
    let mv = pvs.best_move(2, &board, Color::White, quiet_state()).unwrap();
    let mut list = MoveList::new();
    list.generate_moves(&board, Color::White, quiet_state());
    assert!((0..list.move_count).any(|i| list.moves[i] == mv));
}

#[test]
fn fen_round_trip_of_boards() {
    let start = start_board();
    let fen = FEN::new(&format!("{} w - - 0 1", FEN::from_board(&start))).unwrap();
    assert_eq!(fen.to_board().unwrap(), start);

    let mut board = empty_board();
    board.board[3][2] = Square {
        row: 4,
        column: 3,
        piece_state: Some(PieceState { color: Color::Black, piece: Piece::Queen, location: (4, 3), has_moved: false, dead: false }),
    };
    board.board[0][7] = Square {
        row: 1,
        column: 8,
        piece_state: Some(PieceState { color: Color::White, piece: Piece::King, location: (1, 8), has_moved: false, dead: false }),
    };
    let text = FEN::from_board(&board);
    assert_eq!(text, "8/8/8/8/2q5/8/8/7K");
    let fen = FEN::new(&format!("{} w - - 0 1", text)).unwrap();
    assert_eq!(fen.to_board().unwrap(), board);
}

#[test]
fn lines_seen_from_off_the_board() {
    let mut board = empty_board();
    board.board[2][3].piece_state =
        Some(PieceState { color: Color::Black, piece: Piece::Rook, location: (3, 4), has_moved: false, dead: false });
    // below the first row, the column is scanned upwards from row 1
    assert!(column_is_attacked(Square { row: 0, column: 4, piece_state: None }, Color::White, &board));
    // above the last row, it is scanned downwards from row 8
    assert!(column_is_attacked(Square { row: 12, column: 4, piece_state: None }, Color::White, &board));
    // a column off the board is never attacked
    assert!(!column_is_attacked(Square { row: 3, column: 0, piece_state: None }, Color::White, &board));
    // rows work alike
    assert!(row_is_attacked(Square { row: 3, column: 0, piece_state: None }, Color::White, &board));
    assert!(row_is_attacked(Square { row: 3, column: 11, piece_state: None }, Color::White, &board));
    assert!(!row_is_attacked(Square { row: 3, column: 11, piece_state: None }, Color::Black, &board));
}

#[test]
fn mirrored_position_evaluates_to_the_negation() {
    let mut board = start_board();
    // 1. e4 Nf6 2. Qh5
    board.board[1][4].piece_state = None;
    board.board[3][4].piece_state =
        Some(PieceState { color: Color::White, piece: Piece::Pawn, location: (4, 5), has_moved: true, dead: false });
    board.board[7][6].piece_state = None;
    board.board[5][5].piece_state =
        Some(PieceState { color: Color::Black, piece: Piece::Knight, location: (6, 6), has_moved: true, dead: false });
    board.board[0][3].piece_state = None;
    board.board[4][7].piece_state =
        Some(PieceState { color: Color::White, piece: Piece::Queen, location: (5, 8), has_moved: true, dead: false });
    let mut mirrored = empty_board();
    for r in 0..8 {
        for c in 0..8 {
            mirrored.board[r][c].piece_state = board.board[7 - r][c].piece_state.map(|p| PieceState {
                color: if p.color == Color::White { Color::Black } else { Color::White },
                location: (r + 1, c + 1),
                ..p
            });
        }
    }
    let score = chessbot::material::calculate_material(&board);
    assert_ne!(score, 0);
    assert_eq!(chessbot::material::calculate_material(&mirrored), -score);
}

#[test]
fn check_mask_of_a_king_square_off_the_board() {
    let mut board = empty_board();
    board.board[1][3].piece_state =
        Some(PieceState { color: Color::Black, piece: Piece::Knight, location: (2, 4), has_moved: false, dead: false });
    let king = PieceState { color: Color::White, piece: Piece::King, location: (0, 3), has_moved: false, dead: false };
    let mask = chessbot::utils::get_checks(Square { row: 0, column: 3, piece_state: Some(king) }, Color::White, &board);
    for r in 0..8 {
        for c in 0..8 {
            assert_eq!(mask.check_mask[r][c], r == 1 && c == 3);
        }
    }
}
