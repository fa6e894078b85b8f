#![allow(unused_imports, unused_variables, unused_mut, non_snake_case, dead_code)]

use chessbot::material::{calculate_material, evaluate_phase, get_piece_value, get_position_bonus, GamePhase};
use chessbot::move_ordering::MoveList;
use chessbot::moves::{
    create, empty_move, get_bishop_moves, get_black_pawn_moves, get_king_moves, get_knight_moves,
    get_pawn_moves, get_queen_moves, get_rook_moves, get_white_pawn_moves, Move,
};
use chessbot::pieces::{
    empty_board, start_board, Board, BoardState, CastlingRights, CheckMask, Color, ColorState,
    DrawConditions, Piece, PieceState, Square,
};
use chessbot::search::PVS;
use chessbot::utils::{
    access_board, column_is_attacked, create_check_mask, diagonal_is_attacked, find_king, get_checks,
    in_bounds, is_legal_move, row_is_attacked, simple_algebraic_to_grid, square_is_attacked,
};

fn place_piece(board: &mut Board, row: usize, col: usize, piece: Piece, color: Color) {
    board.board[row - 1][col - 1] = Square {
        row,
        column: col,
        piece_state: Some(PieceState {
            color,
            piece,
            location: (row, col),
            has_moved: false,
            dead: false,
        }),
    };
}

fn empty_board_state() -> BoardState {
    BoardState {
        board: empty_board(),
        active_color: Color::White,
        white_state: ColorState {
            color: Color::White,
            in_check: false,
            en_passant: None,
            castling: CastlingRights {
                castle_kingside: false,
                castle_queenside: false,
            },
        },
        black_state: ColorState {
            color: Color::Black,
            in_check: false,
            en_passant: None,
            castling: CastlingRights {
                castle_kingside: false,
                castle_queenside: false,
            },
        },
        draw: DrawConditions {
            draw: false,
            fifty_move_counter: 0,
            threefold_counter: 0,
        },
        time: None,
    }
}

fn full_check_mask() -> CheckMask {
    CheckMask {
        check_mask: [[true; 8]; 8],
    }
}

// ---- validate ----

#[test]
fn test_validate_rejects_out_of_bounds() {
    let mv = Move {
        previous_square: Square {
            row: 0,
            column: 1,
            piece_state: Some(PieceState {
                color: Color::White,
                piece: Piece::Pawn,
                location: (0, 1),
                has_moved: false,
                dead: false,
            }),
        },
        current_square: Square {
            row: 1,
            column: 1,
            piece_state: Some(PieceState {
                color: Color::White,
                piece: Piece::Pawn,
                location: (1, 1),
                has_moved: false,
                dead: false,
            }),
        },
        color: Color::White,
        captured_piece: None,
        promotion: None,
        castling: false,
    };
    assert!(!mv.validate());
}

#[test]
fn test_validate_rejects_same_square() {
    let square = Square {
        row: 4,
        column: 4,
        piece_state: Some(PieceState {
            color: Color::White,
            piece: Piece::Pawn,
            location: (4, 4),
            has_moved: false,
            dead: false,
        }),
    };
    let mv = Move {
        previous_square: square,
        current_square: square,
        color: Color::White,
        captured_piece: None,
        promotion: None,
        castling: false,
    };
    assert!(!mv.validate());
}

#[test]
fn test_validate_rejects_missing_piece_on_origin() {
    let mv = Move {
        previous_square: Square {
            row: 2,
            column: 1,
            piece_state: None,
        },
        current_square: Square {
            row: 3,
            column: 1,
            piece_state: Some(PieceState {
                color: Color::White,
                piece: Piece::Pawn,
                location: (3, 1),
                has_moved: true,
                dead: false,
            }),
        },
        color: Color::White,
        captured_piece: None,
        promotion: None,
        castling: false,
    };
    assert!(!mv.validate());
}

// ---- white pawn moves ----

#[test]
fn test_white_pawn_single_push() {
    let mut board = empty_board();
    place_piece(&mut board, 2, 4, Piece::Pawn, Color::White);
    let state = board.board[1][3].piece_state.unwrap();
    let moves = get_white_pawn_moves(state, &board, empty_board_state(), &full_check_mask());
    assert!(
        moves
            .iter()
            .any(|m| m.current_square.row == 3 && m.current_square.column == 4)
    );
}

#[test]
fn test_white_pawn_double_push_from_rank_2() {
    let mut board = empty_board();
    place_piece(&mut board, 2, 4, Piece::Pawn, Color::White);
    let state = board.board[1][3].piece_state.unwrap();
    let moves = get_white_pawn_moves(state, &board, empty_board_state(), &full_check_mask());
    assert!(
        moves
            .iter()
            .any(|m| m.current_square.row == 4 && m.current_square.column == 4)
    );
}

#[test]
fn test_white_pawn_blocked() {
    let mut board = empty_board();
    place_piece(&mut board, 2, 4, Piece::Pawn, Color::White);
    place_piece(&mut board, 3, 4, Piece::Pawn, Color::Black);
    let state = board.board[1][3].piece_state.unwrap();
    let moves = get_white_pawn_moves(state, &board, empty_board_state(), &full_check_mask());
    assert!(moves.is_empty());
}

#[test]
fn test_white_pawn_capture() {
    let mut board = empty_board();
    place_piece(&mut board, 2, 4, Piece::Pawn, Color::White);
    place_piece(&mut board, 3, 5, Piece::Pawn, Color::Black);
    let state = board.board[1][3].piece_state.unwrap();
    let moves = get_white_pawn_moves(state, &board, empty_board_state(), &full_check_mask());
    assert!(moves.iter().any(|m| m.current_square.row == 3
        && m.current_square.column == 5
        && m.captured_piece.is_some()));
}

#[test]
fn test_white_pawn_promotion() {
    let mut board = empty_board();
    place_piece(&mut board, 7, 4, Piece::Pawn, Color::White);
    let state = board.board[6][3].piece_state.unwrap();
    let moves = get_white_pawn_moves(state, &board, empty_board_state(), &full_check_mask());
    assert_eq!(moves.iter().filter(|m| m.promotion.is_some()).count(), 4);
}

#[test]
fn test_black_pawn_single_push() {
    let mut board = empty_board();
    place_piece(&mut board, 7, 4, Piece::Pawn, Color::Black);
    let state = board.board[6][3].piece_state.unwrap();
    let moves = get_black_pawn_moves(state, &board, empty_board_state(), &full_check_mask());
    assert!(
        moves
            .iter()
            .any(|m| m.current_square.row == 6 && m.current_square.column == 4)
    );
}

#[test]
fn test_black_pawn_double_push_from_rank_7() {
    let mut board = empty_board();
    place_piece(&mut board, 7, 4, Piece::Pawn, Color::Black);
    let state = board.board[6][3].piece_state.unwrap();
    let moves = get_black_pawn_moves(state, &board, empty_board_state(), &full_check_mask());
    assert!(
        moves
            .iter()
            .any(|m| m.current_square.row == 5 && m.current_square.column == 4)
    );
}

#[test]
fn test_black_pawn_capture() {
    let mut board = empty_board();
    place_piece(&mut board, 7, 4, Piece::Pawn, Color::Black);
    place_piece(&mut board, 6, 5, Piece::Pawn, Color::White);
    let state = board.board[6][3].piece_state.unwrap();
    let moves = get_black_pawn_moves(state, &board, empty_board_state(), &full_check_mask());
    assert!(moves.iter().any(|m| m.current_square.row == 6
        && m.current_square.column == 5
        && m.captured_piece.is_some()));
}

//knight moves

#[test]
fn test_knight_moves_from_center() {
    let mut board = empty_board();
    place_piece(&mut board, 4, 4, Piece::Knight, Color::White);
    let state = board.board[3][3].piece_state.unwrap();
    let mask = full_check_mask();
    let moves = get_knight_moves(state, &board, &mask);
    assert_eq!(moves.len(), 8);
}

#[test]
fn test_knight_moves_from_corner() {
    let mut board = empty_board();
    place_piece(&mut board, 1, 1, Piece::Knight, Color::White);
    let state = board.board[0][0].piece_state.unwrap();
    let mask = full_check_mask();
    let moves = get_knight_moves(state, &board, &mask);
    assert_eq!(moves.len(), 2);
}

#[test]
fn test_knight_cannot_capture_own_piece() {
    let mut board = empty_board();
    place_piece(&mut board, 4, 4, Piece::Knight, Color::White);
    place_piece(&mut board, 6, 5, Piece::Pawn, Color::White);
    let state = board.board[3][3].piece_state.unwrap();
    let mask = full_check_mask();
    let moves = get_knight_moves(state, &board, &mask);
    assert!(
        moves
            .iter()
            .all(|m| !(m.current_square.row == 6 && m.current_square.column == 5))
    );
}

#[test]
fn test_knight_can_capture_enemy() {
    let mut board = empty_board();
    place_piece(&mut board, 4, 4, Piece::Knight, Color::White);
    place_piece(&mut board, 6, 5, Piece::Pawn, Color::Black);
    let state = board.board[3][3].piece_state.unwrap();
    let mask = full_check_mask();
    let moves = get_knight_moves(state, &board, &mask);
    assert!(moves.iter().any(|m| m.current_square.row == 6
        && m.current_square.column == 5
        && m.captured_piece.is_some()));
}

// ---- bishop moves ----

#[test]
fn test_bishop_moves_open_board() {
    let mut board = empty_board();
    place_piece(&mut board, 4, 4, Piece::Bishop, Color::White);
    let state = board.board[3][3].piece_state.unwrap();
    let mask = full_check_mask();
    let moves = get_bishop_moves(state, &board, &mask);
    assert_eq!(moves.len(), 13);
}

#[test]
fn test_bishop_blocked_by_own_piece() {
    let mut board = empty_board();
    place_piece(&mut board, 4, 4, Piece::Bishop, Color::White);
    place_piece(&mut board, 5, 5, Piece::Pawn, Color::White);
    let state = board.board[3][3].piece_state.unwrap();
    let mask = full_check_mask();
    let moves = get_bishop_moves(state, &board, &mask);
    assert!(
        moves
            .iter()
            .all(|m| !(m.current_square.row == 5 && m.current_square.column == 5))
    );
}

#[test]
fn test_bishop_captures_enemy_and_stops() {
    let mut board = empty_board();
    place_piece(&mut board, 4, 4, Piece::Bishop, Color::White);
    place_piece(&mut board, 6, 6, Piece::Pawn, Color::Black);
    let state = board.board[3][3].piece_state.unwrap();
    let mask = full_check_mask();
    let moves = get_bishop_moves(state, &board, &mask);
    assert!(moves.iter().any(|m| m.current_square.row == 6
        && m.current_square.column == 6
        && m.captured_piece.is_some()));
    assert!(
        moves
            .iter()
            .all(|m| !(m.current_square.row == 7 && m.current_square.column == 7))
    );
}

// ---- rook moves ----

#[test]
fn test_rook_moves_open_board() {
    let mut board = empty_board();
    place_piece(&mut board, 4, 4, Piece::Rook, Color::White);
    let state = board.board[3][3].piece_state.unwrap();
    let mask = full_check_mask();
    let moves = get_rook_moves(state, &board, &mask);
    assert_eq!(moves.len(), 14);
}

#[test]
fn test_rook_blocked_by_own_piece() {
    let mut board = empty_board();
    place_piece(&mut board, 4, 4, Piece::Rook, Color::White);
    place_piece(&mut board, 4, 6, Piece::Pawn, Color::White);
    let state = board.board[3][3].piece_state.unwrap();
    let mask = full_check_mask();
    let moves = get_rook_moves(state, &board, &mask);
    assert!(
        moves
            .iter()
            .all(|m| m.current_square.column < 6 || m.current_square.row != 4)
    );
}

#[test]
fn test_rook_captures_enemy_and_stops() {
    let mut board = empty_board();
    place_piece(&mut board, 4, 4, Piece::Rook, Color::White);
    place_piece(&mut board, 4, 6, Piece::Pawn, Color::Black);
    let state = board.board[3][3].piece_state.unwrap();
    let mask = full_check_mask();
    let moves = get_rook_moves(state, &board, &mask);
    assert!(moves.iter().any(|m| m.current_square.row == 4
        && m.current_square.column == 6
        && m.captured_piece.is_some()));
    assert!(
        moves
            .iter()
            .all(|m| !(m.current_square.row == 4 && m.current_square.column == 7))
    );
}

// ---- queen moves ----

#[test]
fn test_queen_moves_open_board() {
    let mut board = empty_board();
    place_piece(&mut board, 4, 4, Piece::Queen, Color::White);
    let state = board.board[3][3].piece_state.unwrap();
    let mask = full_check_mask();
    let moves = get_queen_moves(state, &board, &mask);
    assert_eq!(moves.len(), 27);
}

#[test]
fn test_queen_combines_rook_and_bishop() {
    let mut board = empty_board();
    place_piece(&mut board, 4, 4, Piece::Queen, Color::White);
    let state = board.board[3][3].piece_state.unwrap();
    let mask = full_check_mask();
    let moves = get_queen_moves(state, &board, &mask);
    // can reach same squares as rook + bishop from center
    assert!(
        moves
            .iter()
            .any(|m| m.current_square.row == 4 && m.current_square.column == 8)
    ); // rook direction
    assert!(
        moves
            .iter()
            .any(|m| m.current_square.row == 7 && m.current_square.column == 7)
    ); // bishop direction
}

// ---- king moves ----

#[test]
fn test_king_moves_from_center() {
    let mut board = empty_board();
    place_piece(&mut board, 4, 4, Piece::King, Color::White);
    let state = board.board[3][3].piece_state.unwrap();
    let mask = full_check_mask();
    let moves = get_king_moves(state, &board, &mask);
    assert_eq!(moves.len(), 8);
}

#[test]
fn test_king_cannot_capture_own_piece() {
    let mut board = empty_board();
    place_piece(&mut board, 4, 4, Piece::King, Color::White);
    place_piece(&mut board, 5, 5, Piece::Pawn, Color::White);
    let state = board.board[3][3].piece_state.unwrap();
    let mask = full_check_mask();
    let moves = get_king_moves(state, &board, &mask);
    assert!(
        moves
            .iter()
            .all(|m| !(m.current_square.row == 5 && m.current_square.column == 5))
    );
}

#[test]
fn test_king_moves_from_corner() {
    let mut board = empty_board();
    place_piece(&mut board, 1, 1, Piece::King, Color::White);
    let state = board.board[0][0].piece_state.unwrap();
    let mask = full_check_mask();
    let moves = get_king_moves(state, &board, &mask);
    assert_eq!(moves.len(), 3);
}

// ---- square_is_attacked ----

#[test]
fn test_square_attacked_by_knight() {
    let mut board = empty_board();
    place_piece(&mut board, 4, 4, Piece::Knight, Color::Black);
    let square = Square {
        row: 2,
        column: 3,
        piece_state: None,
    };
    let mut mask = CheckMask {
        check_mask: [[false; 8]; 8],
    };
    assert!(square_is_attacked(
        square,
        Color::White,
        &board));
}

#[test]
fn test_square_not_attacked() {
    let mut board = empty_board();
    place_piece(&mut board, 1, 1, Piece::Rook, Color::Black);
    let square = Square {
        row: 4,
        column: 4,
        piece_state: None,
    };
    let mut mask = CheckMask {
        check_mask: [[false; 8]; 8],
    };
    assert!(!square_is_attacked(
        square,
        Color::White,
        &board));
}

#[test]
fn test_square_attacked_by_rook() {
    let mut board = empty_board();
    place_piece(&mut board, 4, 1, Piece::Rook, Color::Black);
    let square = Square {
        row: 4,
        column: 5,
        piece_state: None,
    };
    let mut mask = CheckMask {
        check_mask: [[false; 8]; 8],
    };
    assert!(square_is_attacked(
        square,
        Color::White,
        &board));
}

#[test]
fn test_square_attacked_by_bishop() {
    let mut board = empty_board();
    place_piece(&mut board, 1, 1, Piece::Bishop, Color::Black);
    let square = Square {
        row: 4,
        column: 4,
        piece_state: None,
    };
    let mut mask = CheckMask {
        check_mask: [[false; 8]; 8],
    };
    assert!(square_is_attacked(
        square,
        Color::White,
        &board));
}

#[test]
fn test_white_pawn_en_passant_left() {
    let mut board = empty_board();
    place_piece(&mut board, 5, 4, Piece::Pawn, Color::White);
    place_piece(&mut board, 5, 3, Piece::Pawn, Color::Black);

    let mut board_state = empty_board_state();
    // black just double pushed to col 3, row 5 — en passant target is row 6, col 3
    board_state.black_state.en_passant = Some(Square {
        row: 5,
        column: 3,
        piece_state: board.board[4][2].piece_state,
    });

    let state = board.board[4][3].piece_state.unwrap();
    let mask = full_check_mask();
    let moves = get_white_pawn_moves(state, &board, board_state, &mask);
    assert!(
        moves.iter().any(|m| m.current_square.row == 6
            && m.current_square.column == 3
            && m.captured_piece.is_some()),
        "white should be able to capture en passant to the left"
    );
}

#[test]
fn test_black_pawn_en_passant_right() {
    let mut board = empty_board();
    place_piece(&mut board, 4, 4, Piece::Pawn, Color::Black);
    place_piece(&mut board, 4, 5, Piece::Pawn, Color::White);

    let mut board_state = empty_board_state();
    board_state.white_state.en_passant = Some(Square {
        row: 4,
        column: 5,
        piece_state: board.board[3][4].piece_state,
    });

    let state = board.board[3][3].piece_state.unwrap();
    let mask = full_check_mask();
    let moves = get_black_pawn_moves(state, &board, board_state, &mask);
    assert!(
        moves.iter().any(|m| m.current_square.row == 3
            && m.current_square.column == 5
            && m.captured_piece.is_some()),
        "black should be able to capture en passant to the right"
    );
}

#[test]
fn test_queen_cannot_move_when_blocked_by_own_pawns() {
    // Starting position - queen is completely hemmed in by own pieces
    // Queen at d1 should have 0 moves
    let board = start_board().clone();
    let board_state = empty_board_state();
    let mask = create_check_mask(&board, Color::White);
    let queen_state = board.board[0][3].piece_state.unwrap();
    let queen_moves = get_queen_moves(queen_state, &board, &mask);
    assert_eq!(queen_moves.len(), 0, "queen should have 0 moves in starting position, got {}", queen_moves.len());
}

#[test]
fn test_bishop_cannot_move_when_blocked_by_own_pawns() {
    // Starting position - both bishops are completely hemmed in
    let board = start_board().clone();
    let board_state = empty_board_state();
    let mask = create_check_mask(&board, Color::White);
    let bishop_state = board.board[0][5].piece_state.unwrap(); // f1 bishop
    let bishop_moves = get_bishop_moves(bishop_state, &board, &mask);
    assert_eq!(bishop_moves.len(), 0, "f1 bishop should have 0 moves in starting position, got {}", bishop_moves.len());
}
#[test]
fn test_queen_moves_after_e4_only_diagonal() {
    let mut board = start_board().clone();
    board.board[1][4].piece_state = None;
    board.board[3][4] = Square { row: 4, column: 5, piece_state: Some(PieceState {
        color: Color::White, piece: Piece::Pawn,
        location: (4, 5), has_moved: true, dead: false
    })};
    let board_state = empty_board_state();
    let mask = create_check_mask(&board, Color::White);
    let queen_state = board.board[0][3].piece_state.unwrap();
    let queen_moves = get_queen_moves(queen_state, &board, &mask);
    // Queen on d1 can slide diagonally through e2 to f3, g4, h5 (f2 pawn does NOT block this diagonal)
    // d1->e2->f3->g4->h5, stops at h5 (edge). 4 moves.
    assert_eq!(queen_moves.len(), 4, "queen should reach e2/f3/g4/h5, got {} moves: {:?}",
        queen_moves.len(),
        queen_moves.iter().map(|m| (m.current_square.row, m.current_square.column)).collect::<Vec<_>>());
}

#[test]
fn test_bishop_f1_moves_after_e4_only_one_square() {
    let mut board = start_board().clone();
    board.board[1][4].piece_state = None;
    board.board[3][4] = Square { row: 4, column: 5, piece_state: Some(PieceState {
        color: Color::White, piece: Piece::Pawn,
        location: (4, 5), has_moved: true, dead: false
    })};
    let board_state = empty_board_state();
    let mask = create_check_mask(&board, Color::White);
    let bishop_state = board.board[0][5].piece_state.unwrap();
    let bishop_moves = get_bishop_moves(bishop_state, &board, &mask);
    // f1 bishop slides e2->d3->c4->b5->a6, all empty. 5 moves.
    assert_eq!(bishop_moves.len(), 5, "f1 bishop should reach e2/d3/c4/b5/a6, got {}: {:?}",
        bishop_moves.len(),
        bishop_moves.iter().map(|m| (m.current_square.row, m.current_square.column)).collect::<Vec<_>>());
}

#[test]
fn test_king_cannot_move_to_e2_after_e4_if_attacked() {
    let mut board = start_board().clone();
    board.board[1][4].piece_state = None;
    board.board[3][4] = Square { row: 4, column: 5, piece_state: Some(PieceState {
        color: Color::White, piece: Piece::Pawn,
        location: (4, 5), has_moved: true, dead: false
    })};
    board.board[6][3].piece_state = None;
    board.board[4][3] = Square { row: 5, column: 4, piece_state: Some(PieceState {
        color: Color::Black, piece: Piece::Pawn,
        location: (5, 4), has_moved: true, dead: false
    })};
    let board_state = empty_board_state();
    let mask = create_check_mask(&board, Color::White);
    let king_state = board.board[0][4].piece_state.unwrap();
    let king_moves = get_king_moves(king_state, &board, &mask);
    // e2 is empty so king can move there (it's not attacked by anything)
    assert_eq!(king_moves.len(), 1, "king should have 1 move (e2), got {}: {:?}",
        king_moves.len(),
        king_moves.iter().map(|m| (m.current_square.row, m.current_square.column)).collect::<Vec<_>>());
}

#[test]
fn test_g7_pawn_moves_after_qh5() {
let mut board = start_board().clone();
board.board[1][4].piece_state = None;
board.board[3][4] = Square { row: 4, column: 5, piece_state: Some(PieceState {
    color: Color::White, piece: Piece::Pawn,
    location: (4, 5), has_moved: true, dead: false
})};
board.board[6][4].piece_state = None;
board.board[5][4] = Square { row: 6, column: 5, piece_state: Some(PieceState {
    color: Color::Black, piece: Piece::Pawn,
    location: (6, 5), has_moved: true, dead: false
})};
board.board[0][3].piece_state = None;
board.board[4][7] = Square { row: 5, column: 8, piece_state: Some(PieceState {
    color: Color::White, piece: Piece::Queen,
    location: (5, 8), has_moved: true, dead: false
})};

let board_state = empty_board_state();
let mask = create_check_mask(&board, Color::Black);

// g7 pawn: g6 and g5 should both be legal
// queen on h5 attacks g6 but that doesn't affect g7 pawn's moves
// since the black king on e8 is not exposed by g7 moving
let g7_pawn = board.board[6][6].piece_state.unwrap();
let g7_moves = get_black_pawn_moves(g7_pawn, &board, board_state, &mask);
println!("g7 pawn moves: {:?}", 
    g7_moves.iter().map(|m| (m.current_square.row, m.current_square.column)).collect::<Vec<_>>());
assert_eq!(g7_moves.len(), 2, "g7 pawn should have g6 and g5");

// now check is_legal_move filters correctly
for mv in &g7_moves {
    let legal = is_legal_move(mv, &board, Color::Black);
    println!("Move to ({},{}) legal: {}", mv.current_square.row, mv.current_square.column, legal);
    assert!(legal, "g7 pawn move to ({},{}) should be legal", 
        mv.current_square.row, mv.current_square.column);
}
}

#[test]
fn test_black_move_breakdown_after_qh5() {
let mut board = start_board().clone();
board.board[1][4].piece_state = None;
board.board[3][4] = Square { row: 4, column: 5, piece_state: Some(PieceState {
    color: Color::White, piece: Piece::Pawn,
    location: (4, 5), has_moved: true, dead: false
})};
board.board[6][4].piece_state = None;
board.board[5][4] = Square { row: 6, column: 5, piece_state: Some(PieceState {
    color: Color::Black, piece: Piece::Pawn,
    location: (6, 5), has_moved: true, dead: false
})};
board.board[0][3].piece_state = None;
board.board[4][7] = Square { row: 5, column: 8, piece_state: Some(PieceState {
    color: Color::White, piece: Piece::Queen,
    location: (5, 8), has_moved: true, dead: false
})};

let board_state = empty_board_state();
let mask = create_check_mask(&board, Color::Black);

let mut total = 0;

for row in 0..8 {
    for col in 0..8 {
        if let Some(piece_state) = board.board[row][col].piece_state {
            if piece_state.color == Color::Black {
                let mut moves: Vec<Move> = match piece_state.piece {
                    Piece::Pawn => get_black_pawn_moves(piece_state, &board, board_state, &mask),
                    Piece::Knight => get_knight_moves(piece_state, &board, &mask),
                    Piece::Bishop => get_bishop_moves(piece_state, &board, &mask),
                    Piece::Rook => get_rook_moves(piece_state, &board, &mask),
                    Piece::Queen => get_queen_moves(piece_state, &board, &mask),
                    Piece::King => get_king_moves(piece_state, &board, &mask),
                };
                moves.retain(|mv| is_legal_move(mv, &board, Color::Black));
                println!("{:?} at ({},{}) has {} moves: {:?}",
                    piece_state.piece,
                    row + 1, col + 1,
                    moves.len(),
                    moves.iter().map(|m| (m.current_square.row, m.current_square.column)).collect::<Vec<_>>());
                total += moves.len();
            }
        }
    }
}
println!("Total: {}", total);
assert_eq!(total, 27, "black should have 29 moves after 1.e4 e6 2.Qh5");
}

#[test]
fn test_black_move_breakdown_after_qh5_verbose() {
let mut board = start_board().clone();
board.board[1][4].piece_state = None;
board.board[3][4] = Square { row: 4, column: 5, piece_state: Some(PieceState {
    color: Color::White, piece: Piece::Pawn,
    location: (4, 5), has_moved: true, dead: false
})};
board.board[6][4].piece_state = None;
board.board[5][4] = Square { row: 6, column: 5, piece_state: Some(PieceState {
    color: Color::Black, piece: Piece::Pawn,
    location: (6, 5), has_moved: true, dead: false
})};
board.board[0][3].piece_state = None;
board.board[4][7] = Square { row: 5, column: 8, piece_state: Some(PieceState {
    color: Color::White, piece: Piece::Queen,
    location: (5, 8), has_moved: true, dead: false
})};

let board_state = empty_board_state();
let mask = create_check_mask(&board, Color::Black);

println!("\n=== BOARD POSITION ===");
for row in (0..8).rev() {
    println!("{} ", row + 1);
    for col in 0..8 {
        let ch = match board.board[row][col].piece_state {
            Some(s) => s.piece.to_char(s.color),
            None => ".".to_string(),
        };
        println!("{} ", ch);
    }
    println!();
}
println!("  a b c d e f g h");

println!("\n=== BLACK MOVES ===");
let mut total = 0;
for row in 0..8 {
    for col in 0..8 {
        if let Some(piece_state) = board.board[row][col].piece_state {
            if piece_state.color == Color::Black {
                let mut moves: Vec<Move> = match piece_state.piece {
                    Piece::Pawn => get_black_pawn_moves(piece_state, &board, board_state, &mask),
                    Piece::Knight => get_knight_moves(piece_state, &board, &mask),
                    Piece::Bishop => get_bishop_moves(piece_state, &board, &mask),
                    Piece::Rook => get_rook_moves(piece_state, &board, &mask),
                    Piece::Queen => get_queen_moves(piece_state, &board, &mask),
                    Piece::King => get_king_moves(piece_state, &board, &mask),
                };
                moves.retain(|mv| is_legal_move(mv, &board, Color::Black));

                let col_char = (b'a' + col as u8) as char;
                for mv in &moves {
                    let to_col = (b'a' + mv.current_square.column as u8 - 1) as char;
                    println!("  {:?} {}{}  ->  {}{}{}",
                        piece_state.piece,
                        col_char, row + 1,
                        to_col, mv.current_square.row,
                        if mv.captured_piece.is_some() { " (capture)" } else { "" }
                    );
                }
                total += moves.len();
            }
        }
    }
}
println!("\nTotal: {}", total);
assert_eq!(total, 27, "black should have 27 moves after 1.e4 e6 2.Qh5");
}

#[test]
fn test_black_pawn_double_push_after_qh5() {
    let mut board = start_board().clone();
    board.board[1][4].piece_state = None;
    board.board[3][4] = Square { row: 4, column: 5, piece_state: Some(PieceState {
        color: Color::White, piece: Piece::Pawn,
        location: (4, 5), has_moved: true, dead: false
    })};
    board.board[6][4].piece_state = None;
    board.board[5][4] = Square { row: 6, column: 5, piece_state: Some(PieceState {
        color: Color::Black, piece: Piece::Pawn,
        location: (6, 5), has_moved: true, dead: false
    })};
    board.board[0][3].piece_state = None;
    board.board[4][7] = Square { row: 5, column: 8, piece_state: Some(PieceState {
        color: Color::White, piece: Piece::Queen,
        location: (5, 8), has_moved: true, dead: false
    })};

    let board_state = empty_board_state();
    let mask = create_check_mask(&board, Color::Black);

    // g7 pawn has 2 moves: g6 and g5
    let g7_pawn = board.board[6][6].piece_state.unwrap();
    let g7_moves = get_black_pawn_moves(g7_pawn, &board, board_state, &mask);
    assert_eq!(g7_moves.len(), 2);

    // h7 pawn: the white queen on h5 blocks the double step, so only h6 is left
    let h7_pawn = board.board[6][7].piece_state.unwrap();
    let h7_moves = get_black_pawn_moves(h7_pawn, &board, board_state, &mask);
    assert_eq!(h7_moves.len(), 1);
    assert_eq!((h7_moves[0].current_square.row, h7_moves[0].current_square.column), (6, 8));
}
