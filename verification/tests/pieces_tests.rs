#![allow(unused_imports, unused_variables, unused_mut, non_snake_case, dead_code)]

use chessbot::material::{calculate_material, evaluate_phase, get_piece_value, get_position_bonus, GamePhase};
use chessbot::move_ordering::MoveList;
use chessbot::moves::{
    create, empty_move, get_bishop_moves, get_black_pawn_moves, get_king_moves, get_knight_moves,
    get_pawn_moves, get_queen_moves, get_rook_moves, get_white_pawn_moves, Move,
};
use chessbot::pieces::{
    empty_board, start_board, Board, BoardState, CastlingRights, CheckMask, Color, ColorState,
    DrawConditions, Piece, PieceState, Square,
};
use chessbot::search::PVS;
use chessbot::utils::{
    access_board, column_is_attacked, create_check_mask, diagonal_is_attacked, find_king, get_checks,
    in_bounds, is_legal_move, row_is_attacked, simple_algebraic_to_grid, square_is_attacked,
};

// ---- start_board() structure ----

#[test]
fn pieces_test_start_board_white_back_rank() {
    let back_rank = [
        Piece::Rook, Piece::Knight, Piece::Bishop, Piece::Queen,
        Piece::King, Piece::Bishop, Piece::Knight, Piece::Rook,
    ];
    for (col, &piece) in back_rank.iter().enumerate() {
        let sq = start_board().board[0][col];
        let state = sq.piece_state.expect("back rank should be occupied");
        assert_eq!(state.color, Color::White, "col {} should be white", col);
        assert_eq!(state.piece, piece, "col {} piece mismatch", col);
        assert_eq!(sq.row, 1);
        assert_eq!(sq.column, col + 1);
    }
}

#[test]
fn pieces_test_start_board_black_back_rank() {
    let back_rank = [
        Piece::Rook, Piece::Knight, Piece::Bishop, Piece::Queen,
        Piece::King, Piece::Bishop, Piece::Knight, Piece::Rook,
    ];
    for (col, &piece) in back_rank.iter().enumerate() {
        let sq = start_board().board[7][col];
        let state = sq.piece_state.expect("back rank should be occupied");
        assert_eq!(state.color, Color::Black, "col {} should be black", col);
        assert_eq!(state.piece, piece, "col {} piece mismatch", col);
        assert_eq!(sq.row, 8);
        assert_eq!(sq.column, col + 1);
    }
}

#[test]
fn pieces_test_start_board_white_pawns() {
    for col in 0..8 {
        let sq = start_board().board[1][col];
        let state = sq.piece_state.expect("pawn rank should be occupied");
        assert_eq!(state.color, Color::White);
        assert_eq!(state.piece, Piece::Pawn);
        assert_eq!(sq.row, 2);
        assert_eq!(sq.column, col + 1);
    }
}

#[test]
fn pieces_test_start_board_black_pawns() {
    for col in 0..8 {
        let sq = start_board().board[6][col];
        let state = sq.piece_state.expect("pawn rank should be occupied");
        assert_eq!(state.color, Color::Black);
        assert_eq!(state.piece, Piece::Pawn);
        assert_eq!(sq.row, 7);
        assert_eq!(sq.column, col + 1);
    }
}

#[test]
fn pieces_test_start_board_middle_ranks_empty() {
    for row in 2..6 {
        for col in 0..8 {
            assert!(
                start_board().board[row][col].piece_state.is_none(),
                "row {} col {} should be empty", row, col
            );
        }
    }
}

#[test]
fn pieces_test_start_board_has_32_pieces() {
    let count = start_board().board.iter().flatten()
        .filter(|sq| sq.piece_state.is_some())
        .count();
    assert_eq!(count, 32);
}

#[test]
fn pieces_test_start_board_has_16_white_pieces() {
    let count = start_board().board.iter().flatten()
        .filter_map(|sq| sq.piece_state)
        .filter(|s| s.color == Color::White)
        .count();
    assert_eq!(count, 16);
}

#[test]
fn pieces_test_start_board_has_16_black_pieces() {
    let count = start_board().board.iter().flatten()
        .filter_map(|sq| sq.piece_state)
        .filter(|s| s.color == Color::Black)
        .count();
    assert_eq!(count, 16);
}

#[test]
fn pieces_test_start_board_piece_locations_match_square_coords() {
    for row in 0..8 {
        for col in 0..8 {
            let sq = start_board().board[row][col];
            assert_eq!(sq.row, row + 1, "square row mismatch at [{row}][{col}]");
            assert_eq!(sq.column, col + 1, "square col mismatch at [{row}][{col}]");
            if let Some(state) = sq.piece_state {
                assert_eq!(state.location.0, row + 1, "piece location row mismatch at [{row}][{col}]");
                assert_eq!(state.location.1, col + 1, "piece location col mismatch at [{row}][{col}]");
            }
        }
    }
}

#[test]
fn pieces_test_start_board_no_pieces_have_moved() {
    for sq in start_board().board.iter().flatten() {
        if let Some(state) = sq.piece_state {
            assert!(!state.has_moved, "no piece should have moved at start");
            assert!(!state.dead, "no piece should be dead at start");
        }
    }
}

// ---- empty_board() structure ----

#[test]
fn pieces_test_empty_board_has_no_pieces() {
    let count = empty_board().board.iter().flatten()
        .filter(|sq| sq.piece_state.is_some())
        .count();
    assert_eq!(count, 0);
}

#[test]
fn pieces_test_empty_board_square_coords_correct() {
    for row in 0..8 {
        for col in 0..8 {
            let sq = empty_board().board[row][col];
            assert_eq!(sq.row, row + 1, "row mismatch at [{row}][{col}]");
            assert_eq!(sq.column, col + 1, "col mismatch at [{row}][{col}]");
        }
    }
}

// ---- Piece::to_char ----

#[test]
fn pieces_test_white_piece_chars() {
    assert_eq!(Piece::Pawn.to_char(Color::White), "P");
    assert_eq!(Piece::Rook.to_char(Color::White), "R");
    assert_eq!(Piece::Knight.to_char(Color::White), "N");
    assert_eq!(Piece::Bishop.to_char(Color::White), "B");
    assert_eq!(Piece::Queen.to_char(Color::White), "Q");
    assert_eq!(Piece::King.to_char(Color::White), "K");
}

#[test]
fn pieces_test_black_piece_chars() {
    assert_eq!(Piece::Pawn.to_char(Color::Black), "p");
    assert_eq!(Piece::Rook.to_char(Color::Black), "r");
    assert_eq!(Piece::Knight.to_char(Color::Black), "n");
    assert_eq!(Piece::Bishop.to_char(Color::Black), "b");
    assert_eq!(Piece::Queen.to_char(Color::Black), "q");
    assert_eq!(Piece::King.to_char(Color::Black), "k");
}

// ---- Color / Piece equality ----

#[test]
fn pieces_test_color_equality() {
    assert_eq!(Color::White, Color::White);
    assert_eq!(Color::Black, Color::Black);
    assert_ne!(Color::White, Color::Black);
}

#[test]
fn pieces_test_piece_equality() {
    assert_eq!(Piece::King, Piece::King);
    assert_ne!(Piece::King, Piece::Queen);
}
