#![allow(unused_imports, unused_variables, unused_mut, non_snake_case, dead_code)]

use chessbot::material::{calculate_material, evaluate_phase, get_piece_value, get_position_bonus, GamePhase};
use chessbot::move_ordering::MoveList;
use chessbot::moves::{
    create, empty_move, get_bishop_moves, get_black_pawn_moves, get_king_moves, get_knight_moves,
    get_pawn_moves, get_queen_moves, get_rook_moves, get_white_pawn_moves, Move,
};
use chessbot::pieces::{
    empty_board, start_board, Board, BoardState, CastlingRights, CheckMask, Color, ColorState,
    DrawConditions, Piece, PieceState, Square,
};
use chessbot::search::PVS;
use chessbot::utils::{
    access_board, column_is_attacked, create_check_mask, diagonal_is_attacked, find_king, get_checks,
    in_bounds, is_legal_move, row_is_attacked, simple_algebraic_to_grid, square_is_attacked,
};

#[test]
fn test_dash_returns_none() {
    assert!(simple_algebraic_to_grid("-").is_none());
}

#[test]
fn test_a1_converts_correctly() {
    let result = simple_algebraic_to_grid("a1").unwrap();
    assert_eq!(result.column, 1);
    assert_eq!(result.row, 1);
}

#[test]
fn test_h8_converts_correctly() {
    let result = simple_algebraic_to_grid("h8").unwrap();
    assert_eq!(result.column, 8);
    assert_eq!(result.row, 8);
}

#[test]
fn test_e4_converts_correctly() {
    let result = simple_algebraic_to_grid("e4").unwrap();
    assert_eq!(result.column, 5);
    assert_eq!(result.row, 4);
}

#[test]
fn test_d6_converts_correctly() {
    let result = simple_algebraic_to_grid("d6").unwrap();
    assert_eq!(result.column, 4);
    assert_eq!(result.row, 6);
}

#[test]
fn test_all_columns_map_correctly() {
    let cols = [
        ("a1", 1), ("b1", 2), ("c1", 3), ("d1", 4),
        ("e1", 5), ("f1", 6), ("g1", 7), ("h1", 8),
    ];
    for (notation, expected_col) in cols {
        let result = simple_algebraic_to_grid(notation).unwrap();
        assert_eq!(result.column, expected_col, "failed for {}", notation);
    }
}

#[test]
fn test_all_rows_map_correctly() {
    let rows = [
        ("a1", 1), ("a2", 2), ("a3", 3), ("a4", 4),
        ("a5", 5), ("a6", 6), ("a7", 7), ("a8", 8),
    ];
    for (notation, expected_row) in rows {
        let result = simple_algebraic_to_grid(notation).unwrap();
        assert_eq!(result.row, expected_row, "failed for {}", notation);
    }
}






#[test]
fn test_result_has_no_piece_state() {
    let result = simple_algebraic_to_grid("e4").unwrap();
    assert!(result.piece_state.is_none());
}
