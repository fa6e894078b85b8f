#![allow(unused_imports, unused_variables, unused_mut, non_snake_case, dead_code)]

use chessbot::material::{calculate_material, evaluate_phase, get_piece_value, get_position_bonus, GamePhase};
use chessbot::move_ordering::MoveList;
use chessbot::moves::{
    create, empty_move, get_bishop_moves, get_black_pawn_moves, get_king_moves, get_knight_moves,
    get_pawn_moves, get_queen_moves, get_rook_moves, get_white_pawn_moves, Move,
};
use chessbot::pieces::{
    empty_board, start_board, Board, BoardState, CastlingRights, CheckMask, Color, ColorState,
    DrawConditions, Piece, PieceState, Square,
};
use chessbot::search::PVS;
use chessbot::utils::{
    access_board, column_is_attacked, create_check_mask, diagonal_is_attacked, find_king, get_checks,
    in_bounds, is_legal_move, row_is_attacked, simple_algebraic_to_grid, square_is_attacked,
};

fn place_piece(board: &mut Board, row: usize, col: usize, piece: Piece, color: Color) {
    board.board[row - 1][col - 1].piece_state = Some(PieceState {
        color,
        piece,
        location: (row, col),
        has_moved: false,
        dead: false,
    });
}

// ---- get_piece_value ----

#[test]
fn test_pawn_value() {
    assert_eq!(get_piece_value(Piece::Pawn), 1);
}

#[test]
fn test_queen_value() {
    assert_eq!(get_piece_value(Piece::Queen), 9);
}

#[test]
fn test_king_value() {
    assert_eq!(get_piece_value(Piece::King), 0);
}

// ---- evaluate_phase ----

#[test]
fn test_opening_phase() {
    // start_board() has full material, should be Opening
    let phase = evaluate_phase(&start_board());
    assert!(matches!(phase, GamePhase::Opening));
}

#[test]
fn test_endgame_phase() {
    // just two kings on the board = very low material
    let mut board = empty_board();
    place_piece(&mut board, 1, 5, Piece::King, Color::White);
    place_piece(&mut board, 8, 5, Piece::King, Color::Black);
    let phase = evaluate_phase(&board);
    assert!(matches!(phase, GamePhase::Endgame));
}

#[test]
fn test_middlegame_phase() {
    let mut board = empty_board();
    place_piece(&mut board, 1, 5, Piece::King, Color::White);
    place_piece(&mut board, 8, 5, Piece::King, Color::Black);
    place_piece(&mut board, 1, 1, Piece::Rook, Color::White);
    place_piece(&mut board, 1, 2, Piece::Rook, Color::White);
    place_piece(&mut board, 8, 1, Piece::Rook, Color::Black);
    place_piece(&mut board, 8, 2, Piece::Rook, Color::Black);
    // 4 rooks = 20 material, should be Middlegame
    let phase = evaluate_phase(&board);
    assert!(matches!(phase, GamePhase::Middlegame));
}

// ---- calculate_material ----

#[test]
fn test_empty_board_score_is_zero() {
    assert_eq!(calculate_material(&empty_board()), 0);
}

#[test]
fn test_equal_material_near_zero() {
    // one white queen vs one black queen, same square index = score of 0
    let mut board = empty_board();
    place_piece(&mut board, 4, 4, Piece::Queen, Color::White);
    place_piece(&mut board, 5, 4, Piece::Queen, Color::Black);
    // material cancels out; position bonuses may differ slightly but score near 0
    let score = calculate_material(&board);
    // both queens present so white and black cancel on material (9 - 9 = 0)
    // just assert it's in a reasonable range
    assert!(score.abs() < 10);
}

#[test]
fn test_white_up_a_queen() {
    let mut board = empty_board();
    place_piece(&mut board, 1, 5, Piece::King, Color::White);
    place_piece(&mut board, 8, 5, Piece::King, Color::Black);
    place_piece(&mut board, 4, 4, Piece::Queen, Color::White);
    let score = calculate_material(&board);
    assert!(score > 0, "white is up material, score should be positive");
}

#[test]
fn test_black_up_a_rook() {
    let mut board = empty_board();
    place_piece(&mut board, 1, 5, Piece::King, Color::White);
    place_piece(&mut board, 8, 5, Piece::King, Color::Black);
    place_piece(&mut board, 4, 1, Piece::Rook, Color::Black);
    let score = calculate_material(&board);
    assert!(score < 0, "black is up material, score should be negative");
}

#[test]
fn test_starting_position_is_balanced() {
    // starting position is perfectly symmetric, score should be 0
    println!("{}", calculate_material(&start_board()));
    assert_eq!(calculate_material(&start_board()), 0);
}
