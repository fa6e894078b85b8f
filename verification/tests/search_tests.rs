#![allow(unused_imports, unused_variables, unused_mut, non_snake_case, dead_code)]

use chessbot::material::{calculate_material, evaluate_phase, get_piece_value, get_position_bonus, GamePhase};
use chessbot::move_ordering::MoveList;
use chessbot::moves::{
    create, empty_move, get_bishop_moves, get_black_pawn_moves, get_king_moves, get_knight_moves,
    get_pawn_moves, get_queen_moves, get_rook_moves, get_white_pawn_moves, Move,
};
use chessbot::pieces::{
    empty_board, start_board, Board, BoardState, CastlingRights, CheckMask, Color, ColorState,
    DrawConditions, Piece, PieceState, Square,
};
use chessbot::search::PVS;
use chessbot::utils::{
    access_board, column_is_attacked, create_check_mask, diagonal_is_attacked, find_king, get_checks,
    in_bounds, is_legal_move, row_is_attacked, simple_algebraic_to_grid, square_is_attacked,
};

fn place_piece(board: &mut Board, row: usize, col: usize, piece: Piece, color: Color) {
    board.board[row - 1][col - 1] = Square {
        row,
        column: col,
        piece_state: Some(PieceState {
            color,
            piece,
            location: (row, col),
            has_moved: false,
            dead: false,
        }),
    };
}

fn empty_board_state() -> BoardState {
    BoardState {
        board: empty_board(),
        active_color: Color::White,
        white_state: ColorState {
            color: Color::White,
            in_check: false,
            en_passant: None,
            castling: CastlingRights {
                castle_kingside: false,
                castle_queenside: false,
            },
        },
        black_state: ColorState {
            color: Color::Black,
            in_check: false,
            en_passant: None,
            castling: CastlingRights {
                castle_kingside: false,
                castle_queenside: false,
            },
        },
        draw: DrawConditions {
            draw: false,
            fifty_move_counter: 0,
            threefold_counter: 0,
        },
        time: None,
    }
}

// ---- best_move ----

#[test]
fn test_best_move_returns_none_on_empty_board() {
    let pvs = PVS;
    let board = empty_board();
    let board_state = empty_board_state();
    assert!(pvs.best_move(1, &board, Color::White, board_state).is_none());
}

#[test]
fn test_best_move_returns_some_from_start() {
    let pvs = PVS;
    let board_state = empty_board_state();
    assert!(pvs.best_move(1, &start_board(), Color::White, board_state).is_some());
}

#[test]
fn test_best_move_captures_free_queen() {
    // white king + pawn that can capture black queen, nothing else
    let mut board = empty_board();
    place_piece(&mut board, 1, 5, Piece::King, Color::White);
    place_piece(&mut board, 8, 5, Piece::King, Color::Black);
    place_piece(&mut board, 4, 4, Piece::Pawn, Color::White);
    place_piece(&mut board, 5, 5, Piece::Queen, Color::Black);

    let pvs = PVS;
    let board_state = empty_board_state();
    let mv = pvs.best_move(1, &board, Color::White, board_state).unwrap();
    assert!(
        mv.captured_piece.is_some(),
        "should capture the free queen"
    );
    assert_eq!(
        mv.captured_piece.unwrap().piece,
        Piece::Queen,
        "captured piece should be the queen"
    );
}

#[test]
fn test_best_move_depth_2_still_returns_move() {
    let pvs = PVS;
    let board_state = empty_board_state();
    let result = pvs.best_move(2, &start_board(), Color::White, board_state);
    assert!(result.is_some());
}

#[test]
fn test_best_move_prefers_capture_over_quiet() {
    let mut board = empty_board();
    place_piece(&mut board, 1, 5, Piece::King, Color::White);
    place_piece(&mut board, 8, 5, Piece::King, Color::Black);
    place_piece(&mut board, 4, 4, Piece::Rook, Color::White);
    place_piece(&mut board, 4, 7, Piece::Queen, Color::Black); // free queen on same row

    let pvs = PVS;
    let board_state = empty_board_state();
    let mv = pvs.best_move(1, &board, Color::White, board_state).unwrap();
    assert!(mv.captured_piece.is_some(), "should prefer capturing the queen");
}

// ---- switch_color ----

#[test]
fn test_switch_color_white_to_black() {
    let pvs = PVS;
    assert_eq!(pvs.switch_color(Color::White), Color::Black);
}

#[test]
fn test_switch_color_black_to_white() {
    let pvs = PVS;
    assert_eq!(pvs.switch_color(Color::Black), Color::White);
}

#[test]
fn test_switch_color_twice_returns_original() {
    let pvs = PVS;
    assert_eq!(pvs.switch_color(pvs.switch_color(Color::White)), Color::White);
    assert_eq!(pvs.switch_color(pvs.switch_color(Color::Black)), Color::Black);
}

// ---- setup_new_board ----

#[test]
fn test_setup_new_board_moves_piece() {
    let mut board = empty_board();
    place_piece(&mut board, 2, 4, Piece::Pawn, Color::White);

    let pvs = PVS;
    let mut move_list = MoveList::new();
    let board_state = empty_board_state();
    move_list.generate_moves(&board, Color::White, board_state);

    assert!(move_list.move_count > 0);
    let new_board = pvs.setup_new_board(&board, 0, &move_list);

    // origin square should be empty
    let prev = move_list.moves[0].previous_square;
    assert!(
        new_board.board[prev.row - 1][prev.column - 1].piece_state.is_none(),
        "origin square should be cleared"
    );

    // destination square should have the piece
    let dest = move_list.moves[0].current_square;
    assert!(
        new_board.board[dest.row - 1][dest.column - 1].piece_state.is_some(),
        "destination square should have the piece"
    );
}

#[test]
fn test_setup_new_board_does_not_mutate_original() {
    let mut board = empty_board();
    place_piece(&mut board, 2, 4, Piece::Pawn, Color::White);
    let original = board.clone();

    let pvs = PVS;
    let mut move_list = MoveList::new();
    let board_state = empty_board_state();
    move_list.generate_moves(&board, Color::White, board_state);
    pvs.setup_new_board(&board, 0, &move_list);

    assert_eq!(board, original, "original board should not be mutated");
}

// ---- search depth 0 ----

#[test]
fn test_search_depth_0_white_returns_material() {
    let pvs = PVS;
    let mut board = empty_board();
    let board_state = empty_board_state();
    place_piece(&mut board, 1, 5, Piece::King, Color::White);
    place_piece(&mut board, 8, 5, Piece::King, Color::Black);
    place_piece(&mut board, 4, 4, Piece::Queen, Color::White);

    // at depth 0 white is up a queen so score should be positive
    let score = pvs.search(i32::MIN + 1, i32::MAX, 0, &board, Color::White, board_state);
    assert!(score > 0, "white up a queen should score positive at depth 0");
}

#[test]
fn test_search_depth_0_black_flips_score() {
    let pvs = PVS;
    let mut board = empty_board();
    let board_state = empty_board_state();
    place_piece(&mut board, 1, 5, Piece::King, Color::White);
    place_piece(&mut board, 8, 5, Piece::King, Color::Black);
    place_piece(&mut board, 4, 4, Piece::Queen, Color::White);

    // from black's perspective white is winning so score should be negative
    let score = pvs.search(i32::MIN + 1, i32::MAX, 0, &board, Color::Black, board_state);
    assert!(score < 0, "white up a queen should score negative for black at depth 0");
}

#[test]
fn test_search_no_moves_returns_min() {
    let pvs = PVS;
    let board = empty_board();
    let board_state = empty_board_state();
    let score = pvs.search(i32::MIN + 1, i32::MAX, 3, &board, Color::White, board_state);
    assert_eq!(score, i32::MIN + 1, "no legal moves should return MIN+1");
}
// ---- start_board() structure ----

#[test]
fn search_test_start_board_white_back_rank() {
    let back_rank = [
        Piece::Rook, Piece::Knight, Piece::Bishop, Piece::Queen,
        Piece::King, Piece::Bishop, Piece::Knight, Piece::Rook,
    ];
    for (col, &piece) in back_rank.iter().enumerate() {
        let sq = start_board().board[0][col];
        let state = sq.piece_state.expect("back rank should be occupied");
        assert_eq!(state.color, Color::White, "col {} should be white", col);
        assert_eq!(state.piece, piece, "col {} piece mismatch", col);
        assert_eq!(sq.row, 1);
        assert_eq!(sq.column, col + 1);
    }
}

#[test]
fn search_test_start_board_black_back_rank() {
    let back_rank = [
        Piece::Rook, Piece::Knight, Piece::Bishop, Piece::Queen,
        Piece::King, Piece::Bishop, Piece::Knight, Piece::Rook,
    ];
    for (col, &piece) in back_rank.iter().enumerate() {
        let sq = start_board().board[7][col];
        let state = sq.piece_state.expect("back rank should be occupied");
        assert_eq!(state.color, Color::Black, "col {} should be black", col);
        assert_eq!(state.piece, piece, "col {} piece mismatch", col);
        assert_eq!(sq.row, 8);
        assert_eq!(sq.column, col + 1);
    }
}

#[test]
fn search_test_start_board_white_pawns() {
    for col in 0..8 {
        let sq = start_board().board[1][col];
        let state = sq.piece_state.expect("pawn rank should be occupied");
        assert_eq!(state.color, Color::White);
        assert_eq!(state.piece, Piece::Pawn);
        assert_eq!(sq.row, 2);
        assert_eq!(sq.column, col + 1);
    }
}

#[test]
fn search_test_start_board_black_pawns() {
    for col in 0..8 {
        let sq = start_board().board[6][col];
        let state = sq.piece_state.expect("pawn rank should be occupied");
        assert_eq!(state.color, Color::Black);
        assert_eq!(state.piece, Piece::Pawn);
        assert_eq!(sq.row, 7);
        assert_eq!(sq.column, col + 1);
    }
}

#[test]
fn search_test_start_board_middle_ranks_empty() {
    for row in 2..6 {
        for col in 0..8 {
            assert!(
                start_board().board[row][col].piece_state.is_none(),
                "row {} col {} should be empty", row, col
            );
        }
    }
}

#[test]
fn search_test_start_board_has_32_pieces() {
    let count = start_board().board.iter().flatten()
        .filter(|sq| sq.piece_state.is_some())
        .count();
    assert_eq!(count, 32);
}

#[test]
fn search_test_start_board_has_16_white_pieces() {
    let count = start_board().board.iter().flatten()
        .filter_map(|sq| sq.piece_state)
        .filter(|s| s.color == Color::White)
        .count();
    assert_eq!(count, 16);
}

#[test]
fn search_test_start_board_has_16_black_pieces() {
    let count = start_board().board.iter().flatten()
        .filter_map(|sq| sq.piece_state)
        .filter(|s| s.color == Color::Black)
        .count();
    assert_eq!(count, 16);
}

#[test]
fn search_test_start_board_piece_locations_match_square_coords() {
    for row in 0..8 {
        for col in 0..8 {
            let sq = start_board().board[row][col];
            assert_eq!(sq.row, row + 1, "square row mismatch at [{row}][{col}]");
            assert_eq!(sq.column, col + 1, "square col mismatch at [{row}][{col}]");
            if let Some(state) = sq.piece_state {
                assert_eq!(state.location.0, row + 1, "piece location row mismatch at [{row}][{col}]");
                assert_eq!(state.location.1, col + 1, "piece location col mismatch at [{row}][{col}]");
            }
        }
    }
}

#[test]
fn search_test_start_board_no_pieces_have_moved() {
    for sq in start_board().board.iter().flatten() {
        if let Some(state) = sq.piece_state {
            assert!(!state.has_moved, "no piece should have moved at start");
            assert!(!state.dead, "no piece should be dead at start");
        }
    }
}

// ---- empty_board() structure ----

#[test]
fn search_test_empty_board_has_no_pieces() {
    let count = empty_board().board.iter().flatten()
        .filter(|sq| sq.piece_state.is_some())
        .count();
    assert_eq!(count, 0);
}

#[test]
fn search_test_empty_board_square_coords_correct() {
    for row in 0..8 {
        for col in 0..8 {
            let sq = empty_board().board[row][col];
            assert_eq!(sq.row, row + 1, "row mismatch at [{row}][{col}]");
            assert_eq!(sq.column, col + 1, "col mismatch at [{row}][{col}]");
        }
    }
}

// ---- Piece::to_char ----

#[test]
fn search_test_white_piece_chars() {
    assert_eq!(Piece::Pawn.to_char(Color::White), "P");
    assert_eq!(Piece::Rook.to_char(Color::White), "R");
    assert_eq!(Piece::Knight.to_char(Color::White), "N");
    assert_eq!(Piece::Bishop.to_char(Color::White), "B");
    assert_eq!(Piece::Queen.to_char(Color::White), "Q");
    assert_eq!(Piece::King.to_char(Color::White), "K");
}

#[test]
fn search_test_black_piece_chars() {
    assert_eq!(Piece::Pawn.to_char(Color::Black), "p");
    assert_eq!(Piece::Rook.to_char(Color::Black), "r");
    assert_eq!(Piece::Knight.to_char(Color::Black), "n");
    assert_eq!(Piece::Bishop.to_char(Color::Black), "b");
    assert_eq!(Piece::Queen.to_char(Color::Black), "q");
    assert_eq!(Piece::King.to_char(Color::Black), "k");
}

// ---- Color / Piece equality ----

#[test]
fn search_test_color_equality() {
    assert_eq!(Color::White, Color::White);
    assert_eq!(Color::Black, Color::Black);
    assert_ne!(Color::White, Color::Black);
}

#[test]
fn search_test_piece_equality() {
    assert_eq!(Piece::King, Piece::King);
    assert_ne!(Piece::King, Piece::Queen);
}

 #[test]
fn perft_depth_1() {
    let pvs = PVS;
    let board_state = empty_board_state();
    assert_eq!(pvs.perft(&start_board(), Color::White, 1, board_state), 20);
}

#[test]
fn perft_depth_2() {
    let pvs = PVS;
    let board_state = empty_board_state();
    assert_eq!(pvs.perft(&start_board(), Color::White, 2, board_state), 400);
}

#[test]
fn perft_depth_3() {
    let pvs = PVS;
    let board_state = empty_board_state();
    assert_eq!(pvs.perft(&start_board(), Color::White, 3, board_state), 8902);
}

// #[test]
// fn perft_depth_4() {
//     let pvs = PVS;
//     let board_state = empty_board_state();
//     assert_eq!(pvs.perft(&start_board(), Color::White, 4, board_state), 197281);
// }

// #[test]
// fn perft_depth_5() {
//     let pvs = PVS;
//     let board_state = empty_board_state();
//     assert_eq!(pvs.perft(&start_board(), Color::White, 5, board_state), 4865609)
// }

#[test]
fn perft_divide_test_depth4() {
    let pvs = PVS;
    let board_state = empty_board_state();
    
    pvs.perft_divide(&start_board(), Color::White, 4, board_state);
    
    assert_eq!(pvs.perft(&start_board(), Color::White, 4, board_state), 197281);
}

// #[test]
// fn perft_test_depth5() {
//     let pvs = PVS;
//     let board_state = empty_board_state();

//     pvs.perft_divide(&start_board(), Color::White, 5, board_state);

//     assert_eq!(pvs.perft(&start_board(), Color::White, 5, board_state), 4865609);
// }

#[test]
fn perft_after_e2e4() {
    let pvs = PVS;
    let mut board = start_board().clone();
    // manually apply e2e4
    board.board[1][4].piece_state = None;
    board.board[3][4] = Square { row: 4, column: 5, piece_state: Some(PieceState {
        color: Color::White, piece: Piece::Pawn, 
        location: (4, 5), has_moved: true, dead: false
    })};
    let mut board_state = empty_board_state();
    board_state.white_state.en_passant = Some(board.board[2][4]);
    pvs.perft_divide(&board, Color::Black, 3, board_state);
}

#[test]
fn test_move_count_after_e4_e5() {
    let pvs = PVS;
    let mut board = start_board().clone();
    
    // apply e2e4
    board.board[1][4].piece_state = None;
    board.board[3][4] = Square { row: 4, column: 5, piece_state: Some(PieceState {
        color: Color::White, piece: Piece::Pawn,
        location: (4, 5), has_moved: true, dead: false
    })};
    
    // apply e7e5
    board.board[6][4].piece_state = None;
    board.board[4][4] = Square { row: 5, column: 5, piece_state: Some(PieceState {
        color: Color::Black, piece: Piece::Pawn,
        location: (5, 5), has_moved: true, dead: false
    })};
    
    let board_state = empty_board_state();
    let mut move_list = MoveList::new();
    move_list.generate_moves(&board, Color::White, board_state);
    
    assert_eq!(move_list.move_count, 29, "after 1.e4 e5 white should have 29 moves");
}

#[test]
fn perft_after_e2e4_depth3() {
    let pvs = PVS;
    let mut board = start_board().clone();
    board.board[1][4].piece_state = None;
    board.board[3][4] = Square { row: 4, column: 5, piece_state: Some(PieceState {
        color: Color::White, piece: Piece::Pawn,
        location: (4, 5), has_moved: true, dead: false
    })};
    let mut board_state = empty_board_state();
    board_state.white_state.en_passant = Some(board.board[3][4]);
    
    pvs.perft_divide(&board, Color::Black, 3, board_state);
    assert_eq!(pvs.perft(&board, Color::Black, 3, board_state), 13160);
}

#[test]
fn test_move_count_after_e4_d5() {
    let mut board = start_board().clone();
    board.board[1][4].piece_state = None;
    board.board[3][4] = Square { row: 4, column: 5, piece_state: Some(PieceState {
        color: Color::White, piece: Piece::Pawn,
        location: (4, 5), has_moved: true, dead: false
    })};
    board.board[6][3].piece_state = None;
    board.board[4][3] = Square { row: 5, column: 4, piece_state: Some(PieceState {
        color: Color::Black, piece: Piece::Pawn,
        location: (5, 4), has_moved: true, dead: false
    })};
    
    let board_state = empty_board_state();
    let mut move_list = MoveList::new();
    move_list.generate_moves(&board, Color::White, board_state);
    for mv in move_list.moves {
        if mv != empty_move() {
            println!("{:?}", mv);
        }
    }
    assert_eq!(move_list.move_count, 31);
}

#[test]
fn test_move_count_after_e4_d5_by_piece() {
    let mut board = start_board().clone();
    board.board[1][4].piece_state = None;
    board.board[3][4] = Square { row: 4, column: 5, piece_state: Some(PieceState {
        color: Color::White, piece: Piece::Pawn,
        location: (4, 5), has_moved: true, dead: false
    })};
    board.board[6][3].piece_state = None;
    board.board[4][3] = Square { row: 5, column: 4, piece_state: Some(PieceState {
        color: Color::Black, piece: Piece::Pawn,
        location: (5, 4), has_moved: true, dead: false
    })};
    
    let board_state = empty_board_state();
    let mask = create_check_mask(&board, Color::White);
    
    // check queen moves specifically
    let queen_state = board.board[0][3].piece_state.unwrap();
    let queen_moves = get_queen_moves(queen_state, &board, &mask);
    println!("Queen moves: {}", queen_moves.len());
    for mv in &queen_moves {
        println!("  Queen -> ({}, {})", mv.current_square.row, mv.current_square.column);
    }
}

#[test]
fn test_black_move_count_after_e4() {
// After 1.e4, black should have exactly 20 moves
let pvs = PVS;
let mut board = start_board().clone();
board.board[1][4].piece_state = None;
board.board[3][4] = Square { row: 4, column: 5, piece_state: Some(PieceState {
    color: Color::White, piece: Piece::Pawn,
    location: (4, 5), has_moved: true, dead: false
})};
let board_state = empty_board_state();
let mut move_list = MoveList::new();
move_list.generate_moves(&board, Color::Black, board_state);
assert_eq!(move_list.move_count, 20, 
    "after 1.e4 black should have 20 moves, got {}", move_list.move_count);
}

#[test]
fn test_black_move_count_after_e4_with_en_passant_set() {
// Same position but with en passant square correctly set - should still be 20
let pvs = PVS;
let mut board = start_board().clone();
board.board[1][4].piece_state = None;
board.board[3][4] = Square { row: 4, column: 5, piece_state: Some(PieceState {
    color: Color::White, piece: Piece::Pawn,
    location: (4, 5), has_moved: true, dead: false
})};
let mut board_state = empty_board_state();
// en passant target is e3 (the square the capturing pawn would land on)
board_state.white_state.en_passant = Some(board.board[3][4]);
let mut move_list = MoveList::new();
move_list.generate_moves(&board, Color::Black, board_state);
assert_eq!(move_list.move_count, 20,
    "after 1.e4 with en passant set, black should have 20 moves, got {}", move_list.move_count);
}

#[test]
fn test_no_en_passant_available_on_first_move() {
// Black pawns on d7/f7 should NOT be able to en passant after 1.e4
// because they are on rank 7, not rank 5
let mut board = start_board().clone();
board.board[1][4].piece_state = None;
board.board[3][4] = Square { row: 4, column: 5, piece_state: Some(PieceState {
    color: Color::White, piece: Piece::Pawn,
    location: (4, 5), has_moved: true, dead: false
})};
let mut board_state = empty_board_state();
board_state.white_state.en_passant = Some(board.board[3][4]);
let mask = create_check_mask(&board, Color::Black);

// d7 pawn should have exactly 2 moves (d6, d5) - no en passant
let d7_pawn = board.board[6][3].piece_state.unwrap();
let d7_moves = get_black_pawn_moves(d7_pawn, &board, board_state, &mask);
assert_eq!(d7_moves.len(), 2, "d7 pawn should have 2 moves, got {}: {:?}",
    d7_moves.len(),
    d7_moves.iter().map(|m| (m.current_square.row, m.current_square.column)).collect::<Vec<_>>());

// f7 pawn should have exactly 2 moves (f6, f5) - no en passant  
let f7_pawn = board.board[6][5].piece_state.unwrap();
let f7_moves = get_black_pawn_moves(f7_pawn, &board, board_state, &mask);
assert_eq!(f7_moves.len(), 2, "f7 pawn should have 2 moves, got {}: {:?}",
    f7_moves.len(),
    f7_moves.iter().map(|m| (m.current_square.row, m.current_square.column)).collect::<Vec<_>>());
}

#[test]
fn test_perft_after_e4_depth1() {
// After 1.e4, perft(1) from black's side should be exactly 20
let pvs = PVS;
let mut board = start_board().clone();
board.board[1][4].piece_state = None;
board.board[3][4] = Square { row: 4, column: 5, piece_state: Some(PieceState {
    color: Color::White, piece: Piece::Pawn,
    location: (4, 5), has_moved: true, dead: false
})};
let mut board_state = empty_board_state();
board_state.white_state.en_passant = Some(board.board[3][4]);
assert_eq!(pvs.perft(&board, Color::Black, 1, board_state), 20,
    "perft(1) after 1.e4 should be 20");
}

#[test]
fn test_perft_after_e4_depth2() {
// After 1.e4, perft(2) should be 400 (20 black moves * 20 white responses each... 
// actually varies, correct value is 600 since white has more options after e4)
// Known correct value: after 1.e4, perft(2) = 600
let pvs = PVS;
let mut board = start_board().clone();
board.board[1][4].piece_state = None;
board.board[3][4] = Square { row: 4, column: 5, piece_state: Some(PieceState {
    color: Color::White, piece: Piece::Pawn,
    location: (4, 5), has_moved: true, dead: false
})};
let mut board_state = empty_board_state();
board_state.white_state.en_passant = Some(board.board[3][4]);
assert_eq!(pvs.perft(&board, Color::Black, 2, board_state), 600,
    "perft(2) after 1.e4 should be 600");
}

#[test]
fn test_white_move_count_after_e4_d5() {
// After 1.e4 d5, white should have exactly 31 moves
let pvs = PVS;
let mut board = start_board().clone();
board.board[1][4].piece_state = None;
board.board[3][4] = Square { row: 4, column: 5, piece_state: Some(PieceState {
    color: Color::White, piece: Piece::Pawn,
    location: (4, 5), has_moved: true, dead: false
})};
board.board[6][3].piece_state = None;
board.board[4][3] = Square { row: 5, column: 4, piece_state: Some(PieceState {
    color: Color::Black, piece: Piece::Pawn,
    location: (5, 4), has_moved: true, dead: false
})};
let board_state = empty_board_state();
let mut move_list = MoveList::new();
move_list.generate_moves(&board, Color::White, board_state);
assert_eq!(move_list.move_count, 31,
    "after 1.e4 d5 white should have 31 moves, got {}", move_list.move_count);
}

#[test]
fn test_white_move_count_after_e4_e5() {
// After 1.e4 e5, white should have exactly 29 moves
let pvs = PVS;
let mut board = start_board().clone();
board.board[1][4].piece_state = None;
board.board[3][4] = Square { row: 4, column: 5, piece_state: Some(PieceState {
    color: Color::White, piece: Piece::Pawn,
    location: (4, 5), has_moved: true, dead: false
})};
board.board[6][4].piece_state = None;
board.board[4][4] = Square { row: 5, column: 5, piece_state: Some(PieceState {
    color: Color::Black, piece: Piece::Pawn,
    location: (5, 5), has_moved: true, dead: false
})};
let board_state = empty_board_state();
let mut move_list = MoveList::new();
move_list.generate_moves(&board, Color::White, board_state);
assert_eq!(move_list.move_count, 29,
    "after 1.e4 e5 white should have 29 moves, got {}", move_list.move_count);
}

#[test]
fn test_white_move_count_after_e4_e6() {
// After 1.e4 e6, white should have 29 moves
let pvs = PVS;
let mut board = start_board().clone();
board.board[1][4].piece_state = None;
board.board[3][4] = Square { row: 4, column: 5, piece_state: Some(PieceState {
    color: Color::White, piece: Piece::Pawn,
    location: (4, 5), has_moved: true, dead: false
})};
board.board[6][4].piece_state = None;
board.board[5][4] = Square { row: 6, column: 5, piece_state: Some(PieceState {
    color: Color::Black, piece: Piece::Pawn,
    location: (6, 5), has_moved: true, dead: false
})};
let board_state = empty_board_state();
let mut move_list = MoveList::new();
move_list.generate_moves(&board, Color::White, board_state);
assert_eq!(move_list.move_count, 30, "after 1.e4 e6 white should have 30 moves, got {}", move_list.move_count);
}

#[test]
fn test_perft_after_e4_d5_depth1() {
// After 1.e4 d5, perft(1) for white = 31
let pvs = PVS;
let mut board = start_board().clone();
board.board[1][4].piece_state = None;
board.board[3][4] = Square { row: 4, column: 5, piece_state: Some(PieceState {
    color: Color::White, piece: Piece::Pawn,
    location: (4, 5), has_moved: true, dead: false
})};
board.board[6][3].piece_state = None;
board.board[4][3] = Square { row: 5, column: 4, piece_state: Some(PieceState {
    color: Color::Black, piece: Piece::Pawn,
    location: (5, 4), has_moved: true, dead: false
})};
let board_state = empty_board_state();
assert_eq!(pvs.perft(&board, Color::White, 1, board_state), 31,
    "perft(1) after 1.e4 d5 should be 31");
}

#[test]
fn test_perft_after_e4_d5_depth2() {
// After 1.e4 d5, perft(2) for white = known correct value
// Each of white's 31 moves leads to black having some number of responses
// Correct value per external perft tool: 866 (for d7d5 branch from perft divide above)
let pvs = PVS;
let mut board = start_board().clone();
board.board[1][4].piece_state = None;
board.board[3][4] = Square { row: 4, column: 5, piece_state: Some(PieceState {
    color: Color::White, piece: Piece::Pawn,
    location: (4, 5), has_moved: true, dead: false
})};
board.board[6][3].piece_state = None;
board.board[4][3] = Square { row: 5, column: 4, piece_state: Some(PieceState {
    color: Color::Black, piece: Piece::Pawn,
    location: (5, 4), has_moved: true, dead: false
})};
let board_state = empty_board_state();
assert_eq!(pvs.perft(&board, Color::White, 2, board_state), 866,
    "perft(2) after 1.e4 d5 should be 866");
}

#[test]
fn test_white_pieces_after_e4_e6_breakdown() {
let mut board = start_board().clone();
board.board[1][4].piece_state = None;
board.board[3][4] = Square { row: 4, column: 5, piece_state: Some(PieceState {
    color: Color::White, piece: Piece::Pawn,
    location: (4, 5), has_moved: true, dead: false
})};
board.board[6][4].piece_state = None;
board.board[5][4] = Square { row: 6, column: 5, piece_state: Some(PieceState {
    color: Color::Black, piece: Piece::Pawn,
    location: (6, 5), has_moved: true, dead: false
})};
let board_state = empty_board_state();
let mask = create_check_mask(&board, Color::White);

let queen = board.board[0][3].piece_state.unwrap();
let queen_moves = get_queen_moves(queen, &board, &mask);
println!("Queen moves ({}): {:?}", queen_moves.len(),
    queen_moves.iter().map(|m| (m.current_square.row, m.current_square.column)).collect::<Vec<_>>());

let bishop_c1 = board.board[0][2].piece_state.unwrap();
let bishop_c1_moves = get_bishop_moves(bishop_c1, &board, &mask);
println!("Bishop c1 moves ({}): {:?}", bishop_c1_moves.len(),
    bishop_c1_moves.iter().map(|m| (m.current_square.row, m.current_square.column)).collect::<Vec<_>>());

let bishop_f1 = board.board[0][5].piece_state.unwrap();
let bishop_f1_moves = get_bishop_moves(bishop_f1, &board, &mask);
println!("Bishop f1 moves ({}): {:?}", bishop_f1_moves.len(),
    bishop_f1_moves.iter().map(|m| (m.current_square.row, m.current_square.column)).collect::<Vec<_>>());

let king = board.board[0][4].piece_state.unwrap();
let king_moves = get_king_moves(king, &board, &mask);
println!("King moves ({}): {:?}", king_moves.len(),
    king_moves.iter().map(|m| (m.current_square.row, m.current_square.column)).collect::<Vec<_>>());

// After 1.e4 e6:
// queen: e2, f3, g4, h5 = 4
// bishop f1: e2, d3, c4, b5, a6 = 5  
// bishop c1: blocked by d2 pawn = 0
// king: e2 = 1
// knights: Nc3, Na3, Nf3, Nh3, Ne2 = 5
// pawns: 7x2 + e4 pawn (e5 only, e6 blocked) = 15
// total = 4+5+0+1+5+15 = 30... hmm
// but e6 pawn on row 6 col 5 — does that open the c1 bishop?
assert_eq!(queen_moves.len(), 4, "queen should have 4 moves");
assert_eq!(bishop_f1_moves.len(), 5, "f1 bishop should have 5 moves");
assert_eq!(bishop_c1_moves.len(), 0, "c1 bishop should have 0 moves");
assert_eq!(king_moves.len(), 1, "king should have 1 move");
}

#[test]
fn test_perft_after_e4_e6_depth1() {
let pvs = PVS;
let mut board = start_board().clone();
board.board[1][4].piece_state = None;
board.board[3][4] = Square { row: 4, column: 5, piece_state: Some(PieceState {
    color: Color::White, piece: Piece::Pawn,
    location: (4, 5), has_moved: true, dead: false
})};
board.board[6][4].piece_state = None;
board.board[5][4] = Square { row: 6, column: 5, piece_state: Some(PieceState {
    color: Color::Black, piece: Piece::Pawn,
    location: (6, 5), has_moved: true, dead: false
})};
let board_state = empty_board_state();
assert_eq!(pvs.perft(&board, Color::White, 1, board_state), 30,
    "perft(1) after 1.e4 e6 should be 30");
}

#[test]
fn test_perft_after_e4_e6_depth2() {
let pvs = PVS;
let mut board = start_board().clone();
board.board[1][4].piece_state = None;
board.board[3][4] = Square { row: 4, column: 5, piece_state: Some(PieceState {
    color: Color::White, piece: Piece::Pawn,
    location: (4, 5), has_moved: true, dead: false
})};
board.board[6][4].piece_state = None;
board.board[5][4] = Square { row: 6, column: 5, piece_state: Some(PieceState {
    color: Color::Black, piece: Piece::Pawn,
    location: (6, 5), has_moved: true, dead: false
})};
let board_state = empty_board_state();
// correct value from external perft: 891 nodes at depth 2 from this position
assert_eq!(pvs.perft(&board, Color::White, 2, board_state), 891,
    "perft(2) after 1.e4 e6 should be 891");
}

#[test]
fn test_perft_after_e4_e6_depth2_white_Qh5_check() {
// After 1.e4 e6 2.Qh5, black should have limited moves due to check
let pvs = PVS;
let mut board = start_board().clone();
// apply e4
board.board[1][4].piece_state = None;
board.board[3][4] = Square { row: 4, column: 5, piece_state: Some(PieceState {
    color: Color::White, piece: Piece::Pawn,
    location: (4, 5), has_moved: true, dead: false
})};
// apply e6
board.board[6][4].piece_state = None;
board.board[5][4] = Square { row: 6, column: 5, piece_state: Some(PieceState {
    color: Color::Black, piece: Piece::Pawn,
    location: (6, 5), has_moved: true, dead: false
})};
// apply Qh5
board.board[0][3].piece_state = None;
board.board[4][7] = Square { row: 5, column: 8, piece_state: Some(PieceState {
    color: Color::White, piece: Piece::Queen,
    location: (5, 8), has_moved: true, dead: false
})};
let board_state = empty_board_state();
let mut move_list = MoveList::new();
move_list.generate_moves(&board, Color::Black, board_state);
// Qh5 does not give check in this position so black should have normal moves
// black has: 7 pawns with moves + knights + queen blocked + king blocked
// known correct: black has 29 moves here  
assert_eq!(move_list.move_count, 27,
    "after 1.e4 e6 2.Qh5 black should have 27 moves, got {}", move_list.move_count);
}

#[test]
fn test_update_board_state_clears_en_passant() {
// After any non-double-pawn-push move, en passant should be cleared
let pvs = PVS;
let mut board = start_board().clone();
board.board[1][4].piece_state = None;
board.board[3][4] = Square { row: 4, column: 5, piece_state: Some(PieceState {
    color: Color::White, piece: Piece::Pawn,
    location: (4, 5), has_moved: true, dead: false
})};
let mut board_state = empty_board_state();
board_state.white_state.en_passant = Some(board.board[3][4]);

// simulate black playing Nf6 (not a pawn move)
let nf6_move = Move {
    previous_square: Square { row: 8, column: 7, piece_state: Some(PieceState {
        color: Color::Black, piece: Piece::Knight,
        location: (8, 7), has_moved: false, dead: false
    })},
    current_square: Square { row: 6, column: 6, piece_state: Some(PieceState {
        color: Color::Black, piece: Piece::Knight,
        location: (6, 6), has_moved: true, dead: false
    })},
    color: Color::Black,
    captured_piece: None,
    promotion: None,
    castling: false,
};

let new_state = pvs.update_board_state(board_state, &nf6_move, &board);
assert!(new_state.white_state.en_passant.is_none(),
    "en passant should be cleared after a non-pawn-push move");
assert!(new_state.black_state.en_passant.is_none(),
    "black en passant should also be clear");
}

#[test]
fn test_black_pieces_after_e4_e6_qh5_breakdown() {
let mut board = start_board().clone();
board.board[1][4].piece_state = None;
board.board[3][4] = Square { row: 4, column: 5, piece_state: Some(PieceState {
    color: Color::White, piece: Piece::Pawn,
    location: (4, 5), has_moved: true, dead: false
})};
board.board[6][4].piece_state = None;
board.board[5][4] = Square { row: 6, column: 5, piece_state: Some(PieceState {
    color: Color::Black, piece: Piece::Pawn,
    location: (6, 5), has_moved: true, dead: false
})};
board.board[0][3].piece_state = None;
board.board[4][7] = Square { row: 5, column: 8, piece_state: Some(PieceState {
    color: Color::White, piece: Piece::Queen,
    location: (5, 8), has_moved: true, dead: false
})};

let board_state = empty_board_state();
let mask = create_check_mask(&board, Color::Black);

// Print the full check mask so we can see what's being blocked
println!("Check mask:");
for row in (0..8).rev() {
    for col in 0..8 {
        println!("{} ", if mask.check_mask[row][col] { "1" } else { "0" });
    }
    println!();
}

// Check each pawn individually
for col in 0..8usize {
    if let Some(pawn) = board.board[6][col].piece_state {
        if pawn.color == Color::Black && pawn.piece == Piece::Pawn {
            let moves = get_black_pawn_moves(pawn, &board, board_state, &mask);
            println!("Pawn at (7,{}) has {} moves: {:?}", col+1, moves.len(),
                moves.iter().map(|m| (m.current_square.row, m.current_square.column)).collect::<Vec<_>>());
        }
    }
}

// Check knights
let nb8 = board.board[7][1].piece_state.unwrap();
let nb8_moves = get_knight_moves(nb8, &board, &mask);
println!("Nb8 moves ({}): {:?}", nb8_moves.len(),
    nb8_moves.iter().map(|m| (m.current_square.row, m.current_square.column)).collect::<Vec<_>>());

let ng8 = board.board[7][6].piece_state.unwrap();
let ng8_moves = get_knight_moves(ng8, &board, &mask);
println!("Ng8 moves ({}): {:?}", ng8_moves.len(),
    ng8_moves.iter().map(|m| (m.current_square.row, m.current_square.column)).collect::<Vec<_>>());
}

#[test]
fn test_check_mask_not_in_check_is_all_true() {
// When the king is NOT in check, the check mask should be all true
// (every square is a valid destination)
let mut board = start_board().clone();
board.board[1][4].piece_state = None;
board.board[3][4] = Square { row: 4, column: 5, piece_state: Some(PieceState {
    color: Color::White, piece: Piece::Pawn,
    location: (4, 5), has_moved: true, dead: false
})};
board.board[6][4].piece_state = None;
board.board[5][4] = Square { row: 6, column: 5, piece_state: Some(PieceState {
    color: Color::Black, piece: Piece::Pawn,
    location: (6, 5), has_moved: true, dead: false
})};
board.board[0][3].piece_state = None;
board.board[4][7] = Square { row: 5, column: 8, piece_state: Some(PieceState {
    color: Color::White, piece: Piece::Queen,
    location: (5, 8), has_moved: true, dead: false
})};

let mask = create_check_mask(&board, Color::Black);

// Qh5 does not attack the black king, so black is not in check
// Therefore every square should be true in the mask
let all_true = mask.check_mask.iter().flatten().all(|&b| b);
assert!(all_true, 
    "check mask should be all true when not in check, but some squares are false: {:?}",
    mask.check_mask);
}

#[test]
fn test_perft_after_e4_f5_depth2() {
let pvs = PVS;
let mut board = start_board().clone();
// apply e2e4
board.board[1][4].piece_state = None;
board.board[3][4] = Square { row: 4, column: 5, piece_state: Some(PieceState {
    color: Color::White, piece: Piece::Pawn,
    location: (4, 5), has_moved: true, dead: false
})};
// apply f7f5
board.board[6][5].piece_state = None;
board.board[4][5] = Square { row: 5, column: 6, piece_state: Some(PieceState {
    color: Color::Black, piece: Piece::Pawn,
    location: (5, 6), has_moved: true, dead: false
})};
let board_state = empty_board_state();

// get stockfish value for this position
// position startpos moves e2e4 f7f5
// go perft 2
let result = pvs.perft(&board, Color::White, 2, board_state);
println!("perft(2) after 1.e4 f5: {}", result);
assert_eq!(result, 623, "perft(2) after 1.e4 f5 should match stockfish");
}

#[test]
fn test_perft_after_e4_f6_depth2() {
let pvs = PVS;
let mut board = start_board().clone();
// apply e2e4
board.board[1][4].piece_state = None;
board.board[3][4] = Square { row: 4, column: 5, piece_state: Some(PieceState {
    color: Color::White, piece: Piece::Pawn,
    location: (4, 5), has_moved: true, dead: false
})};
// apply f7f6
board.board[6][5].piece_state = None;
board.board[5][5] = Square { row: 6, column: 6, piece_state: Some(PieceState {
    color: Color::Black, piece: Piece::Pawn,
    location: (6, 6), has_moved: true, dead: false
})};
let board_state = empty_board_state();

let result = pvs.perft(&board, Color::White, 2, board_state);
println!("perft(2) after 1.e4 f6: {}", result);
assert_eq!(result, 547, "perft(2) after 1.e4 f6 should match stockfish");
}
