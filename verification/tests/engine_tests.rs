use chessbot::engine::{calculate_material, determine_time, update_fen, AlphaBeta, Color2, MoveType, Reply, UpdateError};
use chessbot::hashing::{flag_type, transposition_table, Entry, Zobrist};
use chessbot::pieces::{Color, Piece};
use cozy_chess::{Board, Move};

const STARTPOS: &str = "rnbqkbnr/pppppppp/8/8/8/8/PPPPPPPP/RNBQKBNR w KQkq - 0 1";

fn mv(text: &str) -> Move {
    text.parse::<Move>().unwrap()
}

fn entry(score: i32, depth: i32, best: &str) -> Entry {
    Entry { score, depth, flag: flag_type::Exact, best_move: best.to_string() }
}

#[test]
fn material_of_the_start_position() {
    let board = Board::from_fen(STARTPOS, false).unwrap();
    // pawns 8, knights 2*1*3, bishops 2*1*3, rooks 2*5, queen 1*9, king 0
    assert_eq!(calculate_material(&board), Ok((39, 39)));
}

#[test]
fn material_counts_rooks_and_tables() {
    let board = Board::from_fen("4k3/8/8/8/3N4/8/8/R3K3 w - - 0 1", false).unwrap();
    // white: rook 5, knight on d4 (table 3) * 3, king 0; black: king 0
    assert_eq!(calculate_material(&board), Ok((14, 0)));
}

#[test]
fn time_management() {
    assert_eq!(determine_time(Ok((1, 2)), 60_000, false, Color::White), 0);
    assert_eq!(determine_time(Ok((1, 2)), 9_999, true, Color::White), 200);
    assert_eq!(determine_time(Ok((1, 2)), 60_000, true, Color::White), 750);
    assert_eq!(determine_time(Ok((1, 2)), 60_000, true, Color::Black), 500);
    assert_eq!(determine_time(Ok((3, 2)), 60_000, true, Color::Black), 750);
    assert_eq!(determine_time(Ok((2, 2)), 60_000, true, Color::White), 500);
    assert_eq!(determine_time(Err("no".to_string()), 60_000, true, Color::White), 500);
}

#[test]
fn update_fen_plays_a_legal_move() {
    assert_eq!(
        update_fen(STARTPOS, "g1f3"),
        Ok("rnbqkbnr/pppppppp/8/8/8/5N2/PPPPPPPP/RNBQKB1R b KQkq - 1 1".to_string())
    );
}

#[test]
fn update_fen_errors() {
    assert_eq!(update_fen("not a fen", "e2e4"), Err(UpdateError::BadFen));
    assert_eq!(update_fen(STARTPOS, "zz"), Err(UpdateError::InvalidMove));
    assert_eq!(update_fen(STARTPOS, "e2e5"), Err(UpdateError::IllegalMove));
}

#[test]
fn zobrist_hash_of_the_start_position() {
    let z = Zobrist::new();
    let board = Board::from_fen(STARTPOS, false).unwrap();
    let back = [3usize, 1, 2, 4, 5, 2, 1, 3];
    let mut expected = 0u64;
    for file in 0..8 {
        expected ^= z.piece_keys[back[file]][file];
        expected ^= z.piece_keys[0][8 + file];
        expected ^= z.piece_keys[0][48 + file];
        expected ^= z.piece_keys[back[file]][56 + file];
    }
    assert_eq!(z.hash_position(&board), expected);
    let black = Board::from_fen("rnbqkbnr/pppppppp/8/8/8/8/PPPPPPPP/RNBQKBNR b KQkq - 0 1", false).unwrap();
    assert_eq!(z.hash_position(&black), expected ^ z.side_to_move_key);
}

#[test]
fn update_hash_follows_a_quiet_move() {
    let z = Zobrist::new();
    let board = Board::from_fen(STARTPOS, false).unwrap();
    let mut after = board.clone();
    after.play(mv("g1f3"));
    let h = z.hash_position(&board);
    let updated = z.update_hash(h, 6, 21, Piece::Knight, Color::White);
    assert_eq!(updated, z.hash_position(&after));
    assert_ne!(updated, h);
    // moving the knight back restores the hash
    assert_eq!(z.update_hash(updated, 21, 6, Piece::Knight, Color::Black), h);
    // the same update twice restores it too
    assert_eq!(z.update_hash(updated, 6, 21, Piece::Knight, Color::Black), h);
}

#[test]
fn table_reads_back_what_was_stored() {
    let mut t = transposition_table::new();
    assert!(t.get(7).is_none());
    t.store(7, entry(10, 2, "e2e4"));
    let e = t.get(7).unwrap();
    assert_eq!((e.score, e.depth, e.best_move.as_str()), (10, 2, "e2e4"));
    assert!(e.flag == flag_type::Exact);
    t.store(7, entry(-3, 4, "d2d4"));
    assert_eq!(t.get(7).unwrap().score, -3);
    assert!(t.get(8).is_none());
}

#[test]
fn ordering_by_category() {
    let a = mv("e2e4");
    let b = mv("d2d4");
    let c = mv("g1f3");
    let d = mv("b1c3");
    let moves = vec![a, b, c, d];
    let types = vec![MoveType::Normal, MoveType::Capture, MoveType::PreviousBest, MoveType::Check];
    let sorted = AlphaBeta::order_by_category(&moves, &types, Some(c));
    assert_eq!(sorted, vec![c, c, d, b, a]);
    let sorted = AlphaBeta::order_by_category(&moves, &types, None);
    assert_eq!(sorted, vec![c, d, b, a]);
}

#[test]
fn categorize_the_start_position() {
    let board = Board::from_fen(STARTPOS, false).unwrap();
    let table = transposition_table::new();
    let z = Zobrist::new();
    let sorted = AlphaBeta::categorize_moves(&board, None, Color::White, &table, &z);
    assert_eq!(sorted.len(), 20);
    let sorted = AlphaBeta::categorize_moves(&board, Some(mv("e2e4")), Color::White, &table, &z);
    assert_eq!(sorted.len(), 21);
    assert_eq!(sorted[0], mv("e2e4"));
    assert_eq!(sorted[1], mv("e2e4"));
}

#[test]
fn categorize_takes_the_stored_best_move() {
    let board = Board::from_fen(STARTPOS, false).unwrap();
    let z = Zobrist::new();
    let mut table = transposition_table::new();
    table.store(z.hash_position(&board), entry(0, 1, "d2d4"));
    let sorted = AlphaBeta::categorize_moves(&board, Some(mv("e2e4")), Color::White, &table, &z);
    assert_eq!(sorted[0], mv("d2d4"));
    assert_eq!(sorted[1], mv("d2d4"));
}

#[test]
fn picking_the_root_move() {
    let moves = vec![mv("e2e4"), mv("d2d4"), mv("g1f3"), mv("b1c3")];
    assert_eq!(AlphaBeta::pick_root_move(&moves, &vec![Some(3), None, Some(5), Some(5)]), mv("g1f3"));
    assert_eq!(AlphaBeta::pick_root_move(&moves, &vec![None, None, None, None]), mv("e2e4"));
    assert_eq!(AlphaBeta::pick_root_move(&moves, &vec![Some(-i32::MAX), None, None, None]), mv("e2e4"));
    assert_eq!(AlphaBeta::pick_root_move(&vec![], &vec![]), mv("a1a1"));
}

#[test]
fn leaf_search_scores_the_material() {
    let board = Board::from_fen("4k3/8/8/8/3N4/8/8/R3K3 w - - 0 1", false).unwrap();
    let z = Zobrist::new();
    let table = transposition_table::new();
    let mut tt = transposition_table::new();
    let white = AlphaBeta::alpha_beta_search(&board, 0, -i32::MAX, i32::MAX, true, None, Color::White, &mut tt, &table, &z);
    assert_eq!(white, 14);
    let black = AlphaBeta::alpha_beta_search(&board, 0, -i32::MAX, i32::MAX, true, None, Color::Black, &mut tt, &table, &z);
    assert_eq!(black, 0);
}

#[test]
fn shallow_search_stores_its_answer() {
    let board = Board::from_fen(STARTPOS, false).unwrap();
    let z = Zobrist::new();
    let table = transposition_table::new();
    let mut tt = transposition_table::new();
    let score = AlphaBeta::alpha_beta_search(&board, 1, -i32::MAX, i32::MAX, true, None, Color::White, &mut tt, &table, &z);
    let stored = tt.get(board.hash()).unwrap();
    assert_eq!(stored.score, score);
    assert_eq!(stored.depth, 1);
    // an illegal root move scores nothing
    assert_eq!(AlphaBeta::evaluate_root_move(&board, mv("e2e5"), 1, None, Color::White, &mut tt, &table, &z), None);
    assert!(AlphaBeta::evaluate_root_move(&board, mv("e2e4"), 1, None, Color::White, &mut tt, &table, &z).is_some());
}

#[test]
fn planning_a_search() {
    let z = Zobrist::new();
    let mut table = transposition_table::new();
    assert!(matches!(AlphaBeta::find_best_move_plan("bad", 60_000, true, Color2::White, &z, &table), Err(UpdateError::BadFen)));
    match AlphaBeta::find_best_move_plan(STARTPOS, 60_000, false, Color2::White, &z, &table) {
        Ok(Reply::Answer(text)) => assert_eq!(text, "END"),
        _ => panic!("expected END"),
    }
    match AlphaBeta::find_best_move_plan(STARTPOS, 5_000, true, Color2::White, &z, &table) {
        Ok(Reply::Search { time_limit, .. }) => assert_eq!(time_limit, 200),
        _ => panic!("expected a search"),
    }
    let board = Board::from_fen(STARTPOS, false).unwrap();
    table.store(z.hash_position(&board), entry(0, 3, "e2e4"));
    match AlphaBeta::find_best_move_plan(STARTPOS, 60_000, true, Color2::White, &z, &table) {
        Ok(Reply::Answer(text)) => assert_eq!(text, "e2e4"),
        _ => panic!("expected the stored move"),
    }
}

#[test]
fn side_names() {
    assert_eq!(chessbot::engine::color_to_str(Color::White), "white");
    assert_eq!(chessbot::engine::color_to_str(Color::Black), "black");
}

#[test]
fn move_text_grammar() {
    let plain = update_fen(STARTPOS, "e2e4");
    assert!(plain.is_ok());
    // a king or pawn letter parses and names no promotion; text after it is not read
    assert_eq!(update_fen(STARTPOS, "e2e4k"), plain);
    assert_eq!(update_fen(STARTPOS, "e2e4pxyz"), plain);
    // a character beyond ASCII after the squares is not read either
    assert_eq!(update_fen(STARTPOS, "e2e4\u{e9}"), plain);
    // other characters there, upper-case letters and short texts are refused
    assert_eq!(update_fen(STARTPOS, "e2e4x"), Err(UpdateError::InvalidMove));
    assert_eq!(update_fen(STARTPOS, "e2e4Q"), Err(UpdateError::InvalidMove));
    assert_eq!(update_fen(STARTPOS, "E2e4"), Err(UpdateError::InvalidMove));
    assert_eq!(update_fen(STARTPOS, "e2e"), Err(UpdateError::InvalidMove));
}

#[test]
fn leaf_search_with_other_entries_in_the_table() {
    let board = Board::from_fen("4k3/8/8/8/3N4/8/8/R3K3 w - - 0 1", false).unwrap();
    let z = Zobrist::new();
    let table = transposition_table::new();
    let mut tt = transposition_table::new();
    tt.store(board.hash() ^ 1, entry(999, 5, "BestMove"));
    let white = AlphaBeta::alpha_beta_search(&board, 0, -i32::MAX, i32::MAX, true, None, Color::White, &mut tt, &table, &z);
    assert_eq!(white, 14);
    // an exact entry of enough depth for this very board answers at once
    tt.store(board.hash(), entry(-5, 0, "BestMove"));
    let stored = AlphaBeta::alpha_beta_search(&board, 0, -i32::MAX, i32::MAX, true, None, Color::White, &mut tt, &table, &z);
    assert_eq!(stored, -5);
}

#[test]
fn keys_taken_in_order() {
    let keys: Vec<u64> = (0..769u64).map(|k| k * 3 + 1).collect();
    let z = Zobrist::from_keys(&keys);
    assert_eq!(z.piece_keys[0][0], 1);
    assert_eq!(z.piece_keys[2][5], (2 * 64 + 5) * 3 + 1);
    assert_eq!(z.piece_keys[11][63], 767 * 3 + 1);
    assert_eq!(z.side_to_move_key, 768 * 3 + 1);
}
