use vstd::prelude::*;

use std::collections::HashMap;

use cozy_chess::Board as CozyBoard;
use rand::rngs::ThreadRng;
use rand::Rng;

use crate::cozy::{board_black_to_move, board_contents, piece_on, side_to_move};
use crate::pieces::{Color, Piece};

verus! {

pub const PIECE_TYPES: usize = 12;

pub const BOARD_SQUARES: usize = 64;

#[verifier::external_type_specification]
#[verifier::external_body]
pub struct ExThreadRng(ThreadRng);

/// `rand::rng`: the thread-local random generator.
#[verifier::external_body]
fn thread_rng() -> (rng: ThreadRng) {
    rand::rng()
}

/// `rand::Rng::random`: a random `u64`, of which nothing is said.
#[verifier::external_body]
fn next_key(rng: &mut ThreadRng) -> (key: u64) {
    rng.random()
}

/// Random keys for Zobrist hashing: one per kind of piece and square, one for the side to
/// move.
pub struct Zobrist {
    pub piece_keys: [[u64; 64]; 12],
    pub side_to_move_key: u64,
}

/// The hash of the pieces on squares `0..n`: the XOR of the key of each piece's kind on its
/// square (colours are not told apart).
pub open spec fn pieces_hash(z: Zobrist, contents: Map<int, (int, int)>, n: int) -> u64
    decreases n,
{
    if n <= 0 {
        0
    } else {
        let h = pieces_hash(z, contents, n - 1);
        if contents.contains_key(n - 1) {
            h ^ z.piece_keys[contents[n - 1].1][n - 1]
        } else {
            h
        }
    }
}

/// The hash of a position: its pieces, and the side key when Black is to move.
pub open spec fn position_hash(z: Zobrist, contents: Map<int, (int, int)>, black_to_move: bool) -> u64 {
    if black_to_move {
        pieces_hash(z, contents, 64) ^ z.side_to_move_key
    } else {
        pieces_hash(z, contents, 64)
    }
}

/// The index of a piece's keys: pawn, knight, bishop, rook, queen, king.
pub open spec fn key_index(piece: Piece) -> int {
    match piece {
        Piece::Pawn => 0,
        Piece::Knight => 1,
        Piece::Bishop => 2,
        Piece::Rook => 3,
        Piece::Queen => 4,
        Piece::King => 5,
    }
}

/// The hash after a piece of kind `piece` leaves `from` for `to` and the turn passes.
pub open spec fn moved_hash(z: Zobrist, hash: u64, from: int, to: int, piece: Piece) -> u64 {
    hash ^ z.piece_keys[key_index(piece)][from] ^ z.piece_keys[key_index(piece)][to] ^ z.side_to_move_key
}

fn piece_key_index(piece: Piece) -> (i: usize)
    ensures
        i == key_index(piece),
{
    match piece {
        Piece::Pawn => 0,
        Piece::Knight => 1,
        Piece::Bishop => 2,
        Piece::Rook => 3,
        Piece::Queen => 4,
        Piece::King => 5,
    }
}

impl Zobrist {
    /// Keys taken in order from `keys`: the piece keys kind by kind, square by square, then
    /// the side key.
    pub fn from_keys(keys: &Vec<u64>) -> (z: Zobrist)
        requires
            keys.len() == 769,
        ensures
            forall|p: int, q: int|
                0 <= p < 12 && 0 <= q < 64 ==> #[trigger] z.piece_keys[p][q] == keys@[p * 64 + q],
            z.side_to_move_key == keys@[768],
    {
        let mut piece_keys = [[0u64; 64]; 12];
        let mut piece: usize = 0;
        while piece < PIECE_TYPES
            invariant
                piece <= PIECE_TYPES,
                keys.len() == 769,
                forall|p: int, q: int| 0 <= p < piece && 0 <= q < 64 ==> #[trigger] piece_keys[p][q] == keys@[p * 64 + q],
            decreases PIECE_TYPES - piece,
        {
            let mut square: usize = 0;
            while square < BOARD_SQUARES
                invariant
                    piece < PIECE_TYPES,
                    square <= BOARD_SQUARES,
                    keys.len() == 769,
                    forall|p: int, q: int|
                        0 <= p < piece && 0 <= q < 64 ==> #[trigger] piece_keys[p][q] == keys@[p * 64 + q],
                    forall|q: int| 0 <= q < square ==> #[trigger] piece_keys[piece as int][q] == keys@[piece * 64 + q],
                decreases BOARD_SQUARES - square,
            {
                piece_keys[piece][square] = keys[piece * 64 + square];
                square += 1;
            }
            piece += 1;
        }
        Zobrist { piece_keys, side_to_move_key: keys[768] }
    }

    /// Fresh random keys: 769 draws from the thread-local generator, taken in order by
    /// `from_keys`.
    pub fn new() -> (z: Zobrist) {
        let mut rng = thread_rng();
        let mut keys: Vec<u64> = Vec::new();
        let mut i: usize = 0;
        while i < 769
            invariant
                i <= 769,
                keys.len() == i,
            decreases 769 - i,
        {
            keys.push(next_key(&mut rng));
            i += 1;
        }
        Zobrist::from_keys(&keys)
    }

    /// The hash of a position from scratch.
    pub fn hash_position(&self, board: &CozyBoard) -> (h: u64)
        ensures
            h == position_hash(*self, board_contents(*board), board_black_to_move(*board)),
    {
        let mut hash: u64 = 0;
        let mut square_index: usize = 0;
        while square_index < 64
            invariant
                square_index <= 64,
                hash == pieces_hash(*self, board_contents(*board), square_index as int),
            decreases 64 - square_index,
        {
            if let Some(piece_index) = piece_on(board, square_index) {
                if piece_index >= PIECE_TYPES || square_index >= BOARD_SQUARES {
                    square_index += 1;
                    continue;
                }
                hash ^= self.piece_keys[piece_index][square_index];
            }
            square_index += 1;
        }
        if side_to_move(board) == Color::Black {
            hash ^= self.side_to_move_key;
        }
        hash
    }

    /// The hash after a piece of kind `piece` moves from square `from_square` to `to_square`
    /// and the turn passes (the side given is not read).
    pub fn update_hash(&self, hash: u64, from_square: usize, to_square: usize, piece: Piece, side_to_move: Color) -> (h: u64)
        requires
            from_square < BOARD_SQUARES,
            to_square < BOARD_SQUARES,
        ensures
            h == moved_hash(*self, hash, from_square as int, to_square as int, piece),
    {
        let piece_index = piece_key_index(piece);
        let mut new_hash = hash;
        new_hash ^= self.piece_keys[piece_index][from_square];
        new_hash ^= self.piece_keys[piece_index][to_square];
        new_hash ^= self.side_to_move_key;
        new_hash
    }
}

/// Moving a piece back undoes the move: updating a hash for `from` to `to` and then for `to`
/// to `from` gives the hash back.
pub proof fn lemma_update_hash_undo(z: Zobrist, hash: u64, from: int, to: int, piece: Piece)
    ensures
        moved_hash(z, moved_hash(z, hash, from, to, piece), to, from, piece) == hash,
{
    let a = z.piece_keys[key_index(piece)][from];
    let b = z.piece_keys[key_index(piece)][to];
    let s = z.side_to_move_key;
    assert(((((hash ^ a) ^ b) ^ s) ^ b) ^ a ^ s == hash) by (bit_vector);
}

/// Playing the same update twice gives the hash back.
pub proof fn lemma_update_hash_twice(z: Zobrist, hash: u64, from: int, to: int, piece: Piece)
    ensures
        moved_hash(z, moved_hash(z, hash, from, to, piece), from, to, piece) == hash,
{
    let a = z.piece_keys[key_index(piece)][from];
    let b = z.piece_keys[key_index(piece)][to];
    let s = z.side_to_move_key;
    assert(((((hash ^ a) ^ b) ^ s) ^ a) ^ b ^ s == hash) by (bit_vector);
}

/// Updating for a move gives what hashing the resulting position gives, when the move takes
/// a piece of its kind from an occupied `from` to an empty `to` and passes the turn.
pub proof fn lemma_update_hash_matches_position(
    z: Zobrist,
    contents: Map<int, (int, int)>,
    black_to_move: bool,
    from: int,
    to: int,
    color: int,
    piece: Piece,
)
    requires
        0 <= from < 64,
        0 <= to < 64,
        from != to,
        contents.contains_key(from),
        contents[from] == (color, key_index(piece)),
        !contents.contains_key(to),
    ensures
        moved_hash(z, position_hash(z, contents, black_to_move), from, to, piece) == position_hash(
            z,
            contents.remove(from).insert(to, (color, key_index(piece))),
            !black_to_move,
        ),
{
    let after = contents.remove(from).insert(to, (color, key_index(piece)));
    let a = z.piece_keys[key_index(piece)][from];
    let b = z.piece_keys[key_index(piece)][to];
    lemma_pieces_hash_step(z, contents, after, from, to, a, b, 64);
    let h0 = pieces_hash(z, contents, 64);
    let s = z.side_to_move_key;
    if black_to_move {
        assert((((h0 ^ s) ^ a) ^ b) ^ s == (h0 ^ a) ^ b) by (bit_vector);
    }
}

proof fn lemma_pieces_hash_step(
    z: Zobrist,
    contents: Map<int, (int, int)>,
    after: Map<int, (int, int)>,
    from: int,
    to: int,
    a: u64,
    b: u64,
    n: int,
)
    requires
        0 <= from < 64,
        0 <= to < 64,
        from != to,
        0 <= n <= 64,
        contents.contains_key(from),
        !contents.contains_key(to),
        after.contains_key(to),
        !after.contains_key(from),
        a == z.piece_keys[contents[from].1][from],
        b == z.piece_keys[after[to].1][to],
        forall|k: int| k != from && k != to ==> (after.contains_key(k) == contents.contains_key(k)),
        forall|k: int| k != from && k != to && contents.contains_key(k) ==> after[k] == contents[k],
    ensures
        pieces_hash(z, after, n) == pieces_hash(z, contents, n) ^ (if from < n {
            a
        } else {
            0u64
        }) ^ (if to < n {
            b
        } else {
            0u64
        }),
    decreases n,
{
    if n > 0 {
        lemma_pieces_hash_step(z, contents, after, from, to, a, b, n - 1);
        let h = pieces_hash(z, contents, n - 1);
        let x: u64 = if from < n - 1 {
            a
        } else {
            0u64
        };
        let y: u64 = if to < n - 1 {
            b
        } else {
            0u64
        };
        if n - 1 == from {
            assert((h ^ x) ^ y == ((h ^ a) ^ a) ^ y) by (bit_vector)
                requires
                    x == 0u64,
            ;
        } else if n - 1 == to {
            assert(((h ^ x) ^ y) ^ b == (h ^ x) ^ b) by (bit_vector)
                requires
                    y == 0u64,
            ;
        } else if contents.contains_key(n - 1) {
            let k = z.piece_keys[contents[n - 1].1][n - 1];
            assert(((h ^ x) ^ y) ^ k == ((h ^ k) ^ x) ^ y) by (bit_vector);
        }
    } else {
        assert(0u64 ^ 0u64 ^ 0u64 == 0u64) by (bit_vector);
    }
}

/// How far a stored score can be trusted.
#[allow(non_camel_case_types)]
#[derive(Clone, Copy, PartialEq, Eq, Structural)]
pub enum flag_type {
    Exact,
    Lower,
    Upper,
}

/// A search result kept in the transposition table.
#[derive(Clone)]
pub struct Entry {
    pub score: i32,
    pub depth: i32,
    pub flag: flag_type,
    pub best_move: String,
}

/// Search results by position hash.
#[allow(non_camel_case_types)]
pub struct transposition_table {
    table: HashMap<u64, Entry>,
}

impl View for transposition_table {
    type V = Map<u64, Entry>;

    closed spec fn view(&self) -> Map<u64, Entry> {
        self.table@
    }
}

impl transposition_table {
    /// An empty table.
    pub fn new() -> (t: transposition_table)
        ensures
            t@ == Map::<u64, Entry>::empty(),
    {
        transposition_table { table: HashMap::new() }
    }

    /// Stores `entry` under `hash`, replacing what was there.
    pub fn store(&mut self, hash: u64, entry: Entry)
        ensures
            final(self)@ == old(self)@.insert(hash, entry),
    {
        broadcast use vstd::std_specs::hash::group_hash_axioms;

        self.table.insert(hash, entry);
    }

    /// A copy of the entry stored under `hash`, if any.
    pub fn get(&self, hash: u64) -> (res: Option<Entry>)
        ensures
            res == (if self@.contains_key(hash) {
                Some(self@[hash])
            } else {
                None
            }),
    {
        broadcast use vstd::std_specs::hash::group_hash_axioms;

        match self.table.get(&hash) {
            Some(entry) => Some(
                Entry {
                    score: entry.score,
                    depth: entry.depth,
                    flag: entry.flag,
                    best_move: entry.best_move.clone(),
                },
            ),
            None => None,
        }
    }
}

/// What is read back is what was stored last under that hash; the other hashes keep what
/// they had.
pub proof fn lemma_store_then_get(table: Map<u64, Entry>, hash: u64, entry: Entry, other: u64)
    ensures
        table.insert(hash, entry).contains_key(hash),
        table.insert(hash, entry)[hash] == entry,
        other != hash ==> (table.insert(hash, entry).contains_key(other) == table.contains_key(other)),
        other != hash && table.contains_key(other) ==> table.insert(hash, entry)[other] == table[other],
{
}

} // verus!
