pub mod pieces;
pub mod utils;
pub mod moves;
pub mod material;
pub mod move_ordering;
pub mod search;
pub mod text;
pub mod fen;
pub mod cozy;
pub mod hashing;
pub mod engine;
