pub mod bitboard;
pub mod game;
pub mod utils;
pub mod network;
