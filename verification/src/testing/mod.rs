pub mod perft;
pub mod zobrist;
