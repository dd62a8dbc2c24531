pub mod engine;
pub mod game;
pub mod interface;
pub mod rules;
pub mod testing;
pub mod util;
