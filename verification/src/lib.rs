//! A small chess engine: board representation, move generation,
//! position evaluation and game-tree search, with machine-checked contracts.
pub mod board;
pub mod move_generator;
pub mod engine;
pub mod text;
pub mod fen;
pub mod laws;
pub mod game;
pub mod picture;
pub mod uci;
