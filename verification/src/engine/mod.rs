//! Rules of the game on a mutable board with make and undo, its encoding and its search tree.

pub mod attack;
pub mod board;
pub mod conduct;
pub mod constants;
pub mod course;
pub mod credit;
pub mod data;
pub mod drive;
pub mod effects;
pub mod encode;
pub mod game;
pub mod infer;
pub mod laws;
pub mod layout;
pub mod mcts;
pub mod move_gen;
pub mod promises;
pub mod reading;
pub mod selfplay;
pub mod start;
pub mod tactics;
pub mod types;
pub mod zobrist;
