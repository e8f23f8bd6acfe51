//! Rules of the game on immutable positions, search, self-play and its data, matches, and play
//! against a person.

pub mod arena;
pub mod chronicle;
pub mod conduct;
pub mod config;
pub mod constants;
pub mod course;
pub mod credit;
pub mod effects;
pub mod encode;
pub mod game;
pub mod growth;
pub mod infer;
pub mod laws;
pub mod mcts;
pub mod pipeline;
pub mod play;
pub mod position;
pub mod promises;
pub mod reading;
pub mod run_config;
pub mod score;
pub mod selfplay;
pub mod setup;
pub mod start;
pub mod tree;
pub mod types;
