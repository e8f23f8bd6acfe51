//! Chinese chess (xiangqi): rules, position encoding, search trees and training-data formats.

pub mod bytes;
pub mod engine;
pub mod fen;
pub mod formats;
pub mod grid;
pub mod kernel;
pub mod listing;
pub mod motion;
pub mod store;
pub mod text;
pub mod types;
