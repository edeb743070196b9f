//! Pieces: collecting their blocks, and choosing which to download.

pub mod collector;
pub mod laws;
pub mod manager;

pub use crate::piece::collector::PieceCollector;
pub use crate::piece::manager::PieceManager;
