//! Where pieces lie on disk, and which pieces are kept in memory.

pub mod cache;
pub mod layout;
