//! What the user sees: texts, lists and what is shown in them.

pub mod adding;
pub mod rows;
pub mod utils;
