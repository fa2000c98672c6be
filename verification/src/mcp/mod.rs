//! The tools: what they take, what they answer.

pub mod process_entry;
pub mod rank;
pub mod tools;
pub mod util;
