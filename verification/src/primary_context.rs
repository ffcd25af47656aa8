//! The symbol-ranking model: per context, the three bytes seen most recently
//! and how often the latest of them has repeated.

pub mod context;
pub mod history;
pub mod matched;
