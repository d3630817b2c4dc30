//! Small algorithmic problems.
pub mod search;
pub mod valid_parentheses;
