pub mod grid;
pub mod parse;
pub mod check;
pub mod propagate;
pub mod search;
pub mod solve;
