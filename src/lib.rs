//! Reading a line-oriented game protocol: lines are split into whitespace
//! separated tokens, which are then consumed one at a time as integers.

pub mod text;
pub mod number;
pub mod input;

pub use input::{Effect, Input};
