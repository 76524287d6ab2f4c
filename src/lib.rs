//! A backward-chaining inference engine over propositional rules whose atoms
//! are single uppercase letters, with three-valued answers.

pub mod text;
pub mod node;
pub mod grammar;
pub mod input;
pub mod laws;
