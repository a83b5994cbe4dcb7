//! A first-order Markov text generator: it learns which word follows which
//! from lines of text, and walks those transitions to produce new text.
//!
//! `markov_chain` holds the chain with its training and generation, `source`
//! the random numbers that generation draws. `text` and `corpus` cut text
//! into words and lines. `table` and `walk` say, as mathematics, what
//! training builds and what generation gives.

pub mod corpus;
pub mod markov_chain;
pub mod source;
pub mod table;
pub mod text;
pub mod walk;
