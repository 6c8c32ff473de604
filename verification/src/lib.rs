//! A second-order Markov chain over sentences.
//!
//! Sentences are split into tokens, normalised (pattern filters, an optional
//! custom transform, a letter-case policy) and indexed: every pair of
//! consecutive tokens maps to the tokens seen to follow it. New sentences are
//! produced by a random walk over that index.

pub mod casing;
pub mod chain;
pub mod filter;
pub mod laws;
pub mod model;
pub mod normalize;
mod random;
pub mod table;
pub mod text;

pub use casing::LetterCase;
pub use chain::ModelView;
pub use filter::{new_regex, newlines_regex, non_alphanumeric_regex, url_regex};
pub use model::{new, Markov};
pub use normalize::{FnTransform, Transform};
pub use text::{join, words};
