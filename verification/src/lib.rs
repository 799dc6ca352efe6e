//! Passphrases made of dictionary words: a word bank bucketed by length, a
//! planner that fits per-word lengths to an exact total, and the assembly of
//! the chosen words into the final phrase.

use vstd::prelude::*;

pub mod bank;
mod dice;
pub mod error;
pub mod phrase;
pub mod plan;
pub mod text;

pub use bank::WordBank;
pub use error::{FitError, LoadError};
pub use phrase::{
    compose, convert_nums_to_passphrase, draw_digits, generate_passphrase, generate_unconstrained,
    generate_with_max_length, realize_words, Constraints,
};
pub use plan::{
    find_movable, fit_to_total, generate_nums, generate_nums_with_max_length, nudge, slot_budget,
};
pub use text::{decorate, decorate_with, join, replace_first, titlecase};

verus! {

/// The shortest word a bank may hold, in bytes.
pub const MIN_WORD_LEN: u32 = 4;

/// The longest word a bank may hold, in bytes.
pub const MAX_WORD_LEN: u32 = 13;

} // verus!
