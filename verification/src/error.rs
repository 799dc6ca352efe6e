//! The ways in which loading the word list or building a passphrase can fail.

use vstd::prelude::*;

verus! {

/// Why a word list could not be turned into a [`crate::bank::WordBank`].
#[derive(Clone, Copy, Debug, PartialEq, Eq, Structural)]
pub enum LoadError {
    /// Some entry of the list is shorter than 4 or longer than 13 bytes.
    UnexpectedWordLength,
}

/// Why no passphrase could be produced for the requested constraints.
#[derive(Clone, Copy, Debug, PartialEq, Eq, Structural)]
pub enum FitError {
    /// The requested total is below what the shortest words would give.
    TooShort,
    /// The requested total is above what the longest words would give.
    TooLong,
    /// A slot was planned with a length for which the bank holds no word.
    NoWordsOfLength,
    /// The bank holds no word at all.
    NoFeasibleWords,
}

impl LoadError {
    /// The text of the diagnostic.
    pub open spec fn describes(self) -> Seq<char> {
        "Found word with unexpected length"@
    }

    /// What to tell the user.
    pub fn message(&self) -> (text: String)
        ensures
            text@ == self.describes(),
    {
        "Found word with unexpected length".to_owned()
    }
}

impl FitError {
    /// The text of the diagnostic, which names the constraint that could not
    /// be met.
    pub open spec fn describes(self) -> Seq<char> {
        match self {
            FitError::TooShort => "Specified max length is too short"@,
            FitError::TooLong => "Specified max length is too long"@,
            FitError::NoWordsOfLength => "Found no word of a planned length"@,
            FitError::NoFeasibleWords => "Found no words to choose from"@,
        }
    }

    /// What to tell the user.
    pub fn message(&self) -> (text: String)
        ensures
            text@ == self.describes(),
    {
        match self {
            FitError::TooShort => "Specified max length is too short".to_owned(),
            FitError::TooLong => "Specified max length is too long".to_owned(),
            FitError::NoWordsOfLength => "Found no word of a planned length".to_owned(),
            FitError::NoFeasibleWords => "Found no words to choose from".to_owned(),
        }
    }
}

} // verus!
