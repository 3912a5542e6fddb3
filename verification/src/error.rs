//! The ways in which building a coin or a set of denominations can fail.

use vstd::prelude::*;

verus! {

/// Why a constructor refused its input.
#[derive(Clone, Copy, Debug, PartialEq, Eq, Structural)]
pub enum ValidationError {
    /// A coin was asked to be worth nothing.
    ZeroCoin,
    /// A set of denominations lacks the coin worth one unit.
    MissingUnitDenomination,
    /// A set of denominations holds the same value twice.
    DuplicateDenomination,
}

impl ValidationError {
    /// The text under which this error is reported.
    pub open spec fn text(self) -> Seq<char> {
        match self {
            ValidationError::ZeroCoin => "A zero value coin is not a coin"@,
            ValidationError::MissingUnitDenomination => "You must provide at least one 1 value coin"@,
            ValidationError::DuplicateDenomination =>
                "There are repeated coins repeated, please do not repeat them"@,
        }
    }

    /// Renders this error as the text that the constructors return.
    pub fn message(&self) -> (message: String)
        ensures
            message@ == self.text(),
    {
        match self {
            ValidationError::ZeroCoin => "A zero value coin is not a coin".to_string(),
            ValidationError::MissingUnitDenomination =>
                "You must provide at least one 1 value coin".to_string(),
            ValidationError::DuplicateDenomination =>
                "There are repeated coins repeated, please do not repeat them".to_string(),
        }
    }

    /// The three errors are reported under three different texts, so a caller
    /// can tell from the text alone which one occurred.
    pub proof fn lemma_texts_differ(a: ValidationError, b: ValidationError)
        ensures
            a.text() == b.text() <==> a == b,
    {
        reveal_strlit("A zero value coin is not a coin");
        reveal_strlit("You must provide at least one 1 value coin");
        reveal_strlit("There are repeated coins repeated, please do not repeat them");
        if a != b {
            assert(a.text().len() != b.text().len());
        }
    }
}

} // verus!
