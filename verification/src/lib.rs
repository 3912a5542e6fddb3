//! Change-making with coins of given denominations.
//!
//! A [`Coin`] is a denomination: a positive number of units. A
//! [`CoinOptions`] is a set of denominations to pay with: it holds the coin
//! worth one unit, so that every amount can be paid, and no value twice.
//! [`coin_change`] pays an amount out of such a set, taking of each
//! denomination, from the largest to the smallest, as many coins as fit in
//! what is still to pay.
//!
//! The contracts speak of what coins are worth: the view of a coin is its
//! value, the view of a set is the sequence of its values, and the change
//! for an amount is the sequence [`change::change`] of values.

pub mod change;
pub mod coin;
pub mod denominations;
pub mod error;
pub mod sorting;

pub use change::coin_change;
pub use coin::Coin;
pub use denominations::CoinOptions;
pub use error::ValidationError;
