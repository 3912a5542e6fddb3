//! A single coin denomination.

use core::cmp::Ordering;
use vstd::prelude::*;
use vstd::std_specs::ops::{AddSpec, DivSpec, RemSpec};

use crate::error::ValidationError;

verus! {

/// A coin denomination: a positive number of units.
///
/// The value is fixed at construction and is never zero.
#[derive(Clone, Copy, Debug, PartialEq, Eq, Structural, Ord)]
pub struct Coin(u32);

impl View for Coin {
    type V = nat;

    /// The number of units this coin is worth.
    closed spec fn view(&self) -> nat {
        self.0 as nat
    }
}

/// What each coin of a sequence is worth, in the same order.
pub open spec fn values(coins: Seq<Coin>) -> Seq<nat> {
    coins.map_values(|coin: Coin| coin@)
}

impl Coin {
    #[verifier::type_invariant]
    spec fn positive(self) -> bool {
        self.0 >= 1
    }

    /// Makes a coin worth `value` units; a coin worth nothing is refused.
    pub fn new(value: u32) -> (r: Result<Coin, String>)
        ensures
            match r {
                Ok(coin) => value != 0 && coin@ == value,
                Err(message) => value == 0 && message@ == ValidationError::ZeroCoin.text(),
            },
    {
        if value == 0 {
            return Err(ValidationError::ZeroCoin.message());
        }
        Ok(Coin(value))
    }

    /// The number of units this coin is worth.
    pub fn value(&self) -> (v: u32)
        ensures
            v == self@,
            v >= 1,
    {
        proof {
            use_type_invariant(self);
        }
        self.0
    }

    /// Two coins are equal exactly when they are worth the same.
    pub proof fn lemma_equal_by_value(a: Coin, b: Coin)
        ensures
            a == b <==> a@ == b@,
    {
    }

    /// Dividing an amount by a coin, taking its remainder by a coin and adding
    /// a coin to it are what they are with the value of the coin in the place
    /// of the coin.
    pub proof fn lemma_arithmetic_by_value(amount: u32, coin: Coin)
        requires
            coin@ >= 1,
        ensures
            amount.div_spec(coin) == amount as nat / coin@,
            amount.rem_spec(coin) == amount as nat % coin@,
            amount + coin@ <= u32::MAX ==> amount.add_spec(coin) == amount + coin@,
    {
        let worth = coin@;
        assert(amount as nat / worth <= amount && amount as nat % worth < worth)
            by (nonlinear_arith)
            requires
                worth >= 1,
        ;
    }
}

/// Coins are ordered by what they are worth.
impl PartialOrd for Coin {
    fn partial_cmp(&self, other: &Coin) -> (order: Option<Ordering>) {
        if self.0 < other.0 {
            Some(Ordering::Less)
        } else if self.0 > other.0 {
            Some(Ordering::Greater)
        } else {
            Some(Ordering::Equal)
        }
    }
}

impl vstd::std_specs::cmp::PartialOrdSpecImpl for Coin {
    open spec fn obeys_partial_cmp_spec() -> bool {
        true
    }

    open spec fn partial_cmp_spec(&self, other: &Coin) -> Option<Ordering> {
        if self@ < other@ {
            Some(Ordering::Less)
        } else if self@ > other@ {
            Some(Ordering::Greater)
        } else {
            Some(Ordering::Equal)
        }
    }
}

/// Dividing a plain amount by a coin tells how many such coins fit in it.
impl core::ops::Div<Coin> for u32 {
    type Output = u32;

    fn div(self, rhs: Coin) -> (quotient: u32)
        ensures
            rhs@ >= 1,
            quotient == self as nat / rhs@,
    {
        proof {
            use_type_invariant(&rhs);
        }
        self / rhs.0
    }
}

impl vstd::std_specs::ops::DivSpecImpl<Coin> for u32 {
    open spec fn obeys_div_spec() -> bool {
        true
    }

    open spec fn div_req(self, rhs: Coin) -> bool {
        true
    }

    open spec fn div_spec(self, rhs: Coin) -> u32 {
        (self as nat / rhs@) as u32
    }
}

/// The remainder of a plain amount by a coin is what is left once as many such
/// coins as fit have been taken out of it.
impl core::ops::Rem<Coin> for u32 {
    type Output = u32;

    fn rem(self, modulus: Coin) -> (remainder: u32)
        ensures
            modulus@ >= 1,
            remainder == self as nat % modulus@,
    {
        proof {
            use_type_invariant(&modulus);
        }
        self % modulus.0
    }
}

impl vstd::std_specs::ops::RemSpecImpl<Coin> for u32 {
    open spec fn obeys_rem_spec() -> bool {
        true
    }

    open spec fn rem_req(self, modulus: Coin) -> bool {
        true
    }

    open spec fn rem_spec(self, modulus: Coin) -> u32 {
        (self as nat % modulus@) as u32
    }
}

/// Adding a coin to a plain amount adds the coin's value to it. The sum has to
/// fit in a `u32`.
impl core::ops::Add<Coin> for u32 {
    type Output = u32;

    fn add(self, rhs: Coin) -> (sum: u32)
        ensures
            rhs@ >= 1,
            sum == self + rhs@,
    {
        proof {
            use_type_invariant(&rhs);
        }
        self + rhs.0
    }
}

impl vstd::std_specs::ops::AddSpecImpl<Coin> for u32 {
    open spec fn obeys_add_spec() -> bool {
        true
    }

    open spec fn add_req(self, rhs: Coin) -> bool {
        self + rhs@ <= u32::MAX
    }

    open spec fn add_spec(self, rhs: Coin) -> u32 {
        (self + rhs@) as u32
    }
}

} // verus!
