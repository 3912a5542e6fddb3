//! A validated set of coin denominations.

use vstd::prelude::*;

use crate::coin::{values, Coin};
use crate::error::ValidationError;
use crate::sorting::{is_descending, lemma_descending, sort_descending};

verus! {

/// None of the values is zero.
pub open spec fn all_positive(denominations: Seq<nat>) -> bool {
    forall|i: int| 0 <= i < denominations.len() ==> denominations[i] >= 1
}

/// What makes a list of values a set of denominations to give change from: the
/// value 1 is among them, none occurs twice, and none is zero.
pub open spec fn valid_denominations(denominations: Seq<nat>) -> bool {
    &&& denominations.contains(1)
    &&& denominations.no_duplicates()
    &&& all_positive(denominations)
}

/// Whether a value occurs twice depends on how often each value occurs, not on
/// where: two sequences with the same values, each as often in one as in the
/// other, are both free of duplicates or both not.
pub proof fn lemma_duplicates_by_count(s: Seq<nat>, t: Seq<nat>)
    requires
        s.to_multiset() == t.to_multiset(),
    ensures
        s.no_duplicates() <==> t.no_duplicates(),
{
    if s.no_duplicates() {
        s.lemma_multiset_has_no_duplicates();
        t.lemma_multiset_has_no_duplicates_conv();
    }
    if t.no_duplicates() {
        t.lemma_multiset_has_no_duplicates();
        s.lemma_multiset_has_no_duplicates_conv();
    }
}

/// The coin denominations that change may be given in.
///
/// A value of this type always holds the coin worth one unit and never holds
/// two coins worth the same.
pub struct CoinOptions(Vec<Coin>);

impl View for CoinOptions {
    type V = Seq<nat>;

    /// The denominations, in the order in which they were supplied.
    closed spec fn view(&self) -> Seq<nat> {
        values(self.0@)
    }
}

impl CoinOptions {
    #[verifier::type_invariant]
    spec fn validated(self) -> bool {
        valid_denominations(values(self.0@))
    }

    /// Makes a set of denominations out of `value`.
    ///
    /// The coins are refused when none of them is worth one unit, and else
    /// when two of them are worth the same. Otherwise the set holds exactly
    /// the coins supplied.
    pub fn new(value: Vec<Coin>) -> (r: Result<CoinOptions, String>)
        ensures
            match r {
                Ok(options) => valid_denominations(values(value@)) && options@ == values(value@),
                Err(message) => if !values(value@).contains(1) {
                    message@ == ValidationError::MissingUnitDenomination.text()
                } else {
                    !values(value@).no_duplicates() && message@
                        == ValidationError::DuplicateDenomination.text()
                },
            },
    {
        let ghost supplied = values(value@);
        let mut has_unit = false;
        let mut i: usize = 0;
        while i < value.len()
            invariant
                i <= value.len(),
                supplied == values(value@),
                forall|k: int| 0 <= k < i ==> supplied[k] >= 1,
                has_unit <==> exists|k: int| 0 <= k < i && supplied[k] == 1,
            decreases value.len() - i,
        {
            let worth = value[i].value();
            assert(supplied[i as int] == worth);
            if worth == 1 {
                has_unit = true;
            }
            i += 1;
        }
        if !has_unit {
            return Err(ValidationError::MissingUnitDenomination.message());
        }
        let arranged = sort_descending(&value);
        let ghost ordered = values(arranged@);
        proof {
            lemma_descending(supplied);
            lemma_duplicates_by_count(supplied, ordered);
        }
        let mut j: usize = 1;
        while j < arranged.len()
            invariant
                1 <= j,
                ordered == values(arranged@),
                ordered.len() == supplied.len(),
                is_descending(ordered),
                supplied == values(value@),
                supplied.contains(1),
                all_positive(supplied),
                supplied.no_duplicates() <==> ordered.no_duplicates(),
                forall|a: int, b: int| 0 <= a < b < j && b < ordered.len() ==> ordered[a] > ordered[b],
            decreases arranged.len() - j,
        {
            if arranged[j - 1].value() == arranged[j].value() {
                assert(ordered[j - 1] == ordered[j as int]);
                return Err(ValidationError::DuplicateDenomination.message());
            }
            assert forall|a: int, b: int| 0 <= a < b < j + 1 && b < ordered.len() implies ordered[a]
                > ordered[b] by {
                if b == j {
                    assert(ordered[a] >= ordered[j - 1]);
                }
            }
            j += 1;
        }
        Ok(CoinOptions(value))
    }

    /// The coins of this set, in the order in which they were supplied.
    pub fn coins(&self) -> (coins: &Vec<Coin>)
        ensures
            values(coins@) == self@,
            valid_denominations(self@),
    {
        proof {
            use_type_invariant(self);
        }
        &self.0
    }
}

} // verus!
