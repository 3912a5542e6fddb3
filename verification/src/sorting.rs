//! Arranging denominations from the largest to the smallest.

use vstd::prelude::*;
use vstd::seq_lib::{lemma_sorted_unique, to_multiset_build, to_multiset_insert};

use crate::coin::{values, Coin};

verus! {

/// The order by which denominations are arranged: `a` comes no later than `b`
/// when it is at least as large.
pub open spec fn at_least() -> spec_fn(nat, nat) -> bool {
    |a: nat, b: nat| a >= b
}

/// No value of `s` is followed by a larger one.
pub open spec fn is_descending(s: Seq<nat>) -> bool {
    forall|i: int, j: int| 0 <= i < j < s.len() ==> s[i] >= s[j]
}

/// The values of `s` arranged from the largest to the smallest.
pub open spec fn descending(s: Seq<nat>) -> Seq<nat> {
    s.sort_by(at_least())
}

/// `descending(s)` holds the values of `s`, each as often as `s` does, and none
/// of them is followed by a larger one.
pub proof fn lemma_descending(s: Seq<nat>)
    ensures
        is_descending(descending(s)),
        descending(s).to_multiset() == s.to_multiset(),
        descending(s).len() == s.len(),
        forall|x: nat| #[trigger] descending(s).contains(x) <==> s.contains(x),
{
    s.lemma_sort_by_ensures(at_least());
    let d = descending(s);
    assert forall|i: int, j: int| 0 <= i < j < d.len() implies d[i] >= d[j] by {
        assert(at_least()(d[i], d[j]));
    }
    s.to_multiset_ensures();
    d.to_multiset_ensures();
    assert forall|x: nat| #[trigger] d.contains(x) <==> s.contains(x) by {
        assert(d.to_multiset().count(x) == s.to_multiset().count(x));
    }
}

/// There is one way only to arrange given values from the largest to the
/// smallest: any descending sequence with the values of `s` is `descending(s)`.
pub proof fn lemma_descending_unique(s: Seq<nat>, t: Seq<nat>)
    requires
        is_descending(t),
        t.to_multiset() == s.to_multiset(),
    ensures
        descending(s) == t,
{
    lemma_descending(s);
    lemma_sorted_unique(descending(s), t, at_least());
}

/// Returns the coins of `coins` arranged from the most to the least valuable.
///
/// The coins are inserted one by one into the result, which takes a number
/// of comparisons that grows with the square of the number of coins.
pub fn sort_descending(coins: &Vec<Coin>) -> (sorted: Vec<Coin>)
    ensures
        values(sorted@) == descending(values(coins@)),
        sorted@.len() == coins@.len(),
{
    let mut sorted: Vec<Coin> = Vec::new();
    let mut i: usize = 0;
    assert(values(sorted@) =~= values(coins@.take(0)));
    while i < coins.len()
        invariant
            i <= coins.len(),
            sorted@.len() == i,
            is_descending(values(sorted@)),
            values(sorted@).to_multiset() == values(coins@.take(i as int)).to_multiset(),
        decreases coins.len() - i,
    {
        let coin = coins[i];
        let mut j: usize = 0;
        while j < sorted.len() && sorted[j] >= coin
            invariant
                j <= sorted.len(),
                forall|k: int| 0 <= k < j ==> sorted@[k]@ >= coin@,
            decreases sorted.len() - j,
        {
            j += 1;
        }
        let ghost before = values(sorted@);
        let ghost seen = values(coins@.take(i as int));
        sorted.insert(j, coin);
        proof {
            let after = values(sorted@);
            assert(after =~= before.insert(j as int, coin@));
            to_multiset_insert(before, j as int, coin@);
            assert(values(coins@.take(i + 1)) =~= seen.push(coin@));
            to_multiset_build(seen, coin@);
            // What stood before the place of the coin is at least as large as
            // the coin, and what stood from there on is smaller.
            assert forall|a: int, b: int| 0 <= a < b < after.len() implies after[a] >= after[b] by {
                if b < j {
                    assert(before[a] >= before[b]);
                } else if b == j {
                    assert(before[a] >= coin@);
                } else if a < j {
                    assert(before[a] >= before[b - 1]);
                } else if a == j {
                    assert(coin@ > before[j as int] >= before[b - 1]);
                } else {
                    assert(before[a - 1] >= before[b - 1]);
                }
            }
        }
        i += 1;
    }
    proof {
        assert(coins@.take(i as int) =~= coins@);
        lemma_descending_unique(values(coins@), values(sorted@));
    }
    sorted
}

} // verus!
