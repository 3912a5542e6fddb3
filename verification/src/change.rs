//! Giving change greedily: as many coins of the largest denomination as fit,
//! then of the next, down to the smallest.
//!
//! The result adds up to the amount, but it is not always the shortest way to
//! pay it: from the denominations 1, 3 and 4, the amount 6 is paid as 4, 1, 1.

use vstd::prelude::*;
use vstd::arithmetic::div_mod::lemma_fundamental_div_mod;
use vstd::seq_lib::lemma_seq_union_to_multiset_commutative;

use crate::coin::{values, Coin};
use crate::denominations::{
    all_positive, lemma_duplicates_by_count, valid_denominations, CoinOptions,
};
use crate::sorting::{
    descending, is_descending, lemma_descending, lemma_descending_unique, sort_descending,
};

verus! {

/// `count` coins worth `value` each.
pub open spec fn repeated(value: nat, count: nat) -> Seq<nat> {
    Seq::new(count, |i: int| value)
}

/// What the coins of `coins` are worth together.
pub open spec fn total(coins: Seq<nat>) -> nat
    decreases coins.len(),
{
    if coins.len() == 0 {
        0
    } else {
        total(coins.drop_last()) + coins.last()
    }
}

/// The coins given for `amount` when the denominations are taken in the order
/// of `denominations`: of each in turn as many as fit in what is still to pay.
pub open spec fn greedy(amount: nat, denominations: Seq<nat>) -> Seq<nat>
    recommends
        all_positive(denominations),
    decreases denominations.len(),
{
    if denominations.len() == 0 {
        Seq::empty()
    } else {
        let first = denominations[0];
        repeated(first, amount / first) + greedy(amount % first, denominations.skip(1))
    }
}

/// The change given for `amount` out of `denominations`: the greedy choice
/// with the denominations taken from the largest to the smallest.
pub open spec fn change(amount: nat, denominations: Seq<nat>) -> Seq<nat> {
    greedy(amount, descending(denominations))
}

/// `coin` is the largest of `denominations` that is not above `amount`.
pub open spec fn is_largest_fitting(coin: nat, amount: nat, denominations: Seq<nat>) -> bool {
    &&& denominations.contains(coin)
    &&& coin <= amount
    &&& forall|other: nat| denominations.contains(other) && other <= amount ==> other <= coin
}

/// Gives change for `number` out of `coin_options`: of each denomination, from
/// the most to the least valuable, as many coins as fit in what is still to
/// pay.
///
/// The coins come out from the most to the least valuable, each is one of
/// `coin_options`, and together they are worth exactly `number`.
pub fn coin_change(number: u32, coin_options: CoinOptions) -> (coins: Vec<Coin>)
    ensures
        values(coins@) == change(number as nat, coin_options@),
        total(values(coins@)) == number,
        is_descending(values(coins@)),
        forall|i: int| 0 <= i < coins@.len() ==> coin_options@.contains(values(coins@)[i]),
        coins@.len() <= number,
        number == 0 ==> coins@.len() == 0,
        valid_denominations(coin_options@),
{
    let mut coins: Vec<Coin> = Vec::new();
    let mut remaining = number;
    let sorted_coin_options = sort_descending(coin_options.coins());
    let ghost order = values(sorted_coin_options@);
    assert(order.skip(0) =~= order);
    for n in 0..sorted_coin_options.len()
        invariant
            order == values(sorted_coin_options@),
            values(coins@) + greedy(remaining as nat, order.skip(n as int)) == greedy(
                number as nat,
                order,
            ),
    {
        let coin_option = sorted_coin_options[n];
        let count = remaining / coin_option;
        let ghost given = values(coins@);
        assert(order.skip(n as int).skip(1) =~= order.skip(n + 1));
        for k in 0..count
            invariant
                values(coins@) == given + repeated(coin_option@, k as nat),
        {
            let ghost before = values(coins@);
            coins.push(coin_option);
            assert(before.push(coin_option@) =~= given + repeated(coin_option@, (k + 1) as nat));
        }
        remaining = remaining % coin_option;
    }
    proof {
        lemma_change_pays_amount(number as nat, coin_options@);
        lemma_change_is_descending(number as nat, coin_options@);
        lemma_change_uses_denominations(number as nat, coin_options@);
        lemma_change_length(number as nat, coin_options@);
    }
    coins
}

/// The change given for an amount is worth that amount, whatever the amount
/// and the valid set of denominations.
pub proof fn lemma_change_pays_amount(amount: nat, denominations: Seq<nat>)
    requires
        valid_denominations(denominations),
    ensures
        total(change(amount, denominations)) == amount,
{
    let order = descending(denominations);
    lemma_descending_valid(denominations);
    lemma_greedy_total(amount, order);
    lemma_nothing_unpaid(amount, order);
}

/// In the change given for an amount no coin is followed by a more valuable
/// one.
pub proof fn lemma_change_is_descending(amount: nat, denominations: Seq<nat>)
    requires
        valid_denominations(denominations),
    ensures
        is_descending(change(amount, denominations)),
{
    lemma_descending_valid(denominations);
    lemma_greedy_descending(amount, descending(denominations));
}

/// Change is given in the denominations of the set only.
pub proof fn lemma_change_uses_denominations(amount: nat, denominations: Seq<nat>)
    requires
        valid_denominations(denominations),
    ensures
        forall|i: int|
            0 <= i < change(amount, denominations).len() ==> denominations.contains(
                #[trigger] change(amount, denominations)[i],
            ),
{
    lemma_descending_valid(denominations);
    lemma_greedy_members(amount, descending(denominations));
}

/// Change for an amount never takes more coins than the amount counts units.
pub proof fn lemma_change_length(amount: nat, denominations: Seq<nat>)
    requires
        valid_denominations(denominations),
    ensures
        change(amount, denominations).len() <= amount,
{
    let given = change(amount, denominations);
    lemma_change_pays_amount(amount, denominations);
    lemma_change_uses_denominations(amount, denominations);
    assert forall|i: int| 0 <= i < given.len() implies given[i] >= 1 by {
        let k = choose|k: int| 0 <= k < denominations.len() && denominations[k] == given[i];
        assert(denominations[k] >= 1);
    }
    lemma_total_at_least_length(given);
}

/// For the amount zero no coin is given, whatever the valid set of
/// denominations.
pub proof fn lemma_change_of_nothing(denominations: Seq<nat>)
    requires
        valid_denominations(denominations),
    ensures
        change(0, denominations) == Seq::<nat>::empty(),
{
    lemma_change_length(0, denominations);
}

/// Where the coin worth one unit is the only denomination, an amount is paid
/// in as many coins as it counts units.
pub proof fn lemma_change_from_unit_only(amount: nat)
    ensures
        valid_denominations(seq![1nat]),
        change(amount, seq![1nat]) == repeated(1, amount),
{
    let unit = seq![1nat];
    assert(unit[0] == 1);
    lemma_descending_unique(unit, unit);
    reveal_with_fuel(greedy, 2);
}

/// Where the set holds the coin worth one unit and one other denomination, an
/// amount is paid in as many coins of the other as fit, and the rest unit by
/// unit.
pub proof fn lemma_change_from_unit_and_another(amount: nat, other: nat)
    requires
        other >= 2,
    ensures
        valid_denominations(seq![1nat, other]),
        change(amount, seq![1nat, other]) == repeated(other, amount / other) + repeated(
            1,
            amount % other,
        ),
{
    let supplied = seq![1nat, other];
    let order = seq![other, 1nat];
    assert(supplied =~= seq![1nat] + seq![other]);
    assert(order =~= seq![other] + seq![1nat]);
    lemma_seq_union_to_multiset_commutative(seq![1nat], seq![other]);
    lemma_descending_unique(supplied, order);
    reveal_with_fuel(greedy, 3);
    assert(order.skip(1) =~= seq![1nat]);
    assert(greedy(amount, order) =~= repeated(other, amount / other) + repeated(
        1,
        amount % other,
    ));
}

/// Change for an amount that is not zero starts with the largest denomination
/// that is not above the amount, and goes on with the change for what is then
/// still to pay.
pub proof fn lemma_change_takes_the_largest_first(amount: nat, denominations: Seq<nat>)
    requires
        valid_denominations(denominations),
        amount >= 1,
    ensures
        change(amount, denominations).len() >= 1,
        is_largest_fitting(change(amount, denominations)[0], amount, denominations),
        change(amount, denominations) == seq![change(amount, denominations)[0]] + change(
            (amount - change(amount, denominations)[0]) as nat,
            denominations,
        ),
{
    let order = descending(denominations);
    lemma_descending_valid(denominations);
    let unit = choose|k: int| 0 <= k < order.len() && order[k] == 1;
    assert(order[unit] <= amount);
    lemma_greedy_step(amount, order);
    let coin = change(amount, denominations)[0];
    assert forall|other: nat|
        denominations.contains(other) && other <= amount implies other <= coin by {
        assert(order.contains(other));
    }
}

/// An amount that is itself a denomination of the set is paid with the one
/// coin of that denomination.
pub proof fn lemma_change_of_a_denomination(coin: nat, denominations: Seq<nat>)
    requires
        valid_denominations(denominations),
        denominations.contains(coin),
    ensures
        change(coin, denominations) == seq![coin],
{
    let k = choose|k: int| 0 <= k < denominations.len() && denominations[k] == coin;
    assert(coin >= 1);
    lemma_change_takes_the_largest_first(coin, denominations);
    lemma_change_of_nothing(denominations);
}

/// The change depends on which denominations the set holds, not on the order in
/// which they were supplied.
pub proof fn lemma_change_ignores_order(amount: nat, a: Seq<nat>, b: Seq<nat>)
    requires
        valid_denominations(a),
        valid_denominations(b),
        a.to_set() == b.to_set(),
    ensures
        change(amount, a) == change(amount, b),
{
    a.lemma_multiset_has_no_duplicates();
    b.lemma_multiset_has_no_duplicates();
    a.to_multiset_ensures();
    b.to_multiset_ensures();
    assert forall|x: nat| a.to_multiset().count(x) == b.to_multiset().count(x) by {
        assert(a.contains(x) <==> a.to_set().contains(x));
        assert(b.contains(x) <==> b.to_set().contains(x));
    }
    assert(a.to_multiset() =~= b.to_multiset());
    lemma_descending(b);
    lemma_descending_unique(a, descending(b));
}

/// Two runs of coins, one after the other, are worth the sum of what each is
/// worth.
pub proof fn lemma_total_concat(a: Seq<nat>, b: Seq<nat>)
    ensures
        total(a + b) == total(a) + total(b),
    decreases b.len(),
{
    if b.len() == 0 {
        assert(a + b =~= a);
    } else {
        assert((a + b).drop_last() =~= a + b.drop_last());
        lemma_total_concat(a, b.drop_last());
    }
}

/// `count` coins worth `value` each are worth `value * count` together.
pub proof fn lemma_total_repeated(value: nat, count: nat)
    ensures
        total(repeated(value, count)) == value * count,
    decreases count,
{
    if count == 0 {
        assert(value * count == 0) by (nonlinear_arith)
            requires
                count == 0,
        ;
    } else {
        assert(repeated(value, count).drop_last() =~= repeated(value, (count - 1) as nat));
        lemma_total_repeated(value, (count - 1) as nat);
        assert(value * count == value * (count - 1) + value) by (nonlinear_arith);
    }
}

/// What is still to pay of `amount` after the greedy choice has gone through
/// `denominations`.
spec fn unpaid(amount: nat, denominations: Seq<nat>) -> nat
    decreases denominations.len(),
{
    if denominations.len() == 0 {
        amount
    } else {
        unpaid(amount % denominations[0], denominations.skip(1))
    }
}

/// Coins that are each worth something are together worth at least their
/// number.
proof fn lemma_total_at_least_length(coins: Seq<nat>)
    requires
        all_positive(coins),
    ensures
        total(coins) >= coins.len(),
    decreases coins.len(),
{
    if coins.len() > 0 {
        lemma_total_at_least_length(coins.drop_last());
    }
}

/// What the greedy choice gives and what it leaves unpaid make up the amount.
proof fn lemma_greedy_total(amount: nat, denominations: Seq<nat>)
    requires
        all_positive(denominations),
    ensures
        total(greedy(amount, denominations)) + unpaid(amount, denominations) == amount,
    decreases denominations.len(),
{
    if denominations.len() > 0 {
        let first = denominations[0];
        let rest = denominations.skip(1);
        lemma_greedy_total(amount % first, rest);
        lemma_total_concat(repeated(first, amount / first), greedy(amount % first, rest));
        lemma_total_repeated(first, amount / first);
        lemma_fundamental_div_mod(amount as int, first as int);
    }
}

/// With the value 1 among the denominations the greedy choice leaves nothing
/// unpaid.
proof fn lemma_nothing_unpaid(amount: nat, denominations: Seq<nat>)
    requires
        all_positive(denominations),
        amount == 0 || denominations.contains(1),
    ensures
        unpaid(amount, denominations) == 0,
    decreases denominations.len(),
{
    if denominations.len() > 0 {
        let first = denominations[0];
        let rest = denominations.skip(1);
        if amount == 0 || first == 1 {
            assert(amount % first == 0) by (nonlinear_arith)
                requires
                    first >= 1,
                    amount == 0 || first == 1,
            ;
        } else {
            let k = choose|k: int| 0 <= k < denominations.len() && denominations[k] == 1;
            assert(rest[k - 1] == 1);
        }
        lemma_nothing_unpaid(amount % first, rest);
    }
}

/// A tail of a descending sequence is descending.
proof fn lemma_descending_tail(denominations: Seq<nat>)
    requires
        is_descending(denominations),
        denominations.len() > 0,
    ensures
        is_descending(denominations.skip(1)),
{
    let rest = denominations.skip(1);
    assert forall|i: int, j: int| 0 <= i < j < rest.len() implies rest[i] >= rest[j] by {
        assert(denominations[i + 1] >= denominations[j + 1]);
    }
}

/// The greedy choice gives coins of the denominations at hand only.
proof fn lemma_greedy_members(amount: nat, denominations: Seq<nat>)
    requires
        all_positive(denominations),
    ensures
        forall|i: int|
            0 <= i < greedy(amount, denominations).len() ==> denominations.contains(
                #[trigger] greedy(amount, denominations)[i],
            ),
    decreases denominations.len(),
{
    if denominations.len() > 0 {
        let first = denominations[0];
        let rest = denominations.skip(1);
        let run = repeated(first, amount / first);
        let tail = greedy(amount % first, rest);
        let all = greedy(amount, denominations);
        lemma_greedy_members(amount % first, rest);
        assert forall|i: int| 0 <= i < all.len() implies denominations.contains(#[trigger] all[i]) by {
            if i < run.len() {
                assert(all[i] == denominations[0]);
            } else {
                let coin = tail[i - run.len()];
                let k = choose|k: int| 0 <= k < rest.len() && rest[k] == coin;
                assert(all[i] == denominations[k + 1]);
            }
        }
    }
}

/// From descending denominations the greedy choice gives descending coins.
proof fn lemma_greedy_descending(amount: nat, denominations: Seq<nat>)
    requires
        all_positive(denominations),
        is_descending(denominations),
    ensures
        is_descending(greedy(amount, denominations)),
    decreases denominations.len(),
{
    if denominations.len() > 0 {
        let first = denominations[0];
        let rest = denominations.skip(1);
        let run = repeated(first, amount / first);
        let tail = greedy(amount % first, rest);
        let all = greedy(amount, denominations);
        lemma_descending_tail(denominations);
        lemma_greedy_descending(amount % first, rest);
        lemma_greedy_members(amount % first, rest);
        assert forall|i: int, j: int| 0 <= i < j < all.len() implies all[i] >= all[j] by {
            if run.len() <= j {
                let later = tail[j - run.len()];
                let k = choose|k: int| 0 <= k < rest.len() && rest[k] == later;
                assert(first >= denominations[k + 1]);
            }
        }
    }
}

/// From descending denominations of which one fits, the greedy choice starts
/// with the largest that fits and goes on as it would for the rest of the
/// amount.
proof fn lemma_greedy_step(amount: nat, denominations: Seq<nat>)
    requires
        all_positive(denominations),
        is_descending(denominations),
        amount >= 1,
        exists|i: int| 0 <= i < denominations.len() && denominations[i] <= amount,
    ensures
        greedy(amount, denominations).len() >= 1,
        is_largest_fitting(greedy(amount, denominations)[0], amount, denominations),
        greedy(amount, denominations).skip(1) == greedy(
            (amount - greedy(amount, denominations)[0]) as nat,
            denominations,
        ),
    decreases denominations.len(),
{
    let first = denominations[0];
    let rest = denominations.skip(1);
    let given = greedy(amount, denominations);
    lemma_descending_tail(denominations);
    if first > amount {
        // No coin of the first denomination is given, now or later.
        assert(amount / first == 0 && amount % first == amount) by (nonlinear_arith)
            requires
                first > amount,
        ;
        let fitting = choose|k: int| 0 <= k < denominations.len() && denominations[k] <= amount;
        assert(rest[fitting - 1] <= amount);
        lemma_greedy_step(amount, rest);
        let coin = given[0];
        let k = choose|k: int| 0 <= k < rest.len() && rest[k] == coin;
        assert(denominations[k + 1] == coin);
        assert forall|other: nat|
            denominations.contains(other) && other <= amount implies other <= coin by {
            let m = choose|m: int| 0 <= m < denominations.len() && denominations[m] == other;
            assert(rest[m - 1] == other);
            assert(rest.contains(other));
        }
        let less = (amount - coin) as nat;
        assert(less / first == 0 && less % first == less) by (nonlinear_arith)
            requires
                first > less,
        ;
    } else {
        // One coin of the first denomination less is given for the rest.
        let count = amount / first;
        let less = (amount - first) as nat;
        assert(count >= 1 && less / first == count - 1 && less % first == amount % first)
            by (nonlinear_arith)
            requires
                1 <= first <= amount,
                less == amount - first,
                count == amount / first,
        ;
        assert forall|other: nat|
            denominations.contains(other) && other <= amount implies other <= first by {
            let m = choose|m: int| 0 <= m < denominations.len() && denominations[m] == other;
            assert(denominations[0] >= denominations[m]);
        }
        assert(given.skip(1) =~= repeated(first, (count - 1) as nat) + greedy(
            amount % first,
            rest,
        ));
    }
}

/// Arranged from the largest to the smallest, a valid set of denominations is
/// still one, and holds the same values.
proof fn lemma_descending_valid(denominations: Seq<nat>)
    requires
        valid_denominations(denominations),
    ensures
        valid_denominations(descending(denominations)),
        is_descending(descending(denominations)),
        forall|x: nat| #[trigger] descending(denominations).contains(x) <==> denominations.contains(x),
{
    let order = descending(denominations);
    lemma_descending(denominations);
    lemma_duplicates_by_count(denominations, order);
    assert(order.contains(1));
    assert forall|i: int| 0 <= i < order.len() implies order[i] >= 1 by {
        assert(order.contains(order[i]));
        let k = choose|k: int| 0 <= k < denominations.len() && denominations[k] == order[i];
        assert(denominations[k] >= 1);
    }
}

} // verus!
