use coin_change::{Coin, ValidationError};
use quickcheck::{QuickCheck, TestResult};

#[test]
fn test_that_coin_is_created() {
    assert_eq!(Coin::new(3).map(|coin: Coin| coin.value()), Ok(3))
}

#[test]
fn zero_value_coins_fail() {
    assert_eq!(
        Coin::new(0),
        Err("A zero value coin is not a coin".to_string())
    )
}

#[test]
fn a_coin_can_have_any_value_except_0() {
    let property: fn(u32) -> TestResult = |data: u32| match data.checked_add(1) {
        Some(value) => TestResult::from_bool(Coin::new(value).is_ok()),
        None => TestResult::discard(),
    };
    QuickCheck::new().quickcheck(property);
}

#[test]
fn coin_contains_value() {
    let property: fn(u32) -> TestResult = |data: u32| match data.checked_add(1) {
        Some(value) => TestResult::from_bool(Coin::new(value).unwrap().value() == value),
        None => TestResult::discard(),
    };
    QuickCheck::new().quickcheck(property);
}

#[test]
fn coin_can_divide_u32() {
    let property: fn(u32) -> TestResult = |data: u32| match data.checked_add(1) {
        Some(value) => {
            TestResult::from_bool(value / value == value / Coin::new(value).unwrap())
        }
        None => TestResult::discard(),
    };
    QuickCheck::new().quickcheck(property);
}

#[test]
fn coin_can_rem_u32() {
    let property: fn(u32) -> TestResult = |data: u32| match data.checked_add(1) {
        Some(value) => {
            TestResult::from_bool(value % value == value % Coin::new(value).unwrap())
        }
        None => TestResult::discard(),
    };
    QuickCheck::new().quickcheck(property);
}

#[test]
fn coin_can_add_u32() {
    let property: fn(u32) -> TestResult = |data: u32| {
        let value: u32 = match data.checked_add(1) {
            Some(value) => value,
            None => return TestResult::discard(),
        };
        match data.checked_add(value) {
            Some(sum) => TestResult::from_bool(sum == data + Coin::new(value).unwrap()),
            None => TestResult::discard(),
        }
    };
    QuickCheck::new().quickcheck(property);
}

#[test]
fn any_amount_divides_by_any_coin_as_by_its_value() {
    let property: fn(u32, u32) -> TestResult = |amount: u32, data: u32| {
        match data.checked_add(1) {
            Some(value) => {
                let coin: Coin = Coin::new(value).unwrap();
                TestResult::from_bool(
                    amount / coin == amount / value && amount % coin == amount % value,
                )
            }
            None => TestResult::discard(),
        }
    };
    QuickCheck::new().quickcheck(property);
}

#[test]
fn the_largest_value_makes_a_coin() {
    assert_eq!(Coin::new(u32::MAX).unwrap().value(), u32::MAX);
    assert_eq!(Coin::new(1).unwrap().value(), 1);
}

#[test]
fn division_counts_the_coins_that_fit() {
    let two: Coin = Coin::new(2).unwrap();
    assert_eq!(7 / two, 3);
    assert_eq!(7 % two, 1);
    assert_eq!(7 + two, 9);
    assert_eq!(1 / two, 0);
    assert_eq!(1 % two, 1);
    assert_eq!(0 / two, 0);
    assert_eq!(0 % two, 0);
}

#[test]
fn dividing_by_the_unit_coin_changes_nothing() {
    let unit: Coin = Coin::new(1).unwrap();
    assert_eq!(u32::MAX / unit, u32::MAX);
    assert_eq!(u32::MAX % unit, 0);
    assert_eq!((u32::MAX - 1) + unit, u32::MAX);
}

#[test]
fn coins_are_ordered_by_value() {
    let two: Coin = Coin::new(2).unwrap();
    let three: Coin = Coin::new(3).unwrap();
    assert!(two < three);
    assert!(three > two);
    assert!(two <= two);
    assert!(two >= two);
    assert!(!(three < two));
    assert_eq!(two.max(three), three);
    assert_eq!(two.min(three), two);
    let mut coins: Vec<Coin> = vec![three, two, Coin::new(1).unwrap()];
    coins.sort();
    let worth: Vec<u32> = coins.iter().map(|coin: &Coin| coin.value()).collect();
    assert_eq!(worth, vec![1, 2, 3]);
}

#[test]
fn coins_are_equal_by_value() {
    assert_eq!(Coin::new(5).unwrap(), Coin::new(5).unwrap());
    assert_ne!(Coin::new(5).unwrap(), Coin::new(6).unwrap());
}

#[test]
fn a_coin_is_a_copy() {
    let five: Coin = Coin::new(5).unwrap();
    let same: Coin = five;
    assert_eq!(five, same);
    assert_eq!(five.clone().value(), 5);
}

#[test]
fn each_error_has_its_text() {
    assert_eq!(
        ValidationError::ZeroCoin.message(),
        "A zero value coin is not a coin"
    );
    assert_eq!(
        ValidationError::MissingUnitDenomination.message(),
        "You must provide at least one 1 value coin"
    );
    assert_eq!(
        ValidationError::DuplicateDenomination.message(),
        "There are repeated coins repeated, please do not repeat them"
    );
}

#[test]
fn a_zero_coin_is_refused_as_a_zero_coin() {
    assert_eq!(Coin::new(0), Err(ValidationError::ZeroCoin.message()));
}
