use std::cmp::Ordering;

use common_data::{Currency, CurrencyError};

#[test]
fn currency_convert_up() {
    assert_eq!(Currency::Silver(1), Currency::Copper(10).to_silver());

    assert_eq!(Currency::Gold(1), Currency::Copper(100).to_gold());
    assert_eq!(Currency::Gold(1), Currency::Silver(10).to_gold());

    assert_eq!(Currency::Platinum(1), Currency::Copper(1000).to_platinum());
    assert_eq!(Currency::Platinum(1), Currency::Silver(100).to_platinum());
    assert_eq!(Currency::Platinum(1), Currency::Gold(10).to_platinum());
}

#[test]
fn currency_convert_down() {
    assert_eq!(Currency::Copper(10), Currency::Silver(1).to_copper());
    assert_eq!(Currency::Copper(100), Currency::Gold(1).to_copper());
    assert_eq!(Currency::Copper(1000), Currency::Platinum(1).to_copper());

    assert_eq!(Currency::Silver(10), Currency::Gold(1).to_silver());
    assert_eq!(Currency::Silver(100), Currency::Platinum(1).to_silver());

    assert_eq!(Currency::Gold(10), Currency::Platinum(1).to_gold());
}

#[test]
fn currency_to_largest() {
    assert_eq!(Currency::Silver(1), Currency::Copper(10).to_largest_denomination());
    assert_eq!(Currency::Gold(1), Currency::Copper(100).to_largest_denomination());
    assert_eq!(Currency::Platinum(1), Currency::Copper(1000).to_largest_denomination());
    assert_eq!(Currency::Copper(1), Currency::Copper(1).to_largest_denomination());
    assert_eq!(Currency::Copper(19), Currency::Copper(19).to_largest_denomination());

    assert_eq!(Currency::Gold(1), Currency::Silver(10).to_largest_denomination());
    assert_eq!(Currency::Platinum(1), Currency::Silver(100).to_largest_denomination());
    assert_eq!(Currency::Silver(1), Currency::Silver(1).to_largest_denomination());
    assert_eq!(Currency::Silver(19), Currency::Silver(19).to_largest_denomination());

    assert_eq!(Currency::Platinum(1), Currency::Gold(10).to_largest_denomination());
    assert_eq!(Currency::Gold(1), Currency::Gold(1).to_largest_denomination());
    assert_eq!(Currency::Gold(19), Currency::Gold(19).to_largest_denomination());
}

#[test]
fn test_currency_serialization() {
    for currency in [
        Currency::Copper(1),
        Currency::Copper(123),
        Currency::Silver(1),
        Currency::Silver(123),
        Currency::Gold(1),
        Currency::Gold(123),
        Currency::Platinum(1),
        Currency::Platinum(123),
    ] {
        let serialized = currency.raw_amount().unwrap();
        let deserialized = Currency::from(serialized);
        assert_eq!(currency, deserialized);
    }
}

#[test]
fn raw_amount_is_largest_denomination() {
    assert_eq!(Currency::from(1000), Currency::Platinum(1));
    assert_eq!(Currency::from(1), Currency::Copper(1));
    assert_eq!(Currency::from(0), Currency::Copper(0));
    assert_eq!(Currency::from(2500), Currency::Gold(25));
    assert_eq!(Currency::from(2510), Currency::Silver(251));
    assert_eq!(Currency::from(40000), Currency::Platinum(40));
}

#[test]
fn equal_worth_compares_equal() {
    assert_eq!(Currency::Silver(10).compare(&Currency::Gold(1)), Ordering::Equal);
    assert_eq!(Currency::Copper(1000).compare(&Currency::Platinum(1)), Ordering::Equal);
    assert_eq!(Currency::Copper(999).compare(&Currency::Platinum(1)), Ordering::Less);
    assert_eq!(Currency::Gold(11).compare(&Currency::Platinum(1)), Ordering::Greater);
    assert!(Currency::Silver(9) < Currency::Gold(1));
    assert!(Currency::Silver(10) <= Currency::Gold(1));
    assert!(Currency::Platinum(2) > Currency::Copper(1999));
}

#[test]
fn conversions_pass_through_copper() {
    let c = Currency::Gold(37);
    assert_eq!(c.to_copper().to_silver(), c.to_silver());
    assert_eq!(c.to_copper().to_platinum(), c.to_platinum());
    assert_eq!(c.to_platinum(), Currency::Platinum(3));
    assert_eq!(Currency::Copper(1999).to_platinum(), Currency::Platinum(1));
}

#[test]
fn largest_denomination_is_idempotent() {
    for c in [
        Currency::Copper(0),
        Currency::Copper(19),
        Currency::Copper(120),
        Currency::Silver(300),
        Currency::Gold(10),
        Currency::Platinum(50),
    ] {
        let once = c.to_largest_denomination();
        assert_eq!(once.to_largest_denomination(), once);
    }
    assert_eq!(Currency::Copper(120).to_largest_denomination(), Currency::Silver(12));
    assert_eq!(Currency::Platinum(50).to_largest_denomination(), Currency::Platinum(50));
}

#[test]
fn non_exact_amounts_stay_put() {
    assert_eq!(Currency::Copper(19).to_largest_denomination(), Currency::Copper(19));
    assert_eq!(Currency::Gold(0).to_largest_denomination(), Currency::Gold(0));
}

#[test]
fn try_convert_up_steps() {
    assert_eq!(Currency::Copper(30).try_convert_up(), Some(Currency::Silver(3)));
    assert_eq!(Currency::Gold(30).try_convert_up(), Some(Currency::Platinum(3)));
    assert_eq!(Currency::Platinum(30).try_convert_up(), None);
    assert_eq!(Currency::Copper(31).try_convert_up(), None);
    assert_eq!(Currency::Copper(0).try_convert_up(), None);
}

#[test]
fn convert_down_steps() {
    assert_eq!(Currency::Platinum(3).convert_down(), Currency::Gold(30));
    assert_eq!(Currency::Silver(3).convert_down(), Currency::Copper(30));
    assert_eq!(Currency::Copper(3).convert_down(), Currency::Copper(3));
}

#[test]
fn amount_and_with_amount() {
    assert_eq!(Currency::Gold(7).amount(), 7);
    assert_eq!(Currency::Gold(7).with_amount(9), Currency::Gold(9));
    assert_eq!(Currency::Copper(0).with_amount(1), Currency::Copper(1));
    assert_eq!(Currency::default(), Currency::Copper(0));
    assert_eq!(Currency::Platinum(2).copper_value(), 2000);
}

#[test]
fn add_then_subtract_gives_back_the_worth() {
    let a = Currency::Gold(3);
    let b = Currency::Copper(45);
    let sum = a.checked_add(b).unwrap();
    assert_eq!(sum, Currency::Copper(345));
    let back = sum.checked_sub(b).unwrap();
    assert_eq!(back, Currency::Gold(3));
    assert!(sum >= a);
    assert_eq!(Currency::Silver(5).checked_add(Currency::Silver(5)), Ok(Currency::Gold(1)));
}

#[test]
fn subtraction_below_zero_underflows() {
    assert_eq!(Currency::Copper(5).checked_sub(Currency::Silver(1)), Err(CurrencyError::Underflow));
    assert_eq!(Currency::Gold(1).checked_sub(Currency::Silver(10)), Ok(Currency::Copper(0)));
}

#[test]
fn sums_past_sixty_four_bits_overflow() {
    assert_eq!(Currency::Copper(u64::MAX).checked_add(Currency::Copper(1)), Err(CurrencyError::Overflow));
    assert_eq!(Currency::Platinum(u64::MAX).checked_sub(Currency::Copper(1)), Err(CurrencyError::Overflow));
    assert_eq!(Currency::Platinum(u64::MAX).raw_amount(), Err(CurrencyError::Overflow));
    assert_eq!(Currency::Copper(u64::MAX).checked_add(Currency::Copper(0)), Ok(Currency::Copper(u64::MAX)));
}

#[test]
fn concrete_largest_scenario() {
    assert_eq!(Currency::Copper(1000).to_largest_denomination(), Currency::Platinum(1));
    assert_eq!(Currency::Platinum(1).to_copper(), Currency::Copper(1000));
}
