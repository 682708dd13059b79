use matching_engine::price::{MAX_MANTISSA, MAX_SCALE, SCALAR, SCALAR_DIGITS};
use matching_engine::Price;
use rust_decimal::Decimal;
use std::collections::hash_map::DefaultHasher;
use std::collections::HashMap;
use std::hash::{Hash, Hasher};

fn price(mantissa: i128, scale: u32) -> Price {
    Price::new(mantissa, scale).unwrap()
}

fn parts(price: Price) -> (i128, u32) {
    (price.mantissa(), price.scale())
}

fn hash_of(price: Price) -> u64 {
    let mut hasher = DefaultHasher::new();
    price.hash(&mut hasher);
    hasher.finish()
}

#[test]
fn price_drops_trailing_zeros() {
    assert_eq!(parts(price(1500, 3)), (15, 1));
    assert_eq!(parts(price(10000, 0)), (10000, 0));
    assert_eq!(parts(price(10000, 2)), (100, 0));
    assert_eq!(parts(price(10000, 6)), (1, 2));
    assert_eq!(parts(price(12345, 4)), (12345, 4));
    assert_eq!(parts(price(-2500, 2)), (-25, 0));
    assert_eq!(parts(price(-2501, 2)), (-2501, 2));
}

#[test]
fn price_zero_has_one_form() {
    assert_eq!(parts(price(0, 0)), (0, 0));
    assert_eq!(parts(price(0, 5)), (0, 0));
    assert_eq!(parts(price(0, 28)), (0, 0));
    assert_eq!(price(0, 28), price(0, 0));
}

#[test]
fn price_equal_numbers_are_identical() {
    assert_eq!(price(1500, 3), price(15, 1));
    assert_eq!(price(15, 1), price(150, 2));
    assert_eq!(price(10000, 0), price(1_000_000, 2));
    assert_eq!(hash_of(price(1500, 3)), hash_of(price(15, 1)));
    assert_eq!(hash_of(price(10000, 0)), hash_of(price(1_000_000, 2)));
}

#[test]
fn price_distinct_numbers_differ() {
    assert_ne!(price(15, 1), price(15, 2));
    assert_ne!(price(15, 1), price(16, 1));
    assert_ne!(price(1, 0), price(-1, 0));
    assert_ne!(price(1, 28), price(0, 0));
    assert_ne!(hash_of(price(15, 1)), hash_of(price(15, 2)));
}

#[test]
fn price_is_an_exact_key() {
    let mut levels: HashMap<Price, u32> = HashMap::new();
    levels.insert(price(1500, 3), 1);
    levels.insert(price(15, 1), 2);
    levels.insert(price(151, 2), 3);
    assert_eq!(levels.len(), 2);
    assert_eq!(levels.get(&price(150, 2)), Some(&2));
    assert_eq!(levels.get(&price(151, 2)), Some(&3));
    assert_eq!(levels.get(&price(152, 2)), None);
}

#[test]
fn price_rejects_what_is_out_of_range() {
    assert_eq!(Price::new(1, MAX_SCALE + 1), None);
    assert_eq!(Price::new(0, u32::MAX), None);
    assert_eq!(Price::new(MAX_MANTISSA + 1, 0), None);
    assert_eq!(Price::new(-MAX_MANTISSA - 1, 0), None);
    assert_eq!(Price::new(i128::MAX, 0), None);
    assert_eq!(Price::new(i128::MIN, 0), None);
}

#[test]
fn price_accepts_the_limits_of_the_range() {
    assert_eq!(MAX_SCALE, 28);
    assert_eq!(MAX_MANTISSA, (1i128 << 96) - 1);
    assert_eq!(parts(price(MAX_MANTISSA, 0)), (MAX_MANTISSA, 0));
    assert_eq!(parts(price(-MAX_MANTISSA, MAX_SCALE)), (-MAX_MANTISSA, 28));
    assert_eq!(parts(price(1, MAX_SCALE)), (1, 28));
    assert_eq!(
        parts(price(10_000_000_000_000_000_000_000_000_000, 28)),
        (1, 0)
    );
}

#[test]
fn price_from_parts_counts_millionths() {
    assert_eq!(SCALAR, 1_000_000);
    assert_eq!(SCALAR_DIGITS, 6);
    assert_eq!(parts(Price::from_parts(4, 300_000)), (43, 1));
    assert_eq!(parts(Price::from_parts(20, 0)), (20, 0));
    assert_eq!(parts(Price::from_parts(0, 1)), (1, 6));
    assert_eq!(parts(Price::from_parts(0, 0)), (0, 0));
    assert_eq!(parts(Price::from_parts(10000, 0)), (10000, 0));
    assert_eq!(Price::from_parts(1, 1_500_000), price(25, 1));
    assert_eq!(
        parts(Price::from_parts(u64::MAX, u64::MAX)),
        (18_446_762_520_453_625_324_551_615, 6)
    );
}

#[test]
fn price_orders_by_value_across_scales() {
    assert!(price(100, 0) < price(2005, 1));
    assert!(!(price(2005, 1) < price(100, 0)));
    assert!(price(1, 2) < price(5, 1));
    assert!(price(5, 1) > price(1, 2));
    assert!(price(99, 1) < price(10, 0));
    assert!(price(10, 0) >= price(99, 1));
    assert!(price(1, 28) < price(MAX_MANTISSA, 0));
    assert!(price(MAX_MANTISSA, 0) > price(MAX_MANTISSA, 1));
}

#[test]
fn price_orders_negative_numbers() {
    assert!(price(-5, 1) < price(-1, 2));
    assert!(price(-1, 0) < price(0, 0));
    assert!(price(-1, 0) < price(1, 28));
    assert!(price(-MAX_MANTISSA, 0) < price(-MAX_MANTISSA, 1));
    assert!(!(price(-1, 2) < price(-5, 1)));
}

#[test]
fn price_equal_numbers_are_neither_below_nor_above() {
    let a = price(1500, 3);
    let b = price(15, 1);
    assert!(!(a < b));
    assert!(!(a > b));
    assert!(a <= b);
    assert!(a >= b);
    assert_eq!(a.partial_cmp(&b), Some(std::cmp::Ordering::Equal));
    assert_eq!(
        price(1, 0).partial_cmp(&price(2, 0)),
        Some(std::cmp::Ordering::Less)
    );
    assert_eq!(
        price(2, 0).partial_cmp(&price(1, 0)),
        Some(std::cmp::Ordering::Greater)
    );
}

#[test]
fn price_agrees_with_the_decimal_it_stands_for() {
    let samples: [(i128, u32); 9] = [
        (0, 0),
        (0, 7),
        (1500, 3),
        (15, 1),
        (-2500, 2),
        (MAX_MANTISSA, 28),
        (-MAX_MANTISSA, 0),
        (10000, 0),
        (123_456_789, 9),
    ];
    for (mantissa, scale) in samples {
        let decimal = Decimal::from_i128_with_scale(mantissa, scale).normalize();
        let ours = price(mantissa, scale);
        assert_eq!(parts(ours), (decimal.mantissa(), decimal.scale()));
    }
    for (left_mantissa, left_scale) in samples {
        for (right_mantissa, right_scale) in samples {
            let left = Decimal::from_i128_with_scale(left_mantissa, left_scale);
            let right = Decimal::from_i128_with_scale(right_mantissa, right_scale);
            let ours_left = price(left_mantissa, left_scale);
            let ours_right = price(right_mantissa, right_scale);
            assert_eq!(ours_left < ours_right, left < right);
            assert_eq!(ours_left == ours_right, left == right);
            assert_eq!(ours_left.partial_cmp(&ours_right), left.partial_cmp(&right));
        }
    }
}
