//! The cost algebra: ordering, addition, saturation, and the
//! change-detection equality of table entries.

use dvr::Cost;
use dvr::DVValue;

#[test]
fn cost_order_zero_value_infinity() {
    let zero: Cost<u32> = Cost::Zero;
    let small: Cost<u32> = Cost::Value(0);
    let five: Cost<u32> = Cost::Value(5);
    let inf: Cost<u32> = Cost::Infinity;
    assert!(zero.lt(&small));
    assert!(small.lt(&five));
    assert!(five.lt(&inf));
    assert!(zero.lt(&inf));
    assert!(!inf.lt(&five));
    assert!(!five.lt(&five));
    assert!(five.le(&five));
}

#[test]
fn cost_eq_distinguishes_zero_and_value_zero() {
    let zero: Cost<u32> = Cost::Zero;
    let val0: Cost<u32> = Cost::Value(0);
    assert!(!zero.cost_eq(&val0));
    assert!(zero.cost_eq(&Cost::Zero));
    assert!(val0.cost_eq(&Cost::Value(0)));
}

#[test]
fn cost_addition_identity_and_absorption() {
    let zero: Cost<u32> = Cost::Zero;
    let five: Cost<u32> = Cost::Value(5);
    let inf: Cost<u32> = Cost::Infinity;
    assert!(zero.plus(&five).cost_eq(&five));
    assert!(five.plus(&zero).cost_eq(&five));
    assert!(inf.plus(&five).cost_eq(&inf));
    assert!(five.plus(&inf).cost_eq(&inf));
    assert!(inf.plus(&zero).cost_eq(&inf));
    assert!(zero.plus(&zero).cost_eq(&zero));
}

#[test]
fn cost_addition_adds_values() {
    let two: Cost<u32> = Cost::Value(2);
    let three: Cost<u32> = Cost::Value(3);
    assert!(two.plus(&three).cost_eq(&Cost::Value(5)));
    assert!(three.plus(&two).cost_eq(&Cost::Value(5)));
}

#[test]
fn cost_addition_saturates_at_the_weight_maximum() {
    let big: Cost<u32> = Cost::Value(u32::MAX);
    let one: Cost<u32> = Cost::Value(1);
    assert!(big.plus(&one).cost_eq(&Cost::Value(u32::MAX)));
    let big64: Cost<u64> = Cost::Value(u64::MAX - 1);
    let three64: Cost<u64> = Cost::Value(3);
    assert!(big64.plus(&three64).cost_eq(&Cost::Value(u64::MAX)));
}

#[test]
fn to_dv_value_by_variant() {
    let inf: Cost<u32> = Cost::Infinity;
    assert!(matches!(inf.to_dv_value(1, false), DVValue::Infinity));
    let zero: Cost<u32> = Cost::Zero;
    assert!(matches!(zero.to_dv_value(1, false), DVValue::SameNode));
    let five: Cost<u32> = Cost::Value(5);
    match five.to_dv_value(1, true) {
        DVValue::DirectDistance(w) => assert_eq!(w, 5),
        _ => panic!("expected a direct entry"),
    }
    match five.to_dv_value(3, false) {
        DVValue::Distance(w, via) => {
            assert_eq!(w, 5);
            assert_eq!(via, 3);
        }
        _ => panic!("expected a via-neighbor entry"),
    }
}

#[test]
fn entry_equality_is_cost_only() {
    let via: DVValue<u32> = DVValue::Distance(5, 1);
    let via_other: DVValue<u32> = DVValue::Distance(5, 2);
    let direct: DVValue<u32> = DVValue::DirectDistance(5);
    assert!(via.cost_eq(&via_other));
    assert!(via.cost_eq(&direct));
    assert!(!via.cost_eq(&DVValue::Distance(6, 1)));
    let same: DVValue<u32> = DVValue::SameNode;
    let direct0: DVValue<u32> = DVValue::DirectDistance(0);
    assert!(!same.cost_eq(&direct0));
    let unreachable: DVValue<u32> = DVValue::Infinity;
    assert!(unreachable.cost_eq(&DVValue::Infinity));
    assert!(!unreachable.cost_eq(&direct));
}

#[test]
fn entry_cost_round_trip() {
    let via: DVValue<u32> = DVValue::Distance(7, 2);
    assert!(via.cost().cost_eq(&Cost::Value(7)));
    let same: DVValue<u32> = DVValue::SameNode;
    assert!(same.cost().cost_eq(&Cost::Zero));
    let unreachable: DVValue<u32> = DVValue::Infinity;
    assert!(unreachable.cost().cost_eq(&Cost::Infinity));
}
