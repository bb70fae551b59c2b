use std::str::FromStr;

use num::BigUint;
use zklink_codec::DecodeError;
use zklink_codec::decimal::BigUintSerdeAsRadix10Str;
use zklink_codec::decimal::BigUintValue;
use zklink_codec::decimal::OptionBigUintSerdeAsRadix10Str;
use zklink_codec::decimal::VecBigUintSerdeAsRadix10Str;

/// The library's digit-sequence value for a reference big integer.
fn value_of_biguint(n: &BigUint) -> BigUintValue {
    let digits = n.to_string().bytes().map(|b| b - b'0').collect::<Vec<u8>>();
    BigUintValue { digits }
}

#[test]
fn u64_max_round_trips_exactly() {
    let v = value_of_biguint(&BigUint::from(u64::MAX));
    assert!(v.well_formed());
    let encoded = BigUintSerdeAsRadix10Str::encode(&v);
    assert_eq!(encoded, "18446744073709551615");
    let decoded = BigUintSerdeAsRadix10Str::decode(&encoded).unwrap();
    assert_eq!(decoded.digits, v.digits);
}

#[test]
fn value_beyond_u64_round_trips_exactly() {
    let n = BigUint::from_str("120315391195132").unwrap() * BigUint::from_str("1250000000").unwrap()
        * BigUint::from(u64::MAX);
    let v = value_of_biguint(&n);
    assert!(v.well_formed());
    let encoded = BigUintSerdeAsRadix10Str::encode(&v);
    assert_eq!(encoded, n.to_string());
    let decoded = BigUintSerdeAsRadix10Str::decode(&encoded).unwrap();
    assert_eq!(decoded.digits, v.digits);
    assert_eq!(BigUint::from_str(&encoded).unwrap(), n);
}

#[test]
fn zero_round_trips() {
    let v = BigUintValue { digits: vec![0] };
    assert!(v.well_formed());
    let encoded = BigUintSerdeAsRadix10Str::encode(&v);
    assert_eq!(encoded, "0");
    assert_eq!(BigUintSerdeAsRadix10Str::decode(&encoded).unwrap().digits, vec![0]);
}

#[test]
fn fractional_value_is_rejected() {
    assert_eq!(BigUintSerdeAsRadix10Str::decode("1.5").err(), Some(DecodeError::FractionalValue));
    assert_eq!(
        BigUintSerdeAsRadix10Str::decode("0.001").err(),
        Some(DecodeError::FractionalValue)
    );
}

#[test]
fn negative_value_is_rejected() {
    assert_eq!(BigUintSerdeAsRadix10Str::decode("-5").err(), Some(DecodeError::NegativeValue));
    assert_eq!(
        BigUintSerdeAsRadix10Str::decode("-12.000").err(),
        Some(DecodeError::NegativeValue)
    );
}

#[test]
fn negative_fractional_fails_as_fractional_first() {
    assert_eq!(BigUintSerdeAsRadix10Str::decode("-1.5").err(), Some(DecodeError::FractionalValue));
}

#[test]
fn malformed_numbers_are_rejected() {
    for s in ["", "-", "+", ".", "abc", "1e5", "12a", "1.2.3", "--5", "5-"] {
        assert_eq!(
            BigUintSerdeAsRadix10Str::decode(s).err(),
            Some(DecodeError::MalformedNumber),
            "input {:?}",
            s
        );
    }
}

#[test]
fn integral_decimals_are_accepted() {
    assert_eq!(BigUintSerdeAsRadix10Str::decode("1.0").unwrap().digits, vec![1]);
    assert_eq!(BigUintSerdeAsRadix10Str::decode("12.").unwrap().digits, vec![1, 2]);
    assert_eq!(BigUintSerdeAsRadix10Str::decode(".0").unwrap().digits, vec![0]);
    assert_eq!(BigUintSerdeAsRadix10Str::decode("-0").unwrap().digits, vec![0]);
    assert_eq!(BigUintSerdeAsRadix10Str::decode("-0.00").unwrap().digits, vec![0]);
    assert_eq!(BigUintSerdeAsRadix10Str::decode("+7").unwrap().digits, vec![7]);
}

#[test]
fn leading_zeros_are_canonicalized() {
    assert_eq!(BigUintSerdeAsRadix10Str::decode("007").unwrap().digits, vec![7]);
    assert_eq!(BigUintSerdeAsRadix10Str::decode("000").unwrap().digits, vec![0]);
}

#[test]
fn sequence_round_trips_in_order() {
    let vals = vec![
        BigUintValue { digits: vec![1] },
        BigUintValue { digits: vec![2] },
        BigUintValue { digits: vec![3] },
    ];
    let encoded = VecBigUintSerdeAsRadix10Str::encode(&vals);
    assert_eq!(encoded, vec!["1", "2", "3"]);
    let decoded = VecBigUintSerdeAsRadix10Str::decode(&encoded).unwrap();
    let digits = decoded.iter().map(|v| v.digits.clone()).collect::<Vec<_>>();
    assert_eq!(digits, vec![vec![1], vec![2], vec![3]]);
}

#[test]
fn empty_sequence_round_trips() {
    let encoded = VecBigUintSerdeAsRadix10Str::encode(&Vec::new());
    assert!(encoded.is_empty());
    assert!(VecBigUintSerdeAsRadix10Str::decode(&encoded).unwrap().is_empty());
}

#[test]
fn sequence_fails_on_first_bad_element() {
    let strs = vec![String::from("1"), String::from("x"), String::from("-3")];
    assert_eq!(VecBigUintSerdeAsRadix10Str::decode(&strs).err(), Some(DecodeError::MalformedNumber));
}

#[test]
fn optional_decimal_absent_value() {
    assert_eq!(OptionBigUintSerdeAsRadix10Str::encode(&None), None);
    assert!(OptionBigUintSerdeAsRadix10Str::decode(&None).unwrap().is_none());
}

#[test]
fn optional_decimal_present_value() {
    let v = BigUintValue { digits: vec![4, 2] };
    let encoded = OptionBigUintSerdeAsRadix10Str::encode(&Some(v));
    assert_eq!(encoded, Some(String::from("42")));
    let decoded = OptionBigUintSerdeAsRadix10Str::decode(&encoded).unwrap().unwrap();
    assert_eq!(decoded.digits, vec![4, 2]);
}

#[test]
fn optional_decimal_failure_is_surfaced() {
    assert_eq!(
        OptionBigUintSerdeAsRadix10Str::decode(&Some(String::from("-9"))).err(),
        Some(DecodeError::NegativeValue)
    );
}

#[test]
fn non_canonical_digit_sequences_are_detected() {
    assert!(!BigUintValue { digits: vec![] }.well_formed());
    assert!(!BigUintValue { digits: vec![0, 7] }.well_formed());
    assert!(!BigUintValue { digits: vec![10] }.well_formed());
    assert!(BigUintValue { digits: vec![7, 0] }.well_formed());
}
