use claimr::Number;

fn n(s: &str) -> Number {
    Number::from_literal(s).unwrap()
}

#[test]
fn integers() {
    assert_eq!(n("7"), Number::from_i64(7));
    assert_eq!(n("007"), Number::from_i64(7));
    assert_eq!(n("0"), Number::zero());
    assert!(n("42").is_integer());
    assert_eq!(n("42").to_string(), "42");
}

#[test]
fn decimals_are_exact() {
    assert_eq!(n("18.5"), Number::from_ratio(37, 2).unwrap());
    assert_eq!(n("0.10"), Number::from_ratio(1, 10).unwrap());
    assert_eq!(n("0.5"), Number::from_ratio(1, 2).unwrap());
    assert_eq!(n("2.0"), Number::from_i64(2));
    assert!(n("2.0").is_integer());
    assert!(!n("2.5").is_integer());
    // 0.1 + 0.2 == 0.3 exactly (this is the point).
    let sum = n("0.1").plus(&n("0.2"));
    assert_eq!(sum, n("0.3"));
}

#[test]
fn negative_literals() {
    assert_eq!(n("-3"), Number::from_i64(-3));
    assert_eq!(n("-0.25"), Number::from_ratio(-1, 4).unwrap());
    assert_eq!(n("-0.25").to_string(), "-1/4");
}

#[test]
fn ordering_and_equality() {
    assert!(n("1.5").less_than(&n("2")));
    assert!(n("0.333").less_than(&Number::from_ratio(1, 3).unwrap()));
    assert_eq!(n("1.50"), n("1.5"));
    assert_ne!(n("1.5"), n("1.51"));
    assert_eq!(n("3.0"), Number::from_ratio(3, 1).unwrap());
}

#[test]
fn arbitrary_precision() {
    let big = "123456789012345678901234567890.987654321098765432109876543210";
    let v = n(big);
    assert_eq!(v.numer().to_string(), "12345678901234567890123456789098765432109876543210987654321");
    assert_eq!(v.denom().to_string(), "100000000000000000000000000000");
}

#[test]
fn rejects_malformed_literals() {
    for bad in ["", ".", "1.", ".5", "1.2.3", "abc", "1e5", "--1", "1/2", " 1"] {
        assert!(Number::from_literal(bad).is_err(), "{bad:?} should be rejected");
    }
    assert!(Number::from_ratio(1, 0).is_none());
}

#[test]
fn from_str_roundtrip() {
    let v: Number = "2.75".parse().unwrap();
    assert_eq!(v, Number::from_ratio(11, 4).unwrap());
}

#[test]
fn arithmetic_is_exact() {
    assert_eq!(n("1.5").times(&n("4")).to_string(), "6");
    assert_eq!(n("1").divide(&n("3")).unwrap().to_string(), "1/3");
    assert!(n("1").divide(&n("0")).is_none());
    assert_eq!(n("1").minus(&n("0.75")).to_string(), "1/4");
    assert_eq!(n("-7.5").abs().to_string(), "15/2");
    assert_eq!(n("2.5").recip().unwrap().to_string(), "2/5");
    assert!(n("0").recip().is_none());
    assert_eq!(n("18.5").to_string(), "37/2");
}

#[test]
fn display_and_debug() {
    assert_eq!(n("33").to_string(), "33");
    assert_eq!(Number::from_ratio(33, 32).unwrap().to_string(), "33/32");
    assert_eq!(Number::from_ratio(6, 4).unwrap().to_string(), "3/2");
    // The number's text (its `Debug` form in the original) is the reduced fraction.
    assert_eq!(n("18.5").to_string(), "37/2");
    assert_eq!(n("7").to_string(), "7");
}
