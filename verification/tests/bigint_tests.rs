use flowlang::bigint::BigInt;
use std::cmp::Ordering;

#[test]
fn from_i64_and_to_string() {
    assert_eq!(BigInt::from_i64(0).to_string(), "0");
    assert_eq!(BigInt::from_i64(42).to_string(), "42");
    assert_eq!(BigInt::from_i64(-7).to_string(), "-7");
    assert_eq!(BigInt::from_i64(1_000_000_000).to_string(), "1000000000");
    assert_eq!(
        BigInt::from_i64(i64::MAX).to_string(),
        "9223372036854775807"
    );
    assert_eq!(
        BigInt::from_i64(i64::MIN).to_string(),
        "-9223372036854775808"
    );
}

#[test]
fn round_trip_decimal_strings() {
    // Parsing a canonical decimal string and printing it yields the
    // original string.
    for s in [
        "0",
        "7",
        "123456789",
        "1000000000000000000000000000000001",
        "-1",
        "-999999999999999999999999",
        "9223372036854775808",
    ] {
        let b = BigInt::from_string(s).expect("valid decimal");
        assert_eq!(b.to_string(), s);
    }
}

#[test]
fn from_string_rejects_invalid() {
    assert!(BigInt::from_string("").is_err());
    assert!(BigInt::from_string("-").is_err());
    assert!(BigInt::from_string("12a").is_err());
    assert!(BigInt::from_string("--5").is_err());
    assert!(BigInt::from_string(" 5").is_err());
    assert!(BigInt::from_string("5 ").is_err());
}

#[test]
fn from_string_accepts_leading_zeros() {
    let b = BigInt::from_string("007").unwrap();
    assert_eq!(b.to_string(), "7");
    let z = BigInt::from_string("-0").unwrap();
    assert_eq!(z.to_string(), "0");
}

#[test]
fn ordering_matches_machine_integers() {
    let samples: [i64; 9] = [
        i64::MIN,
        -1_000_000_000_000,
        -2,
        -1,
        0,
        1,
        999_999_999,
        1_000_000_000_000,
        i64::MAX,
    ];
    for &a in samples.iter() {
        for &b in samples.iter() {
            assert_eq!(
                BigInt::from_i64(a).cmp(&BigInt::from_i64(b)),
                a.cmp(&b),
                "cmp mismatch for {} vs {}",
                a,
                b
            );
        }
    }
}

#[test]
fn arithmetic_is_exact() {
    let a = BigInt::from_string("99999999999999999999").unwrap();
    let b = BigInt::from_string("1").unwrap();
    assert_eq!(a.add(&b).to_string(), "100000000000000000000");
    assert_eq!(a.sub(&b).to_string(), "99999999999999999998");
    let c = BigInt::from_string("123456789123456789").unwrap();
    let d = BigInt::from_string("987654321987654321").unwrap();
    assert_eq!(
        c.mul(&d).to_string(),
        "121932631356500531347203169112635269"
    );
    let neg = BigInt::from_i64(-5);
    assert_eq!(neg.mul(&BigInt::from_i64(3)).to_string(), "-15");
    assert_eq!(neg.mul(&BigInt::from_i64(-3)).to_string(), "15");
    assert_eq!(neg.add(&BigInt::from_i64(5)).to_string(), "0");
}

#[test]
fn to_i64_window() {
    // Magnitudes of at most two limbs convert back; anything larger,
    // including the minimum machine integer, does not.
    assert_eq!(BigInt::from_i64(12345).to_i64(), Some(12345));
    assert_eq!(BigInt::from_i64(-12345).to_i64(), Some(-12345));
    assert_eq!(
        BigInt::from_string("999999999999999999").unwrap().to_i64(),
        Some(999_999_999_999_999_999)
    );
    assert_eq!(BigInt::from_string("1000000000000000000").unwrap().to_i64(), None);
    assert_eq!(BigInt::from_i64(i64::MIN).to_i64(), None);
}

#[test]
fn to_i64_exact_covers_machine_range() {
    assert_eq!(
        BigInt::from_string("9223372036854775807").unwrap().to_i64_exact(),
        Some(i64::MAX)
    );
    assert_eq!(
        BigInt::from_string("-9223372036854775808").unwrap().to_i64_exact(),
        Some(i64::MIN)
    );
    assert_eq!(
        BigInt::from_string("9223372036854775808").unwrap().to_i64_exact(),
        None
    );
    assert_eq!(BigInt::from_i64(5).to_i64_exact(), Some(5));
}

#[test]
fn is_zero_and_new() {
    assert!(BigInt::new().is_zero());
    assert!(!BigInt::from_i64(1).is_zero());
    assert!(BigInt::from_i64(1).sub(&BigInt::from_i64(1)).is_zero());
}
