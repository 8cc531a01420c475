use lib::rational::Rational;

#[test]
fn literals_reduce_to_lowest_terms() {
    let r = Rational::from_literal("6", "-4").unwrap();
    assert_eq!(r.to_text(), "-3/2");
    let z = Rational::from_literal("0", "7").unwrap();
    assert_eq!(z.to_text(), "0");
    assert!(z.is_integer());
    let p = Rational::from_literal("+10", "5").unwrap();
    assert!(p.is_integer());
    assert_eq!(p.as_precise_i64(), Some(2));
}

#[test]
fn malformed_or_zero_denominator_literals_are_refused() {
    assert!(Rational::from_literal("1", "0").is_none());
    assert!(Rational::from_literal("x", "2").is_none());
    assert!(Rational::from_literal("", "2").is_none());
    assert!(Rational::from_literal("1", "2.5").is_none());
}

#[test]
fn arithmetic_is_exact() {
    let a = Rational::new(1, 3).unwrap();
    let b = Rational::new(1, 6).unwrap();
    let s = a.duplicate().checked_add(b.duplicate()).unwrap();
    assert_eq!(s.to_text(), "1/2");
    let d = a.duplicate().checked_sub(b.duplicate()).unwrap();
    assert_eq!(d.to_text(), "1/6");
    let m = a.duplicate().checked_mul(b.duplicate()).unwrap();
    assert_eq!(m.to_text(), "1/18");
    let q = a.duplicate().checked_div(b.duplicate()).unwrap();
    assert_eq!(q.as_precise_i64(), Some(2));
    assert!(a.checked_div(Rational::integer(0)).is_none());
    assert_eq!(Rational::new(3, 4).unwrap().to_text(), "3/4");
    assert_eq!(Rational::integer(-5).to_text(), "-5");
}

#[test]
fn equal_fractions_are_equal_values() {
    assert_eq!(Rational::new(2, -4), Rational::new(-1, 2));
    assert_eq!(Rational::new(0, -5), Some(Rational::integer(0)));
    assert!(Rational::new(1, 0).is_none());
}

#[test]
fn arithmetic_has_no_ceiling() {
    let min_over_minus_one = Rational::new(i64::MIN, -1).unwrap();
    assert_eq!(min_over_minus_one.to_text(), "9223372036854775808");
    assert_eq!(min_over_minus_one.as_precise_i64(), None);
    let doubled = Rational::integer(i64::MAX)
        .checked_add(Rational::integer(i64::MAX))
        .unwrap();
    assert_eq!(doubled.to_text(), "18446744073709551614");
    let quotient = Rational::integer(i64::MIN)
        .checked_div(Rational::integer(-1))
        .unwrap();
    assert_eq!(quotient.to_text(), "9223372036854775808");
    let negated = Rational::integer(i64::MIN).checked_neg().unwrap();
    assert_eq!(negated.to_text(), "9223372036854775808");
    let square = doubled.duplicate().checked_mul(doubled).unwrap();
    assert_eq!(square.to_text(), "340282366920938463389587631136930004996");
}

#[test]
fn sum_then_difference_gives_back_the_first() {
    let a = Rational::new(7, 3).unwrap();
    let b = Rational::new(-5, 12).unwrap();
    let s = a.duplicate().checked_add(b.duplicate()).unwrap();
    let back = s.checked_sub(b).unwrap();
    assert_eq!(back, a);
    let h = Rational::new(1, 2).unwrap();
    let t = Rational::new(3, 4).unwrap();
    assert_eq!(h.checked_div(t), Rational::new(2, 3));
}

#[test]
fn huge_literals_are_exact() {
    let r = Rational::from_literal("123456789012345678901234567890123", "2").unwrap();
    assert_eq!(r.to_text(), "123456789012345678901234567890123/2");
    let s = Rational::from_literal("-100000000000000000000000000000000000000000", "100000000000000000000000000000000000000000")
        .unwrap();
    assert_eq!(s.to_text(), "-1");
    assert!(Rational::new(1, 3).unwrap().less_than(&Rational::new(1, 2).unwrap()));
}

#[test]
fn printed_fractions_read_back() {
    for (n, d) in [(-7i64, 3i64), (0, 5), (12, 4), (i64::MIN, 3)] {
        let q = Rational::new(n, d).unwrap();
        let text = q.to_text();
        let (num, den) = match text.split_once('/') {
            Some((a, b)) => (a.to_string(), b.to_string()),
            None => (text.clone(), "1".to_string()),
        };
        assert_eq!(Rational::from_literal(&num, &den), Some(q));
    }
}
