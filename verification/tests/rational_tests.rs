use rateq::Rational;
use rateq::rational::NumeralError;
use rateq::rational::NumeralScan;

fn rat(n: i128, d: i128) -> Rational {
    Rational::make(n, d).unwrap()
}

fn text_of(q: &Rational) -> String {
    let mut out: Vec<char> = Vec::new();
    q.push_text(&mut out);
    out.into_iter().collect()
}

fn scan(s: &str) -> NumeralScan {
    let v: Vec<char> = s.chars().collect();
    Rational::scan_numeral(&v)
}

#[test]
fn make_reduces_to_lowest_terms() {
    let q = rat(4, 2);
    assert_eq!(q.num(), 2);
    assert_eq!(q.den(), 1);
    let q = rat(-6, 4);
    assert_eq!(q.num(), -3);
    assert_eq!(q.den(), 2);
    let q = rat(5, -10);
    assert_eq!(q.num(), -1);
    assert_eq!(q.den(), 2);
    let q = rat(0, -7);
    assert_eq!(q.num(), 0);
    assert_eq!(q.den(), 1);
}

#[test]
fn arithmetic_is_exact() {
    let half = rat(1, 2);
    let third = rat(1, 3);
    let sum = half.add(&third).unwrap();
    assert_eq!((sum.num(), sum.den()), (5, 6));
    let diff = half.sub(&third).unwrap();
    assert_eq!((diff.num(), diff.den()), (1, 6));
    let prod = half.mul(&third).unwrap();
    assert_eq!((prod.num(), prod.den()), (1, 6));
    let quot = half.div(&third).unwrap();
    assert_eq!((quot.num(), quot.den()), (3, 2));
    let rec = third.recip().unwrap();
    assert_eq!((rec.num(), rec.den()), (3, 1));
    let neg = half.neg();
    assert_eq!((neg.num(), neg.den()), (-1, 2));
}

#[test]
fn order_and_equality_are_by_value() {
    let a = rat(1, 3);
    let b = rat(2, 6);
    let c = rat(1, 2);
    assert!(a.eq_value(&b));
    assert!(!a.eq_value(&c));
    assert!(a.le(&c));
    assert!(a.lt(&c));
    assert!(!c.le(&a));
    assert!(a.le(&b));
    assert!(!a.lt(&b));
    assert!(rat(-1, 2).lt(&rat(1, 3)));
}

#[test]
fn addition_overflow_is_reported() {
    let big = rat(i64::MAX as i128, 1);
    let one = rat(1, 1);
    assert_eq!(big.add(&one), None);
    // A sum that reduces back into range still succeeds.
    let a = rat(i64::MAX as i128, 2);
    let r = a.add(&a).unwrap();
    assert_eq!((r.num(), r.den()), (i64::MAX, 1));
}

#[test]
fn printing_is_canonical() {
    assert_eq!(text_of(&rat(4, 2)), "2");
    assert_eq!(text_of(&rat(-1, 2)), "-1/2");
    assert_eq!(text_of(&rat(0, 5)), "0");
    assert_eq!(text_of(&rat(22, 7)), "22/7");
}

#[test]
fn scanning_numerals() {
    match scan("3/4") {
        NumeralScan::Value(q) => assert_eq!((q.num(), q.den()), (3, 4)),
        other => panic!("unexpected {:?}", other),
    }
    match scan("-12") {
        NumeralScan::Value(q) => assert_eq!((q.num(), q.den()), (-12, 1)),
        other => panic!("unexpected {:?}", other),
    }
    match scan("+6/004") {
        NumeralScan::Value(q) => assert_eq!((q.num(), q.den()), (3, 2)),
        other => panic!("unexpected {:?}", other),
    }
    assert_eq!(scan("x"), NumeralScan::NotNumeral);
    assert_eq!(scan("-"), NumeralScan::NotNumeral);
    assert_eq!(scan("1/2/3"), NumeralScan::NotNumeral);
    assert_eq!(scan("12x"), NumeralScan::NotNumeral);
    assert_eq!(scan(""), NumeralScan::NotNumeral);
}

#[test]
fn scanning_reports_bad_numerals() {
    assert_eq!(scan("1/0"), NumeralScan::Bad(NumeralError::ZeroDenominator));
    assert_eq!(
        scan("99999999999999999999"),
        NumeralScan::Bad(NumeralError::OutOfRange)
    );
    // A huge fraction that reduces into range is still accepted.
    match scan("100000000000000000000/200000000000000000000") {
        NumeralScan::Value(q) => assert_eq!((q.num(), q.den()), (1, 2)),
        other => panic!("unexpected {:?}", other),
    }
}

#[test]
fn numeral_text_round_trips() {
    for (n, d) in [(1i128, 2i128), (-7, 3), (22, 7), (0, 9), (5, 1), (-5, 1)] {
        let q = rat(n, d);
        let printed = text_of(&q);
        match scan(&printed) {
            NumeralScan::Value(back) => {
                assert_eq!((back.num(), back.den()), (q.num(), q.den()));
            },
            other => panic!("round trip failed on {printed}: {:?}", other),
        }
    }
}
