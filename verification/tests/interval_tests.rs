use rateq::Interval;
use rateq::Rational;
use rateq::interval::ival;

fn rat(n: i128, d: i128) -> Rational {
    Rational::make(n, d).unwrap()
}

fn ends(iv: &Interval) -> (Option<(i64, i64)>, Option<(i64, i64)>) {
    (
        iv.lo.as_ref().map(|q| (q.num(), q.den())),
        iv.hi.as_ref().map(|q| (q.num(), q.den())),
    )
}

#[test]
fn test_contains() {
    assert!(ival("0, 5").contains_zero());
    assert!(ival("0, 0").contains_zero());
    assert!(!ival("-inf, -1").contains_zero());
    assert!(!ival("10, inf").contains_zero());
}

#[test]
fn test_math() {}

#[test]
fn parsing_interval_literals() {
    let iv = ival(" -1/2 , 3 ");
    assert_eq!(ends(&iv), (Some((-1, 2)), Some((3, 1))));
    let iv = ival("-inf, inf");
    assert_eq!(ends(&iv), (None, None));
    assert!(Interval::parse("1 2").is_none());
    assert!(Interval::parse("1, y").is_none());
    assert!(Interval::parse("inf, 1").is_none());
    assert!(Interval::parse("1, -inf").is_none());
    assert!(Interval::parse("1/0, 2").is_none());
}

#[test]
fn singleton_and_constant() {
    let iv = Interval::singleton(rat(3, 2));
    assert_eq!(ends(&iv), (Some((3, 2)), Some((3, 2))));
    let c = iv.get_constant().unwrap();
    assert_eq!((c.num(), c.den()), (3, 2));
    assert!(ival("1, 2").get_constant().is_none());
    assert!(ival("-inf, 2").get_constant().is_none());
}

#[test]
fn membership_is_inclusive() {
    let iv = ival("1/2, 3/2");
    assert!(iv.contains(&rat(1, 2)));
    assert!(iv.contains(&rat(1, 1)));
    assert!(iv.contains(&rat(3, 2)));
    assert!(!iv.contains(&rat(2, 1)));
    assert!(!iv.contains(&rat(0, 1)));
}

#[test]
fn intersect_tightens_when_both_sides_bounded() {
    let a = ival("0, 5");
    let b = ival("2, 9");
    let r = a.intersect(&b);
    assert_eq!(ends(&r), (Some((2, 1)), Some((5, 1))));
    // Subset of both operands: every member of the result is a member of
    // each input.
    for q in [rat(2, 1), rat(3, 1), rat(5, 1)] {
        assert!(r.contains(&q));
        assert!(a.contains(&q));
        assert!(b.contains(&q));
    }
}

#[test]
fn intersect_drops_finite_bound_against_unbounded() {
    // Pins the deliberately kept behavior: a finite bound meeting an
    // unbounded one is dropped, not retained.
    let a = ival("0, 5");
    let b = ival("-inf, 3");
    let r = a.intersect(&b);
    assert_eq!(ends(&r), (None, Some((3, 1))));
    let r2 = ival("2, inf").intersect(&ival("0, 7"));
    assert_eq!(ends(&r2), (Some((2, 1)), None));
}

#[test]
fn interval_addition_and_subtraction() {
    let r = ival("1, 2").add(&ival("10, 20"));
    assert_eq!(ends(&r), (Some((11, 1)), Some((22, 1))));
    let r = ival("-inf, 2").add(&ival("1, 3"));
    assert_eq!(ends(&r), (None, Some((5, 1))));
    let r = ival("1, 2").sub(&ival("10, 20"));
    assert_eq!(ends(&r), (Some((-19, 1)), Some((-8, 1))));
    let r = ival("1, 2").sub(&ival("-inf, 0"));
    assert_eq!(ends(&r), (Some((1, 1)), None));
}

#[test]
fn interval_multiplication_uses_four_products() {
    let r = ival("-2, 3").mul(&ival("-5, 4"));
    assert_eq!(ends(&r), (Some((-15, 1)), Some((12, 1))));
    // Any unbounded endpoint makes the product fully unbounded, even where
    // sign analysis could do better.
    let r = ival("1, inf").mul(&ival("2, 3"));
    assert_eq!(ends(&r), (None, None));
}

#[test]
fn naive_squaring_is_loose() {
    // The known looseness: without a squaring-aware rule, x in [-2, 2]
    // gives x * x in [-4, 4], not [0, 4].
    let x = ival("-2, 2");
    let r = x.mul(&x);
    assert_eq!(ends(&r), (Some((-4, 1)), Some((4, 1))));
}

#[test]
fn reciprocal_cases() {
    let r = ival("2, 4").recip();
    assert_eq!(ends(&r), (Some((1, 4)), Some((1, 2))));
    let r = ival("-4, -2").recip();
    assert_eq!(ends(&r), (Some((-1, 2)), Some((-1, 4))));
    // Unbounded on one side maps to a zero bound on the other.
    let r = ival("2, inf").recip();
    assert_eq!(ends(&r), (Some((0, 1)), Some((1, 2))));
    // A zero-containing interval has the fully unbounded reciprocal.
    let r = ival("-1, 1").recip();
    assert_eq!(ends(&r), (None, None));
    let r = ival("-inf, inf").recip();
    assert_eq!(ends(&r), (None, None));
}

#[test]
fn division_is_multiplication_by_reciprocal() {
    let r = ival("1, 2").div(&ival("2, 4"));
    assert_eq!(ends(&r), (Some((1, 4)), Some((1, 1))));
    let r = ival("1, 2").div(&ival("-1, 1"));
    assert_eq!(ends(&r), (None, None));
}

#[test]
fn default_is_unbounded() {
    let iv = Interval::default();
    assert_eq!(ends(&iv), (None, None));
    assert!(iv.contains(&rat(123456, 7)));
}

#[test]
fn interval_display_text() {
    assert_eq!(ival("0, 5").to_text(), "(0, 5)");
    assert_eq!(ival("-inf, 1/2").to_text(), "(-inf, 1/2)");
    assert_eq!(Interval::default().to_text(), "(-inf, inf)");
}
