use rateq::Interval;
use rateq::Rational;
use rateq::TermNode;
use rateq::analysis::fold_make;
use rateq::analysis::fold_merge;
use rateq::analysis::fold_modify;
use rateq::analysis::ival_make;
use rateq::analysis::ival_merge;
use rateq::analysis::ival_modify;
use rateq::interval::ival;

fn rat(n: i128, d: i128) -> Rational {
    Rational::make(n, d).unwrap()
}

fn ends(iv: &Interval) -> (Option<(i64, i64)>, Option<(i64, i64)>) {
    (
        iv.lo.as_ref().map(|q| (q.num(), q.den())),
        iv.hi.as_ref().map(|q| (q.num(), q.den())),
    )
}

#[test]
fn fold_construction_rules() {
    let two = rat(2, 1);
    let three = rat(3, 1);
    let zero = rat(0, 1);
    let add = TermNode::Add(0, 1);
    let sub = TermNode::Sub(0, 1);
    let mul = TermNode::Mul(0, 1);
    let div = TermNode::Div(0, 1);
    let r = fold_make(&TermNode::Num(two), None, None).unwrap();
    assert_eq!((r.num(), r.den()), (2, 1));
    let r = fold_make(&add, Some(two), Some(three)).unwrap();
    assert_eq!((r.num(), r.den()), (5, 1));
    let r = fold_make(&sub, Some(two), Some(three)).unwrap();
    assert_eq!((r.num(), r.den()), (-1, 1));
    let r = fold_make(&mul, Some(two), Some(three)).unwrap();
    assert_eq!((r.num(), r.den()), (6, 1));
    let r = fold_make(&div, Some(two), Some(three)).unwrap();
    assert_eq!((r.num(), r.den()), (2, 3));
    // A division by a value not proven nonzero never folds.
    assert_eq!(fold_make(&div, Some(two), Some(zero)), None);
    assert_eq!(fold_make(&div, Some(two), None), None);
    // Unknown children stay unknown.
    assert_eq!(fold_make(&add, Some(two), None), None);
    assert_eq!(fold_make(&TermNode::Var(vec!['x']), None, None), None);
}

#[test]
fn fold_merge_adopts_the_defined_side() {
    let two = rat(2, 1);
    let mut to: Option<Rational> = None;
    let e = fold_merge(&mut to, None).unwrap();
    assert!(!e.changed_left && !e.changed_right);
    assert_eq!(to, None);
    let e = fold_merge(&mut to, Some(two)).unwrap();
    assert!(e.changed_left && !e.changed_right);
    assert_eq!(to, Some(two));
    let e = fold_merge(&mut to, None).unwrap();
    assert!(!e.changed_left && e.changed_right);
    assert_eq!(to, Some(two));
    let e = fold_merge(&mut to, Some(rat(4, 2))).unwrap();
    assert!(!e.changed_left && !e.changed_right);
    assert_eq!(to, Some(two));
}

#[test]
fn fold_merge_contradiction_is_fatal() {
    // Two different proven constants in one class: the unsound rule pair
    // has been caught, and the contradiction carries both values.
    let mut to = Some(rat(1, 1));
    let c = fold_merge(&mut to, Some(rat(0, 1))).unwrap_err();
    assert_eq!((c.left.num(), c.left.den()), (1, 1));
    assert_eq!((c.right.num(), c.right.den()), (0, 1));
    // The datum itself is left alone; recovery is the caller's decision.
    assert_eq!(to, Some(rat(1, 1)));
}

#[test]
fn fold_modify_proposes_the_canonical_numeral() {
    let q = rat(5, 3);
    assert_eq!(fold_modify(&Some(q)), Some(TermNode::Num(q)));
    assert_eq!(fold_modify(&None), None);
}

#[test]
fn interval_construction_rules() {
    let a = ival("1, 2");
    let b = ival("10, 20");
    let r = ival_make(&TermNode::Num(rat(3, 2)), &a, &b);
    assert_eq!(ends(&r), (Some((3, 2)), Some((3, 2))));
    let r = ival_make(&TermNode::Add(0, 1), &a, &b);
    assert_eq!(ends(&r), (Some((11, 1)), Some((22, 1))));
    let r = ival_make(&TermNode::Sub(0, 1), &a, &b);
    assert_eq!(ends(&r), (Some((-19, 1)), Some((-8, 1))));
    let r = ival_make(&TermNode::Mul(0, 1), &a, &b);
    assert_eq!(ends(&r), (Some((10, 1)), Some((40, 1))));
    let r = ival_make(&TermNode::Div(0, 1), &a, &b);
    assert_eq!(ends(&r), (Some((1, 20)), Some((1, 5))));
    let r = ival_make(&TermNode::Var(vec!['x']), &a, &b);
    assert_eq!(ends(&r), (None, None));
}

#[test]
fn interval_merge_is_set_intersection() {
    // Unlike the intersect method, the merge keeps a finite bound that
    // meets an unbounded one.
    let mut to = ival("-inf, 5");
    let e = ival_merge(&mut to, ival("0, inf"));
    assert_eq!(ends(&to), (Some((0, 1)), Some((5, 1))));
    assert!(e.changed_left && e.changed_right);
    // Merging something wider changes only the right side's view.
    let mut to = ival("1, 2");
    let e = ival_merge(&mut to, ival("0, 9"));
    assert_eq!(ends(&to), (Some((1, 1)), Some((2, 1))));
    assert!(!e.changed_left && e.changed_right);
    // Equal inputs change nothing.
    let mut to = ival("1, 2");
    let e = ival_merge(&mut to, ival("1, 2"));
    assert!(!e.changed_left && !e.changed_right);
    // Each endpoint tightens independently.
    let mut to = ival("0, 10");
    let e = ival_merge(&mut to, ival("3, 20"));
    assert_eq!(ends(&to), (Some((3, 1)), Some((10, 1))));
    assert!(e.changed_left && e.changed_right);
}

#[test]
fn interval_merge_never_widens() {
    let mut to = ival("1, 2");
    let before = to.clone();
    ival_merge(&mut to, ival("-inf, inf"));
    for q in [rat(1, 1), rat(3, 2), rat(2, 1)] {
        assert_eq!(to.contains(&q), before.contains(&q));
    }
    assert_eq!(ends(&to), (Some((1, 1)), Some((2, 1))));
}

#[test]
fn interval_modify_fires_on_point_intervals() {
    let d = ival("3/2, 3/2");
    match ival_modify(&d) {
        Some(TermNode::Num(q)) => assert_eq!((q.num(), q.den()), (3, 2)),
        other => panic!("unexpected {:?}", other),
    }
    assert_eq!(ival_modify(&ival("1, 2")), None);
    assert_eq!(ival_modify(&ival("-inf, 3")), None);
}
