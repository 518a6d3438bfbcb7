use rateq::ReplBuffer;
use rateq::driver::should_continue;
use rateq::rules::rules_fold;
use rateq::rules::rules_interval;

fn chars(s: &str) -> Vec<char> {
    s.chars().collect()
}

#[test]
fn complete_submission_is_handed_back() {
    let mut buf = ReplBuffer::new();
    let text = buf.feed(&chars("(+ 1 1)")).expect("balanced line completes");
    assert_eq!(text.iter().collect::<String>(), "(+ 1 1)\n");
    // The buffer is fresh afterwards: the next submission starts clean.
    let text = buf.feed(&chars("x")).expect("bare token completes");
    assert_eq!(text.iter().collect::<String>(), "x\n");
}

#[test]
fn incomplete_submission_keeps_buffering() {
    let mut buf = ReplBuffer::new();
    assert!(buf.feed(&chars("(- 1")).is_none());
    assert!(buf.feed(&chars("  (/ (* 2 y)")).is_none());
    let text = buf
        .feed(&chars("     (+ x y)))"))
        .expect("brackets now balance");
    assert_eq!(
        text.iter().collect::<String>(),
        "(- 1\n  (/ (* 2 y)\n     (+ x y)))\n"
    );
}

#[test]
fn budget_decisions() {
    assert!(should_continue(false, 3, 10, 100, 500));
    assert!(!should_continue(true, 3, 10, 100, 500));
    assert!(!should_continue(false, 10, 10, 100, 500));
    assert!(!should_continue(false, 3, 10, 500, 500));
}

#[test]
fn rule_sets_have_the_expected_shape() {
    let fold = rules_fold();
    assert_eq!(fold.len(), 15);
    assert!(fold.iter().all(|r| r.nonzero_guard.is_none()));
    // The deliberately unsound pair sits at the end, unguarded.
    assert_eq!(fold[13].name, "cancel-div");
    assert_eq!(fold[14].name, "zero-div");

    let interval = rules_interval();
    assert_eq!(interval.len(), 21);
    let guarded: Vec<&str> = interval
        .iter()
        .filter(|r| r.nonzero_guard.is_some())
        .map(|r| r.name.as_str())
        .collect();
    assert_eq!(guarded, ["cancel-div", "zero-div"]);
    assert_eq!(
        interval[19].nonzero_guard.as_deref(),
        Some("?a")
    );
}
