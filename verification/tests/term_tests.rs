use rateq::Expr;
use rateq::TermNode;
use rateq::rational::NumeralError;
use rateq::term::ParseError;
use rateq::term::parse_text;

#[test]
fn simple_test() {
    let expr = parse_text("(+ 3 2)").unwrap();
    assert_eq!(expr.nodes.len(), 3);
    match (&expr.nodes[0], &expr.nodes[1], &expr.nodes[2]) {
        (TermNode::Num(a), TermNode::Num(b), TermNode::Add(l, r)) => {
            assert_eq!((a.num(), a.den()), (3, 1));
            assert_eq!((b.num(), b.den()), (2, 1));
            assert_eq!((*l, *r), (0, 1));
        },
        other => panic!("unexpected shape {:?}", other),
    }
}

#[test]
fn parses_leaves_and_nesting() {
    let expr = parse_text("x").unwrap();
    assert_eq!(expr.nodes.len(), 1);
    match &expr.nodes[0] {
        TermNode::Var(name) => assert_eq!(name.iter().collect::<String>(), "x"),
        other => panic!("unexpected {:?}", other),
    }
    let expr = parse_text("-7/2").unwrap();
    match &expr.nodes[0] {
        TermNode::Num(q) => assert_eq!((q.num(), q.den()), (-7, 2)),
        other => panic!("unexpected {:?}", other),
    }
    let expr = parse_text("(* (+ a 1) (/ b 2))").unwrap();
    assert_eq!(expr.nodes.len(), 7);
    match &expr.nodes[6] {
        TermNode::Mul(l, r) => assert_eq!((*l, *r), (2, 5)),
        other => panic!("unexpected {:?}", other),
    }
}

#[test]
fn repeated_leaves_stay_separate_nodes() {
    let expr = parse_text("(+ a a)").unwrap();
    assert_eq!(expr.nodes.len(), 3);
    match (&expr.nodes[0], &expr.nodes[1]) {
        (TermNode::Var(x), TermNode::Var(y)) => {
            assert_eq!(x, y);
        },
        other => panic!("unexpected {:?}", other),
    }
}

#[test]
fn printing_round_trips() {
    for text in [
        "(+ 3 2)",
        "x",
        "-7/2",
        "(* (+ a 1) (/ b 2))",
        "(- 1 (/ (* 2 y) (+ x y)))",
        "(+ a (* -1 b))",
    ] {
        let expr = parse_text(text).unwrap();
        let printed = expr.to_text();
        let again = parse_text(&printed).unwrap();
        assert_eq!(again, expr, "round trip through {printed}");
    }
}

#[test]
fn printing_normalizes_whitespace_and_fractions() {
    let expr = parse_text("  (+   1/2\n  ( *  x   4/2 ) )  ").unwrap();
    assert_eq!(expr.to_text(), "(+ 1/2 (* x 2))");
}

#[test]
fn structural_parse_errors() {
    assert_eq!(parse_text("(+ 1 2"), Err(ParseError::UnexpectedEnd));
    assert_eq!(parse_text(""), Err(ParseError::UnexpectedEnd));
    assert_eq!(parse_text("   "), Err(ParseError::UnexpectedEnd));
    assert_eq!(parse_text(")"), Err(ParseError::UnexpectedChar));
    assert_eq!(parse_text("(+ 1 2))"), Err(ParseError::UnexpectedChar));
    assert_eq!(parse_text("(% 1 2)"), Err(ParseError::UnexpectedChar));
    assert_eq!(parse_text("()"), Err(ParseError::UnexpectedChar));
    assert_eq!(parse_text("(+ 1 2) x"), Err(ParseError::UnexpectedChar));
}

#[test]
fn numeral_parse_errors_are_distinct() {
    assert_eq!(
        parse_text("(+ 1/0 2)"),
        Err(ParseError::BadNumeral(NumeralError::ZeroDenominator))
    );
    assert_eq!(
        parse_text("123456789123456789123456789123456789123456789"),
        Err(ParseError::BadNumeral(NumeralError::OutOfRange))
    );
}

#[test]
fn numeral_like_tokens_are_not_variables() {
    // "1/2/3" fails the numeral shape, so it is a variable name.
    let expr = parse_text("1/2/3").unwrap();
    match &expr.nodes[0] {
        TermNode::Var(name) => assert_eq!(name.iter().collect::<String>(), "1/2/3"),
        other => panic!("unexpected {:?}", other),
    }
}

fn wf_check(e: &Expr) -> bool {
    // Mirrors the well-formedness the parser guarantees: children always
    // point at earlier nodes.
    e.nodes.iter().enumerate().all(|(i, n)| match n {
        TermNode::Add(l, r)
        | TermNode::Sub(l, r)
        | TermNode::Mul(l, r)
        | TermNode::Div(l, r) => *l < i && *r < i,
        _ => true,
    })
}

#[test]
fn parsed_children_precede_parents() {
    let expr = parse_text("(- (/ q (+ q 1)) (* 2 (- q 3)))").unwrap();
    assert!(wf_check(&expr));
    assert_eq!(expr.nodes.len(), 11);
}
