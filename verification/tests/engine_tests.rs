//! End-to-end runs through the equality saturation engine, with the
//! library supplying the term semantics, the analyses and the rule sets.

use egg::Analysis;
use egg::AstSize;
use egg::ConditionalApplier;
use egg::DidMerge;
use egg::EGraph;
use egg::Extractor;
use egg::Id;
use egg::Language;
use egg::Pattern;
use egg::RecExpr;
use egg::Rewrite;
use egg::Runner;
use egg::Subst;
use egg::Symbol;
use rateq::Interval;
use rateq::Rational;
use rateq::TermNode;
use rateq::interval::ival;
use rateq::rational::NumeralScan;
use std::time::Duration;

#[derive(Debug, Clone, PartialEq, Eq, PartialOrd, Ord, Hash)]
enum Math {
    Num(Rational),
    Add([Id; 2]),
    Sub([Id; 2]),
    Mul([Id; 2]),
    Div([Id; 2]),
    Var(Symbol),
}

impl Language for Math {
    type Discriminant = std::mem::Discriminant<Math>;

    fn discriminant(&self) -> Self::Discriminant {
        std::mem::discriminant(self)
    }

    fn matches(&self, other: &Self) -> bool {
        std::mem::discriminant(self) == std::mem::discriminant(other)
            && match (self, other) {
                (Math::Num(a), Math::Num(b)) => a == b,
                (Math::Var(a), Math::Var(b)) => a == b,
                _ => true,
            }
    }

    fn children(&self) -> &[Id] {
        match self {
            Math::Add(c) | Math::Sub(c) | Math::Mul(c) | Math::Div(c) => c,
            _ => &[],
        }
    }

    fn children_mut(&mut self) -> &mut [Id] {
        match self {
            Math::Add(c) | Math::Sub(c) | Math::Mul(c) | Math::Div(c) => c,
            _ => &mut [],
        }
    }
}

impl std::fmt::Display for Math {
    fn fmt(&self, f: &mut std::fmt::Formatter<'_>) -> std::fmt::Result {
        match self {
            Math::Num(q) => {
                let mut out: Vec<char> = Vec::new();
                q.push_text(&mut out);
                f.write_str(&out.iter().collect::<String>())
            },
            Math::Add(_) => f.write_str("+"),
            Math::Sub(_) => f.write_str("-"),
            Math::Mul(_) => f.write_str("*"),
            Math::Div(_) => f.write_str("/"),
            Math::Var(s) => f.write_str(s.as_str()),
        }
    }
}

impl egg::FromOp for Math {
    type Error = egg::FromOpError;

    fn from_op(op: &str, children: Vec<Id>) -> Result<Self, Self::Error> {
        if children.len() == 2 {
            let c = [children[0], children[1]];
            match op {
                "+" => return Ok(Math::Add(c)),
                "-" => return Ok(Math::Sub(c)),
                "*" => return Ok(Math::Mul(c)),
                "/" => return Ok(Math::Div(c)),
                _ => {},
            }
        }
        if children.is_empty() {
            let tok: Vec<char> = op.chars().collect();
            match Rational::scan_numeral(&tok) {
                NumeralScan::Value(q) => return Ok(Math::Num(q)),
                NumeralScan::NotNumeral => return Ok(Math::Var(Symbol::from(op))),
                NumeralScan::Bad(_) => {},
            }
        }
        Err(egg::FromOpError::new(op, children))
    }
}

/// The library's view of one e-node: the operator shape plus any numeral
/// payload (child handles are supplied separately).
fn lift(enode: &Math) -> TermNode {
    match enode {
        Math::Num(q) => TermNode::Num(*q),
        Math::Add(_) => TermNode::Add(0, 0),
        Math::Sub(_) => TermNode::Sub(0, 0),
        Math::Mul(_) => TermNode::Mul(0, 0),
        Math::Div(_) => TermNode::Div(0, 0),
        Math::Var(_) => TermNode::Var(Vec::new()),
    }
}

/// Remembers whether a merge ever hit the fatal contradiction, so a test
/// can observe that the unsound rule pair was caught.
#[derive(Default)]
struct ConstantFold {
    contradiction: bool,
}

impl Analysis<Math> for ConstantFold {
    type Data = Option<Rational>;

    fn make(egraph: &mut EGraph<Math, Self>, enode: &Math, _id: Id) -> Self::Data {
        let cs = enode.children();
        let a = cs.first().and_then(|id| egraph[*id].data);
        let b = cs.get(1).and_then(|id| egraph[*id].data);
        rateq::analysis::fold_make(&lift(enode), a, b)
    }

    fn merge(&mut self, to: &mut Self::Data, from: Self::Data) -> DidMerge {
        match rateq::analysis::fold_merge(to, from) {
            Ok(e) => DidMerge(e.changed_left, e.changed_right),
            Err(_c) => {
                self.contradiction = true;
                DidMerge(false, false)
            },
        }
    }

    fn modify(egraph: &mut EGraph<Math, Self>, id: Id) {
        let d = egraph[id].data;
        if let Some(TermNode::Num(q)) = rateq::analysis::fold_modify(&d) {
            let added = egraph.add(Math::Num(q));
            egraph.union(id, added);
        }
    }
}

#[derive(Default)]
struct IntervalAnalysis;

impl Analysis<Math> for IntervalAnalysis {
    type Data = Interval;

    fn make(egraph: &mut EGraph<Math, Self>, enode: &Math, _id: Id) -> Self::Data {
        let cs = enode.children();
        let a = cs
            .first()
            .map(|id| egraph[*id].data.clone())
            .unwrap_or_default();
        let b = cs
            .get(1)
            .map(|id| egraph[*id].data.clone())
            .unwrap_or_default();
        rateq::analysis::ival_make(&lift(enode), &a, &b)
    }

    fn merge(&mut self, to: &mut Self::Data, from: Self::Data) -> DidMerge {
        let e = rateq::analysis::ival_merge(to, from);
        DidMerge(e.changed_left, e.changed_right)
    }

    fn modify(egraph: &mut EGraph<Math, Self>, id: Id) {
        let d = egraph[id].data.clone();
        if let Some(TermNode::Num(q)) = rateq::analysis::ival_modify(&d) {
            let added = egraph.add(Math::Num(q));
            egraph.union(id, added);
        }
    }
}

fn fold_rewrites() -> Vec<Rewrite<Math, ConstantFold>> {
    rateq::rules::rules_fold()
        .into_iter()
        .map(|r| {
            let lhs: Pattern<Math> = r.lhs.parse().unwrap();
            let rhs: Pattern<Math> = r.rhs.parse().unwrap();
            assert!(r.nonzero_guard.is_none());
            Rewrite::new(r.name, lhs, rhs).unwrap()
        })
        .collect()
}

fn interval_rewrites() -> Vec<Rewrite<Math, IntervalAnalysis>> {
    rateq::rules::rules_interval()
        .into_iter()
        .map(|r| {
            let lhs: Pattern<Math> = r.lhs.parse().unwrap();
            let rhs: Pattern<Math> = r.rhs.parse().unwrap();
            match r.nonzero_guard {
                None => Rewrite::new(r.name, lhs, rhs).unwrap(),
                Some(v) => {
                    let var: egg::Var = v.parse().unwrap();
                    let cond = move |eg: &mut EGraph<Math, IntervalAnalysis>,
                                     _id: Id,
                                     subst: &Subst| {
                        !eg[subst[var]].data.contains_zero()
                    };
                    Rewrite::new(r.name, lhs, ConditionalApplier { condition: cond, applier: rhs })
                        .unwrap()
                },
            }
        })
        .collect()
}

fn optimize(s: &str) -> String {
    let expr: RecExpr<Math> = s.parse().unwrap();
    let runner = Runner::default()
        .with_expr(&expr)
        .with_iter_limit(10)
        .with_time_limit(Duration::from_millis(500))
        .run(&fold_rewrites());
    let extractor = Extractor::new(&runner.egraph, AstSize);
    let (_best_cost, best_expr) = extractor.find_best(runner.roots[0]);
    best_expr.to_string()
}

fn optimize_interval(s: &str, intervals: &[(&str, &str)]) -> Interval {
    let expr: RecExpr<Math> = s.parse().unwrap();
    let mut runner = Runner::default().with_expr(&expr);
    let root = runner.roots[0];
    for (e, interval) in intervals {
        let e: RecExpr<Math> = e.parse().unwrap();
        let id = runner.egraph.add_expr(&e);
        runner.egraph.set_analysis_data(id, ival(interval));
    }
    runner.egraph.rebuild();
    runner = runner.run(&interval_rewrites());
    runner.egraph[root].data.clone()
}

#[test]
fn part1_test_optimize() {
    assert_eq!(optimize("(+ 1 1)"), "2");
}

#[test]
fn solution_part1_test_optimize() {
    assert_eq!(optimize("(+ 1 1)"), "2");
}

#[test]
fn pure_numeral_expressions_fold_exactly() {
    assert_eq!(optimize("(* (+ 1/2 1/3) 6)"), "5");
    assert_eq!(optimize("(- 1 (/ 3 4))"), "1/4");
}

#[test]
fn optimize_is_idempotent_on_numerals() {
    let once = optimize("(+ 1 1)");
    assert_eq!(optimize(&once), once);
    assert_eq!(optimize("5"), "5");
    assert_eq!(optimize("-7/2"), "-7/2");
}

#[test]
fn simple_constant_fold() {
    // (* x (+ -1 2)) is provably equal to (* 1 x) and to x.
    let start: RecExpr<Math> = "(* x (+ -1 2))".parse().unwrap();
    let mid: RecExpr<Math> = "(* 1 x)".parse().unwrap();
    let goal: RecExpr<Math> = "x".parse().unwrap();
    let runner = Runner::default().with_expr(&start).run(&fold_rewrites());
    assert!(!runner.egraph.equivs(&start, &mid).is_empty());
    assert!(!runner.egraph.equivs(&start, &goal).is_empty());
}

#[test]
fn simple_division() {
    // With both unguarded division rules, (/ 0 0) is proven equal to both
    // 1 and 0: the constant-fold merge must raise the fatal contradiction.
    let expr: RecExpr<Math> = "(/ 0 0)".parse().unwrap();
    let runner = Runner::default()
        .with_expr(&expr)
        .with_iter_limit(10)
        .with_time_limit(Duration::from_millis(500))
        .run(&fold_rewrites());
    assert!(runner.egraph.analysis.contradiction);
    // A benign run never raises it.
    let expr: RecExpr<Math> = "(+ 1 1)".parse().unwrap();
    let runner = Runner::default().with_expr(&expr).run(&fold_rewrites());
    assert!(!runner.egraph.analysis.contradiction);
}

#[test]
fn guarded_division_does_not_crash() {
    // Under the interval configuration there is no equality assertion to
    // violate, so a division by zero runs to completion; the input stays
    // equal to (/ 0 0).
    let start: RecExpr<Math> = "(* 1 (/ 0 0))".parse().unwrap();
    let goal: RecExpr<Math> = "(/ 0 0)".parse().unwrap();
    let runner = Runner::default()
        .with_expr(&start)
        .run(&interval_rewrites());
    assert!(!runner.egraph.equivs(&start, &goal).is_empty());
}

#[test]
fn squares() {
    // Naive interval multiplication does not know that x * x is a square.
    assert_eq!(
        optimize_interval("(* x x)", &[("x", "-2, 2")]),
        ival("-4, 4")
    );
}

#[test]
fn test_other_paper_example() {
    let intervals = &[("x", "1, 2"), ("y", "1, 2")];
    assert_eq!(
        optimize_interval("(/ x (+ x y))", intervals),
        ival("1/4, 3/4")
    );
}

#[test]
fn test_paper_example() {
    assert_eq!(
        optimize_interval(
            "(- 1
                (/ (* 2 y)
                   (+ x y)))",
            &[("x", "0, 1"), ("y", "1, 2")]
        ),
        ival("-1, 0")
    );
}

#[test]
fn optimize_expr_from_egraphs_paper() {
    let expr: RecExpr<Math> = "
    (- 1
       (/ (* 2 y)
          (+ x y)))"
        .parse()
        .unwrap();
    let mut runner = Runner::<Math, IntervalAnalysis, ()>::default().with_expr(&expr);
    let x = runner.egraph.lookup(Math::Var("x".into())).unwrap();
    let y = runner.egraph.lookup(Math::Var("y".into())).unwrap();
    runner.egraph.set_analysis_data(x, ival("0, 1"));
    runner.egraph.set_analysis_data(y, ival("1, 2"));
    let root = runner.roots[0];

    // Analysis data is stale until a rebuild propagates it.
    assert_eq!(runner.egraph[root].data, Interval::default());
    runner.egraph.rebuild();
    assert_eq!(runner.egraph[root].data, ival("-3, 1/3"));

    // Rewriting shrinks the root interval to the intersection over all
    // provably equivalent forms.
    runner = runner.run(&interval_rewrites());
    assert_eq!(runner.egraph[root].data, ival("-1, 0"));
}
