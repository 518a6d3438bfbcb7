//! The rewrite rule sets handed to the saturation engine.
//!
//! Each rule is a named pattern pair, optionally gated by a side-condition
//! on the interval analysis: the rule fires only if the named pattern
//! variable's class provably excludes zero. The constant-folding set keeps
//! the two division rules unguarded on purpose — applied together to
//! `(/ 0 0)` they derive both `1` and `0` for one class, which the
//! constant-fold merge rejects as a fatal contradiction; the interval set
//! carries the sound, guarded variants instead.
//!
//! The contracts of [`rules_fold`] and [`rules_interval`] pin every
//! element of the returned lists — name, both patterns, and the guard —
//! so the verified interface fixes exactly which rewrites the engine is
//! handed, and that it is the two division rules that carry the guard,
//! on the matched divisor.

use vstd::prelude::*;

verus! {

/// One rewrite pair. When `nonzero_guard` names a pattern variable, the
/// rule applies to a candidate match only if the interval currently
/// assigned to that variable's class does not contain zero, judged once
/// against the analysis snapshot at search time.
pub struct Rule {
    pub name: String,
    pub lhs: String,
    pub rhs: String,
    pub nonzero_guard: Option<String>,
}

/// `r` is the unconditional rewrite `name: lhs => rhs`.
pub open spec fn rule_is(r: Rule, name: Seq<char>, lhs: Seq<char>, rhs: Seq<char>) -> bool {
    &&& r.name@ == name
    &&& r.lhs@ == lhs
    &&& r.rhs@ == rhs
    &&& r.nonzero_guard is None
}

/// `r` is the rewrite `name: lhs => rhs`, gated on the pattern variable
/// `var` being provably nonzero.
pub open spec fn rule_is_guarded(
    r: Rule,
    name: Seq<char>,
    lhs: Seq<char>,
    rhs: Seq<char>,
    var: Seq<char>,
) -> bool {
    &&& r.name@ == name
    &&& r.lhs@ == lhs
    &&& r.rhs@ == rhs
    &&& r.nonzero_guard matches Some(v) && v@ == var
}

fn rule(name: &str, lhs: &str, rhs: &str) -> (r: Rule)
    ensures
        rule_is(r, name@, lhs@, rhs@),
{
    Rule {
        name: name.to_owned(),
        lhs: lhs.to_owned(),
        rhs: rhs.to_owned(),
        nonzero_guard: None,
    }
}

fn rule_if_nonzero(name: &str, lhs: &str, rhs: &str, var: &str) -> (r: Rule)
    ensures
        rule_is_guarded(r, name@, lhs@, rhs@, var@),
{
    Rule {
        name: name.to_owned(),
        lhs: lhs.to_owned(),
        rhs: rhs.to_owned(),
        nonzero_guard: Some(var.to_owned()),
    }
}

/// The rule set for the constant-folding configuration. Every rule is
/// unconditional; the final two are the deliberately unsound pair.
pub fn rules_fold() -> (r: Vec<Rule>)
    ensures
        r@.len() == 15,
        rule_is(r@[0], "comm-add"@, "(+ ?a ?b)"@, "(+ ?b ?a)"@),
        rule_is(r@[1], "comm-mul"@, "(* ?a ?b)"@, "(* ?b ?a)"@),
        rule_is(r@[2], "assoc-add"@, "(+ ?a (+ ?b ?c))"@, "(+ (+ ?a ?b) ?c)"@),
        rule_is(r@[3], "assoc-mul"@, "(* ?a (* ?b ?c))"@, "(* (* ?a ?b) ?c)"@),
        rule_is(r@[4], "canon-sub"@, "(- ?a ?b)"@, "(+ ?a (* -1 ?b))"@),
        rule_is(r@[5], "cancel-sub"@, "(- ?a ?a)"@, "0"@),
        rule_is(r@[6], "zero-add"@, "(+ ?a 0)"@, "?a"@),
        rule_is(r@[7], "zero-mul"@, "(* ?a 0)"@, "0"@),
        rule_is(r@[8], "one-mul"@, "(* ?a 1)"@, "?a"@),
        rule_is(r@[9], "add-zero"@, "?a"@, "(+ ?a 0)"@),
        rule_is(r@[10], "mul-one"@, "?a"@, "(* ?a 1)"@),
        rule_is(r@[11], "distribute"@, "(* ?a (+ ?b ?c))"@, "(+ (* ?a ?b) (* ?a ?c))"@),
        rule_is(r@[12], "factor"@, "(+ (* ?a ?b) (* ?a ?c))"@, "(* ?a (+ ?b ?c))"@),
        rule_is(r@[13], "cancel-div"@, "(/ ?a ?a)"@, "1"@),
        rule_is(r@[14], "zero-div"@, "(/ 0 ?a)"@, "0"@),
{
    let mut v: Vec<Rule> = Vec::new();
    v.push(rule("comm-add", "(+ ?a ?b)", "(+ ?b ?a)"));
    v.push(rule("comm-mul", "(* ?a ?b)", "(* ?b ?a)"));
    v.push(rule("assoc-add", "(+ ?a (+ ?b ?c))", "(+ (+ ?a ?b) ?c)"));
    v.push(rule("assoc-mul", "(* ?a (* ?b ?c))", "(* (* ?a ?b) ?c)"));
    v.push(rule("canon-sub", "(- ?a ?b)", "(+ ?a (* -1 ?b))"));
    v.push(rule("cancel-sub", "(- ?a ?a)", "0"));
    v.push(rule("zero-add", "(+ ?a 0)", "?a"));
    v.push(rule("zero-mul", "(* ?a 0)", "0"));
    v.push(rule("one-mul", "(* ?a 1)", "?a"));
    v.push(rule("add-zero", "?a", "(+ ?a 0)"));
    v.push(rule("mul-one", "?a", "(* ?a 1)"));
    v.push(rule("distribute", "(* ?a (+ ?b ?c))", "(+ (* ?a ?b) (* ?a ?c))"));
    v.push(rule("factor", "(+ (* ?a ?b) (* ?a ?c))", "(* ?a (+ ?b ?c))"));
    // This pair is unsound together: from (/ 0 0) the first derives 1 and
    // the second derives 0.
    v.push(rule("cancel-div", "(/ ?a ?a)", "1"));
    v.push(rule("zero-div", "(/ 0 ?a)", "0"));
    v
}

/// The rule set for the interval configuration. The division rules are
/// gated on the divisor's interval excluding zero, which restores
/// soundness.
pub fn rules_interval() -> (r: Vec<Rule>)
    ensures
        r@.len() == 21,
        rule_is(r@[0], "comm-add"@, "(+ ?a ?b)"@, "(+ ?b ?a)"@),
        rule_is(r@[1], "comm-mul"@, "(* ?a ?b)"@, "(* ?b ?a)"@),
        rule_is(r@[2], "assoc-add"@, "(+ ?a (+ ?b ?c))"@, "(+ (+ ?a ?b) ?c)"@),
        rule_is(r@[3], "assoc-mul"@, "(* ?a (* ?b ?c))"@, "(* (* ?a ?b) ?c)"@),
        rule_is(r@[4], "sub-canon"@, "(- ?a ?b)"@, "(+ ?a (* -1 ?b))"@),
        rule_is(r@[5], "canon-sub"@, "(+ ?a (* -1 ?b))"@, "(- ?a ?b)"@),
        rule_is(r@[6], "cancel-sub"@, "(- ?a ?a)"@, "0"@),
        rule_is(r@[7], "add2-mul"@, "(+ ?a ?a)"@, "(* 2 ?a)"@),
        rule_is(r@[8], "mul-add2"@, "(* 2 ?a)"@, "(+ ?a ?a)"@),
        rule_is(r@[9], "zero-add"@, "(+ ?a 0)"@, "?a"@),
        rule_is(r@[10], "zero-mul"@, "(* ?a 0)"@, "0"@),
        rule_is(r@[11], "one-mul"@, "(* ?a 1)"@, "?a"@),
        rule_is(r@[12], "distribute"@, "(* ?a (+ ?b ?c))"@, "(+ (* ?a ?b) (* ?a ?c))"@),
        rule_is(r@[13], "factor"@, "(+ (* ?a ?b) (* ?a ?c))"@, "(* ?a (+ ?b ?c))"@),
        rule_is(r@[14], "add-to-frac"@, "(+ ?a (/ ?b ?c))"@, "(/ (+ (* ?a ?c) ?b) ?c)"@),
        rule_is(r@[15], "frac-to-add"@, "(/ (+ (* ?a ?c) ?b) ?c)"@, "(+ ?a (/ ?b ?c))"@),
        rule_is(r@[16], "mul-div"@, "(* ?a (/ ?b ?c))"@, "(/ (* ?a ?b) ?c)"@),
        rule_is(r@[17], "div-mul"@, "(/ (* ?a ?b) ?c)"@, "(* ?a (/ ?b ?c))"@),
        rule_is(r@[18], "frac-lift"@, "(/ ?a ?b)"@, "(/ (- ?b (- ?b ?a)) ?b)"@),
        rule_is_guarded(r@[19], "cancel-div"@, "(/ ?a ?a)"@, "1"@, "?a"@),
        rule_is_guarded(r@[20], "zero-div"@, "(/ 0 ?a)"@, "0"@, "?a"@),
{
    let mut v: Vec<Rule> = Vec::new();
    v.push(rule("comm-add", "(+ ?a ?b)", "(+ ?b ?a)"));
    v.push(rule("comm-mul", "(* ?a ?b)", "(* ?b ?a)"));
    v.push(rule("assoc-add", "(+ ?a (+ ?b ?c))", "(+ (+ ?a ?b) ?c)"));
    v.push(rule("assoc-mul", "(* ?a (* ?b ?c))", "(* (* ?a ?b) ?c)"));
    v.push(rule("sub-canon", "(- ?a ?b)", "(+ ?a (* -1 ?b))"));
    v.push(rule("canon-sub", "(+ ?a (* -1 ?b))", "(- ?a ?b)"));
    v.push(rule("cancel-sub", "(- ?a ?a)", "0"));
    v.push(rule("add2-mul", "(+ ?a ?a)", "(* 2 ?a)"));
    v.push(rule("mul-add2", "(* 2 ?a)", "(+ ?a ?a)"));
    v.push(rule("zero-add", "(+ ?a 0)", "?a"));
    v.push(rule("zero-mul", "(* ?a 0)", "0"));
    v.push(rule("one-mul", "(* ?a 1)", "?a"));
    v.push(rule("distribute", "(* ?a (+ ?b ?c))", "(+ (* ?a ?b) (* ?a ?c))"));
    v.push(rule("factor", "(+ (* ?a ?b) (* ?a ?c))", "(* ?a (+ ?b ?c))"));
    v.push(rule("add-to-frac", "(+ ?a (/ ?b ?c))", "(/ (+ (* ?a ?c) ?b) ?c)"));
    v.push(rule("frac-to-add", "(/ (+ (* ?a ?c) ?b) ?c)", "(+ ?a (/ ?b ?c))"));
    v.push(rule("mul-div", "(* ?a (/ ?b ?c))", "(/ (* ?a ?b) ?c)"));
    v.push(rule("div-mul", "(/ (* ?a ?b) ?c)", "(* ?a (/ ?b ?c))"));
    v.push(rule("frac-lift", "(/ ?a ?b)", "(/ (- ?b (- ?b ?a)) ?b)"));
    v.push(rule_if_nonzero("cancel-div", "(/ ?a ?a)", "1", "?a"));
    v.push(rule_if_nonzero("zero-div", "(/ 0 ?a)", "0", "?a"));
    v
}

} // verus!
