//! The two e-class analyses: exact constant folding and interval bounds.
//!
//! Each analysis is an explicit interface of three pure decisions the
//! saturation engine calls at fixed points: construct a datum for a newly
//! observed node (from the children's data), merge the data of two classes
//! that were proven equal, and propose a canonical numeral to insert after
//! a merge. The engine owns the graph; these functions own the meaning.

use vstd::prelude::*;

use crate::interval::Interval;
use crate::interval::IvView;
use crate::interval::iv_add;
use crate::interval::iv_contains;
use crate::interval::iv_div;
use crate::interval::iv_mul;
use crate::interval::iv_singleton;
use crate::interval::iv_sub;
use crate::interval::iv_top;
use crate::interval::norm;
use crate::rational::Rat;
use crate::rational::Rational;
use crate::rational::rat_add;
use crate::rational::rat_div;
use crate::rational::rat_eq;
use crate::rational::rat_lt;
use crate::rational::rat_mul;
use crate::rational::rat_sub;
use crate::rational::rat_wf;
use crate::rational::rat_zero;
use crate::term::TNode;
use crate::term::TermNode;

verus! {

/// What a merge did to each side: whether the merged datum differs from
/// the left input and from the right input. The engine uses the flags to
/// decide where further propagation is needed.
#[derive(Debug, Clone, Copy, PartialEq, Eq, Structural)]
pub struct MergeEffect {
    pub changed_left: bool,
    pub changed_right: bool,
}

/// Ghost view of a constant-fold datum.
pub open spec fn datum_view(d: Option<Rational>) -> Option<Rat> {
    match d {
        Some(q) => Some(q@),
        None => None,
    }
}

pub open spec fn datum_wf(d: Option<Rat>) -> bool {
    d matches Some(q) ==> rat_wf(q)
}

/// The constant-fold construction rule: a numeral is itself; a sum,
/// difference or product folds when both children are known; a quotient
/// folds only when the divisor is known and nonzero. Variables — and any
/// value out of representable range — stay unknown.
pub open spec fn fold_make_spec(node: TNode, a: Option<Rat>, b: Option<Rat>) -> Option<Rat> {
    match node {
        TNode::Num(q) => Some(q),
        TNode::Add(_, _) => match (a, b) {
            (Some(x), Some(y)) => norm(rat_add(x, y)),
            _ => None,
        },
        TNode::Sub(_, _) => match (a, b) {
            (Some(x), Some(y)) => norm(rat_sub(x, y)),
            _ => None,
        },
        TNode::Mul(_, _) => match (a, b) {
            (Some(x), Some(y)) => norm(rat_mul(x, y)),
            _ => None,
        },
        TNode::Div(_, _) => match (a, b) {
            (Some(x), Some(y)) => if !rat_eq(y, rat_zero()) {
                norm(rat_div(x, y))
            } else {
                None
            },
            _ => None,
        },
        TNode::Var(_) => None,
    }
}

/// Constructs the constant-fold datum for a node from its children's
/// data (`a` for the left child, `b` for the right; ignored for leaves).
pub fn fold_make(node: &TermNode, a: Option<Rational>, b: Option<Rational>) -> (r: Option<
    Rational,
>)
    requires
        datum_wf(datum_view(a)),
        datum_wf(datum_view(b)),
        node@ matches TNode::Num(q) ==> rat_wf(q),
    ensures
        datum_view(r) == fold_make_spec(node@, datum_view(a), datum_view(b)),
        datum_wf(datum_view(r)),
{
    match node {
        TermNode::Num(q) => Some(*q),
        TermNode::Add(_, _) => match (a, b) {
            (Some(x), Some(y)) => x.add(&y),
            _ => None,
        },
        TermNode::Sub(_, _) => match (a, b) {
            (Some(x), Some(y)) => x.sub(&y),
            _ => None,
        },
        TermNode::Mul(_, _) => match (a, b) {
            (Some(x), Some(y)) => x.mul(&y),
            _ => None,
        },
        TermNode::Div(_, _) => match (a, b) {
            (Some(x), Some(y)) => {
                if !y.is_zero() {
                    x.div(&y)
                } else {
                    None
                }
            },
            _ => None,
        },
        TermNode::Var(_) => None,
    }
}

/// A fatal analysis contradiction: two distinct values proven equal. It
/// signals that the active rule set is unsound for the encountered input;
/// the caller is expected to surface it to the submission boundary, never
/// to patch it up.
#[derive(Debug, Clone, Copy, PartialEq, Eq)]
pub struct FoldContradiction {
    pub left: Rational,
    pub right: Rational,
}

/// Merges two constant-fold data. Two present values must agree; then, or
/// when at most one is present, the merged datum is the more defined one,
/// and the flags report which sides differ from it.
pub fn fold_merge(to: &mut Option<Rational>, from: Option<Rational>) -> (r: Result<
    MergeEffect,
    FoldContradiction,
>)
    requires
        datum_wf(datum_view(*old(to))),
        datum_wf(datum_view(from)),
    ensures
        datum_wf(datum_view(*final(to))),
        r is Err <==> (*old(to) matches Some(x) && from matches Some(y) && !rat_eq(x@, y@)),
        match r {
            Ok(e) => match (*old(to), from) {
                (None, None) => *final(to) is None && e == (MergeEffect {
                    changed_left: false,
                    changed_right: false,
                }),
                (None, Some(y)) => *final(to) == Some(y) && e == (MergeEffect {
                    changed_left: true,
                    changed_right: false,
                }),
                (Some(_), None) => *final(to) == *old(to) && e == (MergeEffect {
                    changed_left: false,
                    changed_right: true,
                }),
                (Some(x), Some(y)) => rat_eq(x@, y@) && *final(to) == *old(to) && e
                    == (MergeEffect { changed_left: false, changed_right: false }),
            },
            Err(c) => {
                &&& *final(to) == *old(to)
                &&& *old(to) == Some(c.left)
                &&& from == Some(c.right)
            },
        },
{
    match (&*to, &from) {
        (None, None) => Ok(MergeEffect { changed_left: false, changed_right: false }),
        (None, Some(y)) => {
            *to = Some(*y);
            Ok(MergeEffect { changed_left: true, changed_right: false })
        },
        (Some(_), None) => Ok(MergeEffect { changed_left: false, changed_right: true }),
        (Some(x), Some(y)) => {
            if x.eq_value(y) {
                Ok(MergeEffect { changed_left: false, changed_right: false })
            } else {
                Err(FoldContradiction { left: *x, right: *y })
            }
        },
    }
}

/// The post-merge canonicalization hook: a class with a proven constant
/// gets a canonical numeral node, so the literal becomes reachable by
/// pattern search and extraction.
pub fn fold_modify(d: &Option<Rational>) -> (r: Option<TermNode>)
    ensures
        match d {
            Some(q) => r == Some(TermNode::Num(*q)),
            None => r is None,
        },
{
    match d {
        Some(q) => Some(TermNode::Num(*q)),
        None => None,
    }
}

/// The interval construction rule: a numeral gets its point interval, an
/// operator applies the corresponding interval operator to the children's
/// intervals, and anything else is fully unbounded.
pub open spec fn ival_make_spec(node: TNode, a: IvView, b: IvView) -> IvView {
    match node {
        TNode::Num(q) => iv_singleton(q),
        TNode::Add(_, _) => iv_add(a, b),
        TNode::Sub(_, _) => iv_sub(a, b),
        TNode::Mul(_, _) => iv_mul(a, b),
        TNode::Div(_, _) => iv_div(a, b),
        TNode::Var(_) => iv_top(),
    }
}

/// Constructs the interval datum for a node from its children's
/// intervals (ignored for leaves).
pub fn ival_make(node: &TermNode, a: &Interval, b: &Interval) -> (r: Interval)
    requires
        a.wf(),
        b.wf(),
        node@ matches TNode::Num(q) ==> rat_wf(q),
    ensures
        r@ == ival_make_spec(node@, a@, b@),
        r.wf(),
{
    match node {
        TermNode::Num(q) => Interval::singleton(*q),
        TermNode::Add(_, _) => a.add(b),
        TermNode::Sub(_, _) => a.sub(b),
        TermNode::Mul(_, _) => a.mul(b),
        TermNode::Div(_, _) => a.div(b),
        TermNode::Var(_) => Interval::default(),
    }
}

/// The merged (set-intersection) interval: per endpoint, the tighter of
/// the two bounds, where an absent bound is no constraint.
pub open spec fn iv_merge_spec(a: IvView, b: IvView) -> IvView {
    IvView {
        lo: match (a.lo, b.lo) {
            (None, l) => l,
            (l, None) => l,
            (Some(x), Some(y)) => if rat_lt(x, y) {
                Some(y)
            } else {
                Some(x)
            },
        },
        hi: match (a.hi, b.hi) {
            (None, h) => h,
            (h, None) => h,
            (Some(x), Some(y)) => if rat_lt(y, x) {
                Some(y)
            } else {
                Some(x)
            },
        },
    }
}

/// Merges two interval data by endpoint-wise intersection, reporting per
/// endpoint whether the merged bound differs from each side.
pub fn ival_merge(to: &mut Interval, from: Interval) -> (r: MergeEffect)
    requires
        old(to).wf(),
        from.wf(),
    ensures
        final(to).wf(),
        final(to)@ == iv_merge_spec(old(to)@, from@),
        r.changed_left == (final(to)@ != old(to)@),
        r.changed_right == (final(to)@ != from@),
{
    let (new_lo, lo_left, lo_right): (Option<Rational>, bool, bool) = match (&to.lo, &from.lo) {
        (None, None) => (None, false, false),
        (None, Some(y)) => (Some(*y), true, false),
        (Some(x), None) => (Some(*x), false, true),
        (Some(x), Some(y)) => {
            if x.lt(y) {
                (Some(*y), true, false)
            } else if x.eq_value(y) {
                // Value-equal bounds: kept as they are; only a (purely
                // representational) difference counts as a change on the
                // incoming side.
                (Some(*x), false, x.num() != y.num() || x.den() != y.den())
            } else {
                (Some(*x), false, true)
            }
        },
    };
    let (new_hi, hi_left, hi_right): (Option<Rational>, bool, bool) = match (&to.hi, &from.hi) {
        (None, None) => (None, false, false),
        (None, Some(y)) => (Some(*y), true, false),
        (Some(x), None) => (Some(*x), false, true),
        (Some(x), Some(y)) => {
            if y.lt(x) {
                (Some(*y), true, false)
            } else if x.eq_value(y) {
                (Some(*x), false, x.num() != y.num() || x.den() != y.den())
            } else {
                (Some(*x), false, true)
            }
        },
    };
    to.lo = new_lo;
    to.hi = new_hi;
    MergeEffect { changed_left: lo_left || hi_left, changed_right: lo_right || hi_right }
}

/// The post-merge canonicalization hook for intervals: a class whose
/// interval has collapsed to a point gets that value's numeral node.
pub fn ival_modify(d: &Interval) -> (r: Option<TermNode>)
    requires
        d.wf(),
    ensures
        match r {
            Some(n) => {
                &&& d@.lo matches Some(l) && d@.hi matches Some(h) && rat_eq(l, h)
                &&& n matches TermNode::Num(q) && d@.lo == Some(q@)
            },
            None => !(d@.lo matches Some(l) && d@.hi matches Some(h) && rat_eq(l, h)),
        },
{
    match d.get_constant() {
        Some(q) => Some(TermNode::Num(q)),
        None => None,
    }
}


/// The interval merge computes exactly the set intersection: a value lies
/// in the merged interval precisely when it lies in both inputs. In
/// particular a merge never widens either side.
pub proof fn lemma_iv_merge_is_intersection(a: IvView, b: IvView, q: Rat)
    requires
        crate::interval::iv_pd(a),
        crate::interval::iv_pd(b),
        q.d > 0,
    ensures
        iv_contains(iv_merge_spec(a, b), q) <==> (iv_contains(a, q) && iv_contains(b, q)),
{
    let m = iv_merge_spec(a, b);
    match (a.lo, b.lo) {
        (Some(x), Some(y)) => {
            if rat_lt(x, y) {
                if crate::rational::rat_le(y, q) {
                    crate::rational::lemma_rat_le_trans(x, y, q);
                }
            } else {
                if crate::rational::rat_le(x, q) {
                    crate::rational::lemma_rat_le_trans(y, x, q);
                }
            }
        },
        _ => {},
    }
    match (a.hi, b.hi) {
        (Some(x), Some(y)) => {
            if rat_lt(y, x) {
                if crate::rational::rat_le(q, y) {
                    crate::rational::lemma_rat_le_trans(q, y, x);
                }
            } else {
                if crate::rational::rat_le(q, x) {
                    crate::rational::lemma_rat_le_trans(q, x, y);
                }
            }
        },
        _ => {},
    }
}


/// Construction soundness: when each child's interval contains that
/// child's exact value, the constructed interval contains the node's
/// exact value — a point interval for a numeral, the operator's result
/// for an operator (any nonzero divisor value for a quotient), and the
/// unbounded interval, which contains everything, for a variable.
pub proof fn lemma_ival_make_sound(node: TNode, a: IvView, b: IvView, x: Rat, y: Rat)
    requires
        crate::interval::iv_pd(a),
        crate::interval::iv_pd(b),
        x.d > 0,
        y.d > 0,
        iv_contains(a, x),
        iv_contains(b, y),
    ensures
        node matches TNode::Num(q) ==> iv_contains(ival_make_spec(node, a, b), q),
        node is Add ==> iv_contains(ival_make_spec(node, a, b), rat_add(x, y)),
        node is Sub ==> iv_contains(ival_make_spec(node, a, b), rat_sub(x, y)),
        node is Mul ==> iv_contains(ival_make_spec(node, a, b), rat_mul(x, y)),
        node is Div && y.n != 0 ==> iv_contains(ival_make_spec(node, a, b), rat_div(x, y)),
        node matches TNode::Var(v) ==> forall|q: Rat|
            iv_contains(#[trigger] ival_make_spec(node, a, b), q),
{
    match node {
        TNode::Num(_) => {},
        TNode::Add(_, _) => {
            crate::interval::lemma_iv_add_sound(a, b, x, y);
        },
        TNode::Sub(_, _) => {
            crate::interval::lemma_iv_sub_sound(a, b, x, y);
        },
        TNode::Mul(_, _) => {
            crate::interval::lemma_iv_mul_sound(a, b, x, y);
        },
        TNode::Div(_, _) => {
            if y.n != 0 {
                crate::interval::lemma_iv_div_sound(a, b, x, y);
            }
        },
        TNode::Var(_) => {},
    }
}

} // verus!
