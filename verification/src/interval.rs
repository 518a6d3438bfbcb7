//! Extended-rational intervals: a pair of optional endpoints, where an
//! absent endpoint means unbounded in that direction. The operators follow
//! deliberately conservative conventions: any unbounded or unrepresentable
//! ingredient widens the affected bound (or, for multiplication and the
//! reciprocal of a zero-crossing interval, the whole result) rather than
//! ever producing an unsound bound.

use vstd::prelude::*;

use crate::rational::Rat;
use crate::rational::Rational;
use crate::rational::canon;
use crate::rational::rat_add;
use crate::rational::rat_eq;
use crate::rational::rat_le;
use crate::rational::rat_mul;
use crate::rational::rat_div;
use crate::rational::rat_neg;
use crate::rational::rat_recip;
use crate::rational::rat_sub;
use crate::rational::rat_wf;
use crate::rational::rat_zero;
use crate::rational::rational_text;
use crate::rational::representable;
use crate::rational::numeral_den_val;
use crate::rational::numeral_rat;
use crate::rational::numeral_syntax;
use crate::rational::numeral_within;
use crate::rational::NumeralScan;
use crate::term::is_space;
use crate::term::skip_ws;

verus! {

/// Mathematical (ghost) view of an interval: optional exact rational
/// endpoints.
pub ghost struct IvView {
    pub lo: Option<Rat>,
    pub hi: Option<Rat>,
}

/// Both present endpoints are well-formed rationals.
pub open spec fn iv_wf(v: IvView) -> bool {
    &&& (v.lo matches Some(l) ==> rat_wf(l))
    &&& (v.hi matches Some(h) ==> rat_wf(h))
}

/// Membership: `q` is above the lower bound (if any) and below the upper
/// bound (if any).
pub open spec fn iv_contains(v: IvView, q: Rat) -> bool {
    &&& (v.lo matches Some(l) ==> rat_le(l, q))
    &&& (v.hi matches Some(h) ==> rat_le(q, h))
}

/// The fully unbounded interval, the lattice top.
pub open spec fn iv_top() -> IvView {
    IvView { lo: None, hi: None }
}

pub open spec fn iv_singleton(q: Rat) -> IvView {
    IvView { lo: Some(q), hi: Some(q) }
}

pub open spec fn iv_contains_zero(v: IvView) -> bool {
    iv_contains(v, rat_zero())
}

/// The canonical representation of `v` when it fits the executable bounds.
pub open spec fn norm(v: Rat) -> Option<Rat> {
    if representable(v) {
        Some(canon(v.n, v.d))
    } else {
        None
    }
}

pub open spec fn rat_min(a: Rat, b: Rat) -> Rat {
    if rat_le(a, b) {
        a
    } else {
        b
    }
}

pub open spec fn rat_max(a: Rat, b: Rat) -> Rat {
    if rat_le(a, b) {
        b
    } else {
        a
    }
}

/// The pointwise-sum interval: each bound is the sum of the corresponding
/// bounds when both are present and the sum is representable, else
/// unbounded.
pub open spec fn iv_add(a: IvView, b: IvView) -> IvView {
    IvView {
        lo: match (a.lo, b.lo) {
            (Some(x), Some(y)) => norm(rat_add(x, y)),
            _ => None,
        },
        hi: match (a.hi, b.hi) {
            (Some(x), Some(y)) => norm(rat_add(x, y)),
            _ => None,
        },
    }
}

/// Subtraction uses the cross bounds: low minus high, high minus low.
pub open spec fn iv_sub(a: IvView, b: IvView) -> IvView {
    IvView {
        lo: match (a.lo, b.hi) {
            (Some(x), Some(y)) => norm(rat_sub(x, y)),
            _ => None,
        },
        hi: match (a.hi, b.lo) {
            (Some(x), Some(y)) => norm(rat_sub(x, y)),
            _ => None,
        },
    }
}

/// Multiplication: when all four endpoints are present and all four
/// products are representable, the bounds are the least and greatest of
/// those products; otherwise the result is fully unbounded.
pub open spec fn iv_mul(a: IvView, b: IvView) -> IvView {
    match (a.lo, a.hi, b.lo, b.hi) {
        (Some(al), Some(ah), Some(bl), Some(bh)) => {
            let p1 = rat_mul(al, bl);
            let p2 = rat_mul(al, bh);
            let p3 = rat_mul(ah, bl);
            let p4 = rat_mul(ah, bh);
            if representable(p1) && representable(p2) && representable(p3) && representable(p4) {
                let mn = rat_min(rat_min(rat_min(p1, p2), p3), p4);
                let mx = rat_max(rat_max(rat_max(p1, p2), p3), p4);
                IvView { lo: Some(canon(mn.n, mn.d)), hi: Some(canon(mx.n, mx.d)) }
            } else {
                iv_top()
            }
        },
        _ => iv_top(),
    }
}

/// Reciprocal of one endpoint: a zero endpoint or an unrepresentable
/// reciprocal becomes unbounded; an unbounded endpoint becomes zero.
pub open spec fn safe_recip(e: Option<Rat>) -> Option<Rat> {
    match e {
        Some(x) => if x.n == 0 {
            None
        } else {
            norm(rat_recip(x))
        },
        None => Some(rat_zero()),
    }
}

/// Reciprocal: fully unbounded for a zero-containing interval, otherwise
/// the reciprocals of the endpoints, swapped.
pub open spec fn iv_recip(v: IvView) -> IvView {
    if iv_contains_zero(v) {
        iv_top()
    } else {
        IvView { lo: safe_recip(v.hi), hi: safe_recip(v.lo) }
    }
}

/// Division is multiplication by the reciprocal.
pub open spec fn iv_div(a: IvView, b: IvView) -> IvView {
    iv_mul(a, iv_recip(b))
}

/// The bound-combining intersection: a combined bound is present only when
/// both operands have that bound. (When exactly one side is bounded this
/// drops the finite bound — not set intersection; kept deliberately and
/// pinned by a test.)
pub open spec fn iv_intersect(a: IvView, b: IvView) -> IvView {
    IvView {
        lo: match (a.lo, b.lo) {
            (Some(x), Some(y)) => Some(rat_max(x, y)),
            _ => None,
        },
        hi: match (a.hi, b.hi) {
            (Some(x), Some(y)) => Some(rat_min(x, y)),
            _ => None,
        },
    }
}

/// An interval over exact rationals, each side optionally unbounded.
/// The `lo <= hi` relation is not enforced as an invariant: intersecting
/// disjoint intervals legitimately yields an empty (crossed) interval.
#[derive(Debug, Clone, Copy, PartialEq, Eq, Hash)]
pub struct Interval {
    pub lo: Option<Rational>,
    pub hi: Option<Rational>,
}

impl View for Interval {
    type V = IvView;

    open spec fn view(&self) -> IvView {
        IvView {
            lo: match self.lo {
                Some(r) => Some(r@),
                None => None,
            },
            hi: match self.hi {
                Some(r) => Some(r@),
                None => None,
            },
        }
    }
}

impl Default for Interval {
    /// The fully unbounded interval.
    fn default() -> (r: Interval)
        ensures
            r@ == iv_top(),
            r.wf(),
    {
        Interval { lo: None, hi: None }
    }
}

impl Interval {
    /// Both present endpoints are well formed.
    pub open spec fn wf(self) -> bool {
        iv_wf(self@)
    }

    /// The point interval `[v, v]`.
    pub fn singleton(v: Rational) -> (r: Interval)
        requires
            v.wf(),
        ensures
            r@ == iv_singleton(v@),
            r.wf(),
    {
        Interval { lo: Some(v), hi: Some(v) }
    }

    /// The exact value of a point interval, if the two bounds are present
    /// and equal.
    pub fn get_constant(&self) -> (r: Option<Rational>)
        requires
            self.wf(),
        ensures
            r is Some <==> (self@.lo matches Some(l) && self@.hi matches Some(h) && rat_eq(l, h)),
            r matches Some(q) ==> self@.lo == Some(q@) && q.wf(),
    {
        match (&self.lo, &self.hi) {
            (Some(l), Some(h)) => {
                if l.eq_value(h) {
                    Some(*l)
                } else {
                    None
                }
            },
            _ => None,
        }
    }

    /// Whether `n` lies within the bounds.
    pub fn contains(&self, n: &Rational) -> (r: bool)
        requires
            self.wf(),
            n.wf(),
        ensures
            r == iv_contains(self@, n@),
    {
        let lo_ok = match &self.lo {
            Some(l) => l.le(n),
            None => true,
        };
        let hi_ok = match &self.hi {
            Some(h) => n.le(h),
            None => true,
        };
        lo_ok && hi_ok
    }

    /// Whether the bounds bracket zero (inclusive).
    pub fn contains_zero(&self) -> (r: bool)
        requires
            self.wf(),
        ensures
            r == iv_contains_zero(self@),
    {
        let z = Rational::zero();
        self.contains(&z)
    }

    /// Bound-combining intersection; see [`iv_intersect`] for the
    /// deliberate asymmetry on half-bounded operands.
    pub fn intersect(&self, other: &Interval) -> (r: Interval)
        requires
            self.wf(),
            other.wf(),
        ensures
            r@ == iv_intersect(self@, other@),
            r.wf(),
    {
        let lo = match (&self.lo, &other.lo) {
            (Some(x), Some(y)) => Some(if x.le(y) {
                *y
            } else {
                *x
            }),
            _ => None,
        };
        let hi = match (&self.hi, &other.hi) {
            (Some(x), Some(y)) => Some(if x.le(y) {
                *x
            } else {
                *y
            }),
            _ => None,
        };
        Interval { lo, hi }
    }

    /// Pointwise sum of bounds; an unbounded or unrepresentable side stays
    /// unbounded.
    pub fn add(&self, other: &Interval) -> (r: Interval)
        requires
            self.wf(),
            other.wf(),
        ensures
            r@ == iv_add(self@, other@),
            r.wf(),
    {
        let lo = match (&self.lo, &other.lo) {
            (Some(x), Some(y)) => x.add(y),
            _ => None,
        };
        let hi = match (&self.hi, &other.hi) {
            (Some(x), Some(y)) => x.add(y),
            _ => None,
        };
        Interval { lo, hi }
    }

    /// Cross-bound difference: low minus high, high minus low.
    pub fn sub(&self, other: &Interval) -> (r: Interval)
        requires
            self.wf(),
            other.wf(),
        ensures
            r@ == iv_sub(self@, other@),
            r.wf(),
    {
        let lo = match (&self.lo, &other.hi) {
            (Some(x), Some(y)) => x.sub(y),
            _ => None,
        };
        let hi = match (&self.hi, &other.lo) {
            (Some(x), Some(y)) => x.sub(y),
            _ => None,
        };
        Interval { lo, hi }
    }
}


impl Interval {
    /// Conservative product: see [`iv_mul`].
    pub fn mul(&self, other: &Interval) -> (r: Interval)
        requires
            self.wf(),
            other.wf(),
        ensures
            r@ == iv_mul(self@, other@),
            r.wf(),
    {
        match (&self.lo, &self.hi, &other.lo, &other.hi) {
            (Some(al), Some(ah), Some(bl), Some(bh)) => {
                let ghost p1 = rat_mul(al@, bl@);
                let ghost p2 = rat_mul(al@, bh@);
                let ghost p3 = rat_mul(ah@, bl@);
                let ghost p4 = rat_mul(ah@, bh@);
                proof {
                    assert(p1.d > 0 && p2.d > 0 && p3.d > 0 && p4.d > 0) by (nonlinear_arith)
                        requires
                            al@.d >= 1,
                            ah@.d >= 1,
                            bl@.d >= 1,
                            bh@.d >= 1,
                            p1.d == al@.d * bl@.d,
                            p2.d == al@.d * bh@.d,
                            p3.d == ah@.d * bl@.d,
                            p4.d == ah@.d * bh@.d,
                    ;
                }
                match (al.mul(bl), al.mul(bh), ah.mul(bl), ah.mul(bh)) {
                    (Some(c1), Some(c2), Some(c3), Some(c4)) => {
                        let ghost m2 = rat_min(p1, p2);
                        let ghost m3 = rat_min(m2, p3);
                        let ghost m4 = rat_min(m3, p4);
                        let ghost x2 = rat_max(p1, p2);
                        let ghost x3 = rat_max(x2, p3);
                        let ghost x4 = rat_max(x3, p4);
                        proof {
                            crate::rational::lemma_rat_le_congr_left(p1, c1@, p2);
                            crate::rational::lemma_rat_le_congr_right(c1@, p2, c2@);
                        }
                        let mn2 = if c1.le(&c2) {
                            c1
                        } else {
                            c2
                        };
                        let mx2 = if c1.le(&c2) {
                            c2
                        } else {
                            c1
                        };
                        proof {
                            assert(rat_eq(mn2@, m2) && mn2@ == canon(m2.n, m2.d));
                            assert(rat_eq(mx2@, x2) && mx2@ == canon(x2.n, x2.d));
                            crate::rational::lemma_rat_le_congr_left(m2, mn2@, p3);
                            crate::rational::lemma_rat_le_congr_right(mn2@, p3, c3@);
                            crate::rational::lemma_rat_le_congr_left(x2, mx2@, p3);
                            crate::rational::lemma_rat_le_congr_right(mx2@, p3, c3@);
                        }
                        let mn3 = if mn2.le(&c3) {
                            mn2
                        } else {
                            c3
                        };
                        let mx3 = if mx2.le(&c3) {
                            c3
                        } else {
                            mx2
                        };
                        proof {
                            assert(rat_eq(mn3@, m3) && mn3@ == canon(m3.n, m3.d));
                            assert(rat_eq(mx3@, x3) && mx3@ == canon(x3.n, x3.d));
                            crate::rational::lemma_rat_le_congr_left(m3, mn3@, p4);
                            crate::rational::lemma_rat_le_congr_right(mn3@, p4, c4@);
                            crate::rational::lemma_rat_le_congr_left(x3, mx3@, p4);
                            crate::rational::lemma_rat_le_congr_right(mx3@, p4, c4@);
                        }
                        let mn4 = if mn3.le(&c4) {
                            mn3
                        } else {
                            c4
                        };
                        let mx4 = if mx3.le(&c4) {
                            c4
                        } else {
                            mx3
                        };
                        proof {
                            assert(rat_eq(mn4@, m4) && mn4@ == canon(m4.n, m4.d));
                            assert(rat_eq(mx4@, x4) && mx4@ == canon(x4.n, x4.d));
                        }
                        Interval { lo: Some(mn4), hi: Some(mx4) }
                    },
                    _ => Interval::default(),
                }
            },
            _ => Interval::default(),
        }
    }

    /// Conservative reciprocal: see [`iv_recip`].
    pub fn recip(&self) -> (r: Interval)
        requires
            self.wf(),
        ensures
            r@ == iv_recip(self@),
            r.wf(),
    {
        if self.contains_zero() {
            return Interval::default();
        }
        let lo = match &self.hi {
            Some(x) => {
                if x.num() == 0 {
                    None
                } else {
                    x.recip()
                }
            },
            None => Some(Rational::zero()),
        };
        let hi = match &self.lo {
            Some(x) => {
                if x.num() == 0 {
                    None
                } else {
                    x.recip()
                }
            },
            None => Some(Rational::zero()),
        };
        Interval { lo, hi }
    }

    /// Division: multiplication by the reciprocal.
    pub fn div(&self, other: &Interval) -> (r: Interval)
        requires
            self.wf(),
            other.wf(),
        ensures
            r@ == iv_div(self@, other@),
            r.wf(),
    {
        let rec = other.recip();
        self.mul(&rec)
    }
}


// ------------------------------------------------------------------
// Soundness laws: every operator's result interval contains the exact
// result of the operation applied to any members of the operands. The
// hypotheses only need positive denominators, which well-formed values
// always have.
// ------------------------------------------------------------------

/// Positive denominators on the present endpoints.
pub open spec fn iv_pd(v: IvView) -> bool {
    &&& (v.lo matches Some(l) ==> l.d > 0)
    &&& (v.hi matches Some(h) ==> h.d > 0)
}

proof fn lemma_rat_min_le(a: Rat, b: Rat)
    requires
        a.d > 0,
        b.d > 0,
    ensures
        rat_le(rat_min(a, b), a),
        rat_le(rat_min(a, b), b),
        rat_le(a, rat_max(a, b)),
        rat_le(b, rat_max(a, b)),
{
}

/// For `y` within `[yl, yh]`, the product `a * y` lies between the
/// products of `a` with the two bounds.
proof fn lemma_mul_range(yl: Rat, yh: Rat, y: Rat, a: Rat)
    requires
        rat_le(yl, y),
        rat_le(y, yh),
        yl.d > 0,
        yh.d > 0,
        y.d > 0,
        a.d > 0,
    ensures
        rat_le(rat_min(rat_mul(a, yl), rat_mul(a, yh)), rat_mul(a, y)),
        rat_le(rat_mul(a, y), rat_max(rat_mul(a, yl), rat_mul(a, yh))),
{
    let pl = rat_mul(a, yl);
    let ph = rat_mul(a, yh);
    let p = rat_mul(a, y);
    assert(pl.d > 0 && ph.d > 0 && p.d > 0) by (nonlinear_arith)
        requires
            yl.d > 0,
            yh.d > 0,
            y.d > 0,
            a.d > 0,
            pl.d == a.d * yl.d,
            ph.d == a.d * yh.d,
            p.d == a.d * y.d,
    ;
    lemma_rat_min_le(pl, ph);
    if a.n >= 0 {
        crate::rational::lemma_rat_mul_mono(yl, y, a);
        crate::rational::lemma_rat_mul_mono(y, yh, a);
        crate::rational::lemma_rat_mul_comm(yl, a);
        crate::rational::lemma_rat_mul_comm(y, a);
        crate::rational::lemma_rat_mul_comm(yh, a);
        crate::rational::lemma_rat_le_trans(rat_min(pl, ph), pl, p);
        crate::rational::lemma_rat_le_trans(p, ph, rat_max(pl, ph));
    } else {
        crate::rational::lemma_rat_mul_anti(yl, y, a);
        crate::rational::lemma_rat_mul_anti(y, yh, a);
        crate::rational::lemma_rat_mul_comm(yl, a);
        crate::rational::lemma_rat_mul_comm(y, a);
        crate::rational::lemma_rat_mul_comm(yh, a);
        crate::rational::lemma_rat_le_trans(rat_min(pl, ph), ph, p);
        crate::rational::lemma_rat_le_trans(p, pl, rat_max(pl, ph));
    }
}

/// A point interval contains exactly the values equal to its point.
pub proof fn lemma_iv_singleton_contains(q: Rat, x: Rat)
    requires
        q.d > 0,
        x.d > 0,
    ensures
        iv_contains(iv_singleton(q), x) <==> rat_eq(q, x),
{
}

/// Sum soundness: the sum of members is a member of the sum interval.
pub proof fn lemma_iv_add_sound(a: IvView, b: IvView, x: Rat, y: Rat)
    requires
        iv_pd(a),
        iv_pd(b),
        x.d > 0,
        y.d > 0,
        iv_contains(a, x),
        iv_contains(b, y),
    ensures
        iv_contains(iv_add(a, b), rat_add(x, y)),
{
    let s = rat_add(x, y);
    assert(s.d > 0) by (nonlinear_arith)
        requires
            x.d > 0,
            y.d > 0,
            s.d == x.d * y.d,
    ;
    let r = iv_add(a, b);
    if r.lo is Some {
        let al = a.lo->Some_0;
        let bl = b.lo->Some_0;
        let raw = rat_add(al, bl);
        assert(raw.d > 0) by (nonlinear_arith)
            requires
                al.d > 0,
                bl.d > 0,
                raw.d == al.d * bl.d,
        ;
        crate::rational::lemma_rat_add_mono(al, x, bl, y);
        crate::rational::lemma_canon(raw.n, raw.d);
        crate::rational::lemma_rat_le_congr_left(raw, canon(raw.n, raw.d), s);
    }
    if r.hi is Some {
        let ah = a.hi->Some_0;
        let bh = b.hi->Some_0;
        let raw = rat_add(ah, bh);
        assert(raw.d > 0) by (nonlinear_arith)
            requires
                ah.d > 0,
                bh.d > 0,
                raw.d == ah.d * bh.d,
        ;
        crate::rational::lemma_rat_add_mono(x, ah, y, bh);
        crate::rational::lemma_canon(raw.n, raw.d);
        crate::rational::lemma_rat_le_congr_right(s, raw, canon(raw.n, raw.d));
    }
}

/// Difference soundness, with the cross-bound rule.
pub proof fn lemma_iv_sub_sound(a: IvView, b: IvView, x: Rat, y: Rat)
    requires
        iv_pd(a),
        iv_pd(b),
        x.d > 0,
        y.d > 0,
        iv_contains(a, x),
        iv_contains(b, y),
    ensures
        iv_contains(iv_sub(a, b), rat_sub(x, y)),
{
    let s = rat_sub(x, y);
    let ny = rat_neg(y);
    assert(s.d > 0) by (nonlinear_arith)
        requires
            x.d > 0,
            y.d > 0,
            s.d == x.d * y.d,
    ;
    let r = iv_sub(a, b);
    if r.lo is Some {
        let al = a.lo->Some_0;
        let bh = b.hi->Some_0;
        let raw = rat_sub(al, bh);
        assert(raw.d > 0) by (nonlinear_arith)
            requires
                al.d > 0,
                bh.d > 0,
                raw.d == al.d * bh.d,
        ;
        crate::rational::lemma_rat_neg_anti(y, bh);
        crate::rational::lemma_rat_add_mono(al, x, rat_neg(bh), ny);
        crate::rational::lemma_canon(raw.n, raw.d);
        crate::rational::lemma_rat_le_congr_left(raw, canon(raw.n, raw.d), s);
    }
    if r.hi is Some {
        let ah = a.hi->Some_0;
        let bl = b.lo->Some_0;
        let raw = rat_sub(ah, bl);
        assert(raw.d > 0) by (nonlinear_arith)
            requires
                ah.d > 0,
                bl.d > 0,
                raw.d == ah.d * bl.d,
        ;
        crate::rational::lemma_rat_neg_anti(bl, y);
        crate::rational::lemma_rat_add_mono(x, ah, ny, rat_neg(bl));
        crate::rational::lemma_canon(raw.n, raw.d);
        crate::rational::lemma_rat_le_congr_right(s, raw, canon(raw.n, raw.d));
    }
}

/// Product soundness: the bounds are the least and greatest of the four
/// endpoint products, so the product of members stays inside.
pub proof fn lemma_iv_mul_sound(a: IvView, b: IvView, x: Rat, y: Rat)
    requires
        iv_pd(a),
        iv_pd(b),
        x.d > 0,
        y.d > 0,
        iv_contains(a, x),
        iv_contains(b, y),
    ensures
        iv_contains(iv_mul(a, b), rat_mul(x, y)),
{
    let r = iv_mul(a, b);
    if r.lo is Some || r.hi is Some {
        let al = a.lo->Some_0;
        let ah = a.hi->Some_0;
        let bl = b.lo->Some_0;
        let bh = b.hi->Some_0;
        let p1 = rat_mul(al, bl);
        let p2 = rat_mul(al, bh);
        let p3 = rat_mul(ah, bl);
        let p4 = rat_mul(ah, bh);
        let p = rat_mul(x, y);
        assert(p1.d > 0 && p2.d > 0 && p3.d > 0 && p4.d > 0 && p.d > 0) by (nonlinear_arith)
            requires
                al.d > 0,
                ah.d > 0,
                bl.d > 0,
                bh.d > 0,
                x.d > 0,
                y.d > 0,
                p1.d == al.d * bl.d,
                p2.d == al.d * bh.d,
                p3.d == ah.d * bl.d,
                p4.d == ah.d * bh.d,
                p.d == x.d * y.d,
        ;
        let u = rat_mul(x, bl);
        let v = rat_mul(x, bh);
        assert(u.d > 0 && v.d > 0) by (nonlinear_arith)
            requires
                x.d > 0,
                bl.d > 0,
                bh.d > 0,
                u.d == x.d * bl.d,
                v.d == x.d * bh.d,
        ;
        // x * y lies between x*bl and x*bh.
        lemma_mul_range(bl, bh, y, x);
        // x*bl lies between al*bl and ah*bl; likewise for bh.
        lemma_mul_range(al, ah, x, bl);
        lemma_mul_range(al, ah, x, bh);
        crate::rational::lemma_rat_mul_comm(bl, al);
        crate::rational::lemma_rat_mul_comm(bl, ah);
        crate::rational::lemma_rat_mul_comm(bh, al);
        crate::rational::lemma_rat_mul_comm(bh, ah);
        crate::rational::lemma_rat_mul_comm(bl, x);
        crate::rational::lemma_rat_mul_comm(bh, x);
        let m2 = rat_min(p1, p2);
        let m3 = rat_min(m2, p3);
        let m4 = rat_min(m3, p4);
        let x2 = rat_max(p1, p2);
        let x3 = rat_max(x2, p3);
        let x4 = rat_max(x3, p4);
        lemma_rat_min_le(p1, p2);
        lemma_rat_min_le(m2, p3);
        lemma_rat_min_le(m3, p4);
        lemma_rat_min_le(x2, p3);
        lemma_rat_min_le(x3, p4);
        crate::rational::lemma_rat_le_trans(m4, m3, m2);
        crate::rational::lemma_rat_le_trans(m4, m2, p1);
        crate::rational::lemma_rat_le_trans(m4, m2, p2);
        crate::rational::lemma_rat_le_trans(m4, m3, p3);
        crate::rational::lemma_rat_le_trans(x2, x3, x4);
        crate::rational::lemma_rat_le_trans(p1, x2, x3);
        crate::rational::lemma_rat_le_trans(p2, x2, x3);
        crate::rational::lemma_rat_le_trans(p1, x3, x4);
        crate::rational::lemma_rat_le_trans(p2, x3, x4);
        crate::rational::lemma_rat_le_trans(p3, x3, x4);
        // Lower bound: m4 <= min(p1, p3) <= u and m4 <= min(p2, p4) <= v.
        crate::rational::lemma_rat_le_trans(m4, rat_min(p1, p3), u);
        crate::rational::lemma_rat_le_trans(m4, rat_min(p2, p4), v);
        crate::rational::lemma_rat_le_trans(m4, rat_min(u, v), p);
        // Upper bound: u <= max(p1, p3) <= x4 and v <= max(p2, p4) <= x4.
        crate::rational::lemma_rat_le_trans(u, rat_max(p1, p3), x4);
        crate::rational::lemma_rat_le_trans(v, rat_max(p2, p4), x4);
        crate::rational::lemma_rat_le_trans(p, rat_max(u, v), x4);
        crate::rational::lemma_canon(m4.n, m4.d);
        crate::rational::lemma_canon(x4.n, x4.d);
        crate::rational::lemma_rat_le_congr_left(m4, canon(m4.n, m4.d), p);
        crate::rational::lemma_rat_le_congr_right(p, x4, canon(x4.n, x4.d));
    }
}

/// Reciprocal soundness: for an interval that does not contain zero, the
/// reciprocal of a member is a member of the reciprocal interval.
pub proof fn lemma_iv_recip_sound(a: IvView, x: Rat)
    requires
        iv_pd(a),
        x.d > 0,
        iv_contains(a, x),
        !iv_contains_zero(a),
    ensures
        x.n != 0,
        iv_contains(iv_recip(a), rat_recip(x)),
{
    let r = iv_recip(a);
    // A member of a zero-free interval is nonzero, and its sign is pinned
    // by whichever bound excludes zero.
    if a.lo is Some && !rat_le(a.lo->Some_0, rat_zero()) {
        let l = a.lo->Some_0;
        assert(l.n > 0);
        assert(x.n > 0) by (nonlinear_arith)
            requires
                l.n > 0,
                l.d > 0,
                x.d > 0,
                l.n * x.d <= x.n * l.d,
        ;
    } else {
        let h = a.hi->Some_0;
        assert(h.n < 0);
        assert(x.n < 0) by (nonlinear_arith)
            requires
                h.n < 0,
                h.d > 0,
                x.d > 0,
                x.n * h.d <= h.n * x.d,
        ;
    }
    let rx = rat_recip(x);
    assert(rx.d > 0);
    if x.n > 0 {
        // The upper bound, if any, is positive: its reciprocal is the new
        // lower bound.
        if a.hi is Some {
            let h = a.hi->Some_0;
            assert(h.n > 0) by (nonlinear_arith)
                requires
                    x.n > 0,
                    x.d > 0,
                    h.d > 0,
                    x.n * h.d <= h.n * x.d,
            ;
            let rh = rat_recip(h);
            assert(h.d * x.n <= x.d * h.n) by (nonlinear_arith)
                requires
                    x.n * h.d <= h.n * x.d,
            ;
            assert(rat_le(rh, rx));
            if representable(rh) {
                crate::rational::lemma_canon(rh.n, rh.d);
                crate::rational::lemma_rat_le_congr_left(rh, canon(rh.n, rh.d), rx);
            }
        } else {
            assert(rat_le(rat_zero(), rx));
        }
        // The lower bound is present and positive: its reciprocal is the
        // new upper bound.
        let l = a.lo->Some_0;
        assert(l.n > 0);
        let rl = rat_recip(l);
        assert(x.d * l.n <= l.d * x.n) by (nonlinear_arith)
            requires
                l.n * x.d <= x.n * l.d,
        ;
        assert(rat_le(rx, rl));
        if representable(rl) {
            crate::rational::lemma_canon(rl.n, rl.d);
            crate::rational::lemma_rat_le_congr_right(rx, rl, canon(rl.n, rl.d));
        }
    } else {
        // Entirely negative: mirrored reasoning.
        if a.lo is Some {
            let l = a.lo->Some_0;
            assert(l.n < 0) by (nonlinear_arith)
                requires
                    x.n < 0,
                    x.d > 0,
                    l.d > 0,
                    l.n * x.d <= x.n * l.d,
            ;
            let rl = rat_recip(l);
            assert((-x.d) * (-l.n) <= (-l.d) * (-x.n)) by (nonlinear_arith)
                requires
                    l.n * x.d <= x.n * l.d,
            ;
            assert(rat_le(rx, rl));
            if representable(rl) {
                crate::rational::lemma_canon(rl.n, rl.d);
                crate::rational::lemma_rat_le_congr_right(rx, rl, canon(rl.n, rl.d));
            }
        } else {
            assert(rat_le(rx, rat_zero()));
        }
        let h = a.hi->Some_0;
        assert(h.n < 0);
        let rh = rat_recip(h);
        assert((-h.d) * (-x.n) <= (-x.d) * (-h.n)) by (nonlinear_arith)
            requires
                x.n * h.d <= h.n * x.d,
        ;
        assert(rat_le(rh, rx));
        if representable(rh) {
            crate::rational::lemma_canon(rh.n, rh.d);
            crate::rational::lemma_rat_le_congr_left(rh, canon(rh.n, rh.d), rx);
        }
    }
}

/// Quotient soundness: dividing members lands inside the quotient
/// interval (for a nonzero divisor value).
pub proof fn lemma_iv_div_sound(a: IvView, b: IvView, x: Rat, y: Rat)
    requires
        iv_pd(a),
        iv_pd(b),
        x.d > 0,
        y.d > 0,
        y.n != 0,
        iv_contains(a, x),
        iv_contains(b, y),
    ensures
        iv_contains(iv_div(a, b), rat_div(x, y)),
{
    let rb = iv_recip(b);
    if iv_contains_zero(b) {
        assert(iv_mul(a, rb) == iv_top());
    } else {
        lemma_iv_recip_sound(b, y);
        assert(iv_pd(rb)) by {
            if rb.lo is Some {
                match b.hi {
                    Some(h) => {
                        if h.n != 0 && representable(rat_recip(h)) {
                            crate::rational::lemma_canon(rat_recip(h).n, rat_recip(h).d);
                        }
                    },
                    None => {},
                }
            }
            if rb.hi is Some {
                match b.lo {
                    Some(l) => {
                        if l.n != 0 && representable(rat_recip(l)) {
                            crate::rational::lemma_canon(rat_recip(l).n, rat_recip(l).d);
                        }
                    },
                    None => {},
                }
            }
        }
        lemma_iv_mul_sound(a, rb, x, rat_recip(y));
    }
}

/// The bound-combining intersection is a subset of both operands in the
/// all-bounds-present case.
pub proof fn lemma_iv_intersect_subset(a: IvView, b: IvView, q: Rat)
    requires
        iv_pd(a),
        iv_pd(b),
        q.d > 0,
        a.lo is Some,
        a.hi is Some,
        b.lo is Some,
        b.hi is Some,
        iv_contains(iv_intersect(a, b), q),
    ensures
        iv_contains(a, q),
        iv_contains(b, q),
{
    let al = a.lo->Some_0;
    let ah = a.hi->Some_0;
    let bl = b.lo->Some_0;
    let bh = b.hi->Some_0;
    lemma_rat_min_le(al, bl);
    lemma_rat_min_le(ah, bh);
    crate::rational::lemma_rat_le_trans(al, rat_max(al, bl), q);
    crate::rational::lemma_rat_le_trans(bl, rat_max(al, bl), q);
    crate::rational::lemma_rat_le_trans(q, rat_min(ah, bh), ah);
    crate::rational::lemma_rat_le_trans(q, rat_min(ah, bh), bh);
}


// ------------------------------------------------------------------
// The interval literal mini-format: "lo, hi", each side a numeral or the
// token "-inf" / "inf" for an unbounded side, with optional surrounding
// whitespace.
// ------------------------------------------------------------------

/// Position of the first comma at or after `i`.
pub open spec fn find_comma(s: Seq<char>, i: int) -> Option<int>
    decreases s.len() - i,
{
    if i < 0 || i >= s.len() {
        None
    } else if s[i] == ',' {
        Some(i)
    } else {
        find_comma(s, i + 1)
    }
}

/// End of the text once trailing whitespace is dropped, scanning down
/// from `i`.
pub open spec fn ws_end(s: Seq<char>, i: int) -> int
    decreases i,
{
    if i <= 0 {
        0
    } else if i > s.len() {
        s.len() as int
    } else if is_space(s[i - 1]) {
        ws_end(s, i - 1)
    } else {
        i
    }
}

/// The text with surrounding whitespace removed.
pub open spec fn trimmed(s: Seq<char>) -> Seq<char> {
    let a = skip_ws(s, 0);
    let b = ws_end(s, s.len() as int);
    if a <= b {
        s.subrange(a, b)
    } else {
        Seq::empty()
    }
}

pub open spec fn unbounded_token(lo_side: bool) -> Seq<char> {
    if lo_side {
        seq!['-', 'i', 'n', 'f']
    } else {
        seq!['i', 'n', 'f']
    }
}

/// One side of an interval literal: its unbounded token, or a usable
/// numeral.
pub open spec fn endpoint_valid(s: Seq<char>, lo_side: bool) -> bool {
    let t = trimmed(s);
    ||| t == unbounded_token(lo_side)
    ||| (numeral_syntax(t) && numeral_den_val(t) != 0 && numeral_within(t))
}

pub open spec fn endpoint_bound(s: Seq<char>, lo_side: bool) -> Option<Rat> {
    let t = trimmed(s);
    if t == unbounded_token(lo_side) {
        None
    } else {
        Some(canon(numeral_rat(t).n, numeral_rat(t).d))
    }
}

/// A valid interval literal: a comma with a valid side before and after
/// it.
pub open spec fn interval_text_valid(s: Seq<char>) -> bool {
    match find_comma(s, 0) {
        Some(k) => endpoint_valid(s.take(k), true) && endpoint_valid(s.skip(k + 1), false),
        None => false,
    }
}

pub open spec fn interval_of_text(s: Seq<char>) -> IvView {
    match find_comma(s, 0) {
        Some(k) => IvView {
            lo: endpoint_bound(s.take(k), true),
            hi: endpoint_bound(s.skip(k + 1), false),
        },
        None => iv_top(),
    }
}

proof fn lemma_find_comma_none(b: Seq<char>, i: int)
    requires
        0 <= i <= b.len(),
        forall|j: int| i <= j < b.len() ==> b[j] != ',',
    ensures
        find_comma(b, i) is None,
    decreases b.len() - i,
{
    if i < b.len() {
        lemma_find_comma_none(b, i + 1);
    }
}

proof fn lemma_find_comma_at(b: Seq<char>, i: int, k: int)
    requires
        0 <= i <= k < b.len(),
        b[k] == ',',
        forall|j: int| i <= j < k ==> b[j] != ',',
    ensures
        find_comma(b, i) == Some(k),
    decreases k - i,
{
    if i < k {
        lemma_find_comma_at(b, i + 1, k);
    }
}

proof fn lemma_ws_end(s: Seq<char>, i: int)
    requires
        0 <= i <= s.len(),
    ensures
        0 <= ws_end(s, i) <= i,
        forall|m: int| ws_end(s, i) <= m < i ==> is_space(#[trigger] s[m]),
        ws_end(s, i) > 0 ==> !is_space(s[ws_end(s, i) - 1]),
    decreases i,
{
    if i > 0 && is_space(s[i - 1]) {
        lemma_ws_end(s, i - 1);
    }
}

/// Trims `v[start..end]` in place, returning the trimmed index range.
fn trim_range(v: &Vec<char>, start: usize, end: usize) -> (r: (usize, usize))
    requires
        start <= end <= v@.len(),
    ensures
        ({
            let side = v@.subrange(start as int, end as int);
            let t = trimmed(side);
            &&& start <= r.0 <= r.1 <= end
            &&& t == v@.subrange(r.0 as int, r.1 as int)
        }),
{
    let ghost side = v@.subrange(start as int, end as int);
    let mut a: usize = start;
    while a < end && (v[a] == ' ' || v[a] == '\n' || v[a] == '\t' || v[a] == '\r')
        invariant
            start <= a <= end <= v@.len(),
            forall|m: int| start <= m < a ==> is_space(#[trigger] v@[m]),
        decreases end - a,
    {
        a += 1;
    }
    let mut b: usize = end;
    while b > a && (v[b - 1] == ' ' || v[b - 1] == '\n' || v[b - 1] == '\t' || v[b - 1] == '\r')
        invariant
            a <= b <= end <= v@.len(),
            forall|m: int| b <= m < end ==> is_space(#[trigger] v@[m]),
        decreases b,
    {
        b -= 1;
    }
    proof {
        crate::term::lemma_skip_ws(side, 0);
        lemma_ws_end(side, side.len() as int);
        let sa = skip_ws(side, 0);
        let sb = ws_end(side, side.len() as int);
        assert(forall|m: int| 0 <= m < side.len() ==> side[m] == v@[start + m]);
        if a < end && b > a {
            // Both scans stopped at non-space characters, which pins them
            // to the spec values.
            assert(!is_space(side[a - start as int]));
            assert(sa == a - start) by {
                if sa < a - start {
                    assert(is_space(side[sa]));
                }
                if sa > a - start {
                    assert(is_space(side[a - start as int]));
                }
            }
            assert(!is_space(side[b - 1 - start as int]));
            assert(sb == b - start) by {
                if sb < b - start {
                    assert(is_space(side[b - 1 - start as int]));
                }
                if sb > b - start {
                    assert(is_space(side[sb - 1]));
                }
            }
            assert(trimmed(side) =~= v@.subrange(a as int, b as int));
        } else {
            // The side is all whitespace: both scans collapse.
            assert(b == a);
            assert(forall|m: int| 0 <= m < side.len() ==> is_space(#[trigger] side[m]));
            assert(sa == side.len()) by {
                if sa < side.len() {
                    assert(is_space(side[sa]));
                }
            }
            assert(sb == 0) by {
                if sb > 0 {
                    assert(is_space(side[sb - 1]));
                }
            }
            if side.len() == 0 {
                assert(trimmed(side) =~= v@.subrange(a as int, b as int));
            } else {
                assert(trimmed(side) == Seq::<char>::empty());
                assert(trimmed(side) =~= v@.subrange(a as int, b as int));
            }
        }
    }
    (a, b)
}

/// Parses one side of an interval literal: `Some(None)` for the unbounded
/// token, `Some(Some(q))` for a numeral, `None` when the side is invalid.
fn parse_endpoint(v: &Vec<char>, start: usize, end: usize, lo_side: bool) -> (r: Option<
    Option<Rational>,
>)
    requires
        start <= end <= v@.len(),
    ensures
        ({
            let side = v@.subrange(start as int, end as int);
            match r {
                Some(e) => {
                    &&& endpoint_valid(side, lo_side)
                    &&& match e {
                        None => endpoint_bound(side, lo_side) is None,
                        Some(q) => endpoint_bound(side, lo_side) == Some(q@) && q.wf(),
                    }
                },
                None => !endpoint_valid(side, lo_side),
            }
        }),
{
    let ghost side = v@.subrange(start as int, end as int);
    let (a, b) = trim_range(v, start, end);
    let ghost t = trimmed(side);
    let n = b - a;
    let is_unb = if lo_side {
        n == 4 && v[a] == '-' && v[a + 1] == 'i' && v[a + 2] == 'n' && v[a + 3] == 'f'
    } else {
        n == 3 && v[a] == 'i' && v[a + 1] == 'n' && v[a + 2] == 'f'
    };
    proof {
        if is_unb {
            assert(t =~= unbounded_token(lo_side));
        } else {
            if t == unbounded_token(lo_side) {
                if lo_side {
                    assert(t[0] == '-' && t[1] == 'i' && t[2] == 'n' && t[3] == 'f');
                    assert(v@[a as int] == t[0] && v@[a as int + 1] == t[1] && v@[a as int + 2]
                        == t[2] && v@[a as int + 3] == t[3]);
                } else {
                    assert(t[0] == 'i' && t[1] == 'n' && t[2] == 'f');
                    assert(v@[a as int] == t[0] && v@[a as int + 1] == t[1] && v@[a as int + 2]
                        == t[2]);
                }
            }
        }
    }
    if is_unb {
        return Some(None);
    }
    let tok = crate::term::copy_range(v, a, b);
    match Rational::scan_numeral(&tok) {
        NumeralScan::Value(q) => Some(Some(q)),
        NumeralScan::NotNumeral => None,
        NumeralScan::Bad(_) => None,
    }
}

impl Interval {
    /// Parses an interval literal; `None` when the text is not a valid
    /// literal.
    pub fn parse(s: &str) -> (r: Option<Interval>)
        ensures
            r is Some <==> interval_text_valid(s@),
            r matches Some(iv) ==> iv@ == interval_of_text(s@) && iv.wf(),
    {
        let v = crate::term::str_to_chars(s);
        let n = v.len();
        let mut k: usize = 0;
        while k < n && v[k] != ','
            invariant
                k <= n,
                n == v@.len(),
                forall|m: int| 0 <= m < k ==> v@[m] != ',',
            decreases n - k,
        {
            k += 1;
        }
        if k == n {
            proof {
                lemma_find_comma_none(v@, 0);
            }
            return None;
        }
        proof {
            lemma_find_comma_at(v@, 0, k as int);
            assert(v@.take(k as int) =~= v@.subrange(0, k as int));
            assert(v@.skip(k as int + 1) =~= v@.subrange(k as int + 1, n as int));
        }
        let lo = match parse_endpoint(&v, 0, k, true) {
            Some(e) => e,
            None => {
                return None;
            },
        };
        let hi = match parse_endpoint(&v, k + 1, n, false) {
            Some(e) => e,
            None => {
                return None;
            },
        };
        Some(Interval { lo, hi })
    }
}

/// Parses an interval literal that is known to be valid, as test and
/// driver shorthand.
pub fn ival(s: &str) -> (r: Interval)
    requires
        interval_text_valid(s@),
    ensures
        r@ == interval_of_text(s@),
        r.wf(),
{
    Interval::parse(s).unwrap()
}


/// The display text of an interval: both bounds in parentheses, an absent
/// bound written as its unbounded token.
pub open spec fn interval_text(v: IvView) -> Seq<char> {
    let lo: Seq<char> = match v.lo {
        Some(l) => rational_text(l),
        None => seq!['-', 'i', 'n', 'f'],
    };
    let hi: Seq<char> = match v.hi {
        Some(h) => rational_text(h),
        None => seq!['i', 'n', 'f'],
    };
    seq!['('] + lo + seq![',', ' '] + hi + seq![')']
}

impl Interval {
    /// The display text of this interval.
    pub fn to_text(&self) -> (r: String)
        requires
            self.wf(),
        ensures
            r@ == interval_text(self@),
    {
        let mut out: Vec<char> = Vec::new();
        out.push('(');
        match &self.lo {
            Some(l) => l.push_text(&mut out),
            None => {
                out.push('-');
                out.push('i');
                out.push('n');
                out.push('f');
            },
        }
        out.push(',');
        out.push(' ');
        match &self.hi {
            Some(h) => h.push_text(&mut out),
            None => {
                out.push('i');
                out.push('n');
                out.push('f');
            },
        }
        out.push(')');
        assert(out@ =~= interval_text(self@));
        crate::term::chars_to_string(out)
    }
}

} // verus!
