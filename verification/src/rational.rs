//! Exact rational numbers with a canonical (reduced, positive-denominator)
//! representation, bounded to 64-bit numerator and denominator.
//!
//! The mathematical model is the ghost type [`Rat`], an unreduced pair of an
//! integer numerator and nonzero integer denominator; value comparisons on
//! `Rat` are by cross-multiplication, so they are meaningful for any
//! denominator sign. Executable [`Rational`] values are always well formed
//! ([`rat_wf`] of the view): reduced, with denominator at least one and
//! numerator in the symmetric range `-i64::MAX ..= i64::MAX`. Arithmetic
//! results that cannot be represented within those bounds are reported as
//! `None`; the analyses built on top treat such a result as "unknown", which
//! is a sound, conservative answer.

use vstd::prelude::*;

verus! {

/// Mathematical (ghost) rational: the value `n / d`. Not necessarily reduced;
/// `d` may be any nonzero integer.
pub ghost struct Rat {
    pub n: int,
    pub d: int,
}

/// Absolute value of an integer, as a natural number.
pub open spec fn abs_i(x: int) -> nat {
    if x < 0 {
        (-x) as nat
    } else {
        x as nat
    }
}

/// Greatest common divisor by Euclid's recurrence; `gcd(a, 0) == a`.
pub open spec fn gcd(a: nat, b: nat) -> nat
    decreases b,
{
    if b == 0 {
        a
    } else {
        gcd(b, a % b)
    }
}

/// `c` divides `x`.
pub open spec fn divides(c: int, x: int) -> bool {
    exists|k: int| x == #[trigger] (c * k)
}

/// Value equality of two mathematical rationals (cross-multiplication).
pub open spec fn rat_eq(a: Rat, b: Rat) -> bool {
    a.n * b.d == b.n * a.d
}

/// `a <= b` as rational values; meaningful when both denominators are
/// positive.
pub open spec fn rat_le(a: Rat, b: Rat) -> bool {
    a.n * b.d <= b.n * a.d
}

/// `a < b` as rational values; meaningful when both denominators are
/// positive.
pub open spec fn rat_lt(a: Rat, b: Rat) -> bool {
    a.n * b.d < b.n * a.d
}

pub open spec fn rat_zero() -> Rat {
    Rat { n: 0, d: 1 }
}

pub open spec fn rat_add(a: Rat, b: Rat) -> Rat {
    Rat { n: a.n * b.d + b.n * a.d, d: a.d * b.d }
}

pub open spec fn rat_neg(a: Rat) -> Rat {
    Rat { n: -a.n, d: a.d }
}

pub open spec fn rat_sub(a: Rat, b: Rat) -> Rat {
    rat_add(a, rat_neg(b))
}

pub open spec fn rat_mul(a: Rat, b: Rat) -> Rat {
    Rat { n: a.n * b.n, d: a.d * b.d }
}

/// Reciprocal, sign-normalized so that a positive-denominator argument with
/// nonzero numerator yields a positive-denominator result.
pub open spec fn rat_recip(a: Rat) -> Rat {
    if a.n < 0 {
        Rat { n: -a.d, d: -a.n }
    } else {
        Rat { n: a.d, d: a.n }
    }
}

pub open spec fn rat_div(a: Rat, b: Rat) -> Rat {
    rat_mul(a, rat_recip(b))
}

/// The canonical form of the value `n / d`: sign on the numerator,
/// denominator positive, both divided by their greatest common divisor;
/// zero is `0 / 1`.
pub open spec fn canon(n: int, d: int) -> Rat
    recommends
        d != 0,
{
    let an = abs_i(n);
    let ad = abs_i(d);
    if an == 0 {
        Rat { n: 0, d: 1 }
    } else {
        let g = gcd(an, ad);
        let neg = (n < 0) != (d < 0);
        if neg {
            Rat { n: -((an / g) as int), d: (ad / g) as int }
        } else {
            Rat { n: (an / g) as int, d: (ad / g) as int }
        }
    }
}

/// A well-formed executable rational view: positive denominator, reduced,
/// and within the symmetric 64-bit bounds.
pub open spec fn rat_wf(r: Rat) -> bool {
    &&& 1 <= r.d <= i64::MAX
    &&& -i64::MAX <= r.n <= i64::MAX
    &&& gcd(abs_i(r.n), r.d as nat) == 1
}

/// Whether a canonical-form value fits the executable bounds.
pub open spec fn fits(r: Rat) -> bool {
    -i64::MAX <= r.n <= i64::MAX && 1 <= r.d <= i64::MAX
}

/// Whether the value of `v` has a well-formed executable representation.
pub open spec fn representable(v: Rat) -> bool {
    fits(canon(v.n, v.d))
}

/// An exact rational constant. The numerator carries the sign; the
/// denominator is positive; the fraction is always reduced.
#[derive(Debug, Clone, Copy, PartialEq, Eq, PartialOrd, Ord, Hash)]
pub struct Rational {
    num: i64,
    den: i64,
}

impl View for Rational {
    type V = Rat;

    closed spec fn view(&self) -> Rat {
        Rat { n: self.num as int, d: self.den as int }
    }
}

impl Rational {
    /// The representation invariant: reduced, positive denominator, bounded.
    pub open spec fn wf(self) -> bool {
        rat_wf(self@)
    }

    pub closed spec fn spec_num(&self) -> i64 {
        self.num
    }

    pub closed spec fn spec_den(&self) -> i64 {
        self.den
    }

    /// The numerator (sign-carrying).
    #[verifier::when_used_as_spec(spec_num)]
    pub fn num(&self) -> (r: i64)
        ensures
            r as int == self@.n,
    {
        self.num
    }

    /// The (positive) denominator.
    #[verifier::when_used_as_spec(spec_den)]
    pub fn den(&self) -> (r: i64)
        ensures
            r as int == self@.d,
    {
        self.den
    }
}

// ------------------------------------------------------------------
// Facts about gcd and divisibility.
// ------------------------------------------------------------------

proof fn lemma_gcd_divides(a: nat, b: nat)
    ensures
        divides(gcd(a, b) as int, a as int),
        divides(gcd(a, b) as int, b as int),
    decreases b,
{
    if b == 0 {
        assert(a as int == (a as int) * 1);
        assert(0int == (a as int) * 0);
    } else {
        lemma_gcd_divides(b, a % b);
        let g = gcd(b, a % b) as int;
        let k1 = choose|k: int| b as int == #[trigger] (g * k);
        let k2 = choose|k: int| (a % b) as int == #[trigger] (g * k);
        vstd::arithmetic::div_mod::lemma_fundamental_div_mod(a as int, b as int);
        let q = a as int / b as int;
        assert(a as int == g * (k1 * q + k2)) by (nonlinear_arith)
            requires
                a as int == (b as int) * q + (a % b) as int,
                b as int == g * k1,
                (a % b) as int == g * k2,
        ;
    }
}

proof fn lemma_gcd_pos(a: nat, b: nat)
    requires
        a > 0 || b > 0,
    ensures
        gcd(a, b) >= 1,
    decreases b,
{
    if b == 0 {
    } else {
        lemma_gcd_pos(b, a % b);
    }
}

proof fn lemma_divides_bound(c: int, x: int)
    requires
        c > 0,
        x > 0,
        divides(c, x),
    ensures
        c <= x,
{
    let k = choose|k: int| x == #[trigger] (c * k);
    assert(c <= x) by (nonlinear_arith)
        requires
            c > 0,
            x > 0,
            x == c * k,
    ;
}

proof fn lemma_divides_gcd(c: int, a: nat, b: nat)
    requires
        c > 0,
        divides(c, a as int),
        divides(c, b as int),
    ensures
        divides(c, gcd(a, b) as int),
    decreases b,
{
    if b == 0 {
    } else {
        let k1 = choose|k: int| a as int == #[trigger] (c * k);
        let k2 = choose|k: int| b as int == #[trigger] (c * k);
        vstd::arithmetic::div_mod::lemma_fundamental_div_mod(a as int, b as int);
        let q = a as int / b as int;
        assert((a % b) as int == c * (k1 - k2 * q)) by (nonlinear_arith)
            requires
                a as int == (b as int) * q + (a % b) as int,
                a as int == c * k1,
                b as int == c * k2,
        ;
        lemma_divides_gcd(c, b, a % b);
    }
}

/// Exact division: if `c * k == x` then `x / c == k` (naturals).
proof fn lemma_div_exact(x: nat, c: nat, k: nat)
    requires
        c > 0,
        x == c * k,
    ensures
        x / c == k,
{
    assert(x / c == k) by (nonlinear_arith)
        requires
            c > 0,
            x == c * k,
    ;
}

/// Dividing both arguments by their (positive) gcd leaves coprime values.
proof fn lemma_gcd_coprime_after_div(a: nat, b: nat)
    requires
        b > 0,
    ensures
        gcd(a, b) >= 1,
        gcd(a / gcd(a, b), b / gcd(a, b)) == 1,
{
    let g = gcd(a, b);
    lemma_gcd_pos(a, b);
    lemma_gcd_divides(a, b);
    let ka = choose|k: int| a as int == #[trigger] (g as int * k);
    let kb = choose|k: int| b as int == #[trigger] (g as int * k);
    assert(ka >= 0) by (nonlinear_arith)
        requires
            g >= 1,
            a as int == g as int * ka,
            a as int >= 0,
    ;
    assert(kb >= 1) by (nonlinear_arith)
        requires
            g >= 1,
            b as int == g as int * kb,
            b as int >= 1,
    ;
    lemma_div_exact(a, g, ka as nat);
    lemma_div_exact(b, g, kb as nat);
    let a1 = a / g;
    let b1 = b / g;
    let g2 = gcd(a1, b1);
    lemma_gcd_pos(a1, b1);
    lemma_gcd_divides(a1, b1);
    let ma = choose|k: int| a1 as int == #[trigger] (g2 as int * k);
    let mb = choose|k: int| b1 as int == #[trigger] (g2 as int * k);
    assert(a as int == (g * g2) as int * ma) by (nonlinear_arith)
        requires
            a as int == g as int * a1 as int,
            a1 as int == g2 as int * ma,
    ;
    assert(b as int == (g * g2) as int * mb) by (nonlinear_arith)
        requires
            b as int == g as int * b1 as int,
            b1 as int == g2 as int * mb,
    ;
    assert((g * g2) as int > 0) by (nonlinear_arith)
        requires
            g >= 1,
            g2 >= 1,
    ;
    lemma_divides_gcd((g * g2) as int, a, b);
    lemma_divides_bound((g * g2) as int, g as int);
    assert(g2 == 1) by (nonlinear_arith)
        requires
            g >= 1,
            g2 >= 1,
            (g * g2) as int <= g as int,
    ;
}

/// The canonical form is well formed whenever it fits the bounds, and is
/// value-equal to the pair it came from.
pub proof fn lemma_canon(n: int, d: int)
    requires
        d != 0,
    ensures
        canon(n, d).d >= 1,
        gcd(abs_i(canon(n, d).n), canon(n, d).d as nat) == 1,
        rat_eq(canon(n, d), Rat { n, d }),
        fits(canon(n, d)) ==> rat_wf(canon(n, d)),
{
    let an = abs_i(n);
    let ad = abs_i(d);
    if an == 0 {
        assert(gcd(0, 1) == 1) by {
            reveal_with_fuel(gcd, 3);
        }
        assert(n == 0);
    } else {
        let g = gcd(an, ad);
        lemma_gcd_coprime_after_div(an, ad);
        lemma_gcd_divides(an, ad);
        let ka = choose|k: int| an as int == #[trigger] (g as int * k);
        let kb = choose|k: int| ad as int == #[trigger] (g as int * k);
        assert(ka >= 1) by (nonlinear_arith)
            requires
                g >= 1,
                an as int == g as int * ka,
                an as int >= 1,
        ;
        assert(kb >= 1) by (nonlinear_arith)
            requires
                g >= 1,
                ad as int == g as int * kb,
                ad as int >= 1,
        ;
        lemma_div_exact(an, g, ka as nat);
        lemma_div_exact(ad, g, kb as nat);
        let c = canon(n, d);
        assert(abs_i(c.n) == an / g);
        // Cross-multiplied value equality, by sign cases.
        assert(c.n * d == n * c.d) by (nonlinear_arith)
            requires
                an as int == g as int * ka,
                ad as int == g as int * kb,
                g >= 1,
                an == abs_i(n),
                ad == abs_i(d),
                an as int == if n < 0 { -n } else { n },
                ad as int == if d < 0 { -d } else { d },
                c.n == if (n < 0) != (d < 0) { -ka } else { ka },
                c.d == kb,
        ;
    }
}




/// The value order is transitive (positive denominators).
pub proof fn lemma_rat_le_trans(a: Rat, b: Rat, c: Rat)
    requires
        rat_le(a, b),
        rat_le(b, c),
        a.d > 0,
        b.d > 0,
        c.d > 0,
    ensures
        rat_le(a, c),
{
    assert(a.n * c.d <= c.n * a.d) by (nonlinear_arith)
        requires
            a.n * b.d <= b.n * a.d,
            b.n * c.d <= c.n * b.d,
            a.d > 0,
            b.d > 0,
            c.d > 0,
    ;
}

/// Adding respects the value order on both sides.
#[verifier::rlimit(100)]
pub proof fn lemma_rat_add_mono(a: Rat, b: Rat, c: Rat, d: Rat)
    requires
        rat_le(a, b),
        rat_le(c, d),
        a.d > 0,
        b.d > 0,
        c.d > 0,
        d.d > 0,
    ensures
        rat_le(rat_add(a, c), rat_add(b, d)),
{
    let ac = rat_add(a, c);
    let bc = rat_add(b, c);
    let bd = rat_add(b, d);
    assert(ac.d > 0 && bc.d > 0 && bd.d > 0) by (nonlinear_arith)
        requires
            a.d > 0,
            b.d > 0,
            c.d > 0,
            d.d > 0,
            ac.d == a.d * c.d,
            bc.d == b.d * c.d,
            bd.d == b.d * d.d,
    ;
    assert((a.n * c.d + c.n * a.d) * (b.d * c.d) <= (b.n * c.d + c.n * b.d) * (a.d
        * c.d)) by (nonlinear_arith)
        requires
            a.n * b.d <= b.n * a.d,
            c.d > 0,
    ;
    assert((b.n * c.d + c.n * b.d) * (b.d * d.d) <= (b.n * d.d + d.n * b.d) * (b.d
        * c.d)) by (nonlinear_arith)
        requires
            c.n * d.d <= d.n * c.d,
            b.d > 0,
    ;
    lemma_rat_le_trans(ac, bc, bd);
}

/// Multiplying by a nonnegative value preserves the order.
pub proof fn lemma_rat_mul_mono(a: Rat, b: Rat, c: Rat)
    requires
        rat_le(a, b),
        rat_le(rat_zero(), c),
        a.d > 0,
        b.d > 0,
        c.d > 0,
    ensures
        rat_le(rat_mul(a, c), rat_mul(b, c)),
{
    assert((a.n * c.n) * (b.d * c.d) <= (b.n * c.n) * (a.d * c.d)) by (nonlinear_arith)
        requires
            a.n * b.d <= b.n * a.d,
            c.n >= 0,
            a.d > 0,
            b.d > 0,
            c.d > 0,
    ;
}

/// Multiplying by a nonpositive value reverses the order.
pub proof fn lemma_rat_mul_anti(a: Rat, b: Rat, c: Rat)
    requires
        rat_le(a, b),
        rat_le(c, rat_zero()),
        a.d > 0,
        b.d > 0,
        c.d > 0,
    ensures
        rat_le(rat_mul(b, c), rat_mul(a, c)),
{
    assert((b.n * c.n) * (a.d * c.d) <= (a.n * c.n) * (b.d * c.d)) by (nonlinear_arith)
        requires
            a.n * b.d <= b.n * a.d,
            c.n <= 0,
            a.d > 0,
            b.d > 0,
            c.d > 0,
    ;
}


/// Negation reverses the value order.
pub proof fn lemma_rat_neg_anti(a: Rat, b: Rat)
    requires
        rat_le(a, b),
    ensures
        rat_le(rat_neg(b), rat_neg(a)),
{
    assert((-b.n) * a.d <= (-a.n) * b.d) by (nonlinear_arith)
        requires
            a.n * b.d <= b.n * a.d,
    ;
}

/// Multiplication of values is commutative.
pub proof fn lemma_rat_mul_comm(a: Rat, b: Rat)
    ensures
        rat_mul(a, b) == rat_mul(b, a),
{
    assert(a.n * b.n == b.n * a.n) by (nonlinear_arith);
    assert(a.d * b.d == b.d * a.d) by (nonlinear_arith);
}

/// `<=` respects value equality on the left.
pub proof fn lemma_rat_le_congr_left(a: Rat, a2: Rat, b: Rat)
    requires
        rat_eq(a, a2),
        a.d > 0,
        a2.d > 0,
        b.d > 0,
    ensures
        rat_le(a, b) == rat_le(a2, b),
{
    assert((a.n * b.d <= b.n * a.d) == (a2.n * b.d <= b.n * a2.d)) by (nonlinear_arith)
        requires
            a.n * a2.d == a2.n * a.d,
            a.d > 0,
            a2.d > 0,
            b.d > 0,
    ;
}

/// `<=` respects value equality on the right.
pub proof fn lemma_rat_le_congr_right(a: Rat, b: Rat, b2: Rat)
    requires
        rat_eq(b, b2),
        a.d > 0,
        b.d > 0,
        b2.d > 0,
    ensures
        rat_le(a, b) == rat_le(a, b2),
{
    assert((a.n * b.d <= b.n * a.d) == (a.n * b2.d <= b2.n * a.d)) by (nonlinear_arith)
        requires
            b.n * b2.d == b2.n * b.d,
            a.d > 0,
            b.d > 0,
            b2.d > 0,
    ;
}

/// Value equality is transitive (through a nonzero-denominator middle).
pub proof fn lemma_rat_eq_trans(a: Rat, b: Rat, c: Rat)
    requires
        rat_eq(a, b),
        rat_eq(b, c),
        b.d != 0,
    ensures
        rat_eq(a, c),
{
    assert(a.n * c.d * b.d == c.n * a.d * b.d) by (nonlinear_arith)
        requires
            a.n * b.d == b.n * a.d,
            b.n * c.d == c.n * b.d,
    ;
    assert(a.n * c.d == c.n * a.d) by (nonlinear_arith)
        requires
            a.n * c.d * b.d == c.n * a.d * b.d,
            b.d != 0,
    ;
}

/// Negating both components leaves the canonical form unchanged.
proof fn lemma_canon_neg_pair(n: int, d: int)
    requires
        d != 0,
    ensures
        canon(-n, -d) == canon(n, d),
{
    assert(abs_i(-n) == abs_i(n));
    assert(abs_i(-d) == abs_i(d));
}

proof fn lemma_gcd_one(a: nat)
    ensures
        gcd(a, 1) == 1,
{
    assert(a % 1 == 0) by (nonlinear_arith);
    assert(gcd(a, 1) == gcd(1, 0));
    reveal_with_fuel(gcd, 2);
}

/// Bound on a product from bounds on its factors.
proof fn lemma_mul_bound(x: int, y: int, bx: int, by: int)
    by (nonlinear_arith)
    requires
        -bx <= x <= bx,
        -by <= y <= by,
        0 <= bx,
        0 <= by,
    ensures
        -(bx * by) <= x * y <= bx * by,
{
}

// ------------------------------------------------------------------
// Executable construction and arithmetic.
// ------------------------------------------------------------------

/// Euclid's algorithm.
fn gcd_exec(a: u128, b: u128) -> (g: u128)
    ensures
        g as nat == gcd(a as nat, b as nat),
{
    let mut x: u128 = a;
    let mut y: u128 = b;
    while y != 0
        invariant
            gcd(x as nat, y as nat) == gcd(a as nat, b as nat),
        decreases y,
    {
        let t: u128 = x % y;
        x = y;
        y = t;
    }
    x
}

impl Rational {
    /// Builds the canonical representation of a sign-and-magnitude pair,
    /// or `None` when the reduced value does not fit the 64-bit bounds.
    pub fn make_mag(neg: bool, an: u128, ad: u128) -> (r: Option<Rational>)
        requires
            ad != 0,
        ensures
            ({
                let v = Rat {
                    n: if neg {
                        -(an as int)
                    } else {
                        an as int
                    },
                    d: ad as int,
                };
                &&& (r is Some <==> representable(v))
                &&& (r matches Some(q) ==> {
                    &&& q.wf()
                    &&& q@ == canon(v.n, v.d)
                    &&& rat_eq(q@, v)
                })
            }),
    {
        let ghost vn: int = if neg {
            -(an as int)
        } else {
            an as int
        };
        proof {
            lemma_canon(vn, ad as int);
            assert(abs_i(vn) == an as nat);
            assert(abs_i(ad as int) == ad as nat);
        }
        if an == 0 {
            proof {
                reveal_with_fuel(gcd, 3);
            }
            return Some(Rational { num: 0, den: 1 });
        }
        let g: u128 = gcd_exec(an, ad);
        proof {
            lemma_gcd_pos(an as nat, ad as nat);
        }
        let rn: u128 = an / g;
        let rd: u128 = ad / g;
        let bound: u128 = i64::MAX as u128;
        if rn <= bound && rd <= bound {
            let num: i64 = if neg {
                -(rn as i64)
            } else {
                rn as i64
            };
            let den: i64 = rd as i64;
            let result = Rational { num, den };
            assert(result@ == canon(vn, ad as int));
            Some(result)
        } else {
            assert(!fits(canon(vn, ad as int)));
            None
        }
    }

    /// Builds the canonical representation of `n / d`, or `None` when the
    /// reduced value does not fit the 64-bit bounds.
    pub fn make(n: i128, d: i128) -> (r: Option<Rational>)
        requires
            d != 0,
            n > i128::MIN,
            d > i128::MIN,
        ensures
            r is Some <==> representable(Rat { n: n as int, d: d as int }),
            r matches Some(q) ==> {
                &&& q.wf()
                &&& q@ == canon(n as int, d as int)
                &&& rat_eq(q@, Rat { n: n as int, d: d as int })
            },
    {
        let neg: bool = (n < 0) != (d < 0);
        let an: u128 = if n < 0 {
            (-n) as u128
        } else {
            n as u128
        };
        let ad: u128 = if d < 0 {
            (-d) as u128
        } else {
            d as u128
        };
        let ghost vn: int = if neg {
            -(an as int)
        } else {
            an as int
        };
        proof {
            assert(an as nat == abs_i(n as int));
            assert(ad as nat == abs_i(d as int));
            assert(abs_i(vn) == abs_i(n as int));
            assert(canon(vn, ad as int) == canon(n as int, d as int));
            assert(n as int * (ad as int) == vn * (d as int)) by (nonlinear_arith)
                requires
                    an as int == abs_i(n as int),
                    ad as int == abs_i(d as int),
                    an as int == (if (n as int) < 0 { -(n as int) } else { n as int }),
                    ad as int == (if (d as int) < 0 { -(d as int) } else { d as int }),
                    vn == (if (n < 0) != (d < 0) { -(an as int) } else { an as int }),
            ;
        }
        let r = Rational::make_mag(neg, an, ad);
        proof {
            if r is Some {
                lemma_rat_eq_trans(
                    r->Some_0@,
                    Rat { n: vn, d: ad as int },
                    Rat { n: n as int, d: d as int },
                );
                assert(rat_eq(Rat { n: vn, d: ad as int }, Rat { n: n as int, d: d as int }));
            }
        }
        r
    }

    /// The rational zero.
    pub fn zero() -> (r: Rational)
        ensures
            r.wf(),
            r@ == rat_zero(),
    {
        proof {
            reveal_with_fuel(gcd, 3);
        }
        Rational { num: 0, den: 1 }
    }

    /// An integer as a rational.
    pub fn from_int(v: i64) -> (r: Rational)
        requires
            v > i64::MIN,
        ensures
            r.wf(),
            r@ == (Rat { n: v as int, d: 1 }),
    {
        proof {
            lemma_gcd_one(abs_i(v as int));
        }
        Rational { num: v, den: 1 }
    }

    /// Whether this rational is zero.
    pub fn is_zero(&self) -> (r: bool)
        requires
            self.wf(),
        ensures
            r <==> rat_eq(self@, rat_zero()),
    {
        self.num == 0
    }

    /// Value equality.
    pub fn eq_value(&self, other: &Rational) -> (r: bool)
        requires
            self.wf(),
            other.wf(),
        ensures
            r == rat_eq(self@, other@),
    {
        proof {
            lemma_mul_bound(self@.n, other@.d, i64::MAX as int, i64::MAX as int);
            lemma_mul_bound(other@.n, self@.d, i64::MAX as int, i64::MAX as int);
        }
        (self.num as i128) * (other.den as i128) == (other.num as i128) * (self.den as i128)
    }

    /// Value order: `self <= other`.
    pub fn le(&self, other: &Rational) -> (r: bool)
        requires
            self.wf(),
            other.wf(),
        ensures
            r == rat_le(self@, other@),
    {
        proof {
            lemma_mul_bound(self@.n, other@.d, i64::MAX as int, i64::MAX as int);
            lemma_mul_bound(other@.n, self@.d, i64::MAX as int, i64::MAX as int);
        }
        (self.num as i128) * (other.den as i128) <= (other.num as i128) * (self.den as i128)
    }

    /// Value order: `self < other`.
    pub fn lt(&self, other: &Rational) -> (r: bool)
        requires
            self.wf(),
            other.wf(),
        ensures
            r == rat_lt(self@, other@),
    {
        proof {
            lemma_mul_bound(self@.n, other@.d, i64::MAX as int, i64::MAX as int);
            lemma_mul_bound(other@.n, self@.d, i64::MAX as int, i64::MAX as int);
        }
        (self.num as i128) * (other.den as i128) < (other.num as i128) * (self.den as i128)
    }

    /// Exact negation; total because the numerator range is symmetric.
    pub fn neg(&self) -> (r: Rational)
        requires
            self.wf(),
        ensures
            r.wf(),
            r@ == rat_neg(self@),
    {
        assert(abs_i(-self@.n) == abs_i(self@.n));
        Rational { num: -self.num, den: self.den }
    }

    /// Exact addition; `None` when the reduced sum is out of bounds.
    pub fn add(&self, other: &Rational) -> (r: Option<Rational>)
        requires
            self.wf(),
            other.wf(),
        ensures
            r is Some <==> representable(rat_add(self@, other@)),
            r matches Some(q) ==> {
                &&& q.wf()
                &&& rat_eq(q@, rat_add(self@, other@))
                &&& q@ == canon(rat_add(self@, other@).n, rat_add(self@, other@).d)
            },
    {
        proof {
            lemma_mul_bound(self@.n, other@.d, i64::MAX as int, i64::MAX as int);
            lemma_mul_bound(other@.n, self@.d, i64::MAX as int, i64::MAX as int);
            lemma_mul_bound(self@.d, other@.d, i64::MAX as int, i64::MAX as int);
            assert(self@.d * other@.d >= 1) by (nonlinear_arith)
                requires
                    self@.d >= 1,
                    other@.d >= 1,
            ;
        }
        let n: i128 = (self.num as i128) * (other.den as i128) + (other.num as i128) * (self.den as i128);
        let d: i128 = (self.den as i128) * (other.den as i128);
        Rational::make(n, d)
    }

    /// Exact subtraction; `None` when the reduced difference is out of bounds.
    pub fn sub(&self, other: &Rational) -> (r: Option<Rational>)
        requires
            self.wf(),
            other.wf(),
        ensures
            r is Some <==> representable(rat_sub(self@, other@)),
            r matches Some(q) ==> {
                &&& q.wf()
                &&& rat_eq(q@, rat_sub(self@, other@))
                &&& q@ == canon(rat_sub(self@, other@).n, rat_sub(self@, other@).d)
            },
    {
        let m = other.neg();
        self.add(&m)
    }

    /// Exact multiplication; `None` when the reduced product is out of bounds.
    pub fn mul(&self, other: &Rational) -> (r: Option<Rational>)
        requires
            self.wf(),
            other.wf(),
        ensures
            r is Some <==> representable(rat_mul(self@, other@)),
            r matches Some(q) ==> {
                &&& q.wf()
                &&& rat_eq(q@, rat_mul(self@, other@))
                &&& q@ == canon(rat_mul(self@, other@).n, rat_mul(self@, other@).d)
            },
    {
        proof {
            lemma_mul_bound(self@.n, other@.n, i64::MAX as int, i64::MAX as int);
            lemma_mul_bound(self@.d, other@.d, i64::MAX as int, i64::MAX as int);
            assert(self@.d * other@.d >= 1) by (nonlinear_arith)
                requires
                    self@.d >= 1,
                    other@.d >= 1,
            ;
        }
        let n: i128 = (self.num as i128) * (other.num as i128);
        let d: i128 = (self.den as i128) * (other.den as i128);
        Rational::make(n, d)
    }

    /// Exact reciprocal of a nonzero rational; `None` when out of bounds.
    pub fn recip(&self) -> (r: Option<Rational>)
        requires
            self.wf(),
            self@.n != 0,
        ensures
            r is Some <==> representable(rat_recip(self@)),
            r matches Some(q) ==> {
                &&& q.wf()
                &&& rat_eq(q@, rat_recip(self@))
                &&& q@ == canon(rat_recip(self@).n, rat_recip(self@).d)
            },
    {
        proof {
            if self@.n < 0 {
                lemma_canon_neg_pair(self@.d, self@.n);
                assert(rat_eq(Rat { n: self@.d, d: self@.n }, rat_recip(self@))) by (nonlinear_arith);
            }
            lemma_canon(self@.d, self@.n);
        }
        let r = Rational::make(self.den as i128, self.num as i128);
        proof {
            if r is Some {
                lemma_rat_eq_trans(
                    r->Some_0@,
                    Rat { n: self@.d, d: self@.n },
                    rat_recip(self@),
                );
            }
        }
        r
    }

    /// Exact division by a nonzero rational; `None` when out of bounds.
    pub fn div(&self, other: &Rational) -> (r: Option<Rational>)
        requires
            self.wf(),
            other.wf(),
            other@.n != 0,
        ensures
            r is Some <==> representable(rat_div(self@, other@)),
            r matches Some(q) ==> {
                &&& q.wf()
                &&& rat_eq(q@, rat_div(self@, other@))
                &&& q@ == canon(rat_div(self@, other@).n, rat_div(self@, other@).d)
            },
    {
        proof {
            lemma_mul_bound(self@.n, other@.d, i64::MAX as int, i64::MAX as int);
            lemma_mul_bound(self@.d, other@.n, i64::MAX as int, i64::MAX as int);
            assert(self@.d * other@.n != 0) by (nonlinear_arith)
                requires
                    self@.d >= 1,
                    other@.n != 0,
            ;
            if other@.n < 0 {
                assert(rat_div(self@, other@) == (Rat {
                    n: self@.n * -other@.d,
                    d: self@.d * -other@.n,
                }));
                assert(self@.n * -other@.d == -(self@.n * other@.d)) by (nonlinear_arith);
                assert(self@.d * -other@.n == -(self@.d * other@.n)) by (nonlinear_arith);
                lemma_canon_neg_pair(self@.n * other@.d, self@.d * other@.n);
            }
            lemma_canon(self@.n * other@.d, self@.d * other@.n);
            lemma_canon(rat_div(self@, other@).n, rat_div(self@, other@).d);
        }
        let n: i128 = (self.num as i128) * (other.den as i128);
        let d: i128 = (self.den as i128) * (other.num as i128);
        Rational::make(n, d)
    }
}


// ------------------------------------------------------------------
// Textual form: an optional sign, a decimal numerator, and, for a
// non-integer value, a slash and a decimal denominator.
// ------------------------------------------------------------------

pub open spec fn is_digit(c: char) -> bool {
    '0' <= c && c <= '9'
}

pub open spec fn digit_val(c: char) -> nat
    recommends
        is_digit(c),
{
    (c as nat - '0' as nat) as nat
}

pub open spec fn digit_char(v: nat) -> char
    recommends
        v < 10,
{
    (('0' as nat + v) as u8) as char
}

pub open spec fn all_digits(s: Seq<char>) -> bool {
    forall|i: int| 0 <= i < s.len() ==> is_digit(#[trigger] s[i])
}

/// The value of a digit string, most significant digit first.
pub open spec fn digits_val(s: Seq<char>) -> nat
    decreases s.len(),
{
    if s.len() == 0 {
        0
    } else {
        digits_val(s.drop_last()) * 10 + digit_val(s.last())
    }
}

/// The decimal representation of `v`, without sign or leading zeros.
pub open spec fn dec_rep(v: nat) -> Seq<char>
    decreases v,
{
    if v < 10 {
        seq![digit_char(v)]
    } else {
        dec_rep(v / 10).push(digit_char(v % 10))
    }
}

pub proof fn lemma_dec_rep(v: nat)
    ensures
        dec_rep(v).len() >= 1,
        all_digits(dec_rep(v)),
        digits_val(dec_rep(v)) == v,
    decreases v,
{
    if v < 10 {
        assert(dec_rep(v) =~= seq![digit_char(v)]);
        assert(dec_rep(v).drop_last() =~= Seq::<char>::empty());
        assert(digits_val(dec_rep(v)) == digits_val(dec_rep(v).drop_last()) * 10 + digit_val(
            dec_rep(v).last(),
        ));
    } else {
        lemma_dec_rep(v / 10);
        let s = dec_rep(v);
        assert(s.drop_last() =~= dec_rep(v / 10));
        assert(digit_val(digit_char(v % 10)) == v % 10);
        assert(v / 10 * 10 + v % 10 == v) by (nonlinear_arith);
        assert forall|i: int| 0 <= i < s.len() implies is_digit(#[trigger] s[i]) by {
            if i < s.len() - 1 {
                assert(s[i] == dec_rep(v / 10)[i]);
            }
        }
    }
}

/// The canonical text of a rational value: sign, numerator, and the
/// denominator after a slash unless it is one.
pub open spec fn rational_text(r: Rat) -> Seq<char> {
    let sign: Seq<char> = if r.n < 0 {
        seq!['-']
    } else {
        Seq::empty()
    };
    let den: Seq<char> = if r.d == 1 {
        Seq::empty()
    } else {
        seq!['/'] + dec_rep(r.d as nat)
    };
    sign + dec_rep(abs_i(r.n)) + den
}

/// Appends the decimal representation of `v`.
fn push_dec(v: u64, out: &mut Vec<char>)
    ensures
        final(out)@ == old(out)@ + dec_rep(v as nat),
    decreases v,
{
    if v >= 10 {
        push_dec(v / 10, out);
    } else {
        assert(dec_rep(v as nat) =~= seq![digit_char(v as nat)]);
    }
    let d: u32 = (v % 10) as u32;
    let c: char = (48 + d as u8) as char;
    assert(c == digit_char((v % 10) as nat));
    out.push(c);
    proof {
        if v >= 10 {
            assert(dec_rep(v as nat) =~= dec_rep((v / 10) as nat).push(
                digit_char((v % 10) as nat),
            ));
            assert(out@ =~= old(out)@ + dec_rep(v as nat));
        } else {
            assert(out@ =~= old(out)@ + dec_rep(v as nat));
        }
    }
}

impl Rational {
    /// Appends this value's canonical text.
    pub fn push_text(&self, out: &mut Vec<char>)
        requires
            self.wf(),
        ensures
            final(out)@ == old(out)@ + rational_text(self@),
    {
        if self.num < 0 {
            out.push('-');
        }
        let mag: u64 = if self.num < 0 {
            (-self.num) as u64
        } else {
            self.num as u64
        };
        assert(mag as nat == abs_i(self@.n));
        push_dec(mag, out);
        if self.den != 1 {
            out.push('/');
            push_dec(self.den as u64, out);
        }
        assert(out@ =~= old(out)@ + rational_text(self@));
    }
}


// ------------------------------------------------------------------
// Numeral tokens: recognizing and evaluating the textual form.
// ------------------------------------------------------------------

/// Why a syntactically numeral-shaped token has no value: a zero
/// denominator, or a value outside the representable bounds (either a part
/// beyond the 128-bit scratch range, or a reduced value beyond the 64-bit
/// component bounds).
#[derive(Debug, Clone, Copy, PartialEq, Eq)]
pub enum NumeralError {
    ZeroDenominator,
    OutOfRange,
}

/// Outcome of scanning one token: not numeral-shaped at all (a variable),
/// a value, or a numeral-shaped token without a usable value.
#[derive(Debug, Clone, Copy, PartialEq, Eq)]
pub enum NumeralScan {
    NotNumeral,
    Value(Rational),
    Bad(NumeralError),
}

pub open spec fn sign_len(s: Seq<char>) -> int {
    if s.len() > 0 && (s[0] == '-' || s[0] == '+') {
        1
    } else {
        0
    }
}

pub open spec fn numeral_is_neg(s: Seq<char>) -> bool {
    s.len() > 0 && s[0] == '-'
}

pub open spec fn numeral_body(s: Seq<char>) -> Seq<char> {
    s.skip(sign_len(s))
}

/// Position of the first slash at or after `i`.
pub open spec fn find_slash(s: Seq<char>, i: int) -> Option<int>
    decreases s.len() - i,
{
    if i < 0 || i >= s.len() {
        None
    } else if s[i] == '/' {
        Some(i)
    } else {
        find_slash(s, i + 1)
    }
}

/// Numeral shape: an optional sign, then digits, then optionally a slash
/// and more digits.
pub open spec fn numeral_syntax(s: Seq<char>) -> bool {
    let b = numeral_body(s);
    match find_slash(b, 0) {
        None => b.len() > 0 && all_digits(b),
        Some(k) => {
            &&& k > 0
            &&& all_digits(b.take(k))
            &&& b.len() > k + 1
            &&& all_digits(b.skip(k + 1))
        },
    }
}

/// The numerator magnitude of a numeral-shaped token.
pub open spec fn numeral_mag(s: Seq<char>) -> nat {
    let b = numeral_body(s);
    match find_slash(b, 0) {
        None => digits_val(b),
        Some(k) => digits_val(b.take(k)),
    }
}

/// The denominator of a numeral-shaped token (one when no slash).
pub open spec fn numeral_den_val(s: Seq<char>) -> nat {
    let b = numeral_body(s);
    match find_slash(b, 0) {
        None => 1,
        Some(k) => digits_val(b.skip(k + 1)),
    }
}

/// The mathematical value named by a numeral-shaped token.
pub open spec fn numeral_rat(s: Seq<char>) -> Rat {
    Rat {
        n: if numeral_is_neg(s) {
            -(numeral_mag(s) as int)
        } else {
            numeral_mag(s) as int
        },
        d: numeral_den_val(s) as int,
    }
}

/// A numeral-shaped token evaluates to a rational exactly when both parts
/// fit the 128-bit scratch range and the reduced value fits the 64-bit
/// bounds.
pub open spec fn numeral_within(s: Seq<char>) -> bool {
    &&& numeral_mag(s) <= u128::MAX
    &&& numeral_den_val(s) <= u128::MAX
    &&& representable(numeral_rat(s))
}

proof fn lemma_find_slash_none(b: Seq<char>, i: int)
    requires
        0 <= i <= b.len(),
        forall|j: int| i <= j < b.len() ==> b[j] != '/',
    ensures
        find_slash(b, i) is None,
    decreases b.len() - i,
{
    if i < b.len() {
        lemma_find_slash_none(b, i + 1);
    }
}

proof fn lemma_find_slash_at(b: Seq<char>, i: int, k: int)
    requires
        0 <= i <= k < b.len(),
        b[k] == '/',
        forall|j: int| i <= j < k ==> b[j] != '/',
    ensures
        find_slash(b, i) == Some(k),
    decreases k - i,
{
    if i < k {
        lemma_find_slash_at(b, i + 1, k);
    }
}

/// Checks that a range of `tok` is all decimal digits.
fn all_digits_range(tok: &Vec<char>, start: usize, end: usize) -> (r: bool)
    requires
        start <= end <= tok@.len(),
    ensures
        r == all_digits(tok@.subrange(start as int, end as int)),
{
    let ghost sub = tok@.subrange(start as int, end as int);
    let mut i: usize = start;
    while i < end
        invariant
            start <= i <= end <= tok@.len(),
            sub == tok@.subrange(start as int, end as int),
            forall|j: int| start <= j < i ==> is_digit(#[trigger] tok@[j]),
        decreases end - i,
    {
        let c = tok[i];
        if !(c >= '0' && c <= '9') {
            assert(sub[i - start as int] == tok@[i as int]);
            return false;
        }
        i += 1;
    }
    assert forall|j: int| 0 <= j < sub.len() implies is_digit(#[trigger] sub[j]) by {
        assert(sub[j] == tok@[j + start as int]);
    }
    true
}

/// Evaluates a range of digits; `None` when the value exceeds the 128-bit
/// scratch range.
fn digits_to_val(tok: &Vec<char>, start: usize, end: usize) -> (r: Option<u128>)
    requires
        start <= end <= tok@.len(),
        all_digits(tok@.subrange(start as int, end as int)),
    ensures
        match r {
            Some(v) => v as nat == digits_val(tok@.subrange(start as int, end as int)),
            None => digits_val(tok@.subrange(start as int, end as int)) > u128::MAX,
        },
{
    let ghost sub = tok@.subrange(start as int, end as int);
    let mut acc: Option<u128> = Some(0);
    let mut i: usize = start;
    assert(tok@.subrange(start as int, start as int) =~= Seq::<char>::empty());
    while i < end
        invariant
            start <= i <= end <= tok@.len(),
            sub == tok@.subrange(start as int, end as int),
            all_digits(sub),
            match acc {
                Some(v) => v as nat == digits_val(tok@.subrange(start as int, i as int)),
                None => digits_val(tok@.subrange(start as int, i as int)) > u128::MAX,
            },
        decreases end - i,
    {
        let ghost pre = tok@.subrange(start as int, i as int);
        let ghost post = tok@.subrange(start as int, i as int + 1);
        assert(post.drop_last() =~= pre);
        assert(post.last() == tok@[i as int]);
        assert(is_digit(tok@[i as int])) by {
            assert(sub[i - start as int] == tok@[i as int]);
        }
        let c = tok[i];
        let d: u128 = (c as u32 - 48) as u128;
        assert(d as nat == digit_val(tok@[i as int]));
        acc = match acc {
            Some(v) => {
                match v.checked_mul(10) {
                    Some(m) => {
                        match m.checked_add(d) {
                            Some(t) => Some(t),
                            None => None,
                        }
                    },
                    None => {
                        proof {
                            assert(v * 10 + d > u128::MAX);
                        }
                        None
                    },
                }
            },
            None => {
                proof {
                    let pv = digits_val(pre);
                    assert(pv * 10 + digit_val(post.last()) > u128::MAX) by (nonlinear_arith)
                        requires
                            pv > u128::MAX,
                    ;
                }
                None
            },
        };
        i += 1;
    }
    assert(tok@.subrange(start as int, end as int) == sub);
    acc
}

impl Rational {
    /// Scans one token: a numeral-shaped token yields its value or the
    /// reason it has none; anything else is reported as not a numeral.
    pub fn scan_numeral(tok: &Vec<char>) -> (r: NumeralScan)
        ensures
            r is NotNumeral <==> !numeral_syntax(tok@),
            r matches NumeralScan::Value(q) ==> {
                &&& numeral_den_val(tok@) != 0
                &&& numeral_within(tok@)
                &&& q.wf()
                &&& q@ == canon(numeral_rat(tok@).n, numeral_rat(tok@).d)
                &&& rat_eq(q@, numeral_rat(tok@))
            },
            r matches NumeralScan::Bad(e) ==> numeral_syntax(tok@) && match e {
                NumeralError::ZeroDenominator => numeral_den_val(tok@) == 0,
                NumeralError::OutOfRange => numeral_den_val(tok@) != 0 && !numeral_within(tok@),
            },
    {
        let n = tok.len();
        let sl: usize = if n > 0 && (tok[0] == '-' || tok[0] == '+') {
            1
        } else {
            0
        };
        let neg: bool = n > 0 && tok[0] == '-';
        let ghost b = numeral_body(tok@);
        assert(b =~= tok@.subrange(sl as int, n as int));
        assert(neg == numeral_is_neg(tok@));
        // Find the first slash in the body.
        let mut j: usize = sl;
        while j < n && tok[j] != '/'
            invariant
                sl <= j <= n,
                n == tok@.len(),
                forall|m: int| sl <= m < j ==> tok@[m] != '/',
            decreases n - j,
    {
            j += 1;
        }
        assert(forall|m: int| 0 <= m < j - sl ==> b[m] == tok@[m + sl]);
        if j == n {
            proof {
                lemma_find_slash_none(b, 0);
            }
            // No slash: the whole body must be digits.
            if sl == n {
                assert(b.len() == 0);
                return NumeralScan::NotNumeral;
            }
            if !all_digits_range(tok, sl, n) {
                assert(!all_digits(b));
                return NumeralScan::NotNumeral;
            }
            assert(all_digits(b));
            assert(numeral_syntax(tok@));
            assert(numeral_den_val(tok@) == 1);
            match digits_to_val(tok, sl, n) {
                None => {
                    assert(numeral_mag(tok@) > u128::MAX);
                    NumeralScan::Bad(NumeralError::OutOfRange)
                },
                Some(mv) => {
                    assert(mv as nat == numeral_mag(tok@));
                    match Rational::make_mag(neg, mv, 1) {
                        Some(q) => {
                            assert(numeral_rat(tok@) == (Rat {
                                n: if neg {
                                    -(mv as int)
                                } else {
                                    mv as int
                                },
                                d: 1int,
                            }));
                            NumeralScan::Value(q)
                        },
                        None => NumeralScan::Bad(NumeralError::OutOfRange),
                    }
                },
            }
        } else {
            // A slash at position j.
            assert(tok@[j as int] == '/');
            let k = j - sl;
            proof {
                lemma_find_slash_at(b, 0, k as int);
            }
            if k == 0 {
                return NumeralScan::NotNumeral;
            }
            if j + 1 == n {
                assert(b.len() == k + 1);
                return NumeralScan::NotNumeral;
            }
            let ghost before = b.take(k as int);
            let ghost after = b.skip(k as int + 1);
            assert(before =~= tok@.subrange(sl as int, j as int));
            assert(after =~= tok@.subrange(j as int + 1, n as int));
            if !all_digits_range(tok, sl, j) {
                return NumeralScan::NotNumeral;
            }
            if !all_digits_range(tok, j + 1, n) {
                return NumeralScan::NotNumeral;
            }
            assert(numeral_syntax(tok@));
            match digits_to_val(tok, j + 1, n) {
                None => {
                    assert(numeral_den_val(tok@) > u128::MAX);
                    NumeralScan::Bad(NumeralError::OutOfRange)
                },
                Some(dv) => {
                    assert(dv as nat == numeral_den_val(tok@));
                    if dv == 0 {
                        return NumeralScan::Bad(NumeralError::ZeroDenominator);
                    }
                    match digits_to_val(tok, sl, j) {
                        None => {
                            assert(numeral_mag(tok@) > u128::MAX);
                            NumeralScan::Bad(NumeralError::OutOfRange)
                        },
                        Some(mv) => {
                            assert(mv as nat == numeral_mag(tok@));
                            match Rational::make_mag(neg, mv, dv) {
                                Some(q) => {
                                    assert(numeral_rat(tok@) == (Rat {
                                        n: if neg {
                                            -(mv as int)
                                        } else {
                                            mv as int
                                        },
                                        d: dv as int,
                                    }));
                                    NumeralScan::Value(q)
                                },
                                None => NumeralScan::Bad(NumeralError::OutOfRange),
                            }
                        },
                    }
                },
            }
        }
    }
}

/// A well-formed representation is already canonical.
pub proof fn lemma_canon_identity(r: Rat)
    requires
        1 <= r.d,
        gcd(abs_i(r.n), r.d as nat) == 1,
    ensures
        canon(r.n, r.d) == r,
{
    let an = abs_i(r.n);
    let ad = abs_i(r.d);
    assert(ad == r.d as nat);
    if an == 0 {
        vstd::arithmetic::div_mod::lemma_small_mod(0, r.d as nat);
        assert(gcd(0, r.d as nat) == gcd(r.d as nat, 0));
        assert(r.d == 1);
        assert(r.n == 0);
    } else {
        let g = gcd(an, ad);
        assert(g == 1);
        lemma_div_exact(an, 1, an);
        lemma_div_exact(ad, 1, ad);
    }
}

/// Printing a well-formed rational yields a numeral token that names the
/// same representation.
pub proof fn lemma_text_numeral(r: Rat)
    requires
        rat_wf(r),
    ensures
        numeral_syntax(rational_text(r)),
        numeral_rat(rational_text(r)) == r,
        numeral_den_val(rational_text(r)) == r.d,
        numeral_within(rational_text(r)),
        canon(numeral_rat(rational_text(r)).n, numeral_rat(rational_text(r)).d) == r,
{
    let t = rational_text(r);
    let an = abs_i(r.n);
    lemma_dec_rep(an);
    lemma_dec_rep(r.d as nat);
    lemma_canon_identity(r);
    let nd = dec_rep(an);
    let dd = dec_rep(r.d as nat);
    if r.n < 0 {
        assert(t[0] == '-');
        assert(sign_len(t) == 1);
        assert(numeral_is_neg(t));
    } else {
        assert(t[0] == nd[0]);
        assert(is_digit(nd[0]));
        assert(sign_len(t) == 0);
        assert(!numeral_is_neg(t));
    }
    let b = numeral_body(t);
    if r.d == 1 {
        assert(b =~= nd);
        assert(forall|j: int| 0 <= j < b.len() ==> b[j] != '/');
        lemma_find_slash_none(b, 0);
        assert(numeral_syntax(t));
        assert(numeral_mag(t) == an);
        assert(numeral_den_val(t) == 1);
    } else {
        assert(b =~= nd + seq!['/'] + dd);
        let k = nd.len() as int;
        assert(b[k] == '/');
        assert(forall|j: int| 0 <= j < k ==> b[j] == nd[j] && b[j] != '/');
        lemma_find_slash_at(b, 0, k);
        assert(b.take(k) =~= nd);
        assert(b.skip(k + 1) =~= dd);
        assert(numeral_syntax(t));
        assert(numeral_mag(t) == an);
        assert(numeral_den_val(t) == r.d);
    }
    assert(numeral_rat(t) == r);
    assert(representable(r));
}


} // verus!
