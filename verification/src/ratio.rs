//! Exact rational arithmetic.
//!
//! Statistic values (sample means, variances, unique-word ratios) are kept as
//! exact rationals instead of floating point, so every contract in the
//! statistics engine can state the result of a computation exactly.  A stored
//! ratio is kept reduced within a fixed magnitude bound; an operation whose
//! reduced result would leave the bound reports failure instead of returning
//! an approximate value.

use vstd::prelude::*;
use vstd::arithmetic::div_mod::{
    lemma_fundamental_div_mod, lemma_mod_division_less_than_divisor, lemma_mod_multiples_basic,
};

verus! {

/// Magnitude bound for the numerator and denominator of a stored [`Ratio`].
pub const RAT_BOUND: i64 = 131072;

/// Mathematical model of a rational number: `num / den` with `den > 0`.
pub struct Rat {
    pub num: int,
    pub den: int,
}

pub open spec fn rat_wf(a: Rat) -> bool {
    a.den > 0
}

/// Two models denote the same rational number.
pub open spec fn rat_eq(a: Rat, b: Rat) -> bool {
    a.num * b.den == b.num * a.den
}

pub open spec fn rat_of_int(i: int) -> Rat {
    Rat { num: i, den: 1 }
}

pub open spec fn rat_add(a: Rat, b: Rat) -> Rat {
    Rat { num: a.num * b.den + b.num * a.den, den: a.den * b.den }
}

pub open spec fn rat_sub(a: Rat, b: Rat) -> Rat {
    Rat { num: a.num * b.den - b.num * a.den, den: a.den * b.den }
}

pub open spec fn rat_mul(a: Rat, b: Rat) -> Rat {
    Rat { num: a.num * b.num, den: a.den * b.den }
}

/// Division of a rational by a positive integer.
pub open spec fn rat_div_int(a: Rat, n: int) -> Rat {
    Rat { num: a.num, den: a.den * n }
}

pub open spec fn rat_le(a: Rat, b: Rat) -> bool {
    a.num * b.den <= b.num * a.den
}

pub open spec fn rat_lt(a: Rat, b: Rat) -> bool {
    a.num * b.den < b.num * a.den
}

pub open spec fn abs_int(i: int) -> int {
    if i < 0 {
        -i
    } else {
        i
    }
}

/// Euclid's greatest common divisor.
pub open spec fn gcd_spec(a: nat, b: nat) -> nat
    decreases b,
{
    if b == 0 {
        a
    } else {
        gcd_spec(b, a % b)
    }
}

pub proof fn lemma_gcd_pos(a: nat, b: nat)
    requires
        a > 0 || b > 0,
    ensures
        gcd_spec(a, b) > 0,
    decreases b,
{
    if b == 0 {
    } else {
        lemma_mod_division_less_than_divisor(a as int, b as int);
        lemma_gcd_pos(b, (a % b) as nat);
    }
}

pub open spec fn divides(d: int, a: int) -> bool {
    exists|q: int| a == #[trigger] (d * q)
}

pub proof fn lemma_gcd_divides(a: nat, b: nat)
    requires
        a > 0 || b > 0,
    ensures
        divides(gcd_spec(a, b) as int, a as int),
        divides(gcd_spec(a, b) as int, b as int),
    decreases b,
{
    let g = gcd_spec(a, b) as int;
    if b == 0 {
        assert(a as int == g * 1);
        assert(b as int == g * 0);
    } else {
        lemma_mod_division_less_than_divisor(a as int, b as int);
        lemma_gcd_divides(b, (a % b) as nat);
        let q1 = choose|q: int| b as int == #[trigger] (g * q);
        let q2 = choose|q: int| (a % b) as int == #[trigger] (g * q);
        lemma_fundamental_div_mod(a as int, b as int);
        assert(a as int == (a as int / b as int) * (b as int) + (a % b));
        assert(a as int == (a as int / b as int) * (g * q1) + g * q2);
        assert((a as int / b as int) * (g * q1) + g * q2 == g * ((a as int / b as int) * q1 + q2))
            by (nonlinear_arith);
        assert(a as int == g * ((a as int / b as int) * q1 + q2));
    }
}

/// The reduced form of a rational model: both components divided by their
/// greatest common divisor, the sign kept on the numerator.
pub open spec fn rat_norm(a: Rat) -> Rat
    recommends
        rat_wf(a),
{
    let g = gcd_spec(abs_int(a.num) as nat, a.den as nat) as int;
    let m = abs_int(a.num) / g;
    Rat { num: if a.num < 0 { -m } else { m }, den: a.den / g }
}

/// A reduced model small enough to be stored in a [`Ratio`].
pub open spec fn rat_fits(a: Rat) -> bool {
    &&& -(RAT_BOUND as int) <= a.num <= RAT_BOUND as int
    &&& 0 < a.den <= RAT_BOUND as int
}

pub proof fn lemma_exact_div_mul(x: nat, g: nat)
    requires
        g > 0,
        divides(g as int, x as int),
    ensures
        (x as int / g as int) * g as int == x as int,
        x as int / g as int >= 0,
    decreases x,
{
    let q = choose|q: int| x as int == #[trigger] (g as int * q);
    lemma_fundamental_div_mod(x as int, g as int);
    lemma_mod_is_zero_for_multiple(g as int, q);
    assert(x as int % g as int == 0);
}

proof fn lemma_mod_is_zero_for_multiple(g: int, q: int)
    requires
        g > 0,
    ensures
        (g * q) % g == 0,
{
    lemma_mod_multiples_basic(q, g);
    assert(g * q == q * g) by (nonlinear_arith);
}

/// Reducing a well-formed model preserves the denoted rational number.
pub proof fn lemma_norm_eq(a: Rat)
    requires
        rat_wf(a),
    ensures
        rat_wf(rat_norm(a)),
        rat_eq(rat_norm(a), a),
{
    let m = abs_int(a.num) as nat;
    let d = a.den as nat;
    let g = gcd_spec(m, d);
    lemma_gcd_pos(m, d);
    lemma_gcd_divides(m, d);
    lemma_exact_div_mul(m, g);
    lemma_exact_div_mul(d, g);
    let mr = m as int / g as int;
    let dr = d as int / g as int;
    assert(mr * g as int == m as int);
    assert(dr * g as int == d as int);
    assert(dr > 0) by (nonlinear_arith)
        requires
            dr * g as int == d as int,
            d as int > 0,
            g as int > 0,
            dr >= 0,
    ;
    if a.num < 0 {
        assert((-mr) * a.den == a.num * dr) by (nonlinear_arith)
            requires
                mr * g as int == -a.num,
                dr * g as int == a.den,
                g as int > 0,
        ;
    } else {
        assert(mr * a.den == a.num * dr) by (nonlinear_arith)
            requires
                mr * g as int == a.num,
                dr * g as int == a.den,
                g as int > 0,
        ;
    }
}

pub proof fn lemma_rat_eq_trans(a: Rat, b: Rat, c: Rat)
    by (nonlinear_arith)
    requires
        rat_wf(a),
        rat_wf(b),
        rat_wf(c),
        rat_eq(a, b),
        rat_eq(b, c),
    ensures
        rat_eq(a, c),
{
}

/// The arithmetic on models preserves well-formedness.
pub proof fn lemma_rat_ops_wf(a: Rat, b: Rat, n: int)
    by (nonlinear_arith)
    requires
        rat_wf(a),
        rat_wf(b),
        n > 0,
    ensures
        rat_wf(rat_add(a, b)),
        rat_wf(rat_sub(a, b)),
        rat_wf(rat_mul(a, b)),
        rat_wf(rat_div_int(a, n)),
{
}

/// Products of four factors can be regrouped pairwise.
pub proof fn lemma_four_regroup(x: int, y: int, z: int, w: int)
    by (nonlinear_arith)
    ensures
        (x * y) * (z * w) == (x * z) * (y * w),
        (x * y) * (z * w) == (x * w) * (y * z),
        (x * y) * (z * w) == (x * w) * (z * y),
{
}

proof fn lemma_distrib(p: int, q: int, r: int)
    by (nonlinear_arith)
    ensures
        (p + q) * r == p * r + q * r,
        (p - q) * r == p * r - q * r,
{
}

/// The arithmetic on models respects rational equality.
pub proof fn lemma_rat_add_congr(a: Rat, a2: Rat, b: Rat, b2: Rat)
    requires
        rat_wf(a),
        rat_wf(a2),
        rat_wf(b),
        rat_wf(b2),
        rat_eq(a, a2),
        rat_eq(b, b2),
    ensures
        rat_eq(rat_add(a, b), rat_add(a2, b2)),
        rat_eq(rat_sub(a, b), rat_sub(a2, b2)),
        rat_eq(rat_mul(a, b), rat_mul(a2, b2)),
{
    let an = a.num;
    let ad = a.den;
    let bn = b.num;
    let bd = b.den;
    let cn = a2.num;
    let cd = a2.den;
    let dn = b2.num;
    let dd = b2.den;
    // First summand carried over to the other side.
    lemma_four_regroup(an, bd, cd, dd);
    assert((an * bd) * (cd * dd) == (an * cd) * (bd * dd));
    assert((an * cd) * (bd * dd) == (cn * ad) * (bd * dd));
    lemma_four_regroup(cn, ad, bd, dd);
    assert((cn * ad) * (bd * dd) == (cn * dd) * (ad * bd));
    // Second summand likewise.
    lemma_four_regroup(bn, ad, cd, dd);
    assert((bn * ad) * (cd * dd) == (bn * dd) * (ad * cd));
    assert((bn * dd) * (ad * cd) == (dn * bd) * (ad * cd));
    lemma_four_regroup(dn, bd, ad, cd);
    assert((dn * bd) * (ad * cd) == (dn * cd) * (ad * bd));
    lemma_distrib(an * bd, bn * ad, cd * dd);
    lemma_distrib(cn * dd, dn * cd, ad * bd);
    assert((an * bd + bn * ad) * (cd * dd) == (cn * dd + dn * cd) * (ad * bd));
    assert((an * bd - bn * ad) * (cd * dd) == (cn * dd - dn * cd) * (ad * bd));
    // The product in one step.
    lemma_four_regroup(an, bn, cd, dd);
    assert((an * bn) * (cd * dd) == (an * cd) * (bn * dd));
    assert((an * cd) * (bn * dd) == (cn * ad) * (dn * bd));
    lemma_four_regroup(cn, ad, dn, bd);
    assert((cn * ad) * (dn * bd) == (cn * dn) * (ad * bd));
}

pub proof fn lemma_rat_div_int_congr(a: Rat, a2: Rat, n: int)
    by (nonlinear_arith)
    requires
        rat_wf(a),
        rat_wf(a2),
        rat_eq(a, a2),
        n > 0,
    ensures
        rat_eq(rat_div_int(a, n), rat_div_int(a2, n)),
{
}

/// The order on models respects rational equality.
pub proof fn lemma_rat_lt_congr(a: Rat, a2: Rat, b: Rat, b2: Rat)
    by (nonlinear_arith)
    requires
        rat_wf(a),
        rat_wf(a2),
        rat_wf(b),
        rat_wf(b2),
        rat_eq(a, a2),
        rat_eq(b, b2),
    ensures
        rat_lt(a, b) == rat_lt(a2, b2),
        rat_le(a, b) == rat_le(a2, b2),
{
}

pub proof fn lemma_rat_add_comm(x: Rat, y: Rat)
    requires
        rat_wf(x),
        rat_wf(y),
    ensures
        rat_eq(rat_add(x, y), rat_add(y, x)),
{
    assert((x.num * y.den + y.num * x.den) * (y.den * x.den) == (y.num * x.den + x.num * y.den) * (
    x.den * y.den)) by (nonlinear_arith);
}

pub proof fn lemma_rat_add_assoc(x: Rat, y: Rat, z: Rat)
    requires
        rat_wf(x),
        rat_wf(y),
        rat_wf(z),
    ensures
        rat_eq(rat_add(rat_add(x, y), z), rat_add(x, rat_add(y, z))),
{
    let l = rat_add(rat_add(x, y), z);
    let r = rat_add(x, rat_add(y, z));
    assert((x.den * y.den) * z.den == x.den * (y.den * z.den)) by (nonlinear_arith);
    assert((x.num * y.den) * z.den == x.num * (y.den * z.den)) by (nonlinear_arith);
    assert((y.num * x.den) * z.den == (y.num * z.den) * x.den) by (nonlinear_arith);
    assert(z.num * (x.den * y.den) == (z.num * y.den) * x.den) by (nonlinear_arith);
    lemma_distrib(x.num * y.den, y.num * x.den, z.den);
    lemma_distrib(y.num * z.den, z.num * y.den, x.den);
    assert(l.num == r.num);
    assert(l.den == r.den);
}

/// Adding and then subtracting the same rational is the identity.
pub proof fn lemma_rat_add_sub_cancel(y: Rat, x: Rat)
    requires
        rat_wf(x),
        rat_wf(y),
    ensures
        rat_eq(rat_sub(rat_add(y, x), y), x),
{
    let l = rat_sub(rat_add(y, x), y);
    assert(l.num * x.den == x.num * l.den) by (nonlinear_arith)
        requires
            l.num == (y.num * x.den + x.num * y.den) * y.den - y.num * (y.den * x.den),
            l.den == (y.den * x.den) * y.den,
    ;
}

pub proof fn lemma_mul_bound(x: int, y: int, b1: int, b2: int)
    by (nonlinear_arith)
    requires
        -b1 <= x <= b1,
        -b2 <= y <= b2,
        b1 >= 0,
        b2 >= 0,
    ensures
        -(b1 * b2) <= x * y <= b1 * b2,
        x >= 1 && y >= 1 ==> x * y >= 1,
{
}

/// An exact rational number stored in reduced form within [`RAT_BOUND`].
#[derive(Clone, Copy, Debug, PartialEq, Eq, Structural)]
pub struct Ratio {
    pub num: i64,
    pub den: i64,
}

impl View for Ratio {
    type V = Rat;

    open spec fn view(&self) -> Rat {
        Rat { num: self.num as int, den: self.den as int }
    }
}

fn gcd_u128(a: u128, b: u128) -> (g: u128)
    ensures
        g as nat == gcd_spec(a as nat, b as nat),
{
    let mut x = a;
    let mut y = b;
    while y != 0
        invariant
            gcd_spec(x as nat, y as nat) == gcd_spec(a as nat, b as nat),
        decreases y,
    {
        let r = x % y;
        x = y;
        y = r;
    }
    x
}

impl Ratio {
    /// A stored ratio is reduced and bounded; the denominator is positive.
    pub open spec fn wf(self) -> bool {
        &&& 1 <= self.den <= RAT_BOUND
        &&& -RAT_BOUND <= self.num <= RAT_BOUND
    }

    pub fn zero() -> (r: Ratio)
        ensures
            r.wf(),
            r@ == rat_of_int(0),
    {
        Ratio { num: 0, den: 1 }
    }

    pub fn one() -> (r: Ratio)
        ensures
            r.wf(),
            r@ == rat_of_int(1),
    {
        Ratio { num: 1, den: 1 }
    }

    /// An integer small enough for the magnitude bound.
    pub fn from_int(i: i64) -> (r: Option<Ratio>)
        ensures
            match r {
                Some(c) => c.wf() && c@ == rat_of_int(i as int),
                None => !rat_fits(rat_of_int(i as int)),
            },
    {
        if -RAT_BOUND <= i && i <= RAT_BOUND {
            Some(Ratio { num: i, den: 1 })
        } else {
            None
        }
    }

    /// Builds the reduced ratio `num / den`; `None` when `den` is zero or the
    /// reduced form leaves the magnitude bound.
    pub fn new(num: i64, den: i64) -> (r: Option<Ratio>)
        ensures
            ({
                let adj = Rat {
                    num: if den < 0 { -(num as int) } else { num as int },
                    den: abs_int(den as int),
                };
                match r {
                    Some(c) => {
                        &&& den != 0
                        &&& c.wf()
                        &&& c@ == rat_norm(adj)
                        &&& rat_eq(c@, adj)
                    },
                    None => den == 0 || !rat_fits(rat_norm(adj)),
                }
            }),
    {
        if den == 0 {
            return None;
        }
        let mut n: i128 = num as i128;
        let mut d: i128 = den as i128;
        if d < 0 {
            n = -n;
            d = -d;
        }
        norm_parts(n, d)
    }

    pub fn is_le(&self, other: &Ratio) -> (r: bool)
        requires
            self.wf(),
            other.wf(),
        ensures
            r == rat_le(self@, other@),
    {
        proof {
            lemma_mul_bound(self.num as int, other.den as int, RAT_BOUND as int, RAT_BOUND as int);
            lemma_mul_bound(other.num as int, self.den as int, RAT_BOUND as int, RAT_BOUND as int);
        }
        (self.num as i128) * (other.den as i128) <= (other.num as i128) * (self.den as i128)
    }

    pub fn is_lt(&self, other: &Ratio) -> (r: bool)
        requires
            self.wf(),
            other.wf(),
        ensures
            r == rat_lt(self@, other@),
    {
        proof {
            lemma_mul_bound(self.num as int, other.den as int, RAT_BOUND as int, RAT_BOUND as int);
            lemma_mul_bound(other.num as int, self.den as int, RAT_BOUND as int, RAT_BOUND as int);
        }
        (self.num as i128) * (other.den as i128) < (other.num as i128) * (self.den as i128)
    }

    pub fn same_value(&self, other: &Ratio) -> (r: bool)
        requires
            self.wf(),
            other.wf(),
        ensures
            r == rat_eq(self@, other@),
    {
        proof {
            lemma_mul_bound(self.num as int, other.den as int, RAT_BOUND as int, RAT_BOUND as int);
            lemma_mul_bound(other.num as int, self.den as int, RAT_BOUND as int, RAT_BOUND as int);
        }
        (self.num as i128) * (other.den as i128) == (other.num as i128) * (self.den as i128)
    }

    pub fn is_negative(&self) -> (r: bool)
        ensures
            r == (self@.num < 0),
    {
        self.num < 0
    }

    pub fn numerator(&self) -> (r: i64)
        ensures
            r as int == self@.num,
    {
        self.num
    }

    pub fn denominator(&self) -> (r: i64)
        ensures
            r as int == self@.den,
    {
        self.den
    }

    pub fn try_add(&self, other: &Ratio) -> (r: Option<Ratio>)
        requires
            self.wf(),
            other.wf(),
        ensures
            ({
                let e = rat_add(self@, other@);
                match r {
                    Some(c) => c.wf() && c@ == rat_norm(e) && rat_eq(c@, e),
                    None => !rat_fits(rat_norm(e)),
                }
            }),
    {
        proof {
            lemma_mul_bound(self.num as int, other.den as int, RAT_BOUND as int, RAT_BOUND as int);
            lemma_mul_bound(other.num as int, self.den as int, RAT_BOUND as int, RAT_BOUND as int);
            lemma_mul_bound(self.den as int, other.den as int, RAT_BOUND as int, RAT_BOUND as int);
        }
        let n = (self.num as i128) * (other.den as i128) + (other.num as i128) * (self.den as i128);
        let d = (self.den as i128) * (other.den as i128);
        norm_parts(n, d)
    }

    pub fn try_sub(&self, other: &Ratio) -> (r: Option<Ratio>)
        requires
            self.wf(),
            other.wf(),
        ensures
            ({
                let e = rat_sub(self@, other@);
                match r {
                    Some(c) => c.wf() && c@ == rat_norm(e) && rat_eq(c@, e),
                    None => !rat_fits(rat_norm(e)),
                }
            }),
    {
        proof {
            lemma_mul_bound(self.num as int, other.den as int, RAT_BOUND as int, RAT_BOUND as int);
            lemma_mul_bound(other.num as int, self.den as int, RAT_BOUND as int, RAT_BOUND as int);
            lemma_mul_bound(self.den as int, other.den as int, RAT_BOUND as int, RAT_BOUND as int);
        }
        let n = (self.num as i128) * (other.den as i128) - (other.num as i128) * (self.den as i128);
        let d = (self.den as i128) * (other.den as i128);
        norm_parts(n, d)
    }

    pub fn try_mul(&self, other: &Ratio) -> (r: Option<Ratio>)
        requires
            self.wf(),
            other.wf(),
        ensures
            ({
                let e = rat_mul(self@, other@);
                match r {
                    Some(c) => c.wf() && c@ == rat_norm(e) && rat_eq(c@, e),
                    None => !rat_fits(rat_norm(e)),
                }
            }),
    {
        proof {
            lemma_mul_bound(self.num as int, other.num as int, RAT_BOUND as int, RAT_BOUND as int);
            lemma_mul_bound(self.den as int, other.den as int, RAT_BOUND as int, RAT_BOUND as int);
        }
        let n = (self.num as i128) * (other.num as i128);
        let d = (self.den as i128) * (other.den as i128);
        norm_parts(n, d)
    }

    /// Division by a positive sample count.
    pub fn try_div_count(&self, n: u64) -> (r: Option<Ratio>)
        requires
            self.wf(),
            n >= 1,
        ensures
            ({
                let e = rat_div_int(self@, n as int);
                match r {
                    Some(c) => c.wf() && c@ == rat_norm(e) && rat_eq(c@, e),
                    None => !rat_fits(rat_norm(e)),
                }
            }),
    {
        proof {
            lemma_mul_bound(self.den as int, n as int, RAT_BOUND as int, u64::MAX as int);
        }
        let d = (self.den as i128) * (n as i128);
        norm_parts(self.num as i128, d)
    }
}

impl Ratio {
    /// Whether `value` deviates from `mean` by more than `threshold` standard
    /// deviations, decided exactly on the squares:
    /// `(value - mean)^2 > threshold^2 * variance`.
    pub fn deviation_exceeds(value: &Ratio, mean: &Ratio, threshold: &Ratio, variance: &Ratio) -> (r:
        bool)
        requires
            value.wf(),
            mean.wf(),
            threshold.wf(),
            variance.wf(),
        ensures
            r == rat_lt(
                rat_mul(rat_mul(threshold@, threshold@), variance@),
                rat_mul(rat_sub(value@, mean@), rat_sub(value@, mean@)),
            ),
    {
        proof {
            lemma_mul_bound(value.num as int, mean.den as int, 131072, 131072);
            lemma_mul_bound(mean.num as int, value.den as int, 131072, 131072);
            lemma_mul_bound(value.den as int, mean.den as int, 131072, 131072);
            lemma_mul_bound(threshold.num as int, threshold.num as int, 131072, 131072);
            lemma_mul_bound(threshold.den as int, threshold.den as int, 131072, 131072);
        }
        let dn = (value.num as i128) * (mean.den as i128) - (mean.num as i128) * (value.den
            as i128);
        let dd = (value.den as i128) * (mean.den as i128);
        let tn2 = (threshold.num as i128) * (threshold.num as i128);
        let td2 = (threshold.den as i128) * (threshold.den as i128);
        proof {
            lemma_mul_bound(tn2 as int, variance.num as int, 17179869184, 131072);
            lemma_mul_bound(td2 as int, variance.den as int, 17179869184, 131072);
            lemma_mul_bound(dn as int, dn as int, 34359738368, 34359738368);
            lemma_mul_bound(dd as int, dd as int, 17179869184, 17179869184);
        }
        let lhs_num = tn2 * (variance.num as i128);
        let lhs_den = td2 * (variance.den as i128);
        let rhs_num = dn * dn;
        let rhs_den = dd * dd;
        proof {
            lemma_mul_bound(lhs_num as int, rhs_den as int, 2251799813685248, 295147905179352825856);
            lemma_mul_bound(rhs_num as int, lhs_den as int, 1180591620717411303424, 2251799813685248);
        }
        lhs_num * rhs_den < rhs_num * lhs_den
    }
}

/// Reduces `n / d` by the greatest common divisor and stores it when the
/// result stays inside the magnitude bound.
pub(crate) fn norm_parts(n: i128, d: i128) -> (r: Option<Ratio>)
    requires
        d > 0,
        i128::MIN < n,
    ensures
        ({
            let e = Rat { num: n as int, den: d as int };
            match r {
                Some(c) => c.wf() && c@ == rat_norm(e) && rat_eq(c@, e),
                None => !rat_fits(rat_norm(e)),
            }
        }),
{
    let ghost e = Rat { num: n as int, den: d as int };
    let neg = n < 0;
    let na: u128 = if neg {
        (-n) as u128
    } else {
        n as u128
    };
    let da: u128 = d as u128;
    assert(na as nat == abs_int(e.num));
    let g = gcd_u128(na, da);
    proof {
        lemma_gcd_pos(na as nat, da as nat);
        lemma_gcd_divides(na as nat, da as nat);
        lemma_exact_div_mul(na as nat, g as nat);
        lemma_exact_div_mul(da as nat, g as nat);
        lemma_norm_eq(e);
    }
    let nr = na / g;
    let dr = da / g;
    if nr <= RAT_BOUND as u128 && dr <= RAT_BOUND as u128 {
        let num: i64 = if neg {
            -(nr as i64)
        } else {
            nr as i64
        };
        let c = Ratio { num, den: dr as i64 };
        assert(c@ == rat_norm(e));
        Some(c)
    } else {
        assert(!rat_fits(rat_norm(e)));
        None
    }
}

} // verus!
