use vstd::arithmetic::div_mod::{lemma_fundamental_div_mod, lemma_mod_multiples_basic};
use vstd::prelude::*;

verus! {

/// Greatest common divisor by Euclid's algorithm.
pub open spec fn gcd(a: nat, b: nat) -> nat
    decreases b,
{
    if b == 0 {
        a
    } else {
        gcd(b, a % b)
    }
}

pub open spec fn abs(x: int) -> nat {
    if x < 0 {
        (-x) as nat
    } else {
        x as nat
    }
}

/// A fraction as a pair (numerator, denominator) of mathematical integers.
pub type Frac = (int, int);

/// Two fractions with non-zero denominators denote the same number.
pub open spec fn frac_eq(a: Frac, b: Frac) -> bool {
    a.0 * b.1 == b.0 * a.1
}

pub open spec fn frac_add(a: Frac, b: Frac) -> Frac {
    (a.0 * b.1 + b.0 * a.1, a.1 * b.1)
}

pub open spec fn frac_sub(a: Frac, b: Frac) -> Frac {
    (a.0 * b.1 - b.0 * a.1, a.1 * b.1)
}

pub open spec fn frac_mul(a: Frac, b: Frac) -> Frac {
    (a.0 * b.0, a.1 * b.1)
}

pub open spec fn frac_div(a: Frac, b: Frac) -> Frac {
    (a.0 * b.1, a.1 * b.0)
}

/// The lowest-terms form of `n / d`, with a positive denominator.
pub open spec fn reduced(f: Frac) -> Frac {
    let g = gcd(abs(f.0), abs(f.1));
    let q = abs(f.0) as int / g as int;
    let r = abs(f.1) as int / g as int;
    if (f.0 < 0) != (f.1 < 0) {
        (-q, r)
    } else {
        (q, r)
    }
}

pub open spec fn fits_i64(f: Frac) -> bool {
    -0x7fff_ffff_ffff_ffff <= f.0 <= 0x7fff_ffff_ffff_ffff && 0 < f.1 <= 0x7fff_ffff_ffff_ffff
}

/// The rational number `f` in lowest terms, when both parts fit in an `i64`.
pub open spec fn rational_of(f: Frac) -> Option<Rational> {
    let p = reduced(f);
    if fits_i64(p) {
        Some(Rational { num: p.0 as i64, den: p.1 as i64 })
    } else {
        None
    }
}

/// An exact rational number `num / den`.
///
/// Values built by this module are in lowest terms with a positive
/// denominator, so two of them are equal exactly when they denote the same
/// number.
#[derive(Clone, Copy, Debug, PartialEq, Eq, Structural, Hash)]
pub struct Rational {
    pub num: i64,
    pub den: i64,
}

proof fn lemma_gcd(a: nat, b: nat)
    requires
        a > 0 || b > 0,
    ensures
        gcd(a, b) > 0,
        a % gcd(a, b) == 0,
        b % gcd(a, b) == 0,
        b > 0 ==> gcd(a, b) <= b,
        a > 0 ==> gcd(a, b) <= a,
    decreases b,
{
    if b == 0 {
        lemma_mod_multiples_basic(1, a as int);
        lemma_mod_multiples_basic(0, a as int);
    } else {
        let r = a % b;
        lemma_gcd(b, r);
        let g = gcd(b, r);
        lemma_fundamental_div_mod(a as int, b as int);
        lemma_fundamental_div_mod(b as int, g as int);
        lemma_fundamental_div_mod(r as int, g as int);
        let k1 = b as int / g as int;
        let k2 = r as int / g as int;
        let q = a as int / b as int;
        assert(a == g * (k1 * q + k2)) by (nonlinear_arith)
            requires
                a == b * q + r,
                b == g * k1,
                r == g * k2,
        ;
        lemma_mod_multiples_basic(k1 * q + k2, g as int);
        assert(g * (k1 * q + k2) == (k1 * q + k2) * g) by (nonlinear_arith);
        if a > 0 {
            assert(k1 * q + k2 >= 1 ==> g <= a) by (nonlinear_arith)
                requires
                    a == g * (k1 * q + k2),
                    g > 0,
            ;
            assert(k1 * q + k2 >= 1) by (nonlinear_arith)
                requires
                    a == g * (k1 * q + k2),
                    g > 0,
                    a > 0,
            ;
        }
        assert(g <= b) by (nonlinear_arith)
            requires
                b == g * k1,
                g > 0,
                b > 0,
        ;
    }
}

/// What `reduced` gives denotes the same number, and has a positive
/// denominator no larger in size than the input's.
pub proof fn lemma_reduced(f: Frac)
    requires
        f.1 != 0,
    ensures
        frac_eq(reduced(f), f),
        reduced(f).1 > 0,
        reduced(f).1 <= abs(f.1),
        abs(reduced(f).0) <= abs(f.0),
{
    let an = abs(f.0);
    let ad = abs(f.1);
    lemma_gcd(an, ad);
    let g = gcd(an, ad);
    lemma_fundamental_div_mod(an as int, g as int);
    lemma_fundamental_div_mod(ad as int, g as int);
    let q = an as int / g as int;
    let r = ad as int / g as int;
    assert(an == g * q && ad == g * r);
    assert(q * ad == an * r) by (nonlinear_arith)
        requires
            an == g * q,
            ad == g * r,
    ;
    assert(r >= 1 && r <= ad && 0 <= q <= an) by (nonlinear_arith)
        requires
            an == g * q,
            ad == g * r,
            g > 0,
            ad > 0,
            an >= 0,
    ;
    let p = reduced(f);
    if f.0 < 0 {
        if f.1 < 0 {
            assert(p.0 * f.1 == f.0 * p.1) by (nonlinear_arith)
                requires
                    p.0 == q,
                    p.1 == r,
                    an == -f.0,
                    ad == -f.1,
                    q * ad == an * r,
            ;
        } else {
            assert(p.0 * f.1 == f.0 * p.1) by (nonlinear_arith)
                requires
                    p.0 == -q,
                    p.1 == r,
                    an == -f.0,
                    ad == f.1,
                    q * ad == an * r,
            ;
        }
    } else {
        if f.1 < 0 {
            assert(p.0 * f.1 == f.0 * p.1) by (nonlinear_arith)
                requires
                    p.0 == -q,
                    p.1 == r,
                    an == f.0,
                    ad == -f.1,
                    q * ad == an * r,
            ;
        } else {
            assert(p.0 * f.1 == f.0 * p.1) by (nonlinear_arith)
                requires
                    p.0 == q,
                    p.1 == r,
                    an == f.0,
                    ad == f.1,
                    q * ad == an * r,
            ;
        }
    }
}

proof fn lemma_mul_i64_bound(a: int, b: int)
    requires
        i64::MIN < a <= i64::MAX,
        i64::MIN < b <= i64::MAX,
    ensures
        -0x3fff_ffff_ffff_ffff_ffff_ffff_ffff_ffff <= a * b <= 0x3fff_ffff_ffff_ffff_ffff_ffff_ffff_ffff,
{
    assert(-0x3fff_ffff_ffff_ffff_ffff_ffff_ffff_ffff <= a * b <= 0x3fff_ffff_ffff_ffff_ffff_ffff_ffff_ffff)
        by (nonlinear_arith)
        requires
            -0x7fff_ffff_ffff_ffff <= a <= 0x7fff_ffff_ffff_ffff,
            -0x7fff_ffff_ffff_ffff <= b <= 0x7fff_ffff_ffff_ffff,
    ;
}

/// Having the same value is transitive through a fraction with a non-zero
/// denominator.
pub proof fn lemma_frac_eq_trans(a: Frac, b: Frac, c: Frac)
    requires
        b.1 != 0,
        frac_eq(a, b),
        frac_eq(b, c),
    ensures
        frac_eq(a, c),
{
    assert(b.1 * (a.0 * c.1 - c.0 * a.1) == 0) by (nonlinear_arith)
        requires
            a.0 * b.1 == b.0 * a.1,
            b.0 * c.1 == c.0 * b.1,
    ;
    assert(a.0 * c.1 - c.0 * a.1 == 0) by (nonlinear_arith)
        requires
            b.1 * (a.0 * c.1 - c.0 * a.1) == 0,
            b.1 != 0,
    ;
}

pub proof fn lemma_mul4(w: int, x: int, y: int, z: int)
    ensures
        (w * x) * (y * z) == (w * y) * (x * z),
{
    assert((w * x) * (y * z) == (w * y) * (x * z)) by (nonlinear_arith);
}

/// Sums of fractions of equal value have equal value.
pub proof fn lemma_frac_add_cong(x: Frac, xx: Frac, y: Frac, yy: Frac)
    requires
        frac_eq(x, xx),
        frac_eq(y, yy),
    ensures
        frac_eq(frac_add(x, y), frac_add(xx, yy)),
{
    let (a, b, aa, bb) = (x.0, x.1, xx.0, xx.1);
    let (c, d, cc, dd) = (y.0, y.1, yy.0, yy.1);
    let p = bb * dd;
    let q = b * d;
    assert((a * d + c * b) * p == (a * d) * p + (c * b) * p) by (nonlinear_arith);
    assert((aa * dd + cc * bb) * q == (aa * dd) * q + (cc * bb) * q) by (nonlinear_arith);
    lemma_mul4(a, d, bb, dd);
    lemma_mul4(c, b, dd, bb);
    lemma_mul4(aa, dd, b, d);
    lemma_mul4(cc, bb, d, b);
    assert((a * bb) * (d * dd) == (aa * b) * (d * dd));
    assert((c * dd) * (b * bb) == (cc * d) * (b * bb));
    assert(d * dd == dd * d) by (nonlinear_arith);
    assert(b * bb == bb * b) by (nonlinear_arith);
}

/// Products of fractions of equal value have equal value.
pub proof fn lemma_frac_mul_cong(x: Frac, xx: Frac, y: Frac, yy: Frac)
    requires
        frac_eq(x, xx),
        frac_eq(y, yy),
    ensures
        frac_eq(frac_mul(x, y), frac_mul(xx, yy)),
{
    lemma_mul4(x.0, y.0, xx.1, yy.1);
    lemma_mul4(xx.0, yy.0, x.1, y.1);
    assert((x.0 * xx.1) * (y.0 * yy.1) == (xx.0 * x.1) * (yy.0 * y.1));
}

fn gcd_u128(a: u128, b: u128) -> (g: u128)
    ensures
        g == gcd(a as nat, b as nat),
{
    let mut x = a;
    let mut y = b;
    while y != 0
        invariant
            gcd(x as nat, y as nat) == gcd(a as nat, b as nat),
        decreases y,
    {
        let r = x % y;
        x = y;
        y = r;
    }
    x
}

fn abs_u128(x: i128) -> (r: u128)
    requires
        x > i128::MIN,
    ensures
        r == abs(x as int),
{
    if x < 0 {
        (-x) as u128
    } else {
        x as u128
    }
}

impl Rational {
    pub open spec fn wf(self) -> bool {
        self.den > 0 && self.num > i64::MIN
    }

    pub open spec fn frac(self) -> Frac {
        (self.num as int, self.den as int)
    }

    /// The rational `n / d` in lowest terms, or `None` when its parts do
    /// not fit in an `i64`.
    fn reduce(n: i128, d: i128) -> (r: Option<Rational>)
        requires
            d != 0,
            n > i128::MIN,
            d > i128::MIN,
        ensures
            r == rational_of((n as int, d as int)),
            r matches Some(x) ==> x.wf() && frac_eq(x.frac(), (n as int, d as int)),
    {
        let an = abs_u128(n);
        let ad = abs_u128(d);
        proof {
            lemma_reduced((n as int, d as int));
            lemma_gcd(an as nat, ad as nat);
        }
        let g = gcd_u128(an, ad);
        let q = an / g;
        let r = ad / g;
        if q > 0x7fff_ffff_ffff_ffff || r > 0x7fff_ffff_ffff_ffff {
            return None;
        }
        let num: i64 = if (n < 0) != (d < 0) {
            -(q as i64)
        } else {
            q as i64
        };
        Some(Rational { num, den: r as i64 })
    }

    /// The rational `num / den` in lowest terms.
    pub fn new(num: i64, den: i64) -> (r: Rational)
        requires
            den != 0,
            num > i64::MIN,
            den > i64::MIN,
        ensures
            Some(r) == rational_of((num as int, den as int)),
            r.wf(),
            frac_eq(r.frac(), (num as int, den as int)),
    {
        proof {
            lemma_reduced((num as int, den as int));
        }
        match Self::reduce(num as i128, den as i128) {
            Some(r) => r,
            None => Rational { num: 0, den: 1 },
        }
    }

    pub fn from_int(n: i64) -> (r: Rational)
        requires
            n > i64::MIN,
        ensures
            r == (Rational { num: n, den: 1 }),
    {
        Rational { num: n, den: 1 }
    }

    pub fn zero() -> (r: Rational)
        ensures
            r == (Rational { num: 0, den: 1 }),
    {
        Rational { num: 0, den: 1 }
    }

    pub fn one() -> (r: Rational)
        ensures
            r == (Rational { num: 1, den: 1 }),
    {
        Rational { num: 1, den: 1 }
    }

    pub fn is_zero(&self) -> (r: bool)
        ensures
            r == (self.num == 0),
    {
        self.num == 0
    }

    pub fn is_one(&self) -> (r: bool)
        ensures
            r == (self.num == self.den),
    {
        self.num == self.den
    }

    pub fn checked_add(&self, o: &Rational) -> (r: Option<Rational>)
        requires
            self.wf(),
            o.wf(),
        ensures
            r == rational_of(frac_add(self.frac(), o.frac())),
            r matches Some(x) ==> x.wf() && frac_eq(x.frac(), frac_add(self.frac(), o.frac())),
    {
        proof {
            lemma_mul_i64_bound(self.num as int, o.den as int);
            lemma_mul_i64_bound(o.num as int, self.den as int);
            lemma_mul_i64_bound(self.den as int, o.den as int);
            assert(self.den as int * o.den as int > 0) by (nonlinear_arith)
                requires
                    self.den > 0,
                    o.den > 0,
            ;
        }
        let a = self.num as i128 * o.den as i128;
        let b = o.num as i128 * self.den as i128;
        let d = self.den as i128 * o.den as i128;
        Self::reduce(a + b, d)
    }

    pub fn checked_sub(&self, o: &Rational) -> (r: Option<Rational>)
        requires
            self.wf(),
            o.wf(),
        ensures
            r == rational_of(frac_sub(self.frac(), o.frac())),
            r matches Some(x) ==> x.wf() && frac_eq(x.frac(), frac_sub(self.frac(), o.frac())),
    {
        proof {
            lemma_mul_i64_bound(self.num as int, o.den as int);
            lemma_mul_i64_bound(o.num as int, self.den as int);
            lemma_mul_i64_bound(self.den as int, o.den as int);
            assert(self.den as int * o.den as int > 0) by (nonlinear_arith)
                requires
                    self.den > 0,
                    o.den > 0,
            ;
        }
        let a = self.num as i128 * o.den as i128;
        let b = o.num as i128 * self.den as i128;
        let d = self.den as i128 * o.den as i128;
        Self::reduce(a - b, d)
    }

    pub fn checked_mul(&self, o: &Rational) -> (r: Option<Rational>)
        requires
            self.wf(),
            o.wf(),
        ensures
            r == rational_of(frac_mul(self.frac(), o.frac())),
            r matches Some(x) ==> x.wf() && frac_eq(x.frac(), frac_mul(self.frac(), o.frac())),
    {
        proof {
            lemma_mul_i64_bound(self.num as int, o.num as int);
            lemma_mul_i64_bound(self.den as int, o.den as int);
            assert(self.den as int * o.den as int > 0) by (nonlinear_arith)
                requires
                    self.den > 0,
                    o.den > 0,
            ;
        }
        let n = self.num as i128 * o.num as i128;
        let d = self.den as i128 * o.den as i128;
        Self::reduce(n, d)
    }

    /// `self / o`; `None` when `o` is zero or the result does not fit.
    pub fn checked_div(&self, o: &Rational) -> (r: Option<Rational>)
        requires
            self.wf(),
            o.wf(),
        ensures
            o.num == 0 ==> r is None,
            o.num != 0 ==> r == rational_of(frac_div(self.frac(), o.frac())),
            r matches Some(x) ==> x.wf() && frac_eq(x.frac(), frac_div(self.frac(), o.frac())),
    {
        if o.num == 0 {
            return None;
        }
        proof {
            lemma_mul_i64_bound(self.num as int, o.den as int);
            lemma_mul_i64_bound(self.den as int, o.num as int);
            assert(self.den as int * o.num as int != 0) by (nonlinear_arith)
                requires
                    self.den > 0,
                    o.num != 0,
            ;
        }
        let n = self.num as i128 * o.den as i128;
        let d = self.den as i128 * o.num as i128;
        Self::reduce(n, d)
    }
}

} // verus!
