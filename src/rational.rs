use vstd::prelude::*;
use num::traits::{CheckedAdd, CheckedDiv, CheckedMul, CheckedSub};
use num::rational::Ratio;

verus! {

/// An exact fraction `numer / denom`, the field that the tableau is computed over.
///
/// A well-formed value has a positive denominator and a numerator that can be
/// negated without overflow. It need not be in lowest terms: two values are the
/// same number when their cross products agree (`same_value`).
#[derive(Clone, Copy, Debug)]
pub struct Rational {
    pub numer: i64,
    pub denom: i64,
}

impl Rational {
    pub open spec fn wf(self) -> bool {
        self.denom > 0 && self.numer > i64::MIN
    }

    pub open spec fn is_zero_value(self) -> bool {
        self.numer == 0
    }

    pub open spec fn is_one_value(self) -> bool {
        self.numer == self.denom
    }

    pub fn zero() -> (r: Rational)
        ensures
            r.wf(),
            r.numer == 0,
            r.denom == 1,
    {
        Rational { numer: 0, denom: 1 }
    }

    pub fn one() -> (r: Rational)
        ensures
            r.wf(),
            r.numer == 1,
            r.denom == 1,
    {
        Rational { numer: 1, denom: 1 }
    }

    pub fn from_integer(n: i64) -> (r: Rational)
        requires
            n > i64::MIN,
        ensures
            r.wf(),
            r.numer == n,
            r.denom == 1,
    {
        Rational { numer: n, denom: 1 }
    }

    /// The fraction `n / d`, reduced to lowest terms.
    pub fn new(n: i64, d: i64) -> (r: Rational)
        requires
            d != 0,
            n > i64::MIN,
            d > i64::MIN,
        ensures
            r.wf(),
            r.numer * d == n * r.denom,
    {
        ratio_new(n, d)
    }

    pub fn is_zero(&self) -> (r: bool)
        ensures
            r == self.is_zero_value(),
    {
        self.numer == 0
    }

    pub fn is_positive(&self) -> (r: bool)
        ensures
            r == (self.numer > 0),
    {
        self.numer > 0
    }

    pub fn is_negative(&self) -> (r: bool)
        ensures
            r == (self.numer < 0),
    {
        self.numer < 0
    }

    pub fn neg(&self) -> (r: Rational)
        requires
            self.wf(),
        ensures
            r.wf(),
            r.numer == -self.numer,
            r.denom == self.denom,
    {
        Rational { numer: -self.numer, denom: self.denom }
    }

    /// Compares the two numbers by value: `Less`, `Equal` or `Greater`.
    pub fn compare(&self, other: &Rational) -> (r: std::cmp::Ordering)
        requires
            self.wf(),
            other.wf(),
        ensures
            r == cmp_values(*self, *other),
    {
        proof {
            lemma_cross_fits(self.numer, other.denom);
            lemma_cross_fits(other.numer, self.denom);
        }
        let lhs: i128 = (self.numer as i128) * (other.denom as i128);
        let rhs: i128 = (other.numer as i128) * (self.denom as i128);
        if lhs < rhs {
            std::cmp::Ordering::Less
        } else if lhs == rhs {
            std::cmp::Ordering::Equal
        } else {
            std::cmp::Ordering::Greater
        }
    }

    pub fn add(&self, other: &Rational) -> (r: Option<Rational>)
        requires
            self.wf(),
            other.wf(),
        ensures
            r matches Some(s) ==> s.wf() && is_sum(*self, *other, s),
            r == rat_add(*self, *other),
    {
        checked(ratio_add(*self, *other))
    }

    pub fn sub(&self, other: &Rational) -> (r: Option<Rational>)
        requires
            self.wf(),
            other.wf(),
        ensures
            r matches Some(s) ==> s.wf() && is_difference(*self, *other, s),
            r == rat_sub(*self, *other),
    {
        checked(ratio_sub(*self, *other))
    }

    pub fn mul(&self, other: &Rational) -> (r: Option<Rational>)
        requires
            self.wf(),
            other.wf(),
        ensures
            r matches Some(s) ==> s.wf() && is_product(*self, *other, s),
            r == rat_mul(*self, *other),
    {
        checked(ratio_mul(*self, *other))
    }

    /// The quotient; `None` on a zero divisor, as for an overflow.
    pub fn div(&self, other: &Rational) -> (r: Option<Rational>)
        requires
            self.wf(),
            other.wf(),
        ensures
            other.numer == 0 ==> r is None,
            r matches Some(s) ==> s.wf() && is_quotient(*self, *other, s),
            r == rat_div(*self, *other),
    {
        if other.numer == 0 {
            None
        } else {
            checked(ratio_div(*self, *other))
        }
    }
}

/// Orders two fractions with positive denominators by value.
pub open spec fn cmp_values(a: Rational, b: Rational) -> std::cmp::Ordering {
    if a.numer * b.denom < b.numer * a.denom {
        std::cmp::Ordering::Less
    } else if a.numer * b.denom == b.numer * a.denom {
        std::cmp::Ordering::Equal
    } else {
        std::cmp::Ordering::Greater
    }
}

pub open spec fn same_value(a: Rational, b: Rational) -> bool {
    a.numer * b.denom == b.numer * a.denom
}

pub open spec fn less_value(a: Rational, b: Rational) -> bool {
    a.numer * b.denom < b.numer * a.denom
}

/// `r == a + b` as numbers.
pub open spec fn is_sum(a: Rational, b: Rational, r: Rational) -> bool {
    r.numer * (a.denom * b.denom) == (a.numer * b.denom + b.numer * a.denom) * r.denom
}

/// `r == a - b` as numbers.
pub open spec fn is_difference(a: Rational, b: Rational, r: Rational) -> bool {
    r.numer * (a.denom * b.denom) == (a.numer * b.denom - b.numer * a.denom) * r.denom
}

/// `r == a * b` as numbers.
pub open spec fn is_product(a: Rational, b: Rational, r: Rational) -> bool {
    r.numer * (a.denom * b.denom) == (a.numer * b.numer) * r.denom
}

/// `r == a / b` as numbers.
pub open spec fn is_quotient(a: Rational, b: Rational, r: Rational) -> bool {
    r.numer * (a.denom * b.numer) == (a.numer * b.denom) * r.denom
}

proof fn lemma_cross_fits(a: i64, b: i64)
    ensures
        i128::MIN <= (a as int) * (b as int) <= i128::MAX,
{
    assert(-0x8000_0000_0000_0000 <= a < 0x8000_0000_0000_0000);
    assert(-0x8000_0000_0000_0000 <= b < 0x8000_0000_0000_0000);
    assert((a as int) * (b as int) <= 0x4000_0000_0000_0000_0000_0000_0000_0000) by (nonlinear_arith)
        requires
            -0x8000_0000_0000_0000 <= a < 0x8000_0000_0000_0000,
            -0x8000_0000_0000_0000 <= b < 0x8000_0000_0000_0000,
    ;
    assert((a as int) * (b as int) >= -0x4000_0000_0000_0000_0000_0000_0000_0000) by (nonlinear_arith)
        requires
            -0x8000_0000_0000_0000 <= a < 0x8000_0000_0000_0000,
            -0x8000_0000_0000_0000 <= b < 0x8000_0000_0000_0000,
    ;
}

/// The greatest common divisor, by Euclid's algorithm.
pub open spec fn gcd(a: nat, b: nat) -> nat
    decreases b,
{
    if b == 0 {
        a
    } else {
        gcd(b, a % b)
    }
}

pub open spec fn abs(x: int) -> nat {
    if x < 0 {
        (-x) as nat
    } else {
        x as nat
    }
}

/// `x` is an `i64`.
pub open spec fn fits(x: int) -> bool {
    i64::MIN <= x <= i64::MAX
}

/// `n / d` in lowest terms with a positive denominator, for `d != 0`; `None`
/// where moving the sign to the numerator leaves `i64` (as `num` checks it).
pub open spec fn lowest_terms(n: int, d: int) -> Option<Rational> {
    let g = gcd(abs(n), abs(d)) as int;
    let rn = n / g;
    let rd = d / g;
    if rd < 0 {
        if fits(-rn) && fits(-rd) {
            Some(Rational { numer: (-rn) as i64, denom: (-rd) as i64 })
        } else {
            None
        }
    } else {
        Some(Rational { numer: rn as i64, denom: rd as i64 })
    }
}

/// What `num`'s `checked_add` (`sub`: `negate`) of `Ratio<i64>` returns: it
/// brings both to `lcm(b, d)` and fails where the lcm, either scaled
/// numerator or their sum leaves `i64`.
pub open spec fn checked_sum(a: Rational, b: Rational, negate: bool) -> Option<Rational> {
    let (an, ad, bn, bd) = (a.numer as int, a.denom as int, b.numer as int, b.denom as int);
    let g = gcd(ad as nat, bd as nat) as int;
    let lcm = (ad / g) * bd;
    let ln = (lcm / ad) * an;
    let rn = (lcm / bd) * bn;
    let s = if negate {
        ln - rn
    } else {
        ln + rn
    };
    if fits(lcm) && fits(ln) && fits(rn) && fits(s) {
        lowest_terms(s, lcm)
    } else {
        None
    }
}

/// What `num`'s `checked_mul` of `Ratio<i64>` returns: it cancels across
/// first and fails where either cross-reduced product leaves `i64`.
pub open spec fn checked_product(a: Rational, b: Rational) -> Option<Rational> {
    let (an, ad, bn, bd) = (a.numer as int, a.denom as int, b.numer as int, b.denom as int);
    let gad = gcd(abs(an), bd as nat) as int;
    let gbc = gcd(ad as nat, abs(bn)) as int;
    let n = (an / gad) * (bn / gbc);
    let d = (ad / gbc) * (bd / gad);
    if fits(n) && fits(d) {
        lowest_terms(n, d)
    } else {
        None
    }
}

/// What `num`'s `checked_div` of `Ratio<i64>` returns for a non-zero
/// divisor: equal denominators or equal numerators cancel directly, else it
/// cancels across and fails where a product leaves `i64`; the sign then moves
/// to the numerator.
pub open spec fn checked_quotient(a: Rational, b: Rational) -> Option<Rational> {
    if a.denom == b.denom {
        lowest_terms(a.numer as int, b.numer as int)
    } else if a.numer == b.numer {
        lowest_terms(b.denom as int, a.denom as int)
    } else {
        let (an, ad, bn, bd) = (a.numer as int, a.denom as int, b.numer as int, b.denom as int);
        let gac = gcd(abs(an), abs(bn)) as int;
        let gbd = gcd(ad as nat, bd as nat) as int;
        let n = (an / gac) * (bd / gbd);
        let d = (ad / gbd) * (bn / gac);
        if fits(n) && fits(d) {
            lowest_terms(n, d)
        } else {
            None
        }
    }
}

/// A `num` result kept only where its numerator can be negated.
pub open spec fn kept(r: Option<Rational>) -> Option<Rational> {
    match r {
        Some(x) => if x.numer == i64::MIN {
            None
        } else {
            Some(x)
        },
        None => None,
    }
}

pub open spec fn rat_add(a: Rational, b: Rational) -> Option<Rational> {
    kept(checked_sum(a, b, false))
}

pub open spec fn rat_sub(a: Rational, b: Rational) -> Option<Rational> {
    kept(checked_sum(a, b, true))
}

pub open spec fn rat_mul(a: Rational, b: Rational) -> Option<Rational> {
    kept(checked_product(a, b))
}

pub open spec fn rat_div(a: Rational, b: Rational) -> Option<Rational> {
    if b.numer == 0 {
        None
    } else {
        kept(checked_quotient(a, b))
    }
}

/// Keeps a result of `num`'s checked arithmetic only where its numerator can be negated.
fn checked(r: Option<Rational>) -> (s: Option<Rational>)
    requires
        r matches Some(x) ==> x.denom > 0,
    ensures
        s matches Some(x) ==> x.wf() && r == Some(x),
        s == kept(r),
{
    match r {
        Some(x) => if x.numer == i64::MIN {
            None
        } else {
            Some(x)
        },
        None => None,
    }
}

/// Relies on `num::rational::Ratio::new`: it reduces `n / d` to lowest terms
/// with a positive denominator, keeping the value; the reduced numerator is
/// no larger in magnitude than `n`.
#[verifier::external_body]
fn ratio_new(n: i64, d: i64) -> (r: Rational)
    requires
        d != 0,
        n > i64::MIN,
        d > i64::MIN,
    ensures
        r.wf(),
        r.numer * d == n * r.denom,
{
    let x = Ratio::new(n, d);
    Rational { numer: *x.numer(), denom: *x.denom() }
}

/// Relies on `CheckedAdd::checked_add` of `num::rational::Ratio<i64>`: the exact
/// sum in lowest terms, `None` exactly where a step of it overflows
/// (`checked_sum`).
#[verifier::external_body]
fn ratio_add(a: Rational, b: Rational) -> (r: Option<Rational>)
    requires
        a.wf(),
        b.wf(),
    ensures
        r matches Some(s) ==> s.denom > 0 && is_sum(a, b, s),
        r == checked_sum(a, b, false),
{
    let x = Ratio::new_raw(a.numer, a.denom);
    let y = Ratio::new_raw(b.numer, b.denom);
    x.checked_add(&y).map(|s| Rational { numer: *s.numer(), denom: *s.denom() })
}

/// Relies on `CheckedSub::checked_sub` of `num::rational::Ratio<i64>`: the exact
/// difference in lowest terms, `None` exactly where a step of it overflows
/// (`checked_sum`).
#[verifier::external_body]
fn ratio_sub(a: Rational, b: Rational) -> (r: Option<Rational>)
    requires
        a.wf(),
        b.wf(),
    ensures
        r matches Some(s) ==> s.denom > 0 && is_difference(a, b, s),
        r == checked_sum(a, b, true),
{
    let x = Ratio::new_raw(a.numer, a.denom);
    let y = Ratio::new_raw(b.numer, b.denom);
    x.checked_sub(&y).map(|s| Rational { numer: *s.numer(), denom: *s.denom() })
}

/// Relies on `CheckedMul::checked_mul` of `num::rational::Ratio<i64>`: the exact
/// product in lowest terms, `None` exactly where a step of it overflows
/// (`checked_product`).
#[verifier::external_body]
fn ratio_mul(a: Rational, b: Rational) -> (r: Option<Rational>)
    requires
        a.wf(),
        b.wf(),
    ensures
        r matches Some(s) ==> s.denom > 0 && is_product(a, b, s),
        r == checked_product(a, b),
{
    let x = Ratio::new_raw(a.numer, a.denom);
    let y = Ratio::new_raw(b.numer, b.denom);
    x.checked_mul(&y).map(|s| Rational { numer: *s.numer(), denom: *s.denom() })
}

/// Relies on `CheckedDiv::checked_div` of `num::rational::Ratio<i64>`: the exact
/// quotient in lowest terms, `None` exactly where a step of it overflows
/// (`checked_quotient`).
#[verifier::external_body]
fn ratio_div(a: Rational, b: Rational) -> (r: Option<Rational>)
    requires
        a.wf(),
        b.wf(),
        b.numer != 0,
    ensures
        r matches Some(s) ==> s.denom > 0 && is_quotient(a, b, s),
        r == checked_quotient(a, b),
{
    let x = Ratio::new_raw(a.numer, a.denom);
    let y = Ratio::new_raw(b.numer, b.denom);
    x.checked_div(&y).map(|s| Rational { numer: *s.numer(), denom: *s.denom() })
}

} // verus!

verus! {

/// `pa / qa < pb / qb` for non-zero `qa`, `qb` of any sign.
pub open spec fn frac_less(pa: int, qa: int, pb: int, qb: int) -> bool {
    pa * qa * (qb * qb) < pb * qb * (qa * qa)
}

/// `a1 / b1 < a2 / b2` as numbers, for `b1`, `b2` of non-zero value.
pub open spec fn quotient_less(a1: Rational, b1: Rational, a2: Rational, b2: Rational) -> bool {
    frac_less(a1.numer * b1.denom, a1.denom * b1.numer, a2.numer * b2.denom, a2.denom * b2.numer)
}

/// `a / b > 0` as numbers.
pub open spec fn quotient_positive(a: Rational, b: Rational) -> bool {
    (a.numer > 0 && b.numer > 0) || (a.numer < 0 && b.numer < 0)
}

/// Comparing two computed quotients compares the fractions they stand for.
pub proof fn lemma_quotient_order(
    a1: Rational,
    b1: Rational,
    r1: Rational,
    a2: Rational,
    b2: Rational,
    r2: Rational,
)
    requires
        a1.wf(),
        b1.wf(),
        r1.wf(),
        a2.wf(),
        b2.wf(),
        r2.wf(),
        b1.numer != 0,
        b2.numer != 0,
        is_quotient(a1, b1, r1),
        is_quotient(a2, b2, r2),
    ensures
        less_value(r1, r2) == quotient_less(a1, b1, a2, b2),
{
    let pa: int = a1.numer * b1.denom;
    let qa: int = a1.denom * b1.numer;
    let pb: int = a2.numer * b2.denom;
    let qb: int = a2.denom * b2.numer;
    let n1: int = r1.numer as int;
    let d1: int = r1.denom as int;
    let n2: int = r2.numer as int;
    let d2: int = r2.denom as int;
    assert(qa != 0) by (nonlinear_arith)
        requires
            qa == a1.denom * b1.numer,
            a1.denom > 0,
            b1.numer != 0,
    ;
    assert(qb != 0) by (nonlinear_arith)
        requires
            qb == a2.denom * b2.numer,
            a2.denom > 0,
            b2.numer != 0,
    ;
    assert(n1 * qa == pa * d1);
    assert(n2 * qb == pb * d2);
    let k: int = qa * qa * (qb * qb);
    assert(k > 0) by (nonlinear_arith)
        requires
            k == qa * qa * (qb * qb),
            qa != 0,
            qb != 0,
    ;
    // (n1 d2 < n2 d1) scaled by k: n1 qa * (qa qb qb d2) < n2 qb * (qb qa qa d1)
    assert((n1 * d2) * k == (pa * qa * (qb * qb)) * (d1 * d2)) by (nonlinear_arith)
        requires
            n1 * qa == pa * d1,
            k == qa * qa * (qb * qb),
    ;
    assert((n2 * d1) * k == (pb * qb * (qa * qa)) * (d1 * d2)) by (nonlinear_arith)
        requires
            n2 * qb == pb * d2,
            k == qa * qa * (qb * qb),
    ;
    assert(d1 * d2 > 0) by (nonlinear_arith)
        requires
            d1 > 0,
            d2 > 0,
    ;
    assert((n1 * d2 < n2 * d1) == ((n1 * d2) * k < (n2 * d1) * k)) by (nonlinear_arith)
        requires
            k > 0,
    ;
    assert((pa * qa * (qb * qb) < pb * qb * (qa * qa)) == ((pa * qa * (qb * qb)) * (d1 * d2) < (pb
        * qb * (qa * qa)) * (d1 * d2))) by (nonlinear_arith)
        requires
            d1 * d2 > 0,
    ;
}

} // verus!

verus! {

/// The order by value is transitive, strictly where either step is strict.
pub proof fn lemma_order_trans(a: Rational, b: Rational, c: Rational)
    requires
        a.wf(),
        b.wf(),
        c.wf(),
    ensures
        a.numer * b.denom <= b.numer * a.denom && b.numer * c.denom <= c.numer * b.denom
            ==> a.numer * c.denom <= c.numer * a.denom,
        a.numer * b.denom < b.numer * a.denom && b.numer * c.denom <= c.numer * b.denom
            ==> a.numer * c.denom < c.numer * a.denom,
        a.numer * b.denom <= b.numer * a.denom && b.numer * c.denom < c.numer * b.denom
            ==> a.numer * c.denom < c.numer * a.denom,
        a.numer * b.denom == b.numer * a.denom && b.numer * c.denom == c.numer * b.denom
            ==> a.numer * c.denom == c.numer * a.denom,
{
    let an: int = a.numer as int;
    let ad: int = a.denom as int;
    let bn: int = b.numer as int;
    let bd: int = b.denom as int;
    let cn: int = c.numer as int;
    let cd: int = c.denom as int;
    assert(an * bd <= bn * ad && bn * cd <= cn * bd ==> an * cd <= cn * ad) by (nonlinear_arith)
        requires
            ad > 0,
            bd > 0,
            cd > 0,
    {
        if an * bd <= bn * ad && bn * cd <= cn * bd {
            assert(an * bd * cd <= bn * ad * cd);
            assert(bn * cd * ad <= cn * bd * ad);
            assert(an * cd * bd <= cn * ad * bd);
        }
    }
    assert(an * bd < bn * ad && bn * cd <= cn * bd ==> an * cd < cn * ad) by (nonlinear_arith)
        requires
            ad > 0,
            bd > 0,
            cd > 0,
    {
        if an * bd < bn * ad && bn * cd <= cn * bd {
            assert(an * bd * cd < bn * ad * cd);
            assert(bn * cd * ad <= cn * bd * ad);
            assert(an * cd * bd < cn * ad * bd);
        }
    }
    assert(an * bd <= bn * ad && bn * cd < cn * bd ==> an * cd < cn * ad) by (nonlinear_arith)
        requires
            ad > 0,
            bd > 0,
            cd > 0,
    {
        if an * bd <= bn * ad && bn * cd < cn * bd {
            assert(an * bd * cd <= bn * ad * cd);
            assert(bn * cd * ad < cn * bd * ad);
            assert(an * cd * bd < cn * ad * bd);
        }
    }
    assert(an * bd == bn * ad && bn * cd == cn * bd ==> an * cd == cn * ad) by (nonlinear_arith)
        requires
            ad > 0,
            bd > 0,
            cd > 0,
    {
        if an * bd == bn * ad && bn * cd == cn * bd {
            assert(an * bd * cd == bn * ad * cd);
            assert(bn * cd * ad == cn * bd * ad);
            assert(an * cd * bd == cn * ad * bd);
        }
    }
}

} // verus!

verus! {

/// `r == x - f * p` as numbers.
pub open spec fn is_sub_product(x: Rational, f: Rational, p: Rational, r: Rational) -> bool {
    r.numer * (x.denom * (f.denom * p.denom)) == (x.numer * (f.denom * p.denom) - (f.numer
        * p.numer) * x.denom) * r.denom
}

/// A difference with a product, computed in two steps, is the combined value.
pub proof fn lemma_sub_product(x: Rational, f: Rational, p: Rational, t: Rational, r: Rational)
    requires
        x.wf(),
        f.wf(),
        p.wf(),
        t.wf(),
        r.wf(),
        is_product(f, p, t),
        is_difference(x, t, r),
    ensures
        is_sub_product(x, f, p, r),
{
    let fp: int = f.denom * p.denom;
    assert(fp > 0) by (nonlinear_arith)
        requires
            fp == f.denom * p.denom,
            f.denom > 0,
            p.denom > 0,
    ;
    let tn: int = t.numer as int;
    let td: int = t.denom as int;
    let xn: int = x.numer as int;
    let xd: int = x.denom as int;
    let rn: int = r.numer as int;
    let rd: int = r.denom as int;
    let q: int = f.numer * p.numer;
    assert(tn * fp == q * td);
    assert(rn * (xd * td) == (xn * td - tn * xd) * rd);
    let lhs: int = rn * (xd * td);
    let rhs: int = (xn * td - tn * xd) * rd;
    assert(lhs * fp == rhs * fp);
    assert(lhs * fp == rn * (xd * fp) * td) by (nonlinear_arith)
        requires
            lhs == rn * (xd * td),
    ;
    let u: int = xn * td - tn * xd;
    assert(rhs * fp == u * (rd * fp)) by (nonlinear_arith)
        requires
            rhs == u * rd,
    ;
    assert(u * (rd * fp) == xn * td * (rd * fp) - tn * xd * (rd * fp)) by (nonlinear_arith)
        requires
            u == xn * td - tn * xd,
    ;
    assert(xn * td * (rd * fp) == xn * fp * rd * td) by (nonlinear_arith);
    assert(tn * xd * (rd * fp) == (tn * fp) * xd * rd) by (nonlinear_arith);
    assert((tn * fp) * xd * rd == (q * td) * xd * rd);
    assert((q * td) * xd * rd == q * xd * rd * td) by (nonlinear_arith);
    assert((xn * fp - q * xd) * rd * td == xn * fp * rd * td - q * xd * rd * td) by (nonlinear_arith);
    assert(rn * (xd * fp) == (xn * fp - q * xd) * rd) by (nonlinear_arith)
        requires
            rn * (xd * fp) * td == (xn * fp - q * xd) * rd * td,
            td > 0,
    ;
}

/// Subtracting a multiple of zero keeps the value, so a zero stays zero and a one stays one.
pub proof fn lemma_sub_zero_product(x: Rational, f: Rational, p: Rational, r: Rational)
    requires
        x.wf(),
        f.wf(),
        p.wf(),
        r.wf(),
        p.numer == 0 || f.numer == 0,
        is_sub_product(x, f, p, r),
    ensures
        x.numer == 0 ==> r.numer == 0,
        x.numer == x.denom ==> r.numer == r.denom,
{
    let k: int = f.denom * p.denom;
    assert(k > 0) by (nonlinear_arith)
        requires
            k == f.denom * p.denom,
            f.denom > 0,
            p.denom > 0,
    ;
    assert(f.numer * p.numer == 0) by (nonlinear_arith)
        requires
            p.numer == 0 || f.numer == 0,
    ;
    assert(r.numer * (x.denom * k) == (x.numer * k) * r.denom) by (nonlinear_arith)
        requires
            r.numer * (x.denom * k) == (x.numer * k - (f.numer * p.numer) * x.denom) * r.denom,
            f.numer * p.numer == 0,
    ;
    assert(r.numer * x.denom == x.numer * r.denom) by (nonlinear_arith)
        requires
            r.numer * (x.denom * k) == (x.numer * k) * r.denom,
            k > 0,
    ;
    assert(x.numer == x.denom ==> r.numer == r.denom) by (nonlinear_arith)
        requires
            r.numer * x.denom == x.numer * r.denom,
            x.denom > 0,
    ;
    assert(x.numer == 0 ==> r.numer == 0) by (nonlinear_arith)
        requires
            r.numer * x.denom == x.numer * r.denom,
            x.denom > 0,
    ;
}

/// `x - x * 1` is zero.
pub proof fn lemma_sub_self_product(x: Rational, p: Rational, r: Rational)
    requires
        x.wf(),
        p.wf(),
        r.wf(),
        p.numer == p.denom,
        is_sub_product(x, x, p, r),
    ensures
        r.numer == 0,
{
    assert(x.numer * (x.denom * p.denom) - (x.numer * p.numer) * x.denom == 0) by (nonlinear_arith)
        requires
            p.numer == p.denom,
    ;
    assert(x.denom * (x.denom * p.denom) > 0) by (nonlinear_arith)
        requires
            x.denom > 0,
            p.denom > 0,
    ;
    assert(r.numer == 0) by (nonlinear_arith)
        requires
            r.numer * (x.denom * (x.denom * p.denom)) == 0,
            x.denom * (x.denom * p.denom) > 0,
    ;
}

/// A quotient of zero is zero, and a number divided by itself is one.
pub proof fn lemma_quotient_values(x: Rational, p: Rational, r: Rational)
    requires
        x.wf(),
        p.wf(),
        r.wf(),
        p.numer != 0,
        is_quotient(x, p, r),
    ensures
        x.numer == 0 ==> r.numer == 0,
        x == p ==> r.numer == r.denom,
{
    assert(x.denom * p.numer != 0) by (nonlinear_arith)
        requires
            x.denom > 0,
            p.numer != 0,
    ;
    assert(x.numer == 0 ==> r.numer == 0) by (nonlinear_arith)
        requires
            r.numer * (x.denom * p.numer) == (x.numer * p.denom) * r.denom,
            x.denom * p.numer != 0,
    ;
    assert(x == p ==> r.numer == r.denom) by (nonlinear_arith)
        requires
            r.numer * (x.denom * p.numer) == (x.numer * p.denom) * r.denom,
            x.denom * p.numer != 0,
    ;
}

} // verus!

verus! {

/// Numerator of the sum of `xs`, over the denominator `sum_den(xs)`.
pub open spec fn sum_num(xs: Seq<Rational>) -> int
    decreases xs.len(),
{
    if xs.len() == 0 {
        0
    } else {
        sum_num(xs.drop_last()) * xs.last().denom + xs.last().numer * sum_den(xs.drop_last())
    }
}

/// Denominator of the sum of `xs`: the product of their denominators.
pub open spec fn sum_den(xs: Seq<Rational>) -> int
    decreases xs.len(),
{
    if xs.len() == 0 {
        1
    } else {
        sum_den(xs.drop_last()) * xs.last().denom
    }
}

/// `r` is the sum of `xs` as numbers.
pub open spec fn is_total(r: Rational, xs: Seq<Rational>) -> bool {
    r.numer * sum_den(xs) == sum_num(xs) * r.denom
}

pub open spec fn all_wf(xs: Seq<Rational>) -> bool {
    forall|i: int| 0 <= i < xs.len() ==> (#[trigger] xs[i]).wf()
}

pub proof fn lemma_sum_den_positive(xs: Seq<Rational>)
    requires
        all_wf(xs),
    ensures
        sum_den(xs) > 0,
    decreases xs.len(),
{
    if xs.len() > 0 {
        let rest = xs.drop_last();
        assert(all_wf(rest)) by {
            assert forall|i: int| 0 <= i < rest.len() implies (#[trigger] rest[i]).wf() by {
                assert(rest[i] == xs[i]);
            }
        }
        lemma_sum_den_positive(rest);
        assert(xs.last().wf());
        let d = sum_den(rest);
        let e = xs.last().denom as int;
        assert(d * e > 0) by (nonlinear_arith)
            requires
                d > 0,
                e > 0,
        ;
    }
}

/// Adding one more number to a running total gives the total of the longer sequence.
pub proof fn lemma_total_push(acc: Rational, xs: Seq<Rational>, x: Rational, r: Rational)
    requires
        all_wf(xs),
        acc.wf(),
        x.wf(),
        r.wf(),
        is_total(acc, xs),
        is_sum(acc, x, r),
    ensures
        is_total(r, xs.push(x)),
{
    let ys = xs.push(x);
    assert(ys.drop_last() == xs);
    lemma_sum_den_positive(xs);
    let big_n: int = sum_num(xs);
    let big_d: int = sum_den(xs);
    let an: int = acc.numer as int;
    let ad: int = acc.denom as int;
    let xn: int = x.numer as int;
    let xd: int = x.denom as int;
    let rn: int = r.numer as int;
    let rd: int = r.denom as int;
    assert(sum_num(ys) == big_n * xd + xn * big_d);
    assert(sum_den(ys) == big_d * xd);
    assert(an * big_d == big_n * ad);
    assert(rn * (ad * xd) == (an * xd + xn * ad) * rd);
    // multiply the goal by ad > 0
    assert(rn * (big_d * xd) * ad == rn * (ad * xd) * big_d) by (nonlinear_arith);
    assert((an * xd + xn * ad) * rd * big_d == (an * big_d) * xd * rd + xn * ad * rd * big_d)
        by (nonlinear_arith);
    assert((big_n * ad) * xd * rd == (big_n * xd) * rd * ad) by (nonlinear_arith);
    assert(xn * ad * rd * big_d == (xn * big_d) * rd * ad) by (nonlinear_arith);
    assert((big_n * xd + xn * big_d) * rd * ad == (big_n * xd) * rd * ad + (xn * big_d) * rd * ad)
        by (nonlinear_arith);
    assert(rn * (big_d * xd) * ad == (big_n * xd + xn * big_d) * rd * ad);
    assert(rn * (big_d * xd) == (big_n * xd + xn * big_d) * rd) by (nonlinear_arith)
        requires
            rn * (big_d * xd) * ad == (big_n * xd + xn * big_d) * rd * ad,
            ad > 0,
    ;
}

} // verus!

verus! {

/// How `num` writes the fraction `numer / denom`.
pub uninterp spec fn ratio_text(numer: int, denom: int) -> Seq<char>;

/// Relies on the `Display` impl of `num::rational::Ratio<i64>`: the text
/// depends on the numerator and denominator alone.
#[verifier::external_body]
pub(crate) fn rational_text(r: &Rational) -> (s: String)
    ensures
        s@ == ratio_text(r.numer as int, r.denom as int),
{
    format!("{}", Ratio::new_raw(r.numer, r.denom))
}

} // verus!

verus! {

/// Adding a number of value `qn / qd` to one of value `pn / pd` gives one of
/// value `(pn * qd + qn * pd) / (pd * qd)`.
pub proof fn lemma_add_pairs(acc: Rational, t: Rational, s: Rational, pn: int, pd: int, qn: int, qd: int)
    requires
        acc.wf(),
        t.wf(),
        s.wf(),
        pd > 0,
        qd > 0,
        acc.numer * pd == pn * acc.denom,
        t.numer * qd == qn * t.denom,
        is_sum(acc, t, s),
    ensures
        s.numer * (pd * qd) == (pn * qd + qn * pd) * s.denom,
{
    let an: int = acc.numer as int;
    let ad: int = acc.denom as int;
    let tn: int = t.numer as int;
    let td: int = t.denom as int;
    let sn: int = s.numer as int;
    let sd: int = s.denom as int;
    assert(sn * (ad * td) == (an * td + tn * ad) * sd);
    let k: int = ad * td;
    assert(k > 0) by (nonlinear_arith)
        requires
            k == ad * td,
            ad > 0,
            td > 0,
    ;
    let w: int = sd * (pd * qd);
    let x: int = an * td;
    let y: int = tn * ad;
    assert(sn * (pd * qd) * k == (sn * k) * (pd * qd)) by (nonlinear_arith);
    assert(sn * k == (x + y) * sd);
    assert((sn * k) * (pd * qd) == (x + y) * w) by (nonlinear_arith)
        requires
            sn * k == (x + y) * sd,
            w == sd * (pd * qd),
    ;
    assert((x + y) * w == x * w + y * w) by (nonlinear_arith);
    let u: int = an * pd;
    let u2: int = pn * ad;
    let v: int = tn * qd;
    let v2: int = qn * td;
    assert(u == u2);
    assert(v == v2);
    assert(x * w == u * (td * qd * sd)) by (nonlinear_arith)
        requires
            x == an * td,
            u == an * pd,
            w == sd * (pd * qd),
    ;
    assert(y * w == v * (ad * pd * sd)) by (nonlinear_arith)
        requires
            y == tn * ad,
            v == tn * qd,
            w == sd * (pd * qd),
    ;
    assert(u2 * (td * qd * sd) == (pn * qd) * sd * k) by (nonlinear_arith)
        requires
            u2 == pn * ad,
            k == ad * td,
    ;
    assert(v2 * (ad * pd * sd) == (qn * pd) * sd * k) by (nonlinear_arith)
        requires
            v2 == qn * td,
            k == ad * td,
    ;
    assert((pn * qd) * sd * k + (qn * pd) * sd * k == (pn * qd + qn * pd) * sd * k) by (nonlinear_arith);
    assert(sn * (pd * qd) == (pn * qd + qn * pd) * sd) by (nonlinear_arith)
        requires
            sn * (pd * qd) * k == (pn * qd + qn * pd) * sd * k,
            k > 0,
    ;
}

} // verus!

verus! {

pub proof fn lemma_gcd_positive(a: nat, b: nat)
    requires
        a >= 1 || b >= 1,
    ensures
        gcd(a, b) >= 1,
    decreases b,
{
    if b > 0 {
        if a % b == 0 {
            assert(gcd(b, 0) == b);
        } else {
            lemma_gcd_positive(b, a % b);
        }
    }
}

pub proof fn lemma_gcd_bounded(a: nat, b: nat)
    ensures
        a >= 1 ==> gcd(a, b) <= a,
        b >= 1 ==> gcd(a, b) <= b,
    decreases b,
{
    if b > 0 {
        lemma_gcd_bounded(b, a % b);
        assert(gcd(a, b) == gcd(b, a % b));
        if a < b {
            assert(a % b == a) by (nonlinear_arith)
                requires
                    a < b,
                    b > 0,
            ;
        }
    }
}

/// A product with a zero factor is `num`'s zero: it never overflows.
pub proof fn lemma_zero_product_kept(x: Rational, v: Rational)
    requires
        x.wf(),
        v.wf(),
        x.numer == 0,
    ensures
        rat_mul(x, v) is Some,
        (rat_mul(x, v)->Some_0).numer == 0,
        (rat_mul(x, v)->Some_0).denom > 0 ==> (rat_mul(x, v)->Some_0).denom == 1,
{
    let (an, ad, bn, bd) = (x.numer as int, x.denom as int, v.numer as int, v.denom as int);
    reveal_with_fuel(gcd, 2);
    assert(gcd(0, bd as nat) == bd);
    let gad = gcd(abs(an), bd as nat) as int;
    lemma_gcd_positive(ad as nat, abs(bn));
    let gbc = gcd(ad as nat, abs(bn)) as int;
    assert(gad == bd);
    let n = (an / gad) * (bn / gbc);
    let d = (ad / gbc) * (bd / gad);
    assert(an / gad == 0);
    assert((an / gad) * (bn / gbc) == 0) by (nonlinear_arith)
        requires
            an / gad == 0,
    ;
    lemma_gcd_bounded(ad as nat, abs(bn));
    assert(bd / gad == 1) by (nonlinear_arith)
        requires
            gad == bd,
            bd > 0,
    ;
    assert(1 <= ad / gbc <= ad) by (nonlinear_arith)
        requires
            1 <= gbc <= ad,
    ;
    assert(d == ad / gbc) by (nonlinear_arith)
        requires
            d == (ad / gbc) * (bd / gad),
            bd / gad == 1,
    ;
    assert(fits(d));
    if d > 0 {
        assert(gcd(0, d as nat) == d);
        assert(d / d == 1) by (nonlinear_arith)
            requires
                d > 0,
        ;
    }
}

/// Adding `num`'s zero to a number never overflows.
pub proof fn lemma_add_zero_kept(acc: Rational, t: Rational)
    requires
        acc.wf(),
        t.numer == 0,
        t.denom == 1,
    ensures
        rat_add(acc, t) is Some,
{
    let (an, ad) = (acc.numer as int, acc.denom as int);
    reveal_with_fuel(gcd, 2);
    assert(gcd(ad as nat, 1) == 1);
    assert(ad / 1 == ad);
    assert(ad / ad == 1) by (nonlinear_arith)
        requires
            ad > 0,
    ;
    let lcm = (ad / 1) * 1;
    assert(lcm == ad);
    assert((lcm / ad) * an == an);
    assert((lcm / 1) * 0 == 0);
    lemma_gcd_positive(abs(an), ad as nat);
    let g = gcd(abs(an), ad as nat) as int;
    assert(-i64::MAX <= an / g <= i64::MAX) by (nonlinear_arith)
        requires
            g >= 1,
            -i64::MAX <= an <= i64::MAX,
    ;
    assert(ad / g >= 0) by (nonlinear_arith)
        requires
            g >= 1,
            ad > 0,
    ;
}

} // verus!
