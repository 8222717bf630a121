use vstd::prelude::*;
use crate::rational::{
    cmp_values, is_difference, is_product, is_quotient, is_sum, rat_add, rat_div, rat_mul, rat_sub,
    rational_text, ratio_text, Rational,
};

verus! {

/// A Big-M number `re + im * M`, where `M` stands for an arbitrarily large
/// positive constant: `re` is the finite part, `im` the penalty coefficient.
#[derive(Clone, Copy, Debug)]
pub struct Tax {
    pub re: Rational,
    pub im: Rational,
}

/// Orders Big-M numbers: by penalty coefficient first, then by finite part.
pub open spec fn tax_cmp(a: Tax, b: Tax) -> std::cmp::Ordering {
    if cmp_values(a.im, b.im) != std::cmp::Ordering::Equal {
        cmp_values(a.im, b.im)
    } else {
        cmp_values(a.re, b.re)
    }
}

/// Both parts, or `None` where either is `None`.
pub open spec fn both(re: Option<Rational>, im: Option<Rational>) -> Option<Tax> {
    match (re, im) {
        (Some(x), Some(y)) => Some(Tax { re: x, im: y }),
        _ => None,
    }
}

pub open spec fn tax_add(a: Tax, b: Tax) -> Option<Tax> {
    both(rat_add(a.re, b.re), rat_add(a.im, b.im))
}

pub open spec fn tax_sub(a: Tax, b: Tax) -> Option<Tax> {
    both(rat_sub(a.re, b.re), rat_sub(a.im, b.im))
}

/// `(a, p) * (c, 0) = (a * c, p * c)`, `(a, 0) * (c, q) = (a * c, a * q)`, and
/// `None` for two penalty parts.
pub open spec fn tax_mul(a: Tax, b: Tax) -> Option<Tax> {
    if b.im.numer == 0 {
        both(rat_mul(a.re, b.re), rat_mul(a.im, b.re))
    } else if a.im.numer == 0 {
        both(rat_mul(a.re, b.re), rat_mul(a.re, b.im))
    } else {
        None
    }
}

/// `(a, p) / (c, 0) = (a / c, p / c)`; `None` for a divisor with a penalty part.
pub open spec fn tax_div(a: Tax, b: Tax) -> Option<Tax> {
    if b.im.numer != 0 {
        None
    } else {
        both(rat_div(a.re, b.re), rat_div(a.im, b.re))
    }
}

impl Tax {
    pub open spec fn wf(self) -> bool {
        self.re.wf() && self.im.wf()
    }

    /// Holds when the number has no penalty part.
    pub open spec fn is_finite(self) -> bool {
        self.im.numer == 0
    }

    pub open spec fn is_zero_value(self) -> bool {
        self.re.numer == 0 && self.im.numer == 0
    }

    pub open spec fn is_one_value(self) -> bool {
        self.re.numer == self.re.denom && self.im.numer == 0
    }

    pub open spec fn is_negative_value(self) -> bool {
        tax_cmp(self, Tax::zero_spec()) == std::cmp::Ordering::Less
    }

    pub open spec fn is_positive_value(self) -> bool {
        tax_cmp(self, Tax::zero_spec()) == std::cmp::Ordering::Greater
    }

    pub open spec fn zero_spec() -> Tax {
        Tax { re: Rational { numer: 0, denom: 1 }, im: Rational { numer: 0, denom: 1 } }
    }

    pub fn zero() -> (r: Tax)
        ensures
            r.wf(),
            r == Tax::zero_spec(),
    {
        Tax { re: Rational::zero(), im: Rational::zero() }
    }

    pub fn one() -> (r: Tax)
        ensures
            r.wf(),
            r.re.numer == 1 && r.re.denom == 1,
            r.im.numer == 0 && r.im.denom == 1,
    {
        Tax { re: Rational::one(), im: Rational::zero() }
    }

    /// The number `M` itself: no finite part, penalty coefficient one.
    pub fn penalty() -> (r: Tax)
        ensures
            r.wf(),
            r.re.numer == 0 && r.re.denom == 1,
            r.im.numer == 1 && r.im.denom == 1,
    {
        Tax { re: Rational::zero(), im: Rational::one() }
    }

    /// A finite number.
    pub fn from_real(value: Rational) -> (r: Tax)
        requires
            value.wf(),
        ensures
            r.wf(),
            r.re == value,
            r.im == Rational::zero_spec(),
    {
        Tax { re: value, im: Rational::zero() }
    }

    /// The number `re + im * M`.
    pub fn from_parts(re: Rational, im: Rational) -> (r: Tax)
        ensures
            r.re == re,
            r.im == im,
    {
        Tax { re, im }
    }

    /// Moves the finite part into the penalty coefficient: `a` becomes `a * M`.
    pub fn into_tax(self) -> (r: Tax)
        requires
            self.wf(),
        ensures
            r.wf(),
            r.re == Rational::zero_spec(),
            r.im == self.re,
    {
        Tax { re: Rational::zero(), im: self.re }
    }

    pub fn is_zero(&self) -> (r: bool)
        ensures
            r == self.is_zero_value(),
    {
        self.re.is_zero() && self.im.is_zero()
    }

    pub fn compare(&self, other: &Tax) -> (r: std::cmp::Ordering)
        requires
            self.wf(),
            other.wf(),
        ensures
            r == tax_cmp(*self, *other),
    {
        let by_penalty = self.im.compare(&other.im);
        match by_penalty {
            std::cmp::Ordering::Equal => self.re.compare(&other.re),
            _ => by_penalty,
        }
    }

    pub fn is_negative(&self) -> (r: bool)
        requires
            self.wf(),
        ensures
            r == self.is_negative_value(),
    {
        let z = Tax::zero();
        match self.compare(&z) {
            std::cmp::Ordering::Less => true,
            _ => false,
        }
    }

    pub fn is_positive(&self) -> (r: bool)
        requires
            self.wf(),
        ensures
            r == self.is_positive_value(),
    {
        let z = Tax::zero();
        match self.compare(&z) {
            std::cmp::Ordering::Greater => true,
            _ => false,
        }
    }

    pub fn neg(&self) -> (r: Tax)
        requires
            self.wf(),
        ensures
            r.wf(),
            r.re.numer == -self.re.numer && r.re.denom == self.re.denom,
            r.im.numer == -self.im.numer && r.im.denom == self.im.denom,
    {
        Tax { re: self.re.neg(), im: self.im.neg() }
    }

    /// `(a, p) + (b, q) = (a + b, p + q)`; `None` on overflow.
    pub fn add(&self, other: &Tax) -> (r: Option<Tax>)
        requires
            self.wf(),
            other.wf(),
        ensures
            r matches Some(s) ==> s.wf() && is_sum(self.re, other.re, s.re) && is_sum(
                self.im,
                other.im,
                s.im,
            ),
            r == tax_add(*self, *other),
    {
        let re = self.re.add(&other.re)?;
        let im = self.im.add(&other.im)?;
        Some(Tax { re, im })
    }

    /// `(a, p) - (b, q) = (a - b, p - q)`; `None` on overflow.
    pub fn sub(&self, other: &Tax) -> (r: Option<Tax>)
        requires
            self.wf(),
            other.wf(),
        ensures
            r matches Some(s) ==> s.wf() && is_difference(self.re, other.re, s.re)
                && is_difference(self.im, other.im, s.im),
            r == tax_sub(*self, *other),
    {
        let re = self.re.sub(&other.re)?;
        let im = self.im.sub(&other.im)?;
        Some(Tax { re, im })
    }

    /// The product where at least one factor is finite: `(a, p) * c = (a * c, p * c)`.
    /// Two penalty parts multiply to `M * M`, which has no form `re + im * M`:
    /// that product is `None`, as is an overflow.
    pub fn mul(&self, other: &Tax) -> (r: Option<Tax>)
        requires
            self.wf(),
            other.wf(),
        ensures
            !self.is_finite() && !other.is_finite() ==> r is None,
            r matches Some(s) ==> s.wf(),
            r matches Some(s) ==> other.is_finite() ==> is_product(self.re, other.re, s.re)
                && is_product(self.im, other.re, s.im),
            r matches Some(s) ==> self.is_finite() ==> is_product(self.re, other.re, s.re)
                && is_product(self.re, other.im, s.im),
            r == tax_mul(*self, *other),
    {
        if other.im.is_zero() {
            let re = self.re.mul(&other.re)?;
            let im = self.im.mul(&other.re)?;
            proof {
                if self.is_finite() {
                    lemma_product_zero(self.im, other.re, im);
                    lemma_zero_product(self.re, other.im, im);
                }
            }
            Some(Tax { re, im })
        } else if self.im.is_zero() {
            let re = self.re.mul(&other.re)?;
            let im = self.re.mul(&other.im)?;
            Some(Tax { re, im })
        } else {
            None
        }
    }

    /// The quotient by a finite, non-zero divisor: `(a, p) / c = (a / c, p / c)`.
    /// A divisor with a penalty part or of value zero gives `None`, as does an
    /// overflow.
    pub fn div(&self, other: &Tax) -> (r: Option<Tax>)
        requires
            self.wf(),
            other.wf(),
        ensures
            !other.is_finite() || other.re.numer == 0 ==> r is None,
            r matches Some(s) ==> s.wf() && is_quotient(self.re, other.re, s.re) && is_quotient(
                self.im,
                other.re,
                s.im,
            ),
            r == tax_div(*self, *other),
    {
        if !other.im.is_zero() {
            return None;
        }
        let re = self.re.div(&other.re)?;
        let im = self.im.div(&other.re)?;
        Some(Tax { re, im })
    }
}

impl Rational {
    pub open spec fn zero_spec() -> Rational {
        Rational { numer: 0, denom: 1 }
    }
}

/// A product with a zero factor is zero.
proof fn lemma_product_zero(zero: Rational, b: Rational, r: Rational)
    requires
        zero.wf(),
        b.wf(),
        r.wf(),
        zero.numer == 0,
        is_product(zero, b, r),
    ensures
        r.numer == 0,
{
    assert(zero.denom * b.denom > 0) by (nonlinear_arith)
        requires
            zero.denom > 0,
            b.denom > 0,
    ;
    assert(r.numer * (zero.denom * b.denom) == 0) by (nonlinear_arith)
        requires
            zero.numer == 0,
            r.numer * (zero.denom * b.denom) == (zero.numer * b.numer) * r.denom,
    ;
    assert(r.numer == 0) by (nonlinear_arith)
        requires
            zero.denom * b.denom > 0,
            r.numer * (zero.denom * b.denom) == 0,
    ;
}

/// Two zero-valued products are each a product of the other's factors.
proof fn lemma_zero_product(a: Rational, zero: Rational, r: Rational)
    requires
        zero.numer == 0,
        r.numer == 0,
    ensures
        is_product(a, zero, r),
{
    assert(r.numer * (a.denom * zero.denom) == (a.numer * zero.numer) * r.denom) by (nonlinear_arith)
        requires
            zero.numer == 0,
            r.numer == 0,
    ;
}

} // verus!

verus! {

/// The order of Big-M numbers is transitive, strictly where either step is strict.
pub proof fn lemma_tax_order_trans(a: Tax, b: Tax, c: Tax)
    requires
        a.wf(),
        b.wf(),
        c.wf(),
    ensures
        tax_cmp(a, b) != std::cmp::Ordering::Greater && tax_cmp(b, c) != std::cmp::Ordering::Greater
            ==> tax_cmp(a, c) != std::cmp::Ordering::Greater,
        tax_cmp(a, b) == std::cmp::Ordering::Less && tax_cmp(b, c) != std::cmp::Ordering::Greater
            ==> tax_cmp(a, c) == std::cmp::Ordering::Less,
        tax_cmp(a, b) != std::cmp::Ordering::Greater && tax_cmp(b, c) == std::cmp::Ordering::Less
            ==> tax_cmp(a, c) == std::cmp::Ordering::Less,
{
    crate::rational::lemma_order_trans(a.im, b.im, c.im);
    crate::rational::lemma_order_trans(a.re, b.re, c.re);
}

/// Whatever the finite parts, the larger penalty coefficient makes the larger number.
pub proof fn lemma_penalty_dominates(a: Tax, b: Tax)
    requires
        a.wf(),
        b.wf(),
        crate::rational::less_value(b.im, a.im),
    ensures
        tax_cmp(a, b) == std::cmp::Ordering::Greater,
        tax_cmp(b, a) == std::cmp::Ordering::Less,
{
}

} // verus!

verus! {

/// How a Big-M number is written: `0`, `a`, `pM` or `a + pM`, leaving out a
/// zero part.
pub open spec fn tax_text(t: Tax) -> Seq<char> {
    let re = ratio_text(t.re.numer as int, t.re.denom as int);
    let im = ratio_text(t.im.numer as int, t.im.denom as int);
    if t.is_zero_value() {
        seq!['0']
    } else if t.re.numer == 0 {
        im + seq!['M']
    } else if t.im.numer == 0 {
        re
    } else {
        re + seq![' ', '+', ' '] + im + seq!['M']
    }
}

impl Tax {
    /// The text of the number (see `tax_text`).
    pub fn to_text(&self) -> (s: String)
        ensures
            s@ == tax_text(*self),
    {
        if self.is_zero() {
            proof {
                reveal_strlit("0");
            }
            let s = String::from_str("0");
            assert(s@ =~= seq!['0']);
            s
        } else if self.re.is_zero() {
            let mut s = rational_text(&self.im);
            proof {
                reveal_strlit("M");
            }
            s.append("M");
            assert(s@ =~= ratio_text(self.im.numer as int, self.im.denom as int) + seq!['M']);
            s
        } else if self.im.is_zero() {
            rational_text(&self.re)
        } else {
            let mut s = rational_text(&self.re);
            proof {
                reveal_strlit(" + ");
                reveal_strlit("M");
            }
            s.append(" + ");
            let im = rational_text(&self.im);
            s.append(im.as_str());
            s.append("M");
            assert(s@ =~= ratio_text(self.re.numer as int, self.re.denom as int) + seq![' ', '+', ' ']
                + ratio_text(self.im.numer as int, self.im.denom as int) + seq!['M']);
            s
        }
    }
}

} // verus!
