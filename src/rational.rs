//! Exact rational numbers held in lowest terms in 64-bit integers.

use vstd::prelude::*;
use vstd::arithmetic::div_mod::lemma_mod_bound;
use crate::text::{int_text, nat_text, push_char, push_int, push_nat};

verus! {

/// Greatest common divisor, by Euclid's algorithm.
pub open spec fn gcd(a: nat, b: nat) -> nat
    decreases b,
{
    if b == 0 {
        a
    } else {
        gcd(b, a % b)
    }
}

pub open spec fn abs(n: int) -> nat {
    if n < 0 {
        (-n) as nat
    } else {
        n as nat
    }
}

/// The fraction `n / d` (with `d > 0`) divided through by the greatest common
/// divisor of its numerator and denominator.
pub open spec fn reduce(n: int, d: int) -> (int, int) {
    let g = gcd(abs(n), d as nat);
    let m = abs(n) / g;
    (if n < 0 { -m } else { m as int }, (d as nat / g) as int)
}

/// Whether a numerator and denominator can be held by a [`Rational`].
pub open spec fn fits(p: (int, int)) -> bool {
    i64::MIN < p.0 <= i64::MAX && 1 <= p.1 <= i64::MAX
}

pub open spec fn sum(a: (int, int), b: (int, int)) -> (int, int) {
    reduce(a.0 * b.1 + b.0 * a.1, a.1 * b.1)
}

pub open spec fn difference(a: (int, int), b: (int, int)) -> (int, int) {
    reduce(a.0 * b.1 - b.0 * a.1, a.1 * b.1)
}

pub open spec fn product(a: (int, int), b: (int, int)) -> (int, int) {
    reduce(a.0 * b.0, a.1 * b.1)
}

/// `a / b` for `b` non-zero; the sign is carried by the numerator.
pub open spec fn quotient(a: (int, int), b: (int, int)) -> (int, int) {
    if b.0 < 0 {
        reduce(-(a.0 * b.1), -(a.1 * b.0))
    } else {
        reduce(a.0 * b.1, a.1 * b.0)
    }
}

pub open spec fn negation(a: (int, int)) -> (int, int) {
    (-a.0, a.1)
}

/// `n`, or `n/d` where the denominator is not 1.
pub open spec fn rational_text(a: (int, int)) -> Seq<char> {
    if a.1 == 1 {
        int_text(a.0)
    } else {
        int_text(a.0) + seq!['/'] + nat_text(a.1 as nat)
    }
}

proof fn lemma_gcd_bounds(a: nat, b: nat)
    requires
        b > 0,
    ensures
        1 <= gcd(a, b) <= b,
    decreases b,
{
    lemma_mod_bound(a as int, b as int);
    assert(gcd(a, b) == gcd(b, a % b));
    if a % b != 0 {
        lemma_gcd_bounds(b, a % b);
    } else {
        assert(gcd(b, 0) == b);
    }
}

fn gcd_u128(a: u128, b: u128) -> (g: u128)
    ensures
        g as nat == gcd(a as nat, b as nat),
{
    let mut x = a;
    let mut y = b;
    while y != 0
        invariant
            gcd(x as nat, y as nat) == gcd(a as nat, b as nat),
        decreases y,
    {
        let t = x % y;
        x = y;
        y = t;
    }
    x
}

/// A rational number `num / den` with a positive denominator.
///
/// Every value made by this module is in lowest terms, and its numerator is
/// never `i64::MIN`, so that negation cannot overflow.
#[derive(Clone, Copy, Debug, PartialEq, Eq, Structural)]
pub struct Rational {
    num: i64,
    den: i64,
}

impl View for Rational {
    type V = (int, int);

    /// Numerator and denominator.
    closed spec fn view(&self) -> (int, int) {
        (self.num as int, self.den as int)
    }
}

/// The fraction `n / d` in lowest terms, or `None` where it does not fit.
pub(crate) fn from_parts(n: i128, d: i128) -> (r: Option<Rational>)
    requires
        n > i128::MIN,
        d >= 1,
    ensures
        r is Some <==> fits(reduce(n as int, d as int)),
        r matches Some(x) ==> x@ == reduce(n as int, d as int),
{
    let a: u128 = if n < 0 {
        (-n) as u128
    } else {
        n as u128
    };
    let g = gcd_u128(a, d as u128);
    proof {
        lemma_gcd_bounds(a as nat, d as nat);
        assert((d as nat) / (g as nat) >= 1) by (nonlinear_arith)
            requires
                d as nat >= g as nat,
                g as nat >= 1,
        ;
    }
    let m = a / g;
    let e = (d as u128) / g;
    if m > (i64::MAX as u128) || e > (i64::MAX as u128) {
        None
    } else {
        let num: i64 = if n < 0 {
            -(m as i64)
        } else {
            m as i64
        };
        Some(Rational { num, den: e as i64 })
    }
}

impl Rational {
    #[verifier::type_invariant]
    spec fn well_formed(self) -> bool {
        self.den >= 1 && self.num > i64::MIN
    }

    /// The integer `n`; `None` for `i64::MIN`, which has no negation.
    pub fn from_integer(n: i64) -> (r: Option<Rational>)
        ensures
            match r {
                Some(x) => x@ == (n as int, 1int),
                None => n == i64::MIN,
            },
    {
        if n == i64::MIN {
            None
        } else {
            Some(Rational { num: n, den: 1 })
        }
    }

    /// The fraction `numerator / denominator` in lowest terms, with the sign
    /// on the numerator; `None` where the denominator is zero or the result
    /// does not fit.
    pub fn from_fraction(numerator: i64, denominator: i64) -> (r: Option<Rational>)
        ensures
            denominator == 0 ==> r is None,
            denominator > 0 ==> match r {
                Some(x) => x@ == reduce(numerator as int, denominator as int),
                None => !fits(reduce(numerator as int, denominator as int)),
            },
            denominator < 0 ==> match r {
                Some(x) => x@ == reduce(-numerator, -denominator),
                None => !fits(reduce(-numerator, -denominator)),
            },
    {
        if denominator == 0 {
            None
        } else if denominator > 0 {
            from_parts(numerator as i128, denominator as i128)
        } else {
            from_parts(-(numerator as i128), -(denominator as i128))
        }
    }

    pub fn numerator(&self) -> (n: i64)
        ensures
            n == self@.0,
    {
        self.num
    }

    pub fn denominator(&self) -> (d: i64)
        ensures
            d == self@.1,
    {
        self.den
    }

    pub fn is_zero(&self) -> (b: bool)
        ensures
            b == (self@.0 == 0),
    {
        self.num == 0
    }

    /// `self + other`; `None` where the result does not fit.
    pub fn add(self, other: Rational) -> (r: Option<Rational>)
        ensures
            r is Some <==> fits(sum(self@, other@)),
            r matches Some(x) ==> x@ == sum(self@, other@),
    {
        proof {
            use_type_invariant(&self);
            use_type_invariant(&other);
            lemma_cross_bounds(self@, other@);
        }
        let n = (self.num as i128) * (other.den as i128) + (other.num as i128) * (self.den as i128);
        let d = (self.den as i128) * (other.den as i128);
        from_parts(n, d)
    }

    /// `self - other`; `None` where the result does not fit.
    pub fn sub(self, other: Rational) -> (r: Option<Rational>)
        ensures
            r is Some <==> fits(difference(self@, other@)),
            r matches Some(x) ==> x@ == difference(self@, other@),
    {
        proof {
            use_type_invariant(&self);
            use_type_invariant(&other);
            lemma_cross_bounds(self@, other@);
        }
        let n = (self.num as i128) * (other.den as i128) - (other.num as i128) * (self.den as i128);
        let d = (self.den as i128) * (other.den as i128);
        from_parts(n, d)
    }

    /// `self * other`; `None` where the result does not fit.
    pub fn mul(self, other: Rational) -> (r: Option<Rational>)
        ensures
            r is Some <==> fits(product(self@, other@)),
            r matches Some(x) ==> x@ == product(self@, other@),
    {
        proof {
            use_type_invariant(&self);
            use_type_invariant(&other);
            lemma_cross_bounds(self@, other@);
        }
        let n = (self.num as i128) * (other.num as i128);
        let d = (self.den as i128) * (other.den as i128);
        from_parts(n, d)
    }

    /// `self / other` for a non-zero `other`; `None` where the result does
    /// not fit.
    pub fn div(self, other: Rational) -> (r: Option<Rational>)
        requires
            other@.0 != 0,
        ensures
            r is Some <==> fits(quotient(self@, other@)),
            r matches Some(x) ==> x@ == quotient(self@, other@),
    {
        proof {
            use_type_invariant(&self);
            use_type_invariant(&other);
            lemma_cross_bounds(self@, other@);
        }
        let n = (self.num as i128) * (other.den as i128);
        let d = (self.den as i128) * (other.num as i128);
        proof {
            assert(self@.1 * other@.0 != 0 && (self@.1 * other@.0 < 0 <==> other@.0 < 0))
                by (nonlinear_arith)
                requires
                    self@.1 >= 1,
                    other@.0 != 0,
            ;
        }
        if d < 0 {
            from_parts(-n, -d)
        } else {
            from_parts(n, d)
        }
    }

    /// `-self`, which always fits.
    pub fn neg(self) -> (r: Rational)
        ensures
            r@ == negation(self@),
    {
        proof {
            use_type_invariant(&self);
        }
        Rational { num: -self.num, den: self.den }
    }

    /// Appends [`rational_text`] of the value.
    pub fn push_text(&self, s: &mut String)
        ensures
            final(s)@ == old(s)@ + rational_text(self@),
    {
        proof {
            use_type_invariant(self);
        }
        push_int(s, self.num);
        if self.den != 1 {
            push_char(s, '/');
            push_nat(s, self.den as u64);
            assert(final(s)@ =~= old(s)@ + rational_text(self@));
        }
    }

    /// The value as text: `n`, or `n/d` where the denominator is not 1.
    pub fn to_text(&self) -> (s: String)
        ensures
            s@ == rational_text(self@),
    {
        let mut s = String::new();
        self.push_text(&mut s);
        assert(s@ =~= rational_text(self@));
        s
    }
}

/// A rational number is determined by its numerator and denominator.
pub proof fn lemma_view_injective(a: Rational, b: Rational)
    ensures
        a@ == b@ ==> a == b,
{
}

proof fn lemma_cross_bounds(a: (int, int), b: (int, int))
    requires
        fits(a),
        fits(b),
    ensures
        -0x4000_0000_0000_0000_0000_0000_0000_0000 < a.0 * b.1 < 0x4000_0000_0000_0000_0000_0000_0000_0000,
        -0x4000_0000_0000_0000_0000_0000_0000_0000 < b.0 * a.1 < 0x4000_0000_0000_0000_0000_0000_0000_0000,
        -0x4000_0000_0000_0000_0000_0000_0000_0000 < a.0 * b.0 < 0x4000_0000_0000_0000_0000_0000_0000_0000,
        -0x4000_0000_0000_0000_0000_0000_0000_0000 < a.1 * b.0 < 0x4000_0000_0000_0000_0000_0000_0000_0000,
        0 < a.1 * b.1 < 0x4000_0000_0000_0000_0000_0000_0000_0000,
{
    assert(-0x4000_0000_0000_0000_0000_0000_0000_0000 < a.1 * b.0 < 0x4000_0000_0000_0000_0000_0000_0000_0000)
        by (nonlinear_arith)
        requires
            fits(a),
            fits(b),
    ;
    assert(-0x4000_0000_0000_0000_0000_0000_0000_0000 < a.0 * b.1 < 0x4000_0000_0000_0000_0000_0000_0000_0000)
        by (nonlinear_arith)
        requires
            fits(a),
            fits(b),
    ;
    assert(-0x4000_0000_0000_0000_0000_0000_0000_0000 < b.0 * a.1 < 0x4000_0000_0000_0000_0000_0000_0000_0000)
        by (nonlinear_arith)
        requires
            fits(a),
            fits(b),
    ;
    assert(-0x4000_0000_0000_0000_0000_0000_0000_0000 < a.0 * b.0 < 0x4000_0000_0000_0000_0000_0000_0000_0000)
        by (nonlinear_arith)
        requires
            fits(a),
            fits(b),
    ;
    assert(0 < a.1 * b.1 < 0x4000_0000_0000_0000_0000_0000_0000_0000) by (nonlinear_arith)
        requires
            fits(a),
            fits(b),
    ;
}

} // verus!
