//! Exact rational numbers: a sign, a numerator and a positive denominator of
//! unbounded size. The value of a number is a `real`; every operation is
//! specified by the arithmetic of the reals and never rounds.

use crate::natural::{gcd, lemma_gcd_divides, lemma_gcd_positive, lemma_gcd_scaled, Natural};
use vstd::arithmetic::div_mod::lemma_fundamental_div_mod;
use vstd::prelude::*;

verus! {

/// The real number `n / d`, negated when `negative` is set.
pub open spec fn signed_ratio(negative: bool, n: nat, d: nat) -> real {
    if negative {
        -(n as real / d as real)
    } else {
        n as real / d as real
    }
}

/// Cancelling a common factor keeps the ratio.
pub proof fn lemma_ratio_cancel(n: nat, d: nat, g: nat, n2: nat, d2: nat)
    requires
        d > 0,
        n == g * n2,
        d == g * d2,
    ensures
        d2 > 0,
        n as real / d as real == n2 as real / d2 as real,
{
    assert(d2 > 0 && g > 0) by (nonlinear_arith)
        requires
            d > 0,
            d == g * d2,
    ;
    assert((g * n2) as real / (g * d2) as real == n2 as real / d2 as real) by (nonlinear_arith)
        requires
            g > 0,
            d2 > 0,
    ;
}

/// A ratio with a positive denominator has the sign of its numerator.
pub proof fn lemma_ratio_sign(n: nat, d: nat)
    requires
        d > 0,
    ensures
        n as real / d as real >= 0real,
        n == 0 <==> n as real / d as real == 0real,
{
    assert(n as real / d as real >= 0real && (n == 0 <==> n as real / d as real == 0real))
        by (nonlinear_arith)
        requires
            d > 0,
            n >= 0,
    ;
}

/// The sum of two ratios over their common denominator.
pub proof fn lemma_ratio_sum(an: nat, ad: nat, bn: nat, bd: nat)
    requires
        ad > 0,
        bd > 0,
    ensures
        ad * bd > 0,
        an as real / ad as real + bn as real / bd as real == (an * bd + bn * ad) as real / (ad
            * bd) as real,
{
    assert(ad * bd > 0) by (nonlinear_arith)
        requires
            ad > 0,
            bd > 0,
    ;
    assert(an as real / ad as real + bn as real / bd as real == (an * bd + bn * ad) as real / (ad
        * bd) as real) by (nonlinear_arith)
        requires
            ad > 0,
            bd > 0,
    ;
}

/// The difference of two ratios over their common denominator, where the
/// first is not the smaller.
pub proof fn lemma_ratio_difference(an: nat, ad: nat, bn: nat, bd: nat)
    requires
        ad > 0,
        bd > 0,
        an * bd >= bn * ad,
    ensures
        an as real / ad as real - bn as real / bd as real == (an * bd - bn * ad) as real / (ad
            * bd) as real,
{
    assert(an as real / ad as real - bn as real / bd as real == (an * bd - bn * ad) as real / (ad
        * bd) as real) by (nonlinear_arith)
        requires
            ad > 0,
            bd > 0,
    ;
}

/// The product of two ratios.
pub proof fn lemma_ratio_product(an: nat, ad: nat, bn: nat, bd: nat)
    requires
        ad > 0,
        bd > 0,
    ensures
        ad * bd > 0,
        (an as real / ad as real) * (bn as real / bd as real) == (an * bn) as real / (ad
            * bd) as real,
{
    assert(ad * bd > 0) by (nonlinear_arith)
        requires
            ad > 0,
            bd > 0,
    ;
    assert((an as real / ad as real) * (bn as real / bd as real) == (an * bn) as real / (ad
        * bd) as real) by (nonlinear_arith)
        requires
            ad > 0,
            bd > 0,
    ;
}

/// The quotient of two ratios, the second of which is not zero.
pub proof fn lemma_ratio_quotient(an: nat, ad: nat, bn: nat, bd: nat)
    requires
        ad > 0,
        bd > 0,
        bn > 0,
    ensures
        ad * bn > 0,
        (an as real / ad as real) / (bn as real / bd as real) == (an * bd) as real / (ad
            * bn) as real,
{
    assert(ad * bn > 0) by (nonlinear_arith)
        requires
            ad > 0,
            bn > 0,
    ;
    assert((an as real / ad as real) / (bn as real / bd as real) == (an * bd) as real / (ad
        * bn) as real) by (nonlinear_arith)
        requires
            ad > 0,
            bd > 0,
            bn > 0,
    ;
}

/// The values of a sequence of rational numbers.
pub open spec fn values(row: Seq<Rational>) -> Seq<real> {
    Seq::new(row.len(), |k: int| row[k]@)
}

/// An exact rational number.
pub struct Rational {
    negative: bool,
    numerator: Natural,
    denominator: Natural,
}

impl View for Rational {
    type V = real;

    closed spec fn view(&self) -> real {
        signed_ratio(self.negative, self.numerator@, self.denominator@)
    }
}

impl Clone for Rational {
    fn clone(&self) -> (copy: Self)
        ensures
            copy@ == self@,
    {
        proof {
            use_type_invariant(self);
        }
        Rational {
            negative: self.negative,
            numerator: self.numerator.clone(),
            denominator: self.denominator.clone(),
        }
    }
}

impl Rational {
    #[verifier::type_invariant]
    spec fn well_formed(self) -> bool {
        &&& self.denominator@ > 0
        &&& gcd(self.numerator@, self.denominator@) == 1
    }

    /// The fraction in lowest terms: numerator and denominator are divided
    /// by their greatest common divisor.
    fn reduced(negative: bool, numerator: Natural, denominator: Natural) -> (r: Rational)
        requires
            denominator@ > 0,
        ensures
            r@ == signed_ratio(negative, numerator@, denominator@),
    {
        let g = numerator.gcd(&denominator);
        proof {
            lemma_gcd_positive(numerator@, denominator@);
            lemma_gcd_divides(numerator@, denominator@);
            lemma_fundamental_div_mod(numerator@ as int, g@ as int);
            lemma_fundamental_div_mod(denominator@ as int, g@ as int);
        }
        let (n, _) = numerator.div_rem(&g);
        let (d, _) = denominator.div_rem(&g);
        proof {
            lemma_ratio_cancel(numerator@, denominator@, g@, n@, d@);
            lemma_gcd_scaled(g@, n@, d@);
            assert(gcd(n@, d@) == 1) by (nonlinear_arith)
                requires
                    g@ > 0,
                    g@ * gcd(n@, d@) == g@,
            ;
        }
        Rational { negative, numerator: n, denominator: d }
    }

    /// The number `numerator / denominator`, negated when `negative` is set;
    /// none when the denominator is zero.
    pub fn new(negative: bool, numerator: Natural, denominator: Natural) -> (r: Option<Rational>)
        ensures
            r is Some <==> denominator@ > 0,
            r matches Some(q) ==> q@ == signed_ratio(negative, numerator@, denominator@),
    {
        if denominator.is_zero() {
            None
        } else {
            Some(Rational::reduced(negative, numerator, denominator))
        }
    }

    /// The integer `value`.
    pub fn from_i64(value: i64) -> (r: Rational)
        ensures
            r@ == value as real,
    {
        let negative = value < 0;
        let magnitude: u64 = if value >= 0 {
            value as u64
        } else {
            (-(value + 1)) as u64 + 1
        };
        let numerator = Natural::from_u64(magnitude);
        let denominator = Natural::from_u64(1);
        proof {
            let m = magnitude as nat;
            assert(m as real / 1nat as real == m as real) by (nonlinear_arith);
            assert(negative ==> value as real == -(m as real)) by (nonlinear_arith)
                requires
                    negative ==> value == -m,
            ;
            assert(gcd(m, 1) == 1) by {
                reveal_with_fuel(gcd, 3);
            }
        }
        Rational { negative, numerator, denominator }
    }

    /// The fraction `numerator / denominator`; none when the denominator is
    /// zero.
    pub fn from_ratio(numerator: i64, denominator: i64) -> (r: Option<Rational>)
        ensures
            r is Some <==> denominator != 0,
            r matches Some(q) ==> q@ == numerator as real / denominator as real,
    {
        if denominator == 0 {
            None
        } else {
            let n = Rational::from_i64(numerator);
            let d = Rational::from_i64(denominator);
            Some(n.div(&d))
        }
    }

    /// Sign, numerator and denominator of the number, in lowest terms. The
    /// sign of zero may be either.
    pub fn parts(&self) -> (out: (bool, Natural, Natural))
        ensures
            out.2@ > 0,
            gcd(out.1@, out.2@) == 1,
            self@ == signed_ratio(out.0, out.1@, out.2@),
    {
        proof {
            use_type_invariant(self);
        }
        (self.negative, self.numerator.clone(), self.denominator.clone())
    }

    /// Whether the number is zero.
    pub fn is_zero(&self) -> (zero: bool)
        ensures
            zero <==> self@ == 0real,
    {
        proof {
            use_type_invariant(self);
            lemma_ratio_sign(self.numerator@, self.denominator@);
        }
        self.numerator.is_zero()
    }

    /// Whether the number is less than zero.
    pub fn is_negative(&self) -> (below: bool)
        ensures
            below <==> self@ < 0real,
    {
        proof {
            use_type_invariant(self);
            lemma_ratio_sign(self.numerator@, self.denominator@);
        }
        self.negative && !self.numerator.is_zero()
    }

    /// Whether the number is greater than zero.
    pub fn is_positive(&self) -> (above: bool)
        ensures
            above <==> self@ > 0real,
    {
        proof {
            use_type_invariant(self);
            lemma_ratio_sign(self.numerator@, self.denominator@);
        }
        !self.negative && !self.numerator.is_zero()
    }

    /// The number with its sign changed.
    pub fn neg(&self) -> (r: Rational)
        ensures
            r@ == -self@,
    {
        proof {
            use_type_invariant(self);
        }
        Rational {
            negative: !self.negative,
            numerator: self.numerator.clone(),
            denominator: self.denominator.clone(),
        }
    }

    /// The sum of two numbers.
    pub fn add(&self, other: &Rational) -> (r: Rational)
        ensures
            r@ == self@ + other@,
    {
        proof {
            use_type_invariant(self);
            use_type_invariant(other);
        }
        let left = self.numerator.mul(&other.denominator);
        let right = other.numerator.mul(&self.denominator);
        let denominator = self.denominator.mul(&other.denominator);
        proof {
            lemma_ratio_sum(
                self.numerator@,
                self.denominator@,
                other.numerator@,
                other.denominator@,
            );
        }
        if self.negative == other.negative {
            Rational::reduced(self.negative, left.add(&right), denominator)
        } else {
            match left.checked_sub(&right) {
                Some(difference) => {
                    proof {
                        lemma_ratio_difference(
                            self.numerator@,
                            self.denominator@,
                            other.numerator@,
                            other.denominator@,
                        );
                    }
                    Rational::reduced(self.negative, difference, denominator)
                },
                None => {
                    let difference = right.checked_sub(&left);
                    proof {
                        lemma_ratio_difference(
                            other.numerator@,
                            other.denominator@,
                            self.numerator@,
                            self.denominator@,
                        );
                        assert(other.denominator@ * self.denominator@ == self.denominator@
                            * other.denominator@) by (nonlinear_arith);
                    }
                    Rational::reduced(other.negative, difference.unwrap(), denominator)
                },
            }
        }
    }

    /// The difference of two numbers.
    pub fn sub(&self, other: &Rational) -> (r: Rational)
        ensures
            r@ == self@ - other@,
    {
        let opposite = other.neg();
        self.add(&opposite)
    }

    /// The product of two numbers.
    pub fn mul(&self, other: &Rational) -> (r: Rational)
        ensures
            r@ == self@ * other@,
    {
        proof {
            use_type_invariant(self);
            use_type_invariant(other);
            lemma_ratio_product(
                self.numerator@,
                self.denominator@,
                other.numerator@,
                other.denominator@,
            );
            let x = self.numerator@ as real / self.denominator@ as real;
            let y = other.numerator@ as real / other.denominator@ as real;
            assert((-x) * y == -(x * y) && x * (-y) == -(x * y) && (-x) * (-y) == x * y)
                by (nonlinear_arith);
        }
        let numerator = self.numerator.mul(&other.numerator);
        let denominator = self.denominator.mul(&other.denominator);
        Rational::reduced(self.negative != other.negative, numerator, denominator)
    }

    /// The quotient of two numbers, the second of which is not zero.
    pub fn div(&self, other: &Rational) -> (r: Rational)
        requires
            other@ != 0real,
        ensures
            r@ == self@ / other@,
    {
        proof {
            use_type_invariant(self);
            use_type_invariant(other);
            lemma_ratio_sign(other.numerator@, other.denominator@);
            lemma_ratio_quotient(
                self.numerator@,
                self.denominator@,
                other.numerator@,
                other.denominator@,
            );
            let x = self.numerator@ as real / self.denominator@ as real;
            let y = other.numerator@ as real / other.denominator@ as real;
            assert((-x) / y == -(x / y) && x / (-y) == -(x / y) && (-x) / (-y) == x / y)
                by (nonlinear_arith)
                requires
                    y != 0real,
            ;
        }
        let numerator = self.numerator.mul(&other.denominator);
        let denominator = self.denominator.mul(&other.numerator);
        Rational::reduced(self.negative != other.negative, numerator, denominator)
    }

    /// Whether `self` is less than `other`.
    pub fn lt(&self, other: &Rational) -> (less: bool)
        ensures
            less <==> self@ < other@,
    {
        self.sub(other).is_negative()
    }

    /// Whether the two numbers are equal.
    pub fn eq(&self, other: &Rational) -> (same: bool)
        ensures
            same <==> self@ == other@,
    {
        self.sub(other).is_zero()
    }
}

} // verus!
