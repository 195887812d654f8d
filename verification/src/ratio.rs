//! Exact non-negative fractions.

use crate::natural::Natural;
use vstd::prelude::*;

verus! {

/// The fraction `num / den` as a real number.
pub open spec fn quotient(num: nat, den: nat) -> real {
    num as real / den as real
}

/// The distance between two real numbers.
pub open spec fn distance(x: real, y: real) -> real {
    if x >= y {
        x - y
    } else {
        y - x
    }
}

/// The product of two naturals, taken as a real, is the product of the reals.
pub proof fn lemma_product_real(a: nat, b: nat)
    ensures
        (a * b) as real == a as real * b as real,
{
    assert((a * b) as real == a as real * b as real) by (nonlinear_arith);
}

/// Fractions are added over the product of their denominators.
pub proof fn lemma_quotient_add(a: nat, b: nat, c: nat, d: nat)
    requires
        b > 0,
        d > 0,
    ensures
        b * d > 0,
        quotient(a, b) + quotient(c, d) == quotient(a * d + c * b, b * d),
{
    lemma_product_real(a, d);
    lemma_product_real(c, b);
    lemma_product_real(b, d);
    let ar = a as real;
    let br = b as real;
    let cr = c as real;
    let dr = d as real;
    assert(b * d > 0) by (nonlinear_arith)
        requires
            b > 0,
            d > 0,
    ;
    assert(ar / br + cr / dr == (ar * dr + cr * br) / (br * dr)) by (nonlinear_arith)
        requires
            br > 0real,
            dr > 0real,
    ;
}

/// The distance between two fractions, over the product of their
/// denominators.
pub proof fn lemma_quotient_distance(a: nat, b: nat, c: nat, d: nat, diff: nat)
    requires
        b > 0,
        d > 0,
        diff == if a * d >= c * b {
            a * d - c * b
        } else {
            c * b - a * d
        },
    ensures
        b * d > 0,
        distance(quotient(a, b), quotient(c, d)) == quotient(diff, b * d),
{
    lemma_product_real(a, d);
    lemma_product_real(c, b);
    lemma_product_real(b, d);
    let ar = a as real;
    let br = b as real;
    let cr = c as real;
    let dr = d as real;
    assert(b * d > 0) by (nonlinear_arith)
        requires
            b > 0,
            d > 0,
    ;
    assert(ar / br - cr / dr == (ar * dr - cr * br) / (br * dr)) by (nonlinear_arith)
        requires
            br > 0real,
            dr > 0real,
    ;
    assert(cr / dr - ar / br == (cr * br - ar * dr) / (br * dr)) by (nonlinear_arith)
        requires
            br > 0real,
            dr > 0real,
    ;
    assert((ar / br >= cr / dr) <==> (ar * dr >= cr * br)) by (nonlinear_arith)
        requires
            br > 0real,
            dr > 0real,
    ;
}

/// Fractions are multiplied numerator by numerator and denominator by
/// denominator.
pub proof fn lemma_quotient_mul(a: nat, b: nat, c: nat, d: nat)
    requires
        b > 0,
        d > 0,
    ensures
        b * d > 0,
        quotient(a, b) * quotient(c, d) == quotient(a * c, b * d),
{
    lemma_product_real(a, c);
    lemma_product_real(b, d);
    let ar = a as real;
    let br = b as real;
    let cr = c as real;
    let dr = d as real;
    assert(b * d > 0) by (nonlinear_arith)
        requires
            b > 0,
            d > 0,
    ;
    assert((ar / br) * (cr / dr) == (ar * cr) / (br * dr)) by (nonlinear_arith)
        requires
            br > 0real,
            dr > 0real,
    ;
}

/// A fraction is divided by another by multiplying crosswise.
pub proof fn lemma_quotient_div(a: nat, b: nat, c: nat, d: nat)
    requires
        b > 0,
        c > 0,
        d > 0,
    ensures
        b * c > 0,
        quotient(a, b) / quotient(c, d) == quotient(a * d, b * c),
{
    lemma_product_real(a, d);
    lemma_product_real(b, c);
    let ar = a as real;
    let br = b as real;
    let cr = c as real;
    let dr = d as real;
    assert(b * c > 0) by (nonlinear_arith)
        requires
            b > 0,
            c > 0,
    ;
    assert((ar / br) / (cr / dr) == (ar * dr) / (br * cr)) by (nonlinear_arith)
        requires
            br > 0real,
            cr > 0real,
            dr > 0real,
    ;
}

/// Two fractions compare as their cross products do.
pub proof fn lemma_quotient_order(a: nat, b: nat, c: nat, d: nat)
    requires
        b > 0,
        d > 0,
    ensures
        quotient(a, b) < quotient(c, d) <==> a * d < c * b,
        quotient(a, b) == quotient(c, d) <==> a * d == c * b,
{
    lemma_product_real(a, d);
    lemma_product_real(c, b);
    let ar = a as real;
    let br = b as real;
    let cr = c as real;
    let dr = d as real;
    assert((ar / br < cr / dr) <==> (ar * dr < cr * br)) by (nonlinear_arith)
        requires
            br > 0real,
            dr > 0real,
    ;
    assert((ar / br == cr / dr) <==> (ar * dr == cr * br)) by (nonlinear_arith)
        requires
            br > 0real,
            dr > 0real,
    ;
}

/// A fraction is zero exactly when its numerator is.
pub proof fn lemma_quotient_zero(a: nat, b: nat)
    requires
        b > 0,
    ensures
        quotient(a, b) == 0real <==> a == 0,
        quotient(a, b) >= 0real,
{
    let ar = a as real;
    let br = b as real;
    assert((ar / br == 0real) <==> (ar == 0real)) by (nonlinear_arith)
        requires
            br > 0real,
    ;
    assert(ar / br >= 0real) by (nonlinear_arith)
        requires
            br > 0real,
            ar >= 0real,
    ;
}

/// A non-negative rational number, held exactly as a numerator over a
/// positive denominator.
#[derive(Debug)]
pub struct Ratio {
    num: Natural,
    den: Natural,
}

impl View for Ratio {
    type V = real;

    closed spec fn view(&self) -> real {
        quotient(self.num@, self.den@)
    }
}

impl Clone for Ratio {
    fn clone(&self) -> (r: Self)
        ensures
            r@ == self@,
    {
        proof {
            use_type_invariant(self);
        }
        Ratio { num: self.num.clone(), den: self.den.clone() }
    }
}

impl Ratio {
    #[verifier::type_invariant]
    spec fn valid(&self) -> bool {
        self.den@ > 0
    }

    /// The fraction `num / den`, where `den` is not zero.
    pub fn new(num: u128, den: u128) -> (r: Option<Ratio>)
        ensures
            r is Some <==> den != 0,
            r is Some ==> r->0@ == quotient(num as nat, den as nat),
    {
        if den == 0 {
            None
        } else {
            Some(Ratio { num: Natural::from_u128(num), den: Natural::from_u128(den) })
        }
    }

    /// The whole number `n`.
    pub fn from_integer(n: u128) -> (r: Ratio)
        ensures
            r@ == n as real,
    {
        proof {
            let x = n as real;
            assert(x / 1real == x) by (nonlinear_arith);
        }
        Ratio { num: Natural::from_u128(n), den: Natural::from_u128(1) }
    }

    /// Whether the fraction is zero.
    pub fn is_zero(&self) -> (r: bool)
        ensures
            r == (self@ == 0real),
    {
        proof {
            use_type_invariant(self);
            lemma_quotient_zero(self.num@, self.den@);
        }
        self.num.is_zero()
    }

    /// The sum of the two fractions.
    pub fn add(&self, other: &Ratio) -> (r: Ratio)
        ensures
            r@ == self@ + other@,
    {
        proof {
            use_type_invariant(self);
            use_type_invariant(other);
            lemma_quotient_add(self.num@, self.den@, other.num@, other.den@);
        }
        let left = self.num.mul(&other.den);
        let right = other.num.mul(&self.den);
        Ratio { num: left.add(&right), den: self.den.mul(&other.den) }
    }

    /// The distance between the two fractions.
    pub fn abs_diff(&self, other: &Ratio) -> (r: Ratio)
        ensures
            r@ == distance(self@, other@),
    {
        let left = self.num.mul(&other.den);
        let right = other.num.mul(&self.den);
        let num = left.abs_diff(&right);
        proof {
            use_type_invariant(self);
            use_type_invariant(other);
            lemma_quotient_distance(self.num@, self.den@, other.num@, other.den@, num@);
        }
        Ratio { num, den: self.den.mul(&other.den) }
    }

    /// The product of the two fractions.
    pub fn mul(&self, other: &Ratio) -> (r: Ratio)
        ensures
            r@ == self@ * other@,
    {
        proof {
            use_type_invariant(self);
            use_type_invariant(other);
            lemma_quotient_mul(self.num@, self.den@, other.num@, other.den@);
        }
        Ratio { num: self.num.mul(&other.num), den: self.den.mul(&other.den) }
    }

    /// The fraction divided by `other`, where `other` is not zero.
    pub fn div(&self, other: &Ratio) -> (r: Option<Ratio>)
        ensures
            r is Some <==> other@ != 0real,
            r is Some ==> r->0@ == self@ / other@,
    {
        proof {
            use_type_invariant(self);
            use_type_invariant(other);
            lemma_quotient_zero(other.num@, other.den@);
        }
        if other.num.is_zero() {
            None
        } else {
            proof {
                lemma_quotient_div(self.num@, self.den@, other.num@, other.den@);
            }
            Some(Ratio { num: self.num.mul(&other.den), den: self.den.mul(&other.num) })
        }
    }

    /// Whether the fraction is less than `other`.
    pub fn less_than(&self, other: &Ratio) -> (r: bool)
        ensures
            r == (self@ < other@),
    {
        proof {
            use_type_invariant(self);
            use_type_invariant(other);
            lemma_quotient_order(self.num@, self.den@, other.num@, other.den@);
        }
        let left = self.num.mul(&other.den);
        let right = other.num.mul(&self.den);
        left.less_than(&right)
    }

    /// Whether the two fractions are the same number.
    pub fn equals(&self, other: &Ratio) -> (r: bool)
        ensures
            r == (self@ == other@),
    {
        proof {
            use_type_invariant(self);
            use_type_invariant(other);
            lemma_quotient_order(self.num@, self.den@, other.num@, other.den@);
        }
        let left = self.num.mul(&other.den);
        let right = other.num.mul(&self.den);
        left.equals(&right)
    }
}

} // verus!
