//! Non-negative rational numbers, the way durations and tempi are measured.
//!
//! The arithmetic itself is done by `num_rational::Ratio<u64>`; this module
//! carries numerator and denominator as plain integers and states what each
//! operation gives.
use num_rational::Ratio;
use num_traits::{CheckedAdd, CheckedDiv, CheckedMul, CheckedSub};
use crate::compiler::codegen::utils::spec_gcd;
use vstd::prelude::*;

verus! {

/// The rational number `numer / denom`.
#[derive(Debug, Clone, Copy, PartialEq, Eq, Structural)]
pub struct Fraction {
    pub numer: u64,
    pub denom: u64,
}

/// `a * b` computed without overflow.
pub fn mul_wide(a: u64, b: u64) -> (r: u128)
    ensures
        r == a * b,
{
    proof {
        assert(a * b <= u64::MAX * u64::MAX) by (nonlinear_arith)
            requires
                a <= u64::MAX,
                b <= u64::MAX,
        ;
        assert(0 <= a * b) by (nonlinear_arith)
            requires
                0 <= a,
                0 <= b,
        ;
    }
    (a as u128) * (b as u128)
}

impl Fraction {
    /// The denominator is not zero.
    pub open spec fn wf(self) -> bool {
        self.denom > 0
    }

    /// Both fractions stand for the same number.
    pub open spec fn spec_same(self, other: Fraction) -> bool {
        self.numer * other.denom == other.numer * self.denom
    }

    /// `self <= other` as numbers.
    pub open spec fn spec_le(self, other: Fraction) -> bool {
        self.numer * other.denom <= other.numer * self.denom
    }

    /// `self < other` as numbers.
    pub open spec fn spec_lt(self, other: Fraction) -> bool {
        self.numer * other.denom < other.numer * self.denom
    }

    /// `self == a + b` as numbers.
    pub open spec fn is_sum_of(self, a: Fraction, b: Fraction) -> bool {
        self.numer * (a.denom * b.denom) == (a.numer * b.denom + b.numer * a.denom) * self.denom
    }

    /// `self == a - b` as numbers.
    pub open spec fn is_difference_of(self, a: Fraction, b: Fraction) -> bool {
        self.numer * (a.denom * b.denom) == (a.numer * b.denom - b.numer * a.denom) * self.denom
    }

    /// `self == a * b` as numbers.
    pub open spec fn is_product_of(self, a: Fraction, b: Fraction) -> bool {
        self.numer * (a.denom * b.denom) == (a.numer * b.numer) * self.denom
    }

    /// `self == a / b` as numbers.
    pub open spec fn is_quotient_of(self, a: Fraction, b: Fraction) -> bool {
        self.numer * (a.denom * b.numer) == (a.numer * b.denom) * self.denom
    }

    /// The number rounded towards zero.
    pub open spec fn spec_trunc(self) -> int {
        self.numer as int / self.denom as int
    }

    /// The integer `n`.
    pub fn from_integer(n: u64) -> (r: Fraction)
        ensures
            r == (Fraction { numer: n, denom: 1 }),
    {
        Fraction { numer: n, denom: 1 }
    }

    /// Rounds towards zero.
    pub fn to_integer(&self) -> (r: u64)
        requires
            self.wf(),
        ensures
            r == self.spec_trunc(),
    {
        self.numer / self.denom
    }

    /// Whether both stand for the same number.
    pub fn same(&self, other: &Fraction) -> (r: bool)
        ensures
            r == self.spec_same(*other),
    {
        mul_wide(self.numer, other.denom) == mul_wide(other.numer, self.denom)
    }

    /// `self <= other` as numbers.
    pub fn le(&self, other: &Fraction) -> (r: bool)
        ensures
            r == self.spec_le(*other),
    {
        mul_wide(self.numer, other.denom) <= mul_wide(other.numer, self.denom)
    }

    /// `self < other` as numbers.
    pub fn lt(&self, other: &Fraction) -> (r: bool)
        ensures
            r == self.spec_lt(*other),
    {
        mul_wide(self.numer, other.denom) < mul_wide(other.numer, self.denom)
    }
}

/// `numer / denom` with both divided by their greatest common divisor.
pub open spec fn reduced(numer: nat, denom: nat) -> Fraction {
    let g = spec_gcd(numer, denom);
    Fraction { numer: (numer / g) as u64, denom: (denom / g) as u64 }
}

/// `<` followed by `<=` is `<`.
pub proof fn lemma_lt_le_trans(a: Fraction, b: Fraction, c: Fraction)
    requires
        a.wf(),
        b.wf(),
        c.wf(),
        a.spec_lt(b),
        b.spec_le(c),
    ensures
        a.spec_lt(c),
{
    assert(a.numer * b.denom * c.denom < b.numer * a.denom * c.denom) by (nonlinear_arith)
        requires
            a.numer * b.denom < b.numer * a.denom,
            c.denom > 0,
    ;
    assert(b.numer * c.denom * a.denom <= c.numer * b.denom * a.denom) by (nonlinear_arith)
        requires
            b.numer * c.denom <= c.numer * b.denom,
            a.denom > 0,
    ;
    assert(a.numer * c.denom < c.numer * a.denom) by (nonlinear_arith)
        requires
            a.numer * b.denom * c.denom < b.numer * a.denom * c.denom,
            b.numer * c.denom * a.denom <= c.numer * b.denom * a.denom,
            b.denom > 0,
    ;
}

/// `num_rational::Ratio::new`: the fraction `numer / denom` in lowest terms,
/// both divided by their greatest common divisor, as its `reduce` does (a
/// zero numerator gives `0 / 1`). The contract claims that reduced form, and
/// that it stands for the same number with a nonzero denominator;
/// `Ratio::new` panics on a zero denominator.
#[verifier::external_body]
pub(crate) fn ratio_new(numer: u64, denom: u64) -> (r: Fraction)
    requires
        denom > 0,
    ensures
        r.wf(),
        r.spec_same(Fraction { numer, denom }),
        r == reduced(numer as nat, denom as nat),
{
    let q = Ratio::new(numer, denom);
    Fraction { numer: *q.numer(), denom: *q.denom() }
}

/// `CheckedAdd::checked_add` on `Ratio<u64>`: the exact sum in lowest terms,
/// or `None` when an intermediate product overflows. It never overflows when the cross products
/// and the product of the denominators fit in a `u64`.
#[verifier::external_body]
pub(crate) fn ratio_checked_add(a: Fraction, b: Fraction) -> (r: Option<Fraction>)
    requires
        a.wf(),
        b.wf(),
    ensures
        r matches Some(q) ==> q.wf() && q.is_sum_of(a, b) && q.denom <= a.denom * b.denom,
        r matches Some(q) ==> q == reduced(q.numer as nat, q.denom as nat),
        a.numer * b.denom + b.numer * a.denom <= u64::MAX && a.denom * b.denom <= u64::MAX
            ==> r is Some,
{
    match Ratio::new(a.numer, a.denom).checked_add(&Ratio::new(b.numer, b.denom)) {
        Some(q) => Some(Fraction { numer: *q.numer(), denom: *q.denom() }),
        None => None,
    }
}

/// `CheckedSub::checked_sub` on `Ratio<u64>`: the exact difference in lowest
/// terms, or `None`
/// when it would be negative or an intermediate product overflows. The
/// difference is reduced over the least common multiple of the denominators,
/// so its denominator is at most their product.
#[verifier::external_body]
pub(crate) fn ratio_checked_sub(a: Fraction, b: Fraction) -> (r: Option<Fraction>)
    requires
        a.wf(),
        b.wf(),
    ensures
        r matches Some(q) ==> q.wf() && q.is_difference_of(a, b) && b.spec_le(a) && q.denom <= a.denom * b.denom,
        r matches Some(q) ==> q == reduced(q.numer as nat, q.denom as nat),
        b.spec_le(a) && a.numer * b.denom <= u64::MAX && a.denom * b.denom <= u64::MAX
            ==> r is Some,
{
    match Ratio::new(a.numer, a.denom).checked_sub(&Ratio::new(b.numer, b.denom)) {
        Some(q) => Some(Fraction { numer: *q.numer(), denom: *q.denom() }),
        None => None,
    }
}

/// `CheckedMul::checked_mul` on `Ratio<u64>`: the exact product in lowest
/// terms, or `None`
/// when an intermediate product overflows.
#[verifier::external_body]
pub(crate) fn ratio_checked_mul(a: Fraction, b: Fraction) -> (r: Option<Fraction>)
    requires
        a.wf(),
        b.wf(),
    ensures
        r matches Some(q) ==> q.wf() && q.is_product_of(a, b) && q.numer <= a.numer * b.numer
            && q.denom <= a.denom * b.denom,
        r matches Some(q) ==> q == reduced(q.numer as nat, q.denom as nat),
        a.numer * b.numer <= u64::MAX && a.denom * b.denom <= u64::MAX ==> r is Some,
{
    match Ratio::new(a.numer, a.denom).checked_mul(&Ratio::new(b.numer, b.denom)) {
        Some(q) => Some(Fraction { numer: *q.numer(), denom: *q.denom() }),
        None => None,
    }
}

/// `CheckedDiv::checked_div` on `Ratio<u64>`: the exact quotient in lowest
/// terms, or `None`
/// when dividing by zero or an intermediate product overflows.
#[verifier::external_body]
pub(crate) fn ratio_checked_div(a: Fraction, b: Fraction) -> (r: Option<Fraction>)
    requires
        a.wf(),
        b.wf(),
    ensures
        r matches Some(q) ==> q.wf() && q.is_quotient_of(a, b) && b.numer > 0 && q.numer
            <= a.numer * b.denom && q.denom <= a.denom * b.numer,
        r matches Some(q) ==> q == reduced(q.numer as nat, q.denom as nat),
        b.numer > 0 && a.numer * b.denom <= u64::MAX && a.denom * b.numer <= u64::MAX
            ==> r is Some,
{
    match Ratio::new(a.numer, a.denom).checked_div(&Ratio::new(b.numer, b.denom)) {
        Some(q) => Some(Fraction { numer: *q.numer(), denom: *q.denom() }),
        None => None,
    }
}

} // verus!
