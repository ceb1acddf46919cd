use vstd::prelude::*;

verus! {

/// A non-negative rational number `num / den`.
#[derive(Clone, Copy, Debug, PartialEq, Eq, Structural)]
pub struct Ratio {
    pub num: u64,
    pub den: u64,
}

/// The product of two `u64` values fits in a `u128`.
proof fn lemma_u64_product(a: u64, b: u64)
    ensures
        a as int * b as int <= u128::MAX,
{
    assert(a as int * b as int <= u64::MAX as int * u64::MAX as int) by (nonlinear_arith)
        requires
            a <= u64::MAX,
            b <= u64::MAX,
    ;
}

impl Ratio {
    /// A ratio is well formed when its denominator is positive.
    pub open spec fn wf(self) -> bool {
        self.den > 0
    }

    /// `self >= other` as rational numbers, by cross-multiplication.
    pub open spec fn ge_spec(self, other: Ratio) -> bool {
        self.num as int * other.den as int >= other.num as int * self.den as int
    }

    pub fn new(num: u64, den: u64) -> (r: Ratio)
        ensures
            r.num == num,
            r.den == den,
    {
        Ratio { num, den }
    }

    /// Compares two ratios exactly, without rounding.
    pub fn ge(&self, other: &Ratio) -> (r: bool)
        ensures
            r == self.ge_spec(*other),
    {
        proof {
            lemma_u64_product(self.num, other.den);
            lemma_u64_product(other.num, self.den);
        }
        let a: u128 = self.num as u128 * other.den as u128;
        let b: u128 = other.num as u128 * self.den as u128;
        a >= b
    }
}

} // verus!
