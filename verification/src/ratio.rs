use vstd::prelude::*;

verus! {

/// A predicted compression ratio, kept as an exact rational number
/// `num / den` (uncompressed bytes over predicted compressed bytes).
/// Larger is better; a numerator of zero means "refuse this codec".
#[derive(Clone, Copy, Debug, PartialEq, Eq, Structural)]
pub struct Ratio {
    pub num: u64,
    pub den: u64,
}

impl Ratio {
    /// A ratio is well formed when its denominator is positive.
    pub open spec fn wf(self) -> bool {
        self.den > 0
    }

    /// The mathematical comparison `self > other` of the two rationals.
    pub open spec fn spec_gt(self, other: Ratio) -> bool {
        self.num * other.den > other.num * self.den
    }

    /// The mathematical equality `self == n` against a whole number.
    pub open spec fn spec_eq_int(self, n: nat) -> bool {
        self.num == n * self.den
    }

    /// The ratio that refuses a codec.
    pub fn zero() -> (r: Ratio)
        ensures
            r == (Ratio { num: 0, den: 1 }),
    {
        Ratio { num: 0, den: 1 }
    }

    /// The ratio of two exact byte counts.
    pub fn of(num: u64, den: u64) -> (r: Ratio)
        requires
            den > 0,
        ensures
            r.wf(),
            r == (Ratio { num, den }),
    {
        Ratio { num, den }
    }

    /// Decides `self > other` exactly, by cross multiplication.
    pub fn gt(&self, other: &Ratio) -> (r: bool)
        ensures
            r == self.spec_gt(*other),
    {
        proof {
            lemma_u64_products_fit(self.num, other.den, other.num, self.den);
        }
        let a: u128 = (self.num as u128) * (other.den as u128);
        let b: u128 = (other.num as u128) * (self.den as u128);
        a > b
    }

    /// Decides `self == n` exactly, by multiplying out the denominator.
    pub fn eq_int(&self, n: u64) -> (r: bool)
        ensures
            r == self.spec_eq_int(n as nat),
    {
        proof {
            lemma_u64_products_fit(n, self.den, n, self.den);
        }
        (self.num as u128) == (n as u128) * (self.den as u128)
    }
}

/// The strict order on ratios is transitive.
pub proof fn lemma_ratio_gt_trans(a: Ratio, b: Ratio, c: Ratio)
    requires
        a.wf(),
        b.wf(),
        c.wf(),
        a.spec_gt(b),
        b.spec_gt(c),
    ensures
        a.spec_gt(c),
{
    assert(a.num * c.den > c.num * a.den) by (nonlinear_arith)
        requires
            a.num * b.den > b.num * a.den,
            b.num * c.den > c.num * b.den,
            a.den > 0,
            b.den > 0,
            c.den > 0,
            a.num >= 0,
            b.num >= 0,
            c.num >= 0,
    ;
}

/// Products of two `u64` values fit in a `u128`.
proof fn lemma_u64_products_fit(a: u64, b: u64, c: u64, d: u64)
    ensures
        a * b <= u128::MAX,
        c * d <= u128::MAX,
{
    assert(a * b < 0x1_0000_0000_0000_0000 * 0x1_0000_0000_0000_0000 && c * d
        < 0x1_0000_0000_0000_0000 * 0x1_0000_0000_0000_0000) by (nonlinear_arith)
        requires
            a < 0x1_0000_0000_0000_0000,
            b < 0x1_0000_0000_0000_0000,
            c < 0x1_0000_0000_0000_0000,
            d < 0x1_0000_0000_0000_0000,
    ;
}

} // verus!
