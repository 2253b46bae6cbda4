//! Single-precision numbers by their bit patterns: how they compare.

use vstd::arithmetic::power2::{lemma_pow2_pos, lemma_pow2_strictly_increases, lemma_pow2_unfold, pow2};
use vstd::prelude::*;

verus! {

/// An IEEE 754 single-precision number, held as its bit pattern.
#[derive(Clone, Copy, Debug)]
pub struct Single {
    pub bits: u32,
}

/// Zero.
pub const ZERO_BITS: u32 = 0;

/// One.
pub const ONE_BITS: u32 = 0x3f80_0000;

/// The level at which a spectrum is silent, -90 dB.
pub const SILENCE_BITS: u32 = 0xc2b4_0000;

impl Single {
    /// The pattern without its sign.
    pub open spec fn magnitude(self) -> int {
        if self.bits < 0x8000_0000 {
            self.bits as int
        } else {
            self.bits - 0x8000_0000
        }
    }

    /// Whether the pattern stands for no number.
    pub open spec fn is_nan(self) -> bool {
        self.magnitude() > 0x7f80_0000
    }

    /// Whether the pattern stands for a finite number.
    pub open spec fn is_finite(self) -> bool {
        self.magnitude() < 0x7f80_0000
    }

    /// Where the number stands in the order of all numbers. Both zeros stand at 0.
    pub open spec fn rank(self) -> int {
        if self.bits < 0x8000_0000 {
            self.magnitude()
        } else {
            -self.magnitude()
        }
    }

    /// `self < other`.
    pub open spec fn lt(self, other: Single) -> bool {
        !self.is_nan() && !other.is_nan() && self.rank() < other.rank()
    }

    /// `self <= other`.
    pub open spec fn le(self, other: Single) -> bool {
        !self.is_nan() && !other.is_nan() && self.rank() <= other.rank()
    }

    /// `self == other`.
    pub open spec fn equals(self, other: Single) -> bool {
        !self.is_nan() && !other.is_nan() && self.rank() == other.rank()
    }

    /// The size of a finite number in units of the smallest one above zero.
    pub open spec fn units(self) -> int {
        if self.bits < 0x8000_0000 {
            magnitude_units(self.magnitude())
        } else {
            -magnitude_units(self.magnitude())
        }
    }

    /// The nearest number from `lo` to `hi`.
    pub open spec fn clamped(self, lo: Single, hi: Single) -> Single {
        if self.lt(lo) {
            lo
        } else if hi.lt(self) {
            hi
        } else {
            self
        }
    }

    /// The number with the given bit pattern.
    pub fn from_bits(bits: u32) -> (r: Single)
        ensures
            r.bits == bits,
    {
        Single { bits }
    }

    /// Whether the pattern stands for no number.
    pub fn nan(self) -> (r: bool)
        ensures
            r == self.is_nan(),
    {
        if self.bits < 0x8000_0000 {
            self.bits > 0x7f80_0000
        } else {
            self.bits - 0x8000_0000 > 0x7f80_0000
        }
    }

    fn order(self) -> (r: i64)
        ensures
            r == self.rank(),
    {
        if self.bits < 0x8000_0000 {
            self.bits as i64
        } else {
            -((self.bits - 0x8000_0000) as i64)
        }
    }

    /// `self < other`.
    pub fn below(self, other: Single) -> (r: bool)
        ensures
            r == self.lt(other),
    {
        !self.nan() && !other.nan() && self.order() < other.order()
    }

    /// `self > other`.
    pub fn above(self, other: Single) -> (r: bool)
        ensures
            r == other.lt(self),
    {
        other.below(self)
    }

    /// `self <= other`.
    pub fn at_most(self, other: Single) -> (r: bool)
        ensures
            r == self.le(other),
    {
        !self.nan() && !other.nan() && self.order() <= other.order()
    }

    /// The nearest number from `lo` to `hi`.
    pub fn clamp(self, lo: Single, hi: Single) -> (r: Single)
        requires
            lo.le(hi),
        ensures
            r == self.clamped(lo, hi),
            self.lt(lo) ==> r == lo,
            hi.lt(self) ==> r == hi,
            !self.lt(lo) && !hi.lt(self) ==> r == self,
    {
        if self.below(lo) {
            lo
        } else if self.above(hi) {
            hi
        } else {
            self
        }
    }

    /// `self == other`.
    pub fn same(self, other: Single) -> (r: bool)
        ensures
            r == self.equals(other),
    {
        !self.nan() && !other.nan() && self.order() == other.order()
    }
}

/// The size of a finite number without sign, by its pattern: below the eighth
/// bit from the top the fraction counts as it stands, above it the exponent
/// doubles the fraction and its hidden bit.
pub open spec fn magnitude_units(m: int) -> int {
    let exponent = m / 0x80_0000;
    let fraction = m % 0x80_0000;
    if exponent == 0 {
        fraction
    } else {
        (fraction + 0x80_0000) * pow2((exponent - 1) as nat)
    }
}

/// A larger pattern without sign stands for a larger number.
proof fn lemma_magnitude_grows(a: int, b: int)
    requires
        0 <= a < b,
    ensures
        magnitude_units(a) < magnitude_units(b),
{
    let ea = a / 0x80_0000;
    let eb = b / 0x80_0000;
    let fa = a % 0x80_0000;
    let fb = b % 0x80_0000;
    assert(ea <= eb);
    if eb > 0 {
        let pb = pow2((eb - 1) as nat) as int;
        lemma_pow2_pos((eb - 1) as nat);
        assert((fb + 0x80_0000) * pb >= 0x80_0000 * pb) by (nonlinear_arith)
            requires
                fb >= 0,
                pb >= 1,
        ;
        if ea == eb {
            assert(fa < fb);
            assert((fa + 0x80_0000) * pb < (fb + 0x80_0000) * pb) by (nonlinear_arith)
                requires
                    fa < fb,
                    pb >= 1,
            ;
        } else if ea == 0 {
            assert(0x80_0000 * pb >= 0x80_0000) by (nonlinear_arith)
                requires
                    pb >= 1,
            ;
        } else {
            let pa = pow2((ea - 1) as nat) as int;
            let pe = pow2(ea as nat) as int;
            lemma_pow2_pos((ea - 1) as nat);
            lemma_pow2_unfold(ea as nat);
            assert(pe == 2 * pa);
            if ea < eb - 1 {
                lemma_pow2_strictly_increases(ea as nat, (eb - 1) as nat);
            }
            assert(pe <= pb);
            assert((fa + 0x80_0000) * pa < 0x80_0000 * pb) by (nonlinear_arith)
                requires
                    0 <= fa < 0x80_0000,
                    pa >= 1,
                    2 * pa <= pb,
            ;
        }
    }
}

/// Finite numbers compare by their size: the order that `lt` reads off the
/// patterns is the order of the numbers that the patterns stand for.
pub proof fn law_order_is_order_of_values(a: Single, b: Single)
    requires
        a.is_finite(),
        b.is_finite(),
    ensures
        a.lt(b) <==> a.units() < b.units(),
        a.equals(b) <==> a.units() == b.units(),
{
    let ma = a.magnitude();
    let mb = b.magnitude();
    if ma < mb {
        lemma_magnitude_grows(ma, mb);
    } else if mb < ma {
        lemma_magnitude_grows(mb, ma);
    }
    assert(magnitude_units(0) == 0);
    if ma > 0 {
        lemma_magnitude_grows(0, ma);
    }
    if mb > 0 {
        lemma_magnitude_grows(0, mb);
    }
}

/// Of two numbers one is less, or they are equal.
pub proof fn law_numbers_are_ordered(a: Single, b: Single)
    requires
        !a.is_nan(),
        !b.is_nan(),
    ensures
        a.lt(b) || b.lt(a) || a.equals(b),
        !(a.lt(b) && b.lt(a)),
        a.le(b) <==> !b.lt(a),
{
}

/// A number that is clamped lies in the range, and stays as it is if it did.
pub proof fn law_clamped_lies_in_range(x: Single, lo: Single, hi: Single)
    requires
        !x.is_nan(),
        lo.le(hi),
    ensures
        lo.le(x.clamped(lo, hi)),
        x.clamped(lo, hi).le(hi),
        lo.le(x) && x.le(hi) ==> x.clamped(lo, hi) == x,
        x.lt(lo) ==> x.clamped(lo, hi) == lo,
        hi.lt(x) ==> x.clamped(lo, hi) == hi,
{
}

/// A pattern whose exponent is full and whose fraction is not empty is no
/// number, and compares with nothing.
pub proof fn law_no_number_compares(a: Single, b: Single)
    requires
        a.bits % 0x8000_0000 > 0x7f80_0000,
    ensures
        a.is_nan(),
        !a.is_finite(),
        !a.lt(b) && !b.lt(a),
        !a.le(b) && !b.le(a),
        !a.equals(b) && !b.equals(a),
{
}

/// Every other pattern is a number: the infinities, which equal themselves, and
/// the finite numbers between them.
pub proof fn law_infinities_surround_the_finite(a: Single)
    requires
        a.bits % 0x8000_0000 < 0x7f80_0000,
    ensures
        a.is_finite(),
        !a.is_nan(),
        a.lt(Single { bits: 0x7f80_0000 }),
        (Single { bits: 0xff80_0000 }).lt(a),
        a.equals(a),
        a.le(a),
        (Single { bits: 0x7f80_0000 }).equals(Single { bits: 0x7f80_0000 }),
        (Single { bits: 0xff80_0000 }).equals(Single { bits: 0xff80_0000 }),
        !(Single { bits: 0x7f80_0000 }).is_finite(),
        !(Single { bits: 0xff80_0000 }).is_finite(),
{
}

} // verus!
