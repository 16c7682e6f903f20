//! Real-valued settings and scores, held as the bits of an IEEE double.
//!
//! The library stores such values and puts them in order; it never computes with them. Comparison
//! goes by an integer rank, and [`lemma_rank_orders`] shows that the rank orders as the numbers do.

use vstd::prelude::*;

verus! {

/// Half the range of the bit patterns: the weight of the sign bit.
pub const SIGN: u64 = 0x8000_0000_0000_0000;

/// The bits of positive infinity; larger magnitudes are not numbers.
pub const INFINITE: u64 = 0x7ff0_0000_0000_0000;

/// The weight of the exponent's lowest bit.
pub const UNIT: u64 = 0x10_0000_0000_0000;

/// An IEEE double, by its bits.
#[derive(Clone, Copy, Debug, PartialEq, Eq, Structural)]
pub struct Double {
    pub bits: u64,
}

/// The bits of a double without its sign.
pub open spec fn magnitude(bits: u64) -> int {
    if bits >= SIGN {
        bits - SIGN
    } else {
        bits as int
    }
}

/// The size of a double in units of the smallest positive one.
pub open spec fn size(magnitude: int) -> int {
    let exponent = magnitude / (UNIT as int);
    let fraction = magnitude % (UNIT as int);
    if exponent == 0 {
        fraction
    } else {
        (UNIT + fraction) * vstd::arithmetic::power2::pow2((exponent - 1) as nat)
    }
}

impl Double {
    /// Whether the value is not a number.
    pub open spec fn nan(self) -> bool {
        magnitude(self.bits) > INFINITE
    }

    /// The value in units of the smallest positive double; the infinities lie beyond every finite
    /// value.
    pub open spec fn value(self) -> int {
        if self.bits >= SIGN {
            -size(magnitude(self.bits))
        } else {
            size(magnitude(self.bits))
        }
    }

    /// The place of the value in the order of the doubles; both zeros have rank 0.
    pub open spec fn rank(self) -> int {
        if self.bits >= SIGN {
            -magnitude(self.bits)
        } else {
            magnitude(self.bits)
        }
    }

    /// Numeric equality: no value equals one that is not a number.
    pub open spec fn same(self, other: Double) -> bool {
        !self.nan() && !other.nan() && self.rank() == other.rank()
    }

    /// Numeric order: nothing is below or above what is not a number.
    pub open spec fn below(self, other: Double) -> bool {
        !self.nan() && !other.nan() && self.rank() < other.rank()
    }

    /// Numeric order, or equal.
    pub open spec fn reaches(self, other: Double) -> bool {
        !self.nan() && !other.nan() && self.rank() >= other.rank()
    }

    /// Whether the value is not a number.
    pub fn is_nan(&self) -> (r: bool)
        ensures
            r == self.nan(),
    {
        if self.bits >= SIGN {
            self.bits - SIGN > INFINITE
        } else {
            self.bits > INFINITE
        }
    }

    /// The place of the value in the order of the doubles.
    pub fn order(&self) -> (r: i64)
        ensures
            r == self.rank(),
    {
        if self.bits >= SIGN {
            let m: i64 = (self.bits - SIGN) as i64;
            -m
        } else {
            self.bits as i64
        }
    }

    /// Numeric equality.
    pub fn equals(&self, other: &Double) -> (r: bool)
        ensures
            r == self.same(*other),
    {
        !self.is_nan() && !other.is_nan() && self.order() == other.order()
    }

    /// Numeric order, or equal.
    pub fn at_least(&self, other: &Double) -> (r: bool)
        ensures
            r == self.reaches(*other),
    {
        !self.is_nan() && !other.is_nan() && self.order() >= other.order()
    }

    /// Numeric order.
    pub fn less(&self, other: &Double) -> (r: bool)
        ensures
            r == self.below(*other),
    {
        !self.is_nan() && !other.is_nan() && self.order() < other.order()
    }
}

/// A larger bit pattern, sign aside, is a larger number.
proof fn lemma_size_grows(a: int, b: int)
    requires
        0 <= a < b,
    ensures
        size(a) < size(b),
{
    let unit = UNIT as int;
    let ea = a / unit;
    let eb = b / unit;
    let fa = a % unit;
    let fb = b % unit;
    assert(a == ea * unit + fa && 0 <= fa < unit) by (nonlinear_arith)
        requires
            unit == 0x10_0000_0000_0000int,
            ea == a / unit,
            fa == a % unit,
    ;
    assert(b == eb * unit + fb && 0 <= fb < unit) by (nonlinear_arith)
        requires
            unit == 0x10_0000_0000_0000int,
            eb == b / unit,
            fb == b % unit,
    ;
    assert(0 <= ea <= eb) by (nonlinear_arith)
        requires
            0 <= a < b,
            unit == 0x10_0000_0000_0000int,
            a == ea * unit + fa,
            b == eb * unit + fb,
            0 <= fa < unit,
            0 <= fb < unit,
    ;
    if ea == eb {
        assert(fa < fb);
        if ea > 0 {
            let p = vstd::arithmetic::power2::pow2((ea - 1) as nat) as int;
            vstd::arithmetic::power2::lemma_pow2_pos((ea - 1) as nat);
            assert((unit + fa) * p < (unit + fb) * p) by (nonlinear_arith)
                requires
                    p > 0,
                    fa < fb,
            ;
        }
    } else if ea == 0 {
        let p = vstd::arithmetic::power2::pow2((eb - 1) as nat) as int;
        vstd::arithmetic::power2::lemma_pow2_pos((eb - 1) as nat);
        assert(fa < (unit + fb) * p) by (nonlinear_arith)
            requires
                p > 0,
                0 <= fb,
                fa < unit,
                unit > 0,
        ;
    } else {
        let p = vstd::arithmetic::power2::pow2((ea - 1) as nat) as int;
        let q = vstd::arithmetic::power2::pow2((eb - 1) as nat) as int;
        vstd::arithmetic::power2::lemma_pow2_pos((ea - 1) as nat);
        vstd::arithmetic::power2::lemma_pow2_unfold(ea as nat);
        if ea < eb - 1 {
            vstd::arithmetic::power2::lemma_pow2_strictly_increases(ea as nat, (eb - 1) as nat);
        }
        assert(q >= 2 * p);
        assert((unit + fa) * p < (unit + fb) * q) by (nonlinear_arith)
            requires
                p > 0,
                q >= 2 * p,
                0 <= fa < unit,
                0 <= fb,
        ;
    }
}

/// The rank orders values as numbers: below, equal and above agree.
pub proof fn lemma_rank_orders(a: Double, b: Double)
    ensures
        a.rank() < b.rank() <==> a.value() < b.value(),
        a.rank() == b.rank() <==> a.value() == b.value(),
{
    let ma = magnitude(a.bits);
    let mb = magnitude(b.bits);
    if ma > 0 {
        lemma_size_grows(0, ma);
    }
    if mb > 0 {
        lemma_size_grows(0, mb);
    }
    if ma < mb {
        lemma_size_grows(ma, mb);
    } else if mb < ma {
        lemma_size_grows(mb, ma);
    }
    assert(size(0) == 0);
}

/// What is beyond the infinities is not a number, with either sign, and nothing else is.
pub proof fn lemma_beyond_the_infinities(d: Double)
    ensures
        d.nan() <==> (d.bits as int) % 0x8000_0000_0000_0000 > 0x7FF0_0000_0000_0000,
        !d.nan() ==> d.same(d) && d.reaches(d) && !d.below(d),
        d.nan() ==> !d.same(d) && !d.reaches(d) && !d.below(d),
{
}

} // verus!
