//! Fixed-point coordinate values.
//!
//! A [`Fixed`] holds a signed number of thousandths of a coordinate unit.
//! This representation covers every coordinate the plotter dialect needs at a
//! resolution of `0.001`, and it makes the arithmetic of the library exact,
//! so that serialization and transformation admit precise contracts.

use vstd::prelude::*;

verus! {

/// Number of raw steps per coordinate unit.
pub const FIXED_SCALE: i64 = 1000;

/// Largest raw magnitude the parser accepts (one billion units).  Keeping
/// coordinates within this bound leaves ample headroom for the intermediate
/// arithmetic of the arc resolver.
pub const RAW_LIMIT: i64 = 1_000_000_000_000;

/// A coordinate value in thousandths of a unit.
#[derive(Clone, Copy, PartialEq, Eq, Structural, Debug)]
pub struct Fixed {
    pub raw: i64,
}

impl View for Fixed {
    type V = int;

    open spec fn view(&self) -> int {
        self.raw as int
    }
}

/// Scale product of two fixed-point values, truncated toward zero:
/// `(a/1000) * (b/1000)` expressed in thousandths is `a*b/1000`.
pub open spec fn fmul(a: int, b: int) -> int {
    if a * b >= 0 {
        (a * b) / 1000
    } else {
        -((-(a * b)) / 1000)
    }
}

/// Whether a mathematical value fits into the raw `i64` representation.
pub open spec fn fits_raw(v: int) -> bool {
    i64::MIN <= v <= i64::MAX
}

impl Fixed {
    /// The value `raw / 1000` units.
    pub fn from_raw(raw: i64) -> (r: Fixed)
        ensures
            r@ == raw as int,
    {
        Fixed { raw }
    }

    /// A whole number of units.
    pub fn from_units(units: i64) -> (r: Fixed)
        requires
            -9_000_000_000_000_000 <= units as int <= 9_000_000_000_000_000,
        ensures
            r@ == units as int * 1000,
    {
        Fixed { raw: units * FIXED_SCALE }
    }

    /// Zero units.
    pub fn zero() -> (r: Fixed)
        ensures
            r@ == 0,
    {
        Fixed { raw: 0 }
    }

    /// Exact sum of two values.
    pub fn add(self, other: Fixed) -> (r: Fixed)
        requires
            fits_raw(self@ + other@),
        ensures
            r@ == self@ + other@,
    {
        Fixed { raw: self.raw + other.raw }
    }

    /// Exact difference of two values.
    pub fn sub(self, other: Fixed) -> (r: Fixed)
        requires
            fits_raw(self@ - other@),
        ensures
            r@ == self@ - other@,
    {
        Fixed { raw: self.raw - other.raw }
    }

    /// Scale product, truncated toward zero.
    pub fn scale_by(self, factor: Fixed) -> (r: Fixed)
        requires
            fits_raw(fmul(self@, factor@)),
        ensures
            r@ == fmul(self@, factor@),
    {
        let a: i128 = self.raw as i128;
        let b: i128 = factor.raw as i128;
        let neg: bool = (self.raw < 0) != (factor.raw < 0);
        let ma: u128 = if self.raw < 0 { (-a) as u128 } else { a as u128 };
        let mb: u128 = if factor.raw < 0 { (-b) as u128 } else { b as u128 };
        proof {
            assert(ma as int * mb as int <= 0x8000_0000_0000_0000 * 0x8000_0000_0000_0000)
                by (nonlinear_arith)
                requires
                    ma as int <= 0x8000_0000_0000_0000,
                    mb as int <= 0x8000_0000_0000_0000,
            ;
        }
        let mp: u128 = ma * mb;
        let q: u128 = mp / 1000;
        proof {
            lemma_magnitude_product(self.raw as int, factor.raw as int, ma as int, mb as int);
        }
        if neg && q > 0 {
            assert(fmul(self@, factor@) == -(q as int)) by {
                lemma_fmul_cases(self.raw as int, factor.raw as int, mp as int, q as int);
            };
            Fixed { raw: -((q - 1) as i64) - 1 }
        } else {
            assert(fmul(self@, factor@) == q as int || q == 0) by {
                lemma_fmul_cases(self.raw as int, factor.raw as int, mp as int, q as int);
            };
            assert(q == 0 ==> fmul(self@, factor@) == 0) by {
                lemma_fmul_cases(self.raw as int, factor.raw as int, mp as int, q as int);
            };
            Fixed { raw: q as i64 }
        }
    }
}

/// The magnitudes of `a` and `b` multiply to the magnitude of `a * b`.
pub proof fn lemma_magnitude_product(a: int, b: int, ma: int, mb: int)
    requires
        ma == if a < 0 { -a } else { a },
        mb == if b < 0 { -b } else { b },
    ensures
        ma * mb == if a * b < 0 { -(a * b) } else { a * b },
        (a * b < 0) == ((a < 0) != (b < 0) && a != 0 && b != 0),
{
    assert(ma * mb == if a * b < 0 {
        -(a * b)
    } else {
        a * b
    }) by (nonlinear_arith)
        requires
            ma == if a < 0 { -a } else { a },
            mb == if b < 0 { -b } else { b },
    ;
    assert((a * b < 0) == ((a < 0) != (b < 0) && a != 0 && b != 0)) by (nonlinear_arith);
}

/// Relates the unsigned quotient of magnitudes to `fmul`.
pub proof fn lemma_fmul_cases(a: int, b: int, mp: int, q: int)
    requires
        mp == if a * b < 0 { -(a * b) } else { a * b },
        q == mp / 1000,
    ensures
        a * b >= 0 ==> fmul(a, b) == q,
        a * b < 0 ==> fmul(a, b) == -q,
        q == 0 ==> fmul(a, b) == 0,
{
    if a * b >= 0 {
        assert(fmul(a, b) == (a * b) / 1000);
    } else {
        assert(fmul(a, b) == -((-(a * b)) / 1000));
    }
}

} // verus!
