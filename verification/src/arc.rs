//! The arc resolver.
//!
//! A `G2`/`G3` command encodes an arc by its endpoint and a center offset
//! relative to the start point.  The resolver reconstructs the arc as a
//! polyline: it derives the rotation sweep from the two radius vectors,
//! disambiguates the rotation direction, and emits `steps + 1` points by
//! rotating the start radius in equal angle steps around the center.
//!
//! Angles are held in fixed point, as radians scaled by `2^30`, and rotation
//! uses an integer CORDIC, so resolution is deterministic and pure.  The
//! step-count policy is `steps = clamp(floor(3.6 * radius), 18, 1800)`, with
//! the radius in coordinate units.
//!
//! The resolver never aborts: when the declared center is not equidistant
//! from both endpoints (beyond the tolerance) it flags the mismatch and
//! continues with best-effort geometry.

use vstd::arithmetic::power2::{lemma2_to64, lemma_pow2_adds, lemma_pow2_pos,
    lemma_pow2_strictly_increases, pow2};
use vstd::prelude::*;

use crate::fixed::{Fixed, RAW_LIMIT};

verus! {

/// Half-circle in Q30 radians.
pub const PI_Q30: i64 = 3_373_259_426;

/// Full circle in Q30 radians; exactly twice [`PI_Q30`].
pub const TWO_PI_Q30: i64 = 6_746_518_852;

/// Quarter circle in Q30 radians; exactly half of [`PI_Q30`].
pub const HALF_PI_Q30: i64 = 1_686_629_713;

/// Reciprocal of the CORDIC gain, in Q30.
pub const INV_GAIN_Q30: i64 = 652_032_874;

/// The square of an integer.
pub open spec fn sq(v: int) -> int {
    v * v
}

/// Squared distance of two points given by raw coordinates.
pub open spec fn dist2(ax: int, ay: int, bx: int, by: int) -> int {
    sq(ax - bx) + sq(ay - by)
}

/// Whether the declared end lies on the start within the tolerance: the arc
/// is then a full circle.
pub open spec fn full_circle(cx: int, cy: int, ex: int, ey: int, tol: int) -> bool {
    dist2(cx, cy, ex, ey) < tol
}

/// The integer square root, rounded down.
pub open spec fn sqrt_floor(n: nat) -> nat
    decreases n,
{
    if n == 0 {
        0
    } else {
        let p = sqrt_floor((n - 1) as nat);
        if (p + 1) * (p + 1) <= n {
            p + 1
        } else {
            p
        }
    }
}

/// The square root rounded down brackets its argument.
pub proof fn lemma_sqrt_floor(n: nat)
    ensures
        sqrt_floor(n) as int * sqrt_floor(n) as int <= n as int,
        (n as int) < (sqrt_floor(n) as int + 1) * (sqrt_floor(n) as int + 1),
    decreases n,
{
    if n == 0 {
        assert(sqrt_floor(0nat) == 0);
    } else {
        lemma_sqrt_floor((n - 1) as nat);
        let p = sqrt_floor((n - 1) as nat);
        assert(p * p <= n - 1);
        assert((n - 1) < (p + 1) * (p + 1));
        if (p + 1) * (p + 1) <= n {
            assert(sqrt_floor(n) == p + 1);
            assert(n as int <= (p as int + 1) * (p as int + 1));
            assert((p as int + 2) * (p as int + 2) > (p as int + 1) * (p as int + 1))
                by (nonlinear_arith)
                requires
                    p as int >= 0,
            ;
            assert((n as int) < ((sqrt_floor(n) + 1) as int) * ((sqrt_floor(n) + 1) as int));
        } else {
            assert(sqrt_floor(n) == p);
            assert(p * p <= n - 1);
        }
    }
}

/// Any value bracketed by squares is the square root rounded down.
pub proof fn lemma_sqrt_floor_unique(n: nat, r: nat)
    requires
        r * r <= n,
        n < (r + 1) * (r + 1),
    ensures
        sqrt_floor(n) == r,
{
    lemma_sqrt_floor(n);
    let s = sqrt_floor(n);
    if s < r {
        assert((s + 1) * (s + 1) <= r * r) by (nonlinear_arith)
            requires
                s + 1 <= r,
        ;
    }
    if r < s {
        assert((r + 1) * (r + 1) <= s * s) by (nonlinear_arith)
            requires
                r + 1 <= s,
        ;
    }
}

/// The step count for an arc of squared radius `r2` (in raw thousandths
/// squared): `floor(3.6 * radius)` clamped to `[18, 1800]`.
pub open spec fn arc_steps(r2: int) -> int {
    let s = (sqrt_floor(r2 as nat) * 36) / 10000;
    if s < 18 {
        18
    } else if s > 1800 {
        1800
    } else {
        s as int
    }
}

/// Integer square root by bisection.
#[verifier::loop_isolation(false)]
fn isqrt(n: u128) -> (r: u64)
    requires
        n < 0x1_0000_0000_0000_0000_0000_0000,  // 2^96
    ensures
        r as nat == sqrt_floor(n as nat),
{
    let mut lo: u64 = 0;
    let mut hi: u64 = 0x1_0000_0000_0000;  // 2^48
    proof {
        assert((0x1_0000_0000_0000 as int + 1) * (0x1_0000_0000_0000 as int + 1) > n as int)
            by (nonlinear_arith)
            requires
                n < 0x1_0000_0000_0000_0000_0000_0000,
        ;
    }
    while lo < hi
        invariant
            lo <= hi <= 0x1_0000_0000_0000,
            (lo as int) * (lo as int) <= n as int,
            (n as int) < (hi as int + 1) * (hi as int + 1),
        decreases hi - lo,
    {
        let mid: u64 = lo + (hi - lo + 1) / 2;
        proof {
            assert(mid as int * mid as int <= 0x1_0000_0000_0000 * 0x1_0000_0000_0000)
                by (nonlinear_arith)
                requires
                    0 <= mid as int <= 0x1_0000_0000_0000,
            ;
        }
        let m2: u128 = (mid as u128) * (mid as u128);
        if m2 <= n {
            lo = mid;
        } else {
            proof {
                assert((mid as int - 1 + 1) * (mid as int - 1 + 1) > n as int);
            }
            hi = mid - 1;
        }
    }
    proof {
        lemma_sqrt_floor_unique(n as nat, lo as nat);
    }
    lo
}

/// Truncating division of a possibly negative numerator by a positive
/// denominator, rounding toward zero.
pub open spec fn div_t(a: int, b: int) -> int {
    if a >= 0 {
        a / b
    } else {
        -((-a) / b)
    }
}

/// Truncating division for Q30 angles.
fn div_angle(a: i64, b: u64) -> (r: i64)
    requires
        b >= 1,
        -0x4000_0000_0000_0000 < a < 0x4000_0000_0000_0000,
    ensures
        r as int == div_t(a as int, b as int),
{
    if a >= 0 {
        ((a as u64) / b) as i64
    } else {
        let m = (-(a as i128)) as u64;
        proof {
            assert(m as int / b as int <= m as int) by (nonlinear_arith)
                requires
                    b >= 1,
                    m >= 0,
            ;
        }
        -((m / b) as i64)
    }
}

/// Saturates a wide intermediate into the raw coordinate type.
fn sat_raw(v: i128) -> (r: i64)
    ensures
        i64::MIN <= v <= i64::MAX ==> r as int == v as int,
{
    if v > i64::MAX as i128 {
        i64::MAX
    } else if v < i64::MIN as i128 {
        i64::MIN
    } else {
        v as i64
    }
}

/// Magnitude shift: divides the magnitude of `v` by `pw`, keeping the sign.
fn shr_mag(v: i128, pw: u128) -> (r: i128)
    requires
        pw >= 1,
        -0x1000_0000_0000_0000_0000_0000_0000_0000 < v
            < 0x1000_0000_0000_0000_0000_0000_0000_0000,
    ensures
        -0x1000_0000_0000_0000_0000_0000_0000_0000 < r
            < 0x1000_0000_0000_0000_0000_0000_0000_0000,
        v >= 0 ==> 0 <= r <= v,
        v < 0 ==> v <= r <= 0,
        v == 0 ==> r == 0,
{
    if v >= 0 {
        let m = (v as u128) / pw;
        proof {
            assert(v as u128 / pw <= v as u128) by (nonlinear_arith)
                requires
                    pw >= 1,
            ;
        }
        m as i128
    } else {
        let m = ((-v) as u128) / pw;
        proof {
            assert((-v) as u128 / pw <= (-v) as u128) by (nonlinear_arith)
                requires
                    pw >= 1,
            ;
        }
        -(m as i128)
    }
}

/// The CORDIC arctangent table: `atan(2^-i)` in Q30 for `i` in `0..30`.
fn atan_table() -> (t: Vec<i64>)
    ensures
        t@.len() == 30,
{
    let mut t: Vec<i64> = Vec::new();
    t.push(843_314_857);
    t.push(497_837_829);
    t.push(263_043_837);
    t.push(133_525_159);
    t.push(67_021_687);
    t.push(33_543_516);
    t.push(16_775_851);
    t.push(8_388_437);
    t.push(4_194_283);
    t.push(2_097_149);
    t.push(1_048_576);
    t.push(524_288);
    t.push(262_144);
    t.push(131_072);
    t.push(65_536);
    t.push(32_768);
    t.push(16_384);
    t.push(8_192);
    t.push(4_096);
    t.push(2_048);
    t.push(1_024);
    t.push(512);
    t.push(256);
    t.push(128);
    t.push(64);
    t.push(32);
    t.push(16);
    t.push(8);
    t.push(4);
    t.push(2);
    t
}

} // verus!

verus! {

/// The magnitude of a product is bounded by the product of bounds.
proof fn lemma_mul_bound(a: int, b: int, m: int, n: int)
    requires
        -m <= a <= m,
        -n <= b <= n,
        0 <= m,
        0 <= n,
    ensures
        -(m * n) <= a * b <= m * n,
{
    assert(-(m * n) <= a * b <= m * n) by (nonlinear_arith)
        requires
            -m <= a <= m,
            -n <= b <= n,
            0 <= m,
            0 <= n,
    ;
}

/// Rotates the vector `(x, y)` by `angle` (Q30 radians, positive is
/// counterclockwise) with an integer CORDIC.  A rotation by zero or by a
/// full circle returns the vector unchanged, exactly.
#[verifier::loop_isolation(false)]
fn rotate_q30(x: i64, y: i64, angle: i64) -> (r: (i64, i64))
    requires
        -TWO_PI_Q30 <= angle <= TWO_PI_Q30,
        -0x4_0000_0000_0000 <= x <= 0x4_0000_0000_0000,
        -0x4_0000_0000_0000 <= y <= 0x4_0000_0000_0000,
    ensures
        angle == 0 || angle == TWO_PI_Q30 || angle == -TWO_PI_Q30 ==> r == (x, y),
{
    let a2: i64 = if angle > PI_Q30 {
        angle - TWO_PI_Q30
    } else if angle < -PI_Q30 {
        angle + TWO_PI_Q30
    } else {
        angle
    };
    if a2 == 0 {
        return (x, y);
    }
    let mut xc: i128;
    let mut yc: i128;
    let mut z: i64;
    if a2 > HALF_PI_Q30 {
        xc = -(y as i128);
        yc = x as i128;
        z = a2 - HALF_PI_Q30;
    } else if a2 < -HALF_PI_Q30 {
        xc = y as i128;
        yc = -(x as i128);
        z = a2 + HALF_PI_Q30;
    } else {
        xc = x as i128;
        yc = y as i128;
        z = a2;
    }
    let t = atan_table();
    let mut i: usize = 0;
    let mut pw: u128 = 1;
    let mut bound: i128 = 0x8_0000_0000_0000;
    proof {
        lemma2_to64();
    }
    while i < 30
        invariant
            i <= 30,
            1 <= pw <= 0x2_0000_0000_0000_0000,
            bound as int == 0x8_0000_0000_0000 * pow2(i as nat),
            -bound <= xc <= bound,
            -bound <= yc <= bound,
            -0x10_0000_0000 - i * 0x1_0000_0000 <= z as int <= 0x10_0000_0000 + i
                * 0x1_0000_0000,
        decreases 30 - i,
    {
        proof {
            lemma2_to64();
            if i < 30 {
                lemma_pow2_strictly_increases(i as nat, 30);
            }
            lemma_pow2_adds(i as nat, 1);
            assert(0x8_0000_0000_0000 * pow2((i + 1) as nat) == 0x8_0000_0000_0000 * (pow2(
                i as nat,
            ) * 2)) by {
                assert(pow2(1) == 2);
            }
            assert(0x8_0000_0000_0000 * (pow2(i as nat) * 2) == 2 * (0x8_0000_0000_0000 * pow2(
                i as nat,
            ))) by (nonlinear_arith);
            assert(0x8_0000_0000_0000 * pow2(i as nat) <= 0x8_0000_0000_0000 * pow2(29))
                by (nonlinear_arith)
                requires
                    pow2(i as nat) <= pow2(29),
                    0x8_0000_0000_0000 >= 0,
            ;
        }
        let a = t[i];
        let a = if a < 0 {
            0
        } else if a > 0x4000_0000 {
            0x4000_0000
        } else {
            a
        };
        let dx = shr_mag(yc, pw);
        let dy = shr_mag(xc, pw);
        if z >= 0 {
            xc = xc - dx;
            yc = yc + dy;
            z = z - a;
        } else {
            xc = xc + dx;
            yc = yc - dy;
            z = z + a;
        }
        bound = bound * 2;
        pw = if pw < 0x1_0000_0000_0000_0000 {
            pw * 2
        } else {
            pw
        };
        i = i + 1;
    }
    proof {
        lemma2_to64();
        assert(bound as int == 0x8_0000_0000_0000 * pow2(30));
        lemma_mul_bound(xc as int, INV_GAIN_Q30 as int, bound as int, 0x4000_0000);
        lemma_mul_bound(yc as int, INV_GAIN_Q30 as int, bound as int, 0x4000_0000);
    }
    let gx = shr_mag(xc * (INV_GAIN_Q30 as i128), 0x4000_0000);
    let gy = shr_mag(yc * (INV_GAIN_Q30 as i128), 0x4000_0000);
    (sat_raw(gx), sat_raw(gy))
}

/// The angle of the vector `(x, y)` in Q30 radians, in `[-pi, pi]` up to
/// the CORDIC's resolution, by vectoring iterations.  Zero for the zero
/// vector.
#[verifier::loop_isolation(false)]
fn atan2_q30(y: i128, x: i128) -> (r: i64)
    requires
        -0x10_0000_0000_0000_0000_0000 <= y <= 0x10_0000_0000_0000_0000_0000,
        -0x10_0000_0000_0000_0000_0000 <= x <= 0x10_0000_0000_0000_0000_0000,
    ensures
        -TWO_PI_Q30 <= r <= TWO_PI_Q30,
{
    if x == 0 && y == 0 {
        return 0;
    }
    let mut xc: i128;
    let mut yc: i128;
    let base: i64;
    if x < 0 {
        xc = -x;
        yc = -y;
        base = if y >= 0 {
            PI_Q30
        } else {
            -PI_Q30
        };
    } else {
        xc = x;
        yc = y;
        base = 0;
    }
    let t = atan_table();
    let mut i: usize = 0;
    let mut pw: u128 = 1;
    let mut z: i64 = 0;
    let mut bound: i128 = 0x20_0000_0000_0000_0000_0000;
    proof {
        lemma2_to64();
    }
    while i < 30
        invariant
            i <= 30,
            1 <= pw <= 0x2_0000_0000_0000_0000,
            bound as int == 0x20_0000_0000_0000_0000_0000 * pow2(i as nat),
            -bound <= xc <= bound,
            -bound <= yc <= bound,
            -(i as int) * 0x1_0000_0000 <= z as int <= (i as int) * 0x1_0000_0000,
        decreases 30 - i,
    {
        proof {
            lemma2_to64();
            if i < 30 {
                lemma_pow2_strictly_increases(i as nat, 30);
            }
            lemma_pow2_adds(i as nat, 1);
            assert(0x20_0000_0000_0000_0000_0000 * pow2((i + 1) as nat)
                == 0x20_0000_0000_0000_0000_0000 * (pow2(i as nat) * 2)) by {
                assert(pow2(1) == 2);
            }
            assert(0x20_0000_0000_0000_0000_0000 * (pow2(i as nat) * 2) == 2 * (
            0x20_0000_0000_0000_0000_0000 * pow2(i as nat))) by (nonlinear_arith);
            assert(0x20_0000_0000_0000_0000_0000 * pow2(i as nat)
                <= 0x20_0000_0000_0000_0000_0000 * pow2(29)) by (nonlinear_arith)
                requires
                    pow2(i as nat) <= pow2(29),
            ;
        }
        let a = t[i];
        let a = if a < 0 {
            0
        } else if a > 0x4000_0000 {
            0x4000_0000
        } else {
            a
        };
        let dx = shr_mag(xc, pw);
        let dy = shr_mag(yc, pw);
        if yc >= 0 {
            xc = xc + dy;
            yc = yc - dx;
            z = z + a;
        } else {
            xc = xc - dy;
            yc = yc + dx;
            z = z - a;
        }
        bound = bound * 2;
        pw = if pw < 0x1_0000_0000_0000_0000 {
            pw * 2
        } else {
            pw
        };
        i = i + 1;
    }
    let res: i64 = base + z;
    if res > TWO_PI_Q30 {
        TWO_PI_Q30
    } else if res < -TWO_PI_Q30 {
        -TWO_PI_Q30
    } else {
        res
    }
}

} // verus!

verus! {

/// The squared radius an arc command declares: that of its center offset.
pub open spec fn arc_r2(i: int, j: int) -> int {
    sq(i) + sq(j)
}

/// The squared length of the vector from the declared center to the
/// declared end point.
pub open spec fn arc_b2(cx: int, cy: int, ex: int, ey: int, i: int, j: int) -> int {
    sq(ex - cx - i) + sq(ey - cy - j)
}

/// Whether the declared center is not equidistant from start and end beyond
/// the tolerance: the arc's geometry is then inconsistent, and resolution
/// proceeds with best-effort output.
pub open spec fn arc_mismatch(cx: int, cy: int, ex: int, ey: int, i: int, j: int, tol: int) -> bool {
    let d = arc_r2(i, j) - arc_b2(cx, cy, ex, ey, i, j);
    !full_circle(cx, cy, ex, ey, tol) && (if d < 0 {
        -d
    } else {
        d
    }) > tol
}

/// An arc resolved to a polyline, and whether the declared center was
/// inconsistent with the endpoints.
pub struct ArcPoints {
    /// The points of the polyline, in drawing order.
    pub points: Vec<(Fixed, Fixed)>,
    /// The non-fatal diagnostic of the consistency check.
    pub center_mismatch: bool,
}

/// A quotient of a bounded sweep stays bounded, and the whole sweep divides
/// back to itself.
proof fn lemma_sweep_div(n: int, s: int, w: int)
    requires
        1 <= s,
        0 <= n <= s,
        -TWO_PI_Q30 <= w <= TWO_PI_Q30,
    ensures
        -TWO_PI_Q30 <= div_t(n * w, s) <= TWO_PI_Q30,
        n == 0 ==> div_t(n * w, s) == 0,
        n == s ==> div_t(n * w, s) == w,
{
    let p = n * w;
    assert(-(s * TWO_PI_Q30) <= p <= s * TWO_PI_Q30) by (nonlinear_arith)
        requires
            0 <= n <= s,
            -TWO_PI_Q30 <= w <= TWO_PI_Q30,
            0 < TWO_PI_Q30,
            p == n * w,
    ;
    if p >= 0 {
        assert(p / s <= TWO_PI_Q30) by (nonlinear_arith)
            requires
                1 <= s,
                0 <= p <= s * TWO_PI_Q30,
                0 < TWO_PI_Q30,
        ;
        assert(p / s >= 0) by (nonlinear_arith)
            requires
                1 <= s,
                0 <= p,
        ;
    } else {
        assert((-p) / s <= TWO_PI_Q30) by (nonlinear_arith)
            requires
                1 <= s,
                0 <= -p <= s * TWO_PI_Q30,
                0 < TWO_PI_Q30,
        ;
        assert((-p) / s >= 0) by (nonlinear_arith)
            requires
                1 <= s,
                -p > 0,
        ;
    }
    if n == s {
        if w >= 0 {
            assert(p == s * w) by (nonlinear_arith)
                requires
                    n == s,
                    p == n * w,
            ;
            assert(p >= 0) by (nonlinear_arith)
                requires
                    p == s * w,
                    s >= 1,
                    w >= 0,
            ;
            assert((s * w) / s == w) by (nonlinear_arith)
                requires
                    1 <= s,
            ;
        } else {
            assert(-p == s * (-w)) by (nonlinear_arith)
                requires
                    n == s,
                    p == n * w,
            ;
            assert((s * (-w)) / s == -w) by (nonlinear_arith)
                requires
                    1 <= s,
            ;
        }
    }
}

/// Resolves one arc command to a polyline.
///
/// `current` is the start point the command replay derived, `end` the
/// declared endpoint, `center_offset` the declared `(I, J)` vector from the
/// start to the center, and `tolerance` a squared-distance threshold in raw
/// thousandths squared.  The result holds `steps + 1` points: the first is
/// exactly `current`; when the end lies on the start within the tolerance
/// the arc closes into a full counterclockwise circle and the last point is
/// exactly the first again.  Between those, the points trace the circle
/// around `current + center_offset` in equal angle steps, clockwise when
/// `clockwise` is set, by the documented step policy.  The resolver never
/// fails; an inconsistent center is only flagged.
#[verifier::loop_isolation(false)]
#[verifier::rlimit(60)]
pub fn resolve_arc(
    current: (Fixed, Fixed),
    clockwise: bool,
    end: (Fixed, Fixed),
    center_offset: (Fixed, Fixed),
    tolerance: u64,
) -> (r: ArcPoints)
    requires
        -RAW_LIMIT <= current.0@ <= RAW_LIMIT,
        -RAW_LIMIT <= current.1@ <= RAW_LIMIT,
        -RAW_LIMIT <= end.0@ <= RAW_LIMIT,
        -RAW_LIMIT <= end.1@ <= RAW_LIMIT,
        -RAW_LIMIT <= center_offset.0@ <= RAW_LIMIT,
        -RAW_LIMIT <= center_offset.1@ <= RAW_LIMIT,
    ensures
        r.points@.len() == arc_steps(arc_r2(center_offset.0@, center_offset.1@)) + 1,
        (r.points@[0].0@, r.points@[0].1@) == (current.0@, current.1@),
        full_circle(current.0@, current.1@, end.0@, end.1@, tolerance as int) ==> (r.points@[
            r.points@.len() - 1
        ].0@, r.points@[r.points@.len() - 1].1@) == (current.0@, current.1@),
        r.center_mismatch == arc_mismatch(
            current.0@,
            current.1@,
            end.0@,
            end.1@,
            center_offset.0@,
            center_offset.1@,
            tolerance as int,
        ),
{
    let cx = current.0.raw;
    let cy = current.1.raw;
    let ex = end.0.raw;
    let ey = end.1.raw;
    let oi = center_offset.0.raw;
    let oj = center_offset.1.raw;
    // radius vector from the center to the start
    let ax = -oi;
    let ay = -oj;
    proof {
        lemma_mul_bound(oi as int, oi as int, RAW_LIMIT as int, RAW_LIMIT as int);
        lemma_mul_bound(oj as int, oj as int, RAW_LIMIT as int, RAW_LIMIT as int);
        assert(sq(oi as int) >= 0) by (nonlinear_arith);
        assert(sq(oj as int) >= 0) by (nonlinear_arith);
    }
    let r2: i128 = (oi as i128) * (oi as i128) + (oj as i128) * (oj as i128);
    let sroot = isqrt(r2 as u128);
    let sraw: u128 = (sroot as u128) * 36 / 10000;
    let steps: usize = if sraw < 18 {
        18
    } else if sraw > 1800 {
        1800
    } else {
        sraw as usize
    };
    proof {
        assert(steps as int == arc_steps(arc_r2(oi as int, oj as int)));
    }
    let tol: i128 = tolerance as i128;
    let dx: i128 = ex as i128 - cx as i128;
    let dy: i128 = ey as i128 - cy as i128;
    proof {
        lemma_mul_bound(dx as int, dx as int, 2 * RAW_LIMIT as int, 2 * RAW_LIMIT as int);
        lemma_mul_bound(dy as int, dy as int, 2 * RAW_LIMIT as int, 2 * RAW_LIMIT as int);
    }
    let circle = dx * dx + dy * dy < tol;
    proof {
        assert(dx * dx == sq(cx as int - ex as int)) by (nonlinear_arith)
            requires
                dx == ex as int - cx as int,
        ;
        assert(dy * dy == sq(cy as int - ey as int)) by (nonlinear_arith)
            requires
                dy == ey as int - cy as int,
        ;
    }
    let bx: i128 = dx - oi as i128;
    let by: i128 = dy - oj as i128;
    proof {
        lemma_mul_bound(bx as int, bx as int, 3 * RAW_LIMIT as int, 3 * RAW_LIMIT as int);
        lemma_mul_bound(by as int, by as int, 3 * RAW_LIMIT as int, 3 * RAW_LIMIT as int);
    }
    let b2: i128 = bx * bx + by * by;
    let mismatch = if circle {
        false
    } else {
        let d = r2 - b2;
        (if d < 0 {
            -d
        } else {
            d
        }) > tol
    };
    let sweep: i64 = if circle {
        TWO_PI_Q30
    } else {
        proof {
            lemma_mul_bound(ax as int, by as int, RAW_LIMIT as int, 3 * RAW_LIMIT as int);
            lemma_mul_bound(ay as int, bx as int, RAW_LIMIT as int, 3 * RAW_LIMIT as int);
            lemma_mul_bound(ax as int, bx as int, RAW_LIMIT as int, 3 * RAW_LIMIT as int);
            lemma_mul_bound(ay as int, by as int, RAW_LIMIT as int, 3 * RAW_LIMIT as int);
        }
        let cross: i128 = (ax as i128) * by - (ay as i128) * bx;
        let dot: i128 = (ax as i128) * bx + (ay as i128) * by;
        let signed = atan2_q30(cross, dot);
        let theta: i64 = if signed < 0 {
            -signed
        } else {
            signed
        };
        // test the opposite rotation direction: if it reaches the end
        // radius, the short sweep belongs to the other branch
        let probe: i64 = if clockwise {
            theta
        } else {
            -theta
        };
        let (tx, ty) = rotate_q30(ax, ay, probe);
        let tx: i64 = if tx > 4 * RAW_LIMIT {
            4 * RAW_LIMIT
        } else if tx < -4 * RAW_LIMIT {
            -4 * RAW_LIMIT
        } else {
            tx
        };
        let ty: i64 = if ty > 4 * RAW_LIMIT {
            4 * RAW_LIMIT
        } else if ty < -4 * RAW_LIMIT {
            -4 * RAW_LIMIT
        } else {
            ty
        };
        let ddx: i128 = tx as i128 - bx;
        let ddy: i128 = ty as i128 - by;
        proof {
            lemma_mul_bound(ddx as int, ddx as int, 8 * RAW_LIMIT as int, 8 * RAW_LIMIT as int);
            lemma_mul_bound(ddy as int, ddy as int, 8 * RAW_LIMIT as int, 8 * RAW_LIMIT as int);
        }
        let close = ddx * ddx + ddy * ddy < tol;
        let th: i64 = if close {
            TWO_PI_Q30 - theta
        } else {
            theta
        };
        if clockwise {
            -th
        } else {
            th
        }
    };
    // the center of the arc
    let mx = cx + oi;
    let my = cy + oj;
    let mut points: Vec<(Fixed, Fixed)> = Vec::new();
    let mut n: usize = 0;
    while n <= steps
        invariant
            n <= steps + 1,
            points@.len() == n,
            18 <= steps <= 1800,
            -TWO_PI_Q30 <= sweep <= TWO_PI_Q30,
            circle ==> sweep == TWO_PI_Q30,
            n >= 1 ==> (points@[0].0@, points@[0].1@) == (cx as int, cy as int),
            n == steps + 1 && circle ==> (points@[n - 1].0@, points@[n - 1].1@) == (
                cx as int,
                cy as int,
            ),
        decreases steps + 1 - n,
    {
        proof {
            lemma_sweep_div(n as int, steps as int, sweep as int);
            lemma_mul_bound(n as int, sweep as int, 1800, TWO_PI_Q30 as int);
        }
        let ang = div_angle((n as i64) * sweep, steps as u64);
        let (rx, ry) = rotate_q30(ax, ay, ang);
        let px = sat_raw(rx as i128 + mx as i128);
        let py = sat_raw(ry as i128 + my as i128);
        points.push((Fixed { raw: px }, Fixed { raw: py }));
        proof {
            if n == 0 {
                assert(ang == 0);
                assert(rx == ax && ry == ay);
                assert(px as int == cx as int && py as int == cy as int);
            }
            if n == steps && circle {
                assert(ang == TWO_PI_Q30);
                assert(rx == ax && ry == ay);
                assert(px as int == cx as int && py as int == cy as int);
            }
        }
        n = n + 1;
    }
    proof {
        assert(r2 == arc_r2(oi as int, oj as int)) by {
            assert((oi as i128) * (oi as i128) == sq(oi as int)) by (nonlinear_arith);
            assert((oj as i128) * (oj as i128) == sq(oj as int)) by (nonlinear_arith);
        }
        assert(bx * bx == sq(ex as int - cx as int - oi as int)) by (nonlinear_arith)
            requires
                bx == ex as int - cx as int - oi as int,
        ;
        assert(by * by == sq(ey as int - cy as int - oj as int)) by (nonlinear_arith)
            requires
                by == ey as int - cy as int - oj as int,
        ;
    }
    ArcPoints { points, center_mismatch: mismatch }
}

} // verus!
