//! Great-circle distance between two positions, by the haversine formula
//! with an Earth radius of 6371 km.
//!
//! All arithmetic is integer fixed-point: positions come in microdegrees,
//! the trigonometric kernel works in Q40 (values scaled by 2^40), and the
//! result is a distance in millimeters.  The sines, cosines and arcsines are
//! truncated Taylor series with argument reduction; every truncation rounds
//! down, and out-of-range intermediate values are clamped, never trusted.

use vstd::prelude::*;
use vstd::arithmetic::div_mod::lemma_div_is_ordered;
use vstd::arithmetic::mul::lemma_mul_inequality;

verus! {

/// The Q40 fixed-point unit: 2^40.
pub const Q40: u64 = 1099511627776;

/// `pi/180e6 * 2^64`, rounded down: converts microdegrees to Q40 radians
/// after a further division by 2^24.
pub const RAD_PER_UDEG_Q64: u64 = 321956420358;

/// `pi/2` in Q40, rounded down.
pub const HALF_PI_Q40: u64 = 1727108826178;

/// `pi` in Q40, rounded down.
pub const PI_Q40: u64 = 3454217652357;

/// `sqrt(1/2)` in Q40, rounded down.
pub const SQRT_HALF_Q40: u64 = 777472127993;

/// Arguments above this bound (0.22 in Q40) have their arcsine computed
/// through the half-angle identity.
pub const ASIN_HALVE_Q40: u64 = 241892558110;

/// The Earth radius used by the haversine formula, in millimeters.
pub const EARTH_RADIUS_MM: u64 = 6371000000;

/// The floor of the square root of a non-negative number.
pub open spec fn sqrt_floor(v: int) -> int {
    choose|r: int| r >= 0 && #[trigger] (r * r) <= v && v < (r + 1) * (r + 1)
}

/// `sqrt_floor` is pinned by its defining inequalities.
pub proof fn lemma_sqrt_floor_of(v: int, r: int)
    requires
        0 <= r,
        r * r <= v,
        v < (r + 1) * (r + 1),
    ensures
        sqrt_floor(v) == r,
{
    let c = sqrt_floor(v);
    assert(c >= 0 && c * c <= v && v < (c + 1) * (c + 1));
    if c < r {
        assert((c + 1) * (c + 1) <= r * r) by (nonlinear_arith)
            requires 0 <= c, c < r;
        assert(false);
    }
    if c > r {
        assert((r + 1) * (r + 1) <= c * c) by (nonlinear_arith)
            requires 0 <= r, r < c;
        assert(false);
    }
}

/// Floor square root by binary search.
fn isqrt(v: u128) -> (r: u64)
    requires
        v < 19342813113834066795298816,
    ensures
        r as int == sqrt_floor(v as int),
        (r as int) * (r as int) <= v as int,
        v < ((r + 1) as int) * ((r + 1) as int),
        r < 4398046511104,
{
    let mut lo: u64 = 0;
    let mut hi: u64 = 4398046511104;
    proof {
        assert((hi as int) * (hi as int) == 19342813113834066795298816);
    }
    while lo + 1 < hi
        invariant
            lo < hi <= 4398046511104,
            (lo as int) * (lo as int) <= v as int,
            (v as int) < (hi as int) * (hi as int),
        decreases hi - lo,
    {
        let mid: u64 = lo + (hi - lo) / 2;
        proof {
            assert((mid as u128) * (mid as u128) < 340282366920938463463374607431768211455u128)
                by (nonlinear_arith)
                requires mid <= 4398046511104u64;
        }
        if (mid as u128) * (mid as u128) <= v {
            lo = mid;
        } else {
            hi = mid;
        }
    }
    proof {
        lemma_sqrt_floor_of(v as int, lo as int);
    }
    lo
}

/// The Q40 product: `a * b / 2^40`, rounded down.
pub open spec fn qmul_spec(a: int, b: int) -> int {
    (a * b) / (Q40 as int)
}

fn qmul(a: u64, b: u64) -> (r: u64)
    requires
        a <= 17592186044416,
        b <= 17592186044416,
    ensures
        r as int == qmul_spec(a as int, b as int),
        a <= Q40 && b <= Q40 ==> r <= Q40,
        r <= 281474976710656,
{
    proof {
        assert((a as int) * (b as int) <= 17592186044416 * 17592186044416) by (nonlinear_arith)
            requires a <= 17592186044416u64, b <= 17592186044416u64;
        lemma_div_is_ordered((a as int) * (b as int), 17592186044416int * 17592186044416, Q40 as int);
        if a <= Q40 && b <= Q40 {
            assert((a as int) * (b as int) <= (Q40 as int) * (Q40 as int)) by (nonlinear_arith)
                requires a <= Q40, b <= Q40;
            lemma_div_is_ordered((a as int) * (b as int), (Q40 as int) * (Q40 as int), Q40 as int);
            assert((Q40 as int) * (Q40 as int) / (Q40 as int) == Q40 as int) by (nonlinear_arith);
        }
    }
    (((a as u128) * (b as u128)) / (Q40 as u128)) as u64
}

/// One Taylor step: the previous term times `x2 / 2^40`, times `num`,
/// divided by `den`, every quotient rounded down.
pub open spec fn tstep_spec(t: int, x2: int, num: int, den: int) -> int {
    (((t * x2) / (Q40 as int)) * num) / den
}

fn tstep(t: u64, x2: u64, num: u64, den: u64) -> (r: u64)
    requires
        t <= 17592186044416,
        x2 <= 4398046511104,
        1 <= num <= 400,
        1 <= den <= 400,
    ensures
        r as int == tstep_spec(t as int, x2 as int, num as int, den as int),
        r as int <= (4 * (t as int) * (num as int)) / (den as int),
        (num as int) * (x2 as int) <= (den as int) * (Q40 as int) ==> r <= t,
{
    let ghost ti = t as int;
    let ghost x2i = x2 as int;
    let ghost numi = num as int;
    let ghost deni = den as int;
    let ghost qi = Q40 as int;
    let ghost a = (ti * x2i) / qi;
    proof {
        assert(ti * x2i <= ti * 4398046511104) by (nonlinear_arith)
            requires 0 <= ti, x2i <= 4398046511104;
        lemma_div_is_ordered(ti * x2i, ti * 4398046511104, qi);
        vstd::arithmetic::div_mod::lemma_div_multiples_vanish(4 * ti, qi);
        assert(ti * 4398046511104 == qi * (4 * ti)) by (nonlinear_arith)
            requires qi == Q40 as int;
        assert(ti * 4398046511104 / qi == 4 * ti);
        assert(0 <= a) by {
            assert(0 <= ti * x2i) by (nonlinear_arith)
                requires 0 <= ti, 0 <= x2i;
            lemma_div_is_ordered(0, ti * x2i, qi);
        }
        assert(a * numi <= (4 * ti) * numi) by (nonlinear_arith)
            requires a <= 4 * ti, 0 <= numi;
        lemma_div_is_ordered(a * numi, 4 * ti * numi, deni);
        // With `num * x2` at most `den * 2^40`, the step cannot grow.
        if numi * x2i <= deni * qi {
            assert(a * qi <= ti * x2i) by {
                vstd::arithmetic::div_mod::lemma_fundamental_div_mod(ti * x2i, qi);
                assert(0 <= (ti * x2i) % qi) by {
                    vstd::arithmetic::div_mod::lemma_mod_bound(ti * x2i, qi);
                }
            }
            assert(a * numi * qi <= ti * deni * qi) by (nonlinear_arith)
                requires
                    a * qi <= ti * x2i,
                    numi * x2i <= deni * qi,
                    0 <= numi,
                    0 <= ti,
                    0 <= a,
                    0 < qi;
            assert(a * numi <= ti * deni) by (nonlinear_arith)
                requires a * numi * qi <= ti * deni * qi, 0 < qi;
            lemma_div_is_ordered(a * numi, ti * deni, deni);
            assert(ti * deni / deni == ti) by (nonlinear_arith)
                requires 0 < deni;
        }
        assert(a * numi <= 17592186044416 * 4 * 400) by (nonlinear_arith)
            requires 0 <= a, a <= 4 * ti, ti <= 17592186044416, 0 <= numi, numi <= 400;
    }
    let a_exec: u128 = ((t as u128) * (x2 as u128)) / (Q40 as u128);
    let r_exec: u128 = (a_exec * (num as u128)) / (den as u128);
    r_exec as u64
}

/// Microdegrees to Q40 radians, rounded down.
pub open spec fn rad_spec(u: int) -> int {
    (u * (RAD_PER_UDEG_Q64 as int)) / 16777216
}

fn deg_to_rad(u: u64) -> (r: u64)
    requires
        u <= 360000000,
    ensures
        r as int == rad_spec(u as int),
        r <= 6908435304694,
{
    proof {
        lemma_mul_inequality(u as int, 360000000, RAD_PER_UDEG_Q64 as int);
        lemma_div_is_ordered((u as int) * (RAD_PER_UDEG_Q64 as int),
            360000000 * (RAD_PER_UDEG_Q64 as int), 16777216);
        lemma_div_is_ordered(0, (u as int) * (RAD_PER_UDEG_Q64 as int), 16777216);
        assert(0 <= (u as int) * (RAD_PER_UDEG_Q64 as int)) by (nonlinear_arith)
            requires 0 <= u as int;
    }
    (((u as u128) * (RAD_PER_UDEG_Q64 as u128)) / 16777216) as u64
}

/// Clamp a Q40 value into `[0, 1]`.
pub open spec fn clamp_q40_spec(s: int) -> int {
    if s < 0 {
        0
    } else if s > Q40 {
        Q40 as int
    } else {
        s
    }
}

/// The truncated Taylor series of the sine, on arguments up to `pi/2`.
pub open spec fn sin_taylor_spec(x: int) -> int {
    let x2 = qmul_spec(x, x);
    let t2 = tstep_spec(x, x2, 1, 6);
    let t3 = tstep_spec(t2, x2, 1, 20);
    let t4 = tstep_spec(t3, x2, 1, 42);
    let t5 = tstep_spec(t4, x2, 1, 72);
    let t6 = tstep_spec(t5, x2, 1, 110);
    let t7 = tstep_spec(t6, x2, 1, 156);
    let t8 = tstep_spec(t7, x2, 1, 210);
    let t9 = tstep_spec(t8, x2, 1, 272);
    let t10 = tstep_spec(t9, x2, 1, 342);
    x - t2 + t3 - t4 + t5 - t6 + t7 - t8 + t9 - t10
}

/// The sine of a Q40 radian argument in `[0, pi]`, in Q40.
pub open spec fn sin_q40_spec(x: int) -> int {
    let xr = if x > HALF_PI_Q40 {
        PI_Q40 - x
    } else {
        x
    };
    clamp_q40_spec(sin_taylor_spec(xr))
}

fn sin_q40(x: u64) -> (r: u64)
    requires
        x <= PI_Q40,
    ensures
        r as int == sin_q40_spec(x as int),
        r <= Q40,
{
    let xr: u64 = if x > HALF_PI_Q40 {
        PI_Q40 - x
    } else {
        x
    };
    let x2: u64 = qmul(xr, xr);
    proof {
        assert((xr as int) * (xr as int) <= 1727108826178int * 1727108826178) by (nonlinear_arith)
            requires xr <= 1727108826178u64;
        lemma_div_is_ordered((xr as int) * (xr as int), 1727108826178int * 1727108826178,
            Q40 as int);
    }
    let t2: u64 = tstep(xr, x2, 1, 6);
    let t3: u64 = tstep(t2, x2, 1, 20);
    let t4: u64 = tstep(t3, x2, 1, 42);
    let t5: u64 = tstep(t4, x2, 1, 72);
    let t6: u64 = tstep(t5, x2, 1, 110);
    let t7: u64 = tstep(t6, x2, 1, 156);
    let t8: u64 = tstep(t7, x2, 1, 210);
    let t9: u64 = tstep(t8, x2, 1, 272);
    let t10: u64 = tstep(t9, x2, 1, 342);
    let s: i64 = (xr as i64) - (t2 as i64) + (t3 as i64) - (t4 as i64) + (t5 as i64)
        - (t6 as i64) + (t7 as i64) - (t8 as i64) + (t9 as i64) - (t10 as i64);
    if s < 0 {
        0
    } else if s > Q40 as i64 {
        Q40
    } else {
        s as u64
    }
}

/// The truncated Taylor series of the cosine, on arguments up to `pi/2`.
pub open spec fn cos_taylor_spec(x: int) -> int {
    let x2 = qmul_spec(x, x);
    let t2 = tstep_spec(Q40 as int, x2, 1, 2);
    let t3 = tstep_spec(t2, x2, 1, 12);
    let t4 = tstep_spec(t3, x2, 1, 30);
    let t5 = tstep_spec(t4, x2, 1, 56);
    let t6 = tstep_spec(t5, x2, 1, 90);
    let t7 = tstep_spec(t6, x2, 1, 132);
    let t8 = tstep_spec(t7, x2, 1, 182);
    let t9 = tstep_spec(t8, x2, 1, 240);
    let t10 = tstep_spec(t9, x2, 1, 306);
    Q40 - t2 + t3 - t4 + t5 - t6 + t7 - t8 + t9 - t10
}

/// The cosine of a Q40 radian argument in `[0, pi/2]`, in Q40.
pub open spec fn cos_q40_spec(x: int) -> int {
    clamp_q40_spec(cos_taylor_spec(x))
}

fn cos_q40(x: u64) -> (r: u64)
    requires
        x <= HALF_PI_Q40,
    ensures
        r as int == cos_q40_spec(x as int),
        r <= Q40,
{
    let x2: u64 = qmul(x, x);
    proof {
        assert((x as int) * (x as int) <= 1727108826178int * 1727108826178) by (nonlinear_arith)
            requires x <= 1727108826178u64;
        lemma_div_is_ordered((x as int) * (x as int), 1727108826178int * 1727108826178,
            Q40 as int);
    }
    let t2: u64 = tstep(Q40, x2, 1, 2);
    let t3: u64 = tstep(t2, x2, 1, 12);
    let t4: u64 = tstep(t3, x2, 1, 30);
    let t5: u64 = tstep(t4, x2, 1, 56);
    let t6: u64 = tstep(t5, x2, 1, 90);
    let t7: u64 = tstep(t6, x2, 1, 132);
    let t8: u64 = tstep(t7, x2, 1, 182);
    let t9: u64 = tstep(t8, x2, 1, 240);
    let t10: u64 = tstep(t9, x2, 1, 306);
    let s: i64 = (Q40 as i64) - (t2 as i64) + (t3 as i64) - (t4 as i64) + (t5 as i64)
        - (t6 as i64) + (t7 as i64) - (t8 as i64) + (t9 as i64) - (t10 as i64);
    if s < 0 {
        0
    } else if s > Q40 as i64 {
        Q40
    } else {
        s as u64
    }
}

/// The sine of half the angle whose sine is `z`, in Q40:
/// `sqrt((1 - sqrt(1 - z^2)) / 2)`, every root rounded down.
pub open spec fn half_sine_spec(z: int) -> int {
    let cz = sqrt_floor((Q40 as int) * (Q40 as int) - z * z);
    sqrt_floor((((Q40 as int) - cz) * (Q40 as int)) / 2)
}

fn half_sine(z: u64) -> (r: u64)
    requires
        z <= Q40,
    ensures
        r as int == half_sine_spec(z as int),
        r <= Q40,
{
    proof {
        assert((z as int) * (z as int) <= 1208925819614629174706176) by (nonlinear_arith)
            requires z <= 1099511627776u64;
    }
    let zz: u128 = (z as u128) * (z as u128);
    let cz: u64 = isqrt(1208925819614629174706176u128 - zz);
    proof {
        if cz > Q40 {
            assert((Q40 + 1) as int * ((Q40 + 1) as int) <= (cz as int) * (cz as int))
                by (nonlinear_arith)
                requires Q40 < cz;
            assert(false);
        }
    }
    proof {
        let di: int = Q40 as int - cz as int;
        assert(di * (Q40 as int) <= 1208925819614629174706176) by (nonlinear_arith)
            requires 0 <= di <= 1099511627776;
    }
    let v: u128 = (((Q40 - cz) as u128) * (Q40 as u128)) / 2;
    let r: u64 = isqrt(v);
    proof {
        if r > Q40 {
            assert((Q40 + 1) as int * ((Q40 + 1) as int) <= (r as int) * (r as int))
                by (nonlinear_arith)
                requires Q40 < r;
            assert(false);
        }
    }
    r
}

/// The truncated Taylor series of the arcsine, on small arguments.
pub open spec fn asin_taylor_spec(z: int) -> int {
    let z2 = qmul_spec(z, z);
    let t2 = tstep_spec(z, z2, 1, 6);
    let t3 = tstep_spec(t2, z2, 9, 20);
    let t4 = tstep_spec(t3, z2, 25, 42);
    let t5 = tstep_spec(t4, z2, 49, 72);
    let t6 = tstep_spec(t5, z2, 81, 110);
    let t7 = tstep_spec(t6, z2, 121, 156);
    let t8 = tstep_spec(t7, z2, 169, 210);
    let t9 = tstep_spec(t8, z2, 225, 272);
    let t10 = tstep_spec(t9, z2, 289, 342);
    z + t2 + t3 + t4 + t5 + t6 + t7 + t8 + t9 + t10
}

fn asin_taylor(z: u64) -> (r: u64)
    requires
        z <= Q40,
    ensures
        r as int == asin_taylor_spec(z as int),
        r as int <= 10 * (z as int),
{
    let z2: u64 = qmul(z, z);
    let t2: u64 = tstep(z, z2, 1, 6);
    let t3: u64 = tstep(t2, z2, 9, 20);
    let t4: u64 = tstep(t3, z2, 25, 42);
    let t5: u64 = tstep(t4, z2, 49, 72);
    let t6: u64 = tstep(t5, z2, 81, 110);
    let t7: u64 = tstep(t6, z2, 121, 156);
    let t8: u64 = tstep(t7, z2, 169, 210);
    let t9: u64 = tstep(t8, z2, 225, 272);
    let t10: u64 = tstep(t9, z2, 289, 342);
    z + t2 + t3 + t4 + t5 + t6 + t7 + t8 + t9 + t10
}

/// Clamp an angle to at most `pi/2` in Q40.
pub open spec fn clamp_half_pi_spec(s: int) -> int {
    if s > HALF_PI_Q40 {
        HALF_PI_Q40 as int
    } else {
        s
    }
}

/// The arcsine of a Q40 argument in `[0, sqrt(1/2)]`-ish range, in Q40
/// radians: large arguments are reduced by the half-angle identity (at most
/// twice), the series runs on the reduced argument, and the result is
/// clamped to `pi/2`.
pub open spec fn asin_small_spec(z: int) -> int {
    if z <= ASIN_HALVE_Q40 {
        clamp_half_pi_spec(asin_taylor_spec(z))
    } else {
        let z1 = half_sine_spec(z);
        if z1 <= ASIN_HALVE_Q40 {
            clamp_half_pi_spec(2 * asin_taylor_spec(z1))
        } else {
            clamp_half_pi_spec(4 * asin_taylor_spec(half_sine_spec(z1)))
        }
    }
}

fn asin_small(z: u64) -> (r: u64)
    requires
        z <= Q40,
    ensures
        r as int == asin_small_spec(z as int),
        r <= HALF_PI_Q40,
{
    if z <= ASIN_HALVE_Q40 {
        let s: u64 = asin_taylor(z);
        if s > HALF_PI_Q40 {
            HALF_PI_Q40
        } else {
            s
        }
    } else {
        let z1: u64 = half_sine(z);
        if z1 <= ASIN_HALVE_Q40 {
            let s: u64 = 2 * asin_taylor(z1);
            if s > HALF_PI_Q40 {
                HALF_PI_Q40
            } else {
                s
            }
        } else {
            let z2: u64 = half_sine(z1);
            let s: u64 = 4 * asin_taylor(z2);
            if s > HALF_PI_Q40 {
                HALF_PI_Q40
            } else {
                s
            }
        }
    }
}

/// A position on the Earth, in microdegrees of latitude and longitude.
#[derive(Clone, Copy, PartialEq, Eq, Structural, Debug)]
pub struct GeoPoint {
    pub lat_udeg: i64,
    pub lon_udeg: i64,
}

/// A position whose coordinates lie in the GPS ranges.
pub open spec fn valid_position(p: GeoPoint) -> bool {
    &&& -90000000 <= p.lat_udeg <= 90000000
    &&& -180000000 <= p.lon_udeg <= 180000000
}

/// The magnitude of the difference of two coordinates.
pub open spec fn abs_diff_spec(a: int, b: int) -> int {
    if b >= a {
        b - a
    } else {
        a - b
    }
}

/// The haversine distance in millimeters, over the Q40 fixed-point kernel:
/// `a = sin^2(dlat/2) + cos(lat_a) * cos(lat_b) * sin^2(dlon/2)`, and the
/// distance is `2 * R * asin(min(1, sqrt(a)))`, with the arcsine of large
/// arguments taken through the complement.
pub open spec fn distance_spec(a: GeoPoint, b: GeoPoint) -> int {
    let sdlat = sin_q40_spec(rad_spec(abs_diff_spec(a.lat_udeg as int, b.lat_udeg as int)) / 2);
    let sdlon = sin_q40_spec(rad_spec(abs_diff_spec(a.lon_udeg as int, b.lon_udeg as int)) / 2);
    let ca = cos_q40_spec(rad_spec(abs_diff_spec(a.lat_udeg as int, 0)));
    let cb = cos_q40_spec(rad_spec(abs_diff_spec(b.lat_udeg as int, 0)));
    let ccs = qmul_spec(ca, cb);
    let lonp = qmul_spec(ccs, sdlon);
    let a80 = sdlat * sdlat + lonp * sdlon;
    let u0 = sqrt_floor(a80);
    let u = if u0 > Q40 {
        Q40 as int
    } else {
        u0
    };
    let half = if u > SQRT_HALF_Q40 {
        HALF_PI_Q40 - asin_small_spec(sqrt_floor((Q40 as int) * (Q40 as int) - u * u))
    } else {
        asin_small_spec(u)
    };
    ((EARTH_RADIUS_MM as int) * (2 * half)) / (Q40 as int)
}

/// Great-circle distance in millimeters between two positions, by the
/// haversine formula with Earth radius 6371 km.  The result always fits a
/// valid track step, and the distance from a point to itself is zero.
#[verifier::rlimit(100)]
pub fn distance(a: GeoPoint, b: GeoPoint) -> (r: u64)
    requires
        valid_position(a),
        valid_position(b),
    ensures
        r as int == distance_spec(a, b),
        r <= 20100000000,
        a == b ==> r == 0,
{
    let adlat: u64 = if b.lat_udeg >= a.lat_udeg {
        (b.lat_udeg - a.lat_udeg) as u64
    } else {
        (a.lat_udeg - b.lat_udeg) as u64
    };
    let adlon: u64 = if b.lon_udeg >= a.lon_udeg {
        (b.lon_udeg - a.lon_udeg) as u64
    } else {
        (a.lon_udeg - b.lon_udeg) as u64
    };
    let alat_a: u64 = if a.lat_udeg >= 0 {
        a.lat_udeg as u64
    } else {
        (-a.lat_udeg) as u64
    };
    let alat_b: u64 = if b.lat_udeg >= 0 {
        b.lat_udeg as u64
    } else {
        (-b.lat_udeg) as u64
    };
    let sdlat: u64 = sin_q40(deg_to_rad(adlat) / 2);
    let sdlon: u64 = sin_q40(deg_to_rad(adlon) / 2);
    proof {
        lemma_mul_inequality(alat_a as int, 90000000, RAD_PER_UDEG_Q64 as int);
        lemma_mul_inequality(alat_b as int, 90000000, RAD_PER_UDEG_Q64 as int);
        lemma_div_is_ordered((alat_a as int) * (RAD_PER_UDEG_Q64 as int),
            90000000 * (RAD_PER_UDEG_Q64 as int), 16777216);
        lemma_div_is_ordered((alat_b as int) * (RAD_PER_UDEG_Q64 as int),
            90000000 * (RAD_PER_UDEG_Q64 as int), 16777216);
    }
    let ca: u64 = cos_q40(deg_to_rad(alat_a));
    let cb: u64 = cos_q40(deg_to_rad(alat_b));
    let ccs: u64 = qmul(ca, cb);
    let lonp: u64 = qmul(ccs, sdlon);
    proof {
        assert((sdlat as int) * (sdlat as int) <= 1208925819614629174706176) by (nonlinear_arith)
            requires sdlat <= 1099511627776u64;
        assert((lonp as int) * (sdlon as int) <= 1208925819614629174706176) by (nonlinear_arith)
            requires lonp <= 1099511627776u64, sdlon <= 1099511627776u64;
    }
    let a80: u128 = (sdlat as u128) * (sdlat as u128) + (lonp as u128) * (sdlon as u128);
    let u0: u64 = isqrt(a80);
    let u: u64 = if u0 > Q40 {
        Q40
    } else {
        u0
    };
    let half: u64 = if u > SQRT_HALF_Q40 {
        proof {
            assert((u as int) * (u as int) <= 1208925819614629174706176) by (nonlinear_arith)
                requires u <= 1099511627776u64;
        }
        let w: u64 = isqrt(1208925819614629174706176u128 - (u as u128) * (u as u128));
        proof {
            if w > Q40 {
                assert((Q40 + 1) as int * ((Q40 + 1) as int) <= (w as int) * (w as int))
                    by (nonlinear_arith)
                    requires Q40 < w;
                assert(false);
            }
        }
        HALF_PI_Q40 - asin_small(w)
    } else {
        asin_small(u)
    };
    let c: u64 = 2 * half;
    proof {
        lemma_mul_inequality(c as int, 2 * (HALF_PI_Q40 as int), EARTH_RADIUS_MM as int);
        lemma_div_is_ordered((EARTH_RADIUS_MM as int) * (c as int),
            (EARTH_RADIUS_MM as int) * (2 * (HALF_PI_Q40 as int)), Q40 as int);
        assert((EARTH_RADIUS_MM as int) * (c as int) == (c as int) * (EARTH_RADIUS_MM as int))
            by (nonlinear_arith);
        lemma_div_is_ordered(0, (EARTH_RADIUS_MM as int) * (c as int), Q40 as int);
        assert(0 <= (EARTH_RADIUS_MM as int) * (c as int)) by (nonlinear_arith)
            requires 0 <= c;
        if a == b {
            lemma_distance_self_zero(a);
        }
    }
    (((EARTH_RADIUS_MM as u128) * (c as u128)) / (Q40 as u128)) as u64
}

/// The distance from a point to itself is exactly zero.
pub proof fn lemma_distance_self_zero(p: GeoPoint)
    requires
        valid_position(p),
    ensures
        distance_spec(p, p) == 0,
{
    assert(abs_diff_spec(p.lat_udeg as int, p.lat_udeg as int) == 0);
    assert(abs_diff_spec(p.lon_udeg as int, p.lon_udeg as int) == 0);
    assert(rad_spec(0) == 0);
    assert(sin_q40_spec(0) == 0);
    let ca = cos_q40_spec(rad_spec(abs_diff_spec(p.lat_udeg as int, 0)));
    assert(qmul_spec(qmul_spec(ca, ca), 0) == 0);
    assert(0 * 0 + qmul_spec(qmul_spec(ca, ca), 0) * 0 == 0);
    lemma_sqrt_floor_of(0, 0);
    assert(sqrt_floor(0) == 0);
    assert(asin_taylor_spec(0) == 0);
    assert(asin_small_spec(0) == 0);
    assert(distance_spec(p, p) == ((EARTH_RADIUS_MM as int) * (2 * 0)) / (Q40 as int));
}

/// The distance is symmetric in its two endpoints.
pub proof fn lemma_distance_symmetric(a: GeoPoint, b: GeoPoint)
    requires
        valid_position(a),
        valid_position(b),
    ensures
        distance_spec(a, b) == distance_spec(b, a),
{
    assert(abs_diff_spec(a.lat_udeg as int, b.lat_udeg as int)
        == abs_diff_spec(b.lat_udeg as int, a.lat_udeg as int));
    assert(abs_diff_spec(a.lon_udeg as int, b.lon_udeg as int)
        == abs_diff_spec(b.lon_udeg as int, a.lon_udeg as int));
    let ca = cos_q40_spec(rad_spec(abs_diff_spec(a.lat_udeg as int, 0)));
    let cb = cos_q40_spec(rad_spec(abs_diff_spec(b.lat_udeg as int, 0)));
    assert(ca * cb == cb * ca) by (nonlinear_arith);
    assert(qmul_spec(ca, cb) == qmul_spec(cb, ca));
}

} // verus!
