//! Fixed-point perceptual color model.
//!
//! Device RGB is gamma-decoded to linear RGB, converted to XYZ with the D65
//! matrix, and mapped to CIE L*a*b*; the perceptual distance between two
//! colors is the Euclidean distance in L*a*b* space.  All arithmetic is
//! integer arithmetic: quantities that are conventionally reals in [0, 1] are
//! carried scaled by `COLOR_SCALE`, so a distance of one L*a*b* unit is
//! `COLOR_SCALE` and a variance (a mean of squared distances) of one unit is
//! `VARIANCE_SCALE`.

use vstd::prelude::*;

verus! {

/// One L*a*b* unit, as carried by `color_distance_lab`.
pub const COLOR_SCALE: u64 = 1048576;

/// One squared L*a*b* unit, as carried by `calculate_color_variance`.
pub const VARIANCE_SCALE: u64 = 1048576 * 1048576;

pub open spec fn sq(x: int) -> int {
    x * x
}

pub open spec fn cube(x: int) -> int {
    x * x * x
}

pub open spec fn pow5(x: int) -> int {
    x * x * x * x * x
}

/// The integer square root: the unique `r >= 0` with `sq(r) <= x < sq(r+1)`.
pub open spec fn spec_isqrt(x: int) -> int {
    choose|r: int| 0 <= r && #[trigger] sq(r) <= x && x < sq(r + 1)
}

/// The integer cube root of a nonnegative argument.
pub open spec fn spec_cbrt(x: int) -> int {
    choose|r: int| 0 <= r && #[trigger] cube(r) <= x && x < cube(r + 1)
}

/// The integer fifth root of a nonnegative argument.
pub open spec fn spec_root5(x: int) -> int {
    choose|r: int| 0 <= r && #[trigger] pow5(r) <= x && x < pow5(r + 1)
}

pub proof fn lemma_isqrt_is(x: int, r: int)
    requires
        0 <= r,
        sq(r) <= x,
        x < sq(r + 1),
    ensures
        spec_isqrt(x) == r,
{
    assert(exists|q: int| 0 <= q && #[trigger] sq(q) <= x && x < sq(q + 1)) by {
        assert(0 <= r && sq(r) <= x && x < sq(r + 1));
    }
    let c = spec_isqrt(x);
    assert(0 <= c && sq(c) <= x && x < sq(c + 1));
    if c < r {
        assert(sq(c + 1) <= sq(r)) by (nonlinear_arith)
            requires
                0 <= c + 1 <= r,
        ;
    }
    if r < c {
        assert(sq(r + 1) <= sq(c)) by (nonlinear_arith)
            requires
                0 <= r + 1 <= c,
        ;
    }
}

pub proof fn lemma_cbrt_is(x: int, r: int)
    requires
        0 <= r,
        cube(r) <= x,
        x < cube(r + 1),
    ensures
        spec_cbrt(x) == r,
{
    assert(exists|q: int| 0 <= q && #[trigger] cube(q) <= x && x < cube(q + 1)) by {
        assert(0 <= r && cube(r) <= x && x < cube(r + 1));
    }
    let c = spec_cbrt(x);
    assert(0 <= c && cube(c) <= x && x < cube(c + 1));
    if c < r {
        assert(cube(c + 1) <= cube(r)) by (nonlinear_arith)
            requires
                0 <= c + 1 <= r,
        ;
    }
    if r < c {
        assert(cube(r + 1) <= cube(c)) by (nonlinear_arith)
            requires
                0 <= r + 1 <= c,
        ;
    }
}

proof fn lemma_pow5_monotonic(a: int, b: int)
    requires
        0 <= a <= b,
    ensures
        pow5(a) <= pow5(b),
{
    assert(a * a <= b * b) by (nonlinear_arith)
        requires
            0 <= a <= b,
    ;
    assert((a * a) * (a * a) <= (b * b) * (b * b)) by (nonlinear_arith)
        requires
            0 <= a * a <= b * b,
    ;
    assert(((a * a) * (a * a)) * a <= ((b * b) * (b * b)) * b) by (nonlinear_arith)
        requires
            0 <= (a * a) * (a * a) <= (b * b) * (b * b),
            0 <= a <= b,
    ;
    assert(pow5(a) == ((a * a) * (a * a)) * a) by (nonlinear_arith);
    assert(pow5(b) == ((b * b) * (b * b)) * b) by (nonlinear_arith);
}

pub proof fn lemma_root5_is(x: int, r: int)
    requires
        0 <= r,
        pow5(r) <= x,
        x < pow5(r + 1),
    ensures
        spec_root5(x) == r,
{
    assert(exists|q: int| 0 <= q && #[trigger] pow5(q) <= x && x < pow5(q + 1)) by {
        assert(0 <= r && pow5(r) <= x && x < pow5(r + 1));
    }
    let c = spec_root5(x);
    assert(0 <= c && pow5(c) <= x && x < pow5(c + 1));
    if c < r {
        lemma_pow5_monotonic(c + 1, r);
    }
    if r < c {
        lemma_pow5_monotonic(r + 1, c);
    }
}

/// Integer square root of a 64-bit value by bisection.
pub fn isqrt_u64(x: u64) -> (r: u64)
    ensures
        r == spec_isqrt(x as int),
        sq(r as int) <= x as int,
        (x as int) < sq(r as int + 1),
        r <= 4294967296,
{
    let mut lo: u64 = 0;
    let mut hi: u64 = 4294967296;
    assert(sq(hi as int) == 4294967296int * 4294967296);
    while hi - lo > 1
        invariant
            lo < hi <= 4294967296,
            sq(lo as int) <= x as int,
            (x as int) < sq(hi as int),
        decreases hi - lo,
    {
        let mid = lo + (hi - lo) / 2;
        assert(lo < mid < hi);
        let m = mid as u128;
        assert(m * m <= 4294967296int * 4294967296) by (nonlinear_arith)
            requires
                0 <= m <= 4294967296,
        ;
        let m2 = m * m;
        assert(m2 == sq(mid as int));
        if m2 <= x as u128 {
            lo = mid;
        } else {
            hi = mid;
        }
    }
    proof {
        lemma_isqrt_is(x as int, lo as int);
    }
    lo
}

/// Integer cube root of a 64-bit value by bisection.
pub fn cbrt_u64(x: u64) -> (r: u64)
    ensures
        r == spec_cbrt(x as int),
        cube(r as int) <= x as int,
        (x as int) < cube(r as int + 1),
        r <= 4194304,
{
    let mut lo: u64 = 0;
    let mut hi: u64 = 4194304;
    assert(cube(hi as int) == 4194304int * 4194304 * 4194304);
    while hi - lo > 1
        invariant
            lo < hi <= 4194304,
            cube(lo as int) <= x as int,
            (x as int) < cube(hi as int),
        decreases hi - lo,
    {
        let mid = lo + (hi - lo) / 2;
        assert(lo < mid < hi);
        let m = mid as u128;
        assert(m * m <= 4194304int * 4194304) by (nonlinear_arith)
            requires
                0 <= m <= 4194304,
        ;
        let m2 = m * m;
        assert(m2 * m <= 4194304int * 4194304 * 4194304) by (nonlinear_arith)
            requires
                0 <= m <= 4194304,
                0 <= m2 <= 4194304int * 4194304,
        ;
        let m3 = m2 * m;
        assert(m3 == cube(mid as int)) by (nonlinear_arith)
            requires
                m == mid as int,
                m2 == m * m,
                m3 == m2 * m,
        ;
        if m3 <= x as u128 {
            lo = mid;
        } else {
            hi = mid;
        }
    }
    proof {
        lemma_cbrt_is(x as int, lo as int);
    }
    lo
}

/// Integer fifth root, for arguments up to 2^100, by bisection.
pub fn root5_u128(x: u128) -> (r: u64)
    requires
        x as int <= 1267650600228229401496703205376,  // 2^100
    ensures
        r == spec_root5(x as int),
        pow5(r as int) <= x as int,
        (x as int) < pow5(r as int + 1),
        r <= 1048576,
{
    let mut lo: u64 = 0;
    let mut hi: u64 = 1048577;
    proof {
        lemma_pow5_monotonic(1048577, 1048577);
        assert(pow5(1048577int) == 1048577int * 1048577 * 1048577 * 1048577 * 1048577);
        assert(1048577int * 1048577 * 1048577 * 1048577 * 1048577
            > 1267650600228229401496703205376);
    }
    while hi - lo > 1
        invariant
            lo < hi <= 1048577,
            pow5(lo as int) <= x as int,
            (x as int) < pow5(hi as int),
        decreases hi - lo,
    {
        let mid = lo + (hi - lo) / 2;
        assert(lo < mid < hi);
        let m = mid as u128;
        assert(m * m <= 1048577int * 1048577) by (nonlinear_arith)
            requires
                0 <= m <= 1048577,
        ;
        let m2 = m * m;
        assert(m2 * m2 <= 1048577int * 1048577 * 1048577 * 1048577) by (nonlinear_arith)
            requires
                0 <= m2 <= 1048577int * 1048577,
        ;
        let m4 = m2 * m2;
        assert(m4 * m <= 1048577int * 1048577 * 1048577 * 1048577 * 1048577)
            by (nonlinear_arith)
            requires
                0 <= m <= 1048577,
                0 <= m4 <= 1048577int * 1048577 * 1048577 * 1048577,
        ;
        let m5 = m4 * m;
        assert(m5 == pow5(mid as int)) by (nonlinear_arith)
            requires
                m == mid as int,
                m2 == m * m,
                m4 == m2 * m2,
                m5 == m4 * m,
        ;
        if m5 <= x {
            lo = mid;
        } else {
            hi = mid;
        }
    }
    proof {
        lemma_root5_is(x as int, lo as int);
    }
    lo
}


proof fn lemma_cube_monotonic(a: int, b: int)
    requires
        0 <= a <= b,
    ensures
        cube(a) <= cube(b),
{
    assert(a * a * a <= b * b * b) by (nonlinear_arith)
        requires
            0 <= a <= b,
    ;
}

/// The 12/5-power gamma curve, carried at scale 2^16: the fifth root of this
/// value times 2^84 is the linear light of channel value `v`, at scale 2^20.
pub open spec fn spec_gamma_q12(v: u8) -> int {
    let n = 1000 * (v as int) + 14025;
    let q = n * 65536 / 269025;
    let q2 = q * q / 65536;
    let q4 = q2 * q2 / 65536;
    let q8 = q4 * q4 / 65536;
    q8 * q4 / 65536
}

/// sRGB gamma decoding of one 8-bit channel to linear light at scale 2^20:
/// ((v/255 + 0.055) / 1.055)^2.4 above the sRGB toe, v/255/12.92 below it.
pub open spec fn spec_linear(v: u8) -> int {
    if v >= 11 {
        spec_root5(spec_gamma_q12(v) * 19342813113834066795298816)
    } else {
        (v as int) * 10485760 / 32946
    }
}

/// Gamma-decodes one sRGB channel to linear light at scale 2^20.
pub fn srgb_to_linear(v: u8) -> (lin: u64)
    ensures
        lin == spec_linear(v),
        lin <= 1048576,
{
    if v >= 11 {
        let n: u64 = 1000 * (v as u64) + 14025;
        let q: u64 = n * 65536 / 269025;
        assert(q <= 65536);
        assert(q * q <= 65536int * 65536) by (nonlinear_arith)
            requires
                0 <= q <= 65536,
        ;
        let q2: u64 = q * q / 65536;
        assert(q2 <= 65536);
        assert(q2 * q2 <= 65536int * 65536) by (nonlinear_arith)
            requires
                0 <= q2 <= 65536,
        ;
        let q4: u64 = q2 * q2 / 65536;
        assert(q4 <= 65536);
        assert(q4 * q4 <= 65536int * 65536) by (nonlinear_arith)
            requires
                0 <= q4 <= 65536,
        ;
        let q8: u64 = q4 * q4 / 65536;
        assert(q8 <= 65536);
        assert(q8 * q4 <= 65536int * 65536) by (nonlinear_arith)
            requires
                0 <= q8 <= 65536,
                0 <= q4 <= 65536,
        ;
        let q12: u64 = q8 * q4 / 65536;
        assert(q12 <= 65536);
        let x: u128 = (q12 as u128) * 19342813113834066795298816;
        assert(x as int <= 65536int * 19342813113834066795298816);
        let r = root5_u128(x);
        proof {
            if r > 1048576 {
                lemma_pow5_monotonic(1048577, r as int);
                assert(pow5(1048577int) == 1048577int * 1048577 * 1048577 * 1048577
                    * 1048577);
            }
        }
        r
    } else {
        (v as u64) * 10485760 / 32946
    }
}

/// The L*a*b* nonlinearity at scale 2^20: the cube root of `t` above the
/// small-argument knee, the linear segment 7.787 t + 16/116 below it.
pub open spec fn spec_lab_f(t: int) -> int {
    if t > 9287 {
        spec_cbrt(t * 1099511627776)
    } else {
        7787 * t / 1000 + 144631
    }
}

/// Computes `spec_lab_f` for arguments up to two units.
#[verifier::rlimit(1)]
pub fn lab_f(t: u64) -> (f: u64)
    requires
        t <= 2097152,
    ensures
        f == spec_lab_f(t as int),
        f <= 1330000,
        t <= 1048577 ==> f <= 1048576,
{
    if t > 9287 {
        let x: u64 = t * 1099511627776;
        let r = cbrt_u64(x);
        proof {
            if r > 1330000 {
                lemma_cube_monotonic(1330001, r as int);
                assert(cube(1330001int) == 1330001int * 1330001 * 1330001);
            }
            if t <= 1048577 && r > 1048576 {
                lemma_cube_monotonic(1048577, r as int);
                assert(cube(1048577int) == 1048577int * 1048577 * 1048577);
            }
        }
        r
    } else {
        7787 * t / 1000 + 144631
    }
}

/// The D65 X coordinate of a color, at scale 2^20.
pub open spec fn spec_xyz_x(c: crate::color::Rgba) -> int {
    (4124564 * spec_linear(c.r) + 3575761 * spec_linear(c.g) + 1804375 * spec_linear(c.b))
        / 10000000
}

/// The D65 Y coordinate of a color, at scale 2^20.
pub open spec fn spec_xyz_y(c: crate::color::Rgba) -> int {
    (2126729 * spec_linear(c.r) + 7151522 * spec_linear(c.g) + 721750 * spec_linear(c.b))
        / 10000000
}

/// The D65 Z coordinate of a color, at scale 2^20.
pub open spec fn spec_xyz_z(c: crate::color::Rgba) -> int {
    (193339 * spec_linear(c.r) + 1191920 * spec_linear(c.g) + 9503041 * spec_linear(c.b))
        / 10000000
}

pub open spec fn spec_fx(c: crate::color::Rgba) -> int {
    spec_lab_f(spec_xyz_x(c) * 100000 / 95047)
}

pub open spec fn spec_fy(c: crate::color::Rgba) -> int {
    spec_lab_f(spec_xyz_y(c))
}

pub open spec fn spec_fz(c: crate::color::Rgba) -> int {
    spec_lab_f(spec_xyz_z(c) * 100000 / 108883)
}

/// The L* component of a color, at scale 2^20 (0 to 100 units).
pub open spec fn spec_lab_l(c: crate::color::Rgba) -> int {
    116 * spec_fy(c) - 16777216
}

/// The a* component of a color, at scale 2^20.
pub open spec fn spec_lab_a(c: crate::color::Rgba) -> int {
    500 * (spec_fx(c) - spec_fy(c))
}

/// The b* component of a color, at scale 2^20.
pub open spec fn spec_lab_b(c: crate::color::Rgba) -> int {
    200 * (spec_fy(c) - spec_fz(c))
}

/// Computes the three L*a*b* components of a color, at scale 2^20.
#[verifier::rlimit(1)]
pub fn lab_components(c: &crate::color::Rgba) -> (lab: (i64, i64, i64))
    ensures
        lab.0 == spec_lab_l(*c),
        lab.1 == spec_lab_a(*c),
        lab.2 == spec_lab_b(*c),
        -16777216 <= lab.0 <= 104857600,
        -524288000 <= lab.1 <= 524288000,
        -209715200 <= lab.2 <= 209715200,
{
    let lr = srgb_to_linear(c.r);
    let lg = srgb_to_linear(c.g);
    let lb = srgb_to_linear(c.b);
    let x: u64 = (4124564 * lr + 3575761 * lg + 1804375 * lb) / 10000000;
    let y: u64 = (2126729 * lr + 7151522 * lg + 721750 * lb) / 10000000;
    let z: u64 = (193339 * lr + 1191920 * lg + 9503041 * lb) / 10000000;
    assert(x <= 996640);
    assert(y <= 1048576);
    assert(z <= 1141721);
    let tx: u64 = x * 100000 / 95047;
    let tz: u64 = z * 100000 / 108883;
    assert(tx <= 1048577);
    assert(tz <= 1048577);
    let fx = lab_f(tx);
    let fy = lab_f(y);
    let fz = lab_f(tz);
    let l: i64 = 116 * (fy as i64) - 16777216;
    let a: i64 = 500 * ((fx as i64) - (fy as i64));
    let b: i64 = 200 * ((fy as i64) - (fz as i64));
    (l, a, b)
}

/// The squared L*a*b* distance between two colors, at scale 2^40.
pub open spec fn spec_dist2(c1: crate::color::Rgba, c2: crate::color::Rgba) -> int {
    sq(spec_lab_l(c1) - spec_lab_l(c2)) + sq(spec_lab_a(c1) - spec_lab_a(c2)) + sq(
        spec_lab_b(c1) - spec_lab_b(c2))
}

/// The perceptual distance between two colors: the Euclidean L*a*b* distance,
/// at scale 2^20.
pub open spec fn spec_color_distance(c1: crate::color::Rgba, c2: crate::color::Rgba) -> int {
    spec_isqrt(spec_dist2(c1, c2))
}

/// Computes the perceptual distance between two colors at scale 2^20
/// (`COLOR_SCALE` is one L*a*b* unit).
pub fn color_distance_lab(c1: &crate::color::Rgba, c2: &crate::color::Rgba) -> (d: u64)
    ensures
        d == spec_color_distance(*c1, *c2),
        d <= 1200000000,
{
    let (l1, a1, b1) = lab_components(c1);
    let (l2, a2, b2) = lab_components(c2);
    let dl: i64 = l1 - l2;
    let da: i64 = a1 - a2;
    let db: i64 = b1 - b2;
    assert(0 <= dl * dl <= 121634816int * 121634816) by (nonlinear_arith)
        requires
            -121634816 <= dl <= 121634816,
    ;
    assert(0 <= da * da <= 1048576000int * 1048576000) by (nonlinear_arith)
        requires
            -1048576000 <= da <= 1048576000,
    ;
    assert(0 <= db * db <= 419430400int * 419430400) by (nonlinear_arith)
        requires
            -419430400 <= db <= 419430400,
    ;
    let d2: i64 = dl * dl + da * da + db * db;
    let d = isqrt_u64(d2 as u64);
    proof {
        if d > 1200000000 {
            assert(sq(d as int) > 1200000000int * 1200000000) by (nonlinear_arith)
                requires
                    d as int > 1200000000,
            ;
        }
    }
    d
}

/// Identical colors are at distance zero.
pub proof fn lemma_color_distance_self(c: crate::color::Rgba)
    ensures
        spec_color_distance(c, c) == 0,
{
    assert(spec_dist2(c, c) == 0);
    lemma_isqrt_is(0, 0);
}

/// The perceptual distance is symmetric in its two arguments.
pub proof fn lemma_color_distance_symmetric(c1: crate::color::Rgba, c2: crate::color::Rgba)
    ensures
        spec_color_distance(c1, c2) == spec_color_distance(c2, c1),
{
    assert(spec_dist2(c1, c2) == spec_dist2(c2, c1)) by (nonlinear_arith)
        requires
            spec_dist2(c1, c2) == sq(spec_lab_l(c1) - spec_lab_l(c2)) + sq(
                spec_lab_a(c1) - spec_lab_a(c2)) + sq(spec_lab_b(c1) - spec_lab_b(c2)),
            spec_dist2(c2, c1) == sq(spec_lab_l(c2) - spec_lab_l(c1)) + sq(
                spec_lab_a(c2) - spec_lab_a(c1)) + sq(spec_lab_b(c2) - spec_lab_b(c1)),
    ;
}


/// Sum of squared perceptual distances from `mean` over a pixel sequence,
/// at scale 2^40.
pub open spec fn sum_sq_dist(mean: crate::color::Rgba, s: Seq<crate::color::Rgba>) -> int
    decreases s.len(),
{
    if s.len() == 0 {
        0
    } else {
        sum_sq_dist(mean, s.drop_last()) + sq(spec_color_distance(mean, s.last()))
    }
}

/// The color variance of a pixel sequence: the mean of squared perceptual
/// distances from the truncating channel mean, at scale 2^40
/// (`VARIANCE_SCALE` is one squared L*a*b* unit).  Empty sequences have
/// variance zero.
pub open spec fn spec_variance(s: Seq<crate::color::Rgba>) -> int {
    if s.len() == 0 {
        0
    } else {
        sum_sq_dist(crate::color::spec_average(s), s) / s.len() as int
    }
}

/// Computes the mean color and the color variance of a pixel set.
pub fn calculate_color_variance(pixels: &Vec<crate::color::Rgba>) -> (r: (
    crate::color::Rgba,
    u64,
))
    ensures
        r.0 == crate::color::spec_average(pixels@),
        r.1 == spec_variance(pixels@),
        r.1 <= 1440000000000000000,
{
    if pixels.len() == 0 {
        return (crate::color::Rgba::opaque_black(), 0);
    }
    let mean = crate::color::average_color(pixels);
    let n = pixels.len();
    let mut sum: u128 = 0;
    let mut i: usize = 0;
    while i < n
        invariant
            i <= n,
            n == pixels@.len(),
            mean == crate::color::spec_average(pixels@),
            sum == sum_sq_dist(mean, pixels@.take(i as int)),
            sum <= (i as int) * 1440000000000000000,
        decreases n - i,
    {
        proof {
            assert(pixels@.take(i + 1).drop_last() =~= pixels@.take(i as int));
            assert(pixels@.take(i + 1).last() == pixels@[i as int]);
        }
        let p = pixels[i];
        let d = color_distance_lab(&mean, &p);
        assert(0 <= (d as int) * (d as int) <= 1440000000000000000int) by (nonlinear_arith)
            requires
                0 <= d as int <= 1200000000,
        ;
        assert((d as int) * (d as int) == sq(d as int));
        let dd: u128 = (d as u128) * (d as u128);
        sum = sum + dd;
        i = i + 1;
    }
    proof {
        assert(pixels@.take(n as int) =~= pixels@);
        assert(sum as int / n as int <= 1440000000000000000int) by (nonlinear_arith)
            requires
                n as int > 0,
                0 <= sum as int <= (n as int) * 1440000000000000000,
        ;
    }
    let variance = (sum / (n as u128)) as u64;
    (mean, variance)
}

proof fn lemma_uniform_channel_sums(s: Seq<crate::color::Rgba>, c: crate::color::Rgba)
    requires
        forall|i: int| 0 <= i < s.len() ==> s[i] == c,
    ensures
        crate::color::sum_r(s) == s.len() * c.r,
        crate::color::sum_g(s) == s.len() * c.g,
        crate::color::sum_b(s) == s.len() * c.b,
    decreases s.len(),
{
    if s.len() > 0 {
        assert(forall|i: int| 0 <= i < s.drop_last().len() ==> s.drop_last()[i] == c);
        lemma_uniform_channel_sums(s.drop_last(), c);
        assert(s.last() == c);
        let n = s.len() as int;
        let m = s.drop_last().len() as int;
        assert(m == n - 1);
        assert(crate::color::sum_r(s) == m * c.r + c.r);
        assert(crate::color::sum_g(s) == m * c.g + c.g);
        assert(crate::color::sum_b(s) == m * c.b + c.b);
        assert(m * c.r + c.r == n * c.r) by (nonlinear_arith)
            requires
                m == n - 1,
        ;
        assert(m * c.g + c.g == n * c.g) by (nonlinear_arith)
            requires
                m == n - 1,
        ;
        assert(m * c.b + c.b == n * c.b) by (nonlinear_arith)
            requires
                m == n - 1,
        ;
    } else {
        assert(s.len() * c.r == 0) by (nonlinear_arith)
            requires
                s.len() == 0,
        ;
        assert(s.len() * c.g == 0) by (nonlinear_arith)
            requires
                s.len() == 0,
        ;
        assert(s.len() * c.b == 0) by (nonlinear_arith)
            requires
                s.len() == 0,
        ;
    }
}

proof fn lemma_sum_sq_dist_zero(
    mean: crate::color::Rgba,
    s: Seq<crate::color::Rgba>,
    c: crate::color::Rgba,
)
    requires
        forall|i: int| 0 <= i < s.len() ==> s[i] == c,
        spec_color_distance(mean, c) == 0,
    ensures
        sum_sq_dist(mean, s) == 0,
    decreases s.len(),
{
    if s.len() > 0 {
        lemma_sum_sq_dist_zero(mean, s.drop_last(), c);
    }
}

/// A set of identical pixels has variance zero: its channel mean carries the
/// same color coordinates, so every sample is at distance zero from it.
#[verifier::rlimit(50)]
pub proof fn lemma_variance_of_uniform(s: Seq<crate::color::Rgba>, c: crate::color::Rgba)
    requires
        forall|i: int| 0 <= i < s.len() ==> s[i] == c,
    ensures
        spec_variance(s) == 0,
{
    if s.len() > 0 {
        let n = s.len() as int;
        lemma_uniform_channel_sums(s, c);
        assert((n * c.r) / n == c.r && (n * c.g) / n == c.g && (n * c.b) / n == c.b)
            by (nonlinear_arith)
            requires
                n > 0,
        ;
        let mean = crate::color::spec_average(s);
        assert(mean.r == c.r && mean.g == c.g && mean.b == c.b);
        assert(spec_lab_l(mean) == spec_lab_l(c));
        assert(spec_lab_a(mean) == spec_lab_a(c));
        assert(spec_lab_b(mean) == spec_lab_b(c));
        assert(spec_dist2(mean, c) == 0);
        lemma_isqrt_is(0, 0);
        lemma_sum_sq_dist_zero(mean, s, c);
    }
}


/// The cell of the knee table that argument `t` (at scale 2^20, clamped to
/// two units) falls in.
pub open spec fn spec_knee_index(t: int) -> int {
    let i = t * 4095 / 2097152;
    if i > 4095 {
        4095
    } else {
        i
    }
}

/// The table-driven nonlinearity: `spec_lab_f` evaluated at the
/// representative argument of the cell `t` falls in.
pub open spec fn spec_lab_f_fast(t: int) -> int {
    spec_lab_f(spec_knee_index(t) * 2097152 / 4095)
}

#[verifier::opaque]
pub open spec fn spec_fx_fast(c: crate::color::Rgba) -> int {
    spec_lab_f_fast(spec_xyz_x(c) * 100000 / 95047)
}

#[verifier::opaque]
pub open spec fn spec_fy_fast(c: crate::color::Rgba) -> int {
    spec_lab_f_fast(spec_xyz_y(c))
}

#[verifier::opaque]
pub open spec fn spec_fz_fast(c: crate::color::Rgba) -> int {
    spec_lab_f_fast(spec_xyz_z(c) * 100000 / 108883)
}

pub open spec fn spec_lab_l_fast(c: crate::color::Rgba) -> int {
    116 * spec_fy_fast(c) - 16777216
}

pub open spec fn spec_lab_a_fast(c: crate::color::Rgba) -> int {
    500 * (spec_fx_fast(c) - spec_fy_fast(c))
}

pub open spec fn spec_lab_b_fast(c: crate::color::Rgba) -> int {
    200 * (spec_fy_fast(c) - spec_fz_fast(c))
}

/// The squared table-driven distance, at scale 2^40.
pub open spec fn spec_dist2_fast(c1: crate::color::Rgba, c2: crate::color::Rgba) -> int {
    sq(spec_lab_l_fast(c1) - spec_lab_l_fast(c2)) + sq(spec_lab_a_fast(c1) - spec_lab_a_fast(c2))
        + sq(spec_lab_b_fast(c1) - spec_lab_b_fast(c2))
}

/// The table-driven perceptual distance, at scale 2^20: the exact pipeline
/// with the nonlinearity quantized to 4096 cells.
pub open spec fn spec_color_distance_fast(c1: crate::color::Rgba, c2: crate::color::Rgba) -> int {
    spec_isqrt(spec_dist2_fast(c1, c2))
}

/// The two precomputed lookup tables of the fast distance: the 256-entry
/// gamma-decode table and the 4096-entry knee table over arguments in
/// [0, 2].
pub struct DistanceTables {
    gamma: Vec<u64>,
    knee: Vec<u64>,
}

impl DistanceTables {
    pub closed spec fn gamma_at(&self, v: int) -> u64 {
        self.gamma@[v]
    }

    pub closed spec fn knee_at(&self, i: int) -> u64 {
        self.knee@[i]
    }

    /// The gamma table holds the exact linear light of each channel value;
    /// the knee table holds the nonlinearity at each cell's representative.
    pub closed spec fn wf(&self) -> bool {
        &&& self.gamma@.len() == 256
    &&& forall|v: int| 0 <= v < 256 ==> self.gamma@[v] == spec_linear(v as u8) && self.gamma@[v]
            <= 1048576
    &&& self.knee@.len() == 4096
    &&& forall|i: int|
            0 <= i < 4096 ==> self.knee@[i] == spec_lab_f(i * 2097152 / 4095) && self.knee@[i]
                <= 1330000
    }

    /// Precomputes both tables; the construction is deterministic, so two
    /// tables built independently agree entry for entry.
    pub fn new() -> (t: DistanceTables)
        ensures
            t.wf(),
    {
        let mut gamma: Vec<u64> = Vec::new();
        let mut v: usize = 0;
        while v < 256
            invariant
                v <= 256,
                gamma@.len() == v,
                forall|j: int|
                    0 <= j < v ==> gamma@[j] == spec_linear(j as u8) && gamma@[j] <= 1048576,
            decreases 256 - v,
        {
            gamma.push(srgb_to_linear(v as u8));
            v = v + 1;
        }
        let mut knee: Vec<u64> = Vec::new();
        let mut i: usize = 0;
        while i < 4096
            invariant
                i <= 4096,
                knee@.len() == i,
                forall|j: int|
                    0 <= j < i ==> knee@[j] == spec_lab_f(j * 2097152 / 4095) && knee@[j]
                        <= 1330000,
            decreases 4096 - i,
        {
            let t_rep: u64 = (i as u64) * 2097152 / 4095;
            knee.push(lab_f(t_rep));
            i = i + 1;
        }
        DistanceTables { gamma, knee }
    }

    fn knee_lookup(&self, t: u64) -> (f: u64)
        requires
            self.wf(),
            t <= 1048577,
        ensures
            f == spec_lab_f_fast(t as int),
            f <= 1330000,
    {
        let i: u64 = t * 4095 / 2097152;
        let idx: u64 = if i > 4095 {
            4095
        } else {
            i
        };
        self.knee[idx as usize]
    }
}

/// Computes the three table-driven L*a*b* components of a color.
fn lab_components_fast(tables: &DistanceTables, c: &crate::color::Rgba) -> (lab: (i64, i64, i64))
    requires
        tables.wf(),
    ensures
        lab.0 == spec_lab_l_fast(*c),
        lab.1 == spec_lab_a_fast(*c),
        lab.2 == spec_lab_b_fast(*c),
        -16777216 <= lab.0 <= 137502784,
        -665000000 <= lab.1 <= 665000000,
        -266000000 <= lab.2 <= 266000000,
{
    let lr = tables.gamma[c.r as usize];
    let lg = tables.gamma[c.g as usize];
    let lb = tables.gamma[c.b as usize];
    proof {
        assert(lr == spec_linear(c.r) && lg == spec_linear(c.g) && lb == spec_linear(c.b));
    }
    let x: u64 = (4124564 * lr + 3575761 * lg + 1804375 * lb) / 10000000;
    let y: u64 = (2126729 * lr + 7151522 * lg + 721750 * lb) / 10000000;
    let z: u64 = (193339 * lr + 1191920 * lg + 9503041 * lb) / 10000000;
    assert(x <= 996640);
    assert(y <= 1048576);
    assert(z <= 1141721);
    let tx: u64 = x * 100000 / 95047;
    let tz: u64 = z * 100000 / 108883;
    assert(tx <= 1048577);
    assert(tz <= 1048577);
    let fx = tables.knee_lookup(tx);
    let fy = tables.knee_lookup(y);
    let fz = tables.knee_lookup(tz);
    proof {
        reveal(spec_fx_fast);
        reveal(spec_fy_fast);
        reveal(spec_fz_fast);
    }
    let l: i64 = 116 * (fy as i64) - 16777216;
    let a: i64 = 500 * ((fx as i64) - (fy as i64));
    let b: i64 = 200 * ((fy as i64) - (fz as i64));
    (l, a, b)
}

/// Computes the table-driven perceptual distance between two colors at
/// scale 2^20; it agrees with `color_distance_lab` up to the knee table's
/// quantization.
pub fn color_distance_lab_fast(
    tables: &DistanceTables,
    c1: &crate::color::Rgba,
    c2: &crate::color::Rgba,
) -> (d: u64)
    requires
        tables.wf(),
    ensures
        d == spec_color_distance_fast(*c1, *c2),
        d <= 1500000000,
{
    let (l1, a1, b1) = lab_components_fast(tables, c1);
    let (l2, a2, b2) = lab_components_fast(tables, c2);
    let dl: i64 = l1 - l2;
    let da: i64 = a1 - a2;
    let db: i64 = b1 - b2;
    assert(0 <= dl * dl <= 154280000int * 154280000) by (nonlinear_arith)
        requires
            -154280000 <= dl <= 154280000,
    ;
    assert(0 <= da * da <= 1330000000int * 1330000000) by (nonlinear_arith)
        requires
            -1330000000 <= da <= 1330000000,
    ;
    assert(0 <= db * db <= 532000000int * 532000000) by (nonlinear_arith)
        requires
            -532000000 <= db <= 532000000,
    ;
    let d2: i64 = dl * dl + da * da + db * db;
    let d = isqrt_u64(d2 as u64);
    proof {
        if d > 1500000000 {
            assert(sq(d as int) > 1500000000int * 1500000000) by (nonlinear_arith)
                requires
                    d as int > 1500000000,
            ;
        }
    }
    d
}

/// Identical colors are at table-driven distance zero.
pub proof fn lemma_color_distance_fast_self(c: crate::color::Rgba)
    ensures
        spec_color_distance_fast(c, c) == 0,
{
    assert(spec_dist2_fast(c, c) == 0);
    lemma_isqrt_is(0, 0);
}

/// The table-driven distance is symmetric in its two arguments.
pub proof fn lemma_color_distance_fast_symmetric(
    c1: crate::color::Rgba,
    c2: crate::color::Rgba,
)
    ensures
        spec_color_distance_fast(c1, c2) == spec_color_distance_fast(c2, c1),
{
    assert(spec_dist2_fast(c1, c2) == spec_dist2_fast(c2, c1)) by (nonlinear_arith)
        requires
            spec_dist2_fast(c1, c2) == sq(spec_lab_l_fast(c1) - spec_lab_l_fast(c2)) + sq(
                spec_lab_a_fast(c1) - spec_lab_a_fast(c2)) + sq(
                spec_lab_b_fast(c1) - spec_lab_b_fast(c2)),
            spec_dist2_fast(c2, c1) == sq(spec_lab_l_fast(c2) - spec_lab_l_fast(c1)) + sq(
                spec_lab_a_fast(c2) - spec_lab_a_fast(c1)) + sq(
                spec_lab_b_fast(c2) - spec_lab_b_fast(c1)),
    ;
}

} // verus!
