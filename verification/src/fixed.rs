//! Fixed-point arithmetic shared by the whole crate.

use vstd::prelude::*;

verus! {

/// The fixed-point representation of `1.0`.
pub const ONE: i32 = 1_000_000;

/// The fixed-point representation of π.
pub const PI: i32 = 3_141_593;

/// A full turn: twice [`PI`].
pub const TWO_PI: i32 = 6_283_186;

/// Quotient rounded toward zero, for a positive divisor.
pub open spec fn quot(a: int, b: int) -> int {
    if a >= 0 {
        a / b
    } else {
        -((-a) / b)
    }
}

/// `v` limited to the closed interval from `lo` to `hi`.
pub open spec fn clamp(v: int, lo: int, hi: int) -> int {
    if v < lo {
        lo
    } else if v > hi {
        hi
    } else {
        v
    }
}

/// Whether `v` is representable as a 32-bit fixed-point number.
pub open spec fn fits_i32(v: int) -> bool {
    i32::MIN <= v <= i32::MAX
}

/// Whether `v` lies in the closed unit interval `[-1.0, 1.0]`.
pub open spec fn in_unit(v: int) -> bool {
    -(ONE as int) <= v <= ONE as int
}

/// The angle congruent to `a` modulo a full turn that lies in `(-π, π]`.
pub open spec fn wrap_angle(a: int) -> int {
    (a + PI - 1) % (TWO_PI as int) - PI + 1
}

/// Whether `r` is the integer square root of `n`: the largest number whose
/// square is at most `n`.
pub open spec fn is_sqrt(n: int, r: int) -> bool {
    0 <= r && r * r <= n < (r + 1) * (r + 1)
}

/// The integer square root of `n`, for `n >= 0`.
pub open spec fn sqrt_floor(n: int) -> int {
    choose|r: int| is_sqrt(n, r)
}

/// `a / b` in fixed point: the quotient of `a * 1.0` by `b`, rounded toward zero.
pub open spec fn ratio(a: int, b: int) -> int {
    quot(a * ONE, b)
}

/// `a * b` in fixed point: the product divided by `1.0`, rounded toward zero.
pub open spec fn product(a: int, b: int) -> int {
    quot(a * b, ONE as int)
}

/// The share that a component `c` has in a vector of the squared length
/// `n`: `c` over the length, as a fixed-point number rounded toward zero. The
/// length is taken at twice the resolution, as the integer square root of
/// `n * 10^12`, so that short vectors are divided as exactly as long ones.
/// The zero vector has no direction: all its shares are zero.
pub open spec fn unit_component(c: int, n: int) -> int {
    if n <= 0 {
        0
    } else {
        quot(c * 1_000_000_000_000, sqrt_floor(n * 1_000_000_000_000))
    }
}

/// A quotient rounded toward zero, times its divisor, lies between zero and
/// the dividend and is less than one divisor away from the dividend.
pub proof fn lemma_quot_times_divisor(a: int, b: int)
    requires
        b > 0,
    ensures
        a >= 0 ==> a - b < quot(a, b) * b <= a && quot(a, b) >= 0,
        a <= 0 ==> a <= quot(a, b) * b < a + b && quot(a, b) <= 0,
{
    if a >= 0 {
        assert(a - b < (a / b) * b <= a && a / b >= 0) by (nonlinear_arith)
            requires
                a >= 0,
                b > 0,
        ;
    } else {
        let m: int = -a;
        assert(m - b < (m / b) * b <= m && m / b >= 0) by (nonlinear_arith)
            requires
                m >= 0,
                b > 0,
        ;
        assert((-(m / b)) * b == -((m / b) * b)) by (nonlinear_arith);
    }
}

/// The square of a quotient rounded toward zero, times the square of the
/// divisor, is at most the square of the dividend, and less by no more than
/// twice the product of the dividend's size and the divisor.
pub proof fn lemma_quot_square(a: int, b: int, size: int)
    requires
        b > 0,
        -size <= a <= size,
    ensures
        a * a - 2 * (size * b) <= (quot(a, b) * b) * (quot(a, b) * b) <= a * a,
{
    lemma_quot_times_divisor(a, b);
    let t: int = quot(a, b) * b;
    if a >= 0 {
        assert(t >= 0) by (nonlinear_arith)
            requires
                t == quot(a, b) * b,
                quot(a, b) >= 0,
                b > 0,
        ;
        assert(t * t <= a * a) by (nonlinear_arith)
            requires
                0 <= t <= a,
        ;
        if a >= b {
            assert(t * t >= a * a - 2 * (a * b)) by (nonlinear_arith)
                requires
                    a - b < t,
                    a >= b,
                    b > 0,
            ;
        } else {
            assert(a * a - 2 * (a * b) <= 0) by (nonlinear_arith)
                requires
                    0 <= a < b,
            ;
            assert(t * t >= 0) by (nonlinear_arith);
        }
        assert(a * b <= size * b) by (nonlinear_arith)
            requires
                a <= size,
                b > 0,
        ;
    } else {
        let m: int = -a;
        let u: int = -t;
        assert(t <= 0) by (nonlinear_arith)
            requires
                t == quot(a, b) * b,
                quot(a, b) <= 0,
                b > 0,
        ;
        assert(t * t == u * u) by (nonlinear_arith)
            requires
                u == -t,
        ;
        assert(a * a == m * m) by (nonlinear_arith)
            requires
                m == -a,
        ;
        assert(u * u <= m * m) by (nonlinear_arith)
            requires
                0 <= u <= m,
        ;
        if m >= b {
            assert(u * u >= m * m - 2 * (m * b)) by (nonlinear_arith)
                requires
                    m - b < u,
                    m >= b,
                    b > 0,
            ;
        } else {
            assert(m * m - 2 * (m * b) <= 0) by (nonlinear_arith)
                requires
                    0 <= m < b,
            ;
            assert(u * u >= 0) by (nonlinear_arith);
        }
        assert(m * b <= size * b) by (nonlinear_arith)
            requires
                m <= size,
                b > 0,
        ;
    }
}

/// The length of a vector at twice the resolution: the root of `n * 10^12`
/// is at least a million for a vector that is not zero, and a component
/// times a million is at most that root.
pub proof fn lemma_fine_root(c: int, n: int)
    requires
        0 <= c * c <= n,
        n > 0,
    ensures
        is_sqrt(n * 1_000_000_000_000, sqrt_floor(n * 1_000_000_000_000)),
        sqrt_floor(n * 1_000_000_000_000) >= 1_000_000,
        -sqrt_floor(n * 1_000_000_000_000) <= c * 1_000_000 <= sqrt_floor(n * 1_000_000_000_000),
{
    let big: int = n * 1_000_000_000_000;
    lemma_sqrt_exists(big);
    let root: int = sqrt_floor(big);
    if root < 1_000_000 {
        assert((root + 1) * (root + 1) <= 1_000_000_000_000) by (nonlinear_arith)
            requires
                0 <= root < 1_000_000,
        ;
    }
    let k: int = c * 1_000_000;
    assert(k * k == (c * c) * 1_000_000_000_000) by (nonlinear_arith)
        requires
            k == c * 1_000_000,
    ;
    assert(k * k <= big) by (nonlinear_arith)
        requires
            k * k == (c * c) * 1_000_000_000_000,
            c * c <= n,
            big == n * 1_000_000_000_000,
    ;
    if k > root {
        assert((root + 1) * (root + 1) <= k * k) by (nonlinear_arith)
            requires
                0 <= root,
                root + 1 <= k,
        ;
    } else if -k > root {
        assert((root + 1) * (root + 1) <= k * k) by (nonlinear_arith)
            requires
                0 <= root,
                root + 1 <= -k,
        ;
    }
}

/// The share of a component in a vector lies in `[-1.0, 1.0]`.
pub proof fn lemma_unit_component_in_unit(c: int, n: int)
    requires
        0 <= c * c <= n,
    ensures
        in_unit(unit_component(c, n)),
{
    if n > 0 {
        lemma_fine_root(c, n);
        let root: int = sqrt_floor(n * 1_000_000_000_000);
        assert(c * 1_000_000_000_000 == (c * 1_000_000) * 1_000_000) by (nonlinear_arith);
        assert(-(1_000_000 * root) <= c * 1_000_000_000_000 <= 1_000_000 * root)
            by (nonlinear_arith)
            requires
                -root <= c * 1_000_000 <= root,
                c * 1_000_000_000_000 == (c * 1_000_000) * 1_000_000,
        ;
        lemma_quot_bound(c * 1_000_000_000_000, root, 1_000_000);
    }
}

/// The shares of the two components of a plane vector that is not zero are
/// the components of a unit vector: their squares sum to 1.0 within
/// 0.000005.
pub proof fn lemma_unit_components_square_to_one(a: int, b: int)
    requires
        a * a + b * b > 0,
    ensures
        ({
            let n = a * a + b * b;
            let x = unit_component(a, n);
            let z = unit_component(b, n);
            ONE * ONE - 5 * ONE <= x * x + z * z <= ONE * ONE + 5 * ONE
        }),
{
    let e: int = 1_000_000_000_000;
    let n: int = a * a + b * b;
    assert(a * a >= 0) by (nonlinear_arith);
    assert(b * b >= 0) by (nonlinear_arith);
    lemma_fine_root(a, n);
    lemma_fine_root(b, n);
    let h: int = sqrt_floor(n * e);
    let big_a: int = a * e;
    let big_b: int = b * e;
    let x: int = quot(big_a, h);
    let z: int = quot(big_b, h);
    assert(x == unit_component(a, n));
    assert(z == unit_component(b, n));
    let size: int = h * 1_000_000;
    assert(big_a == (a * 1_000_000) * 1_000_000) by (nonlinear_arith)
        requires
            big_a == a * 1_000_000_000_000,
    ;
    assert(big_b == (b * 1_000_000) * 1_000_000) by (nonlinear_arith)
        requires
            big_b == b * 1_000_000_000_000,
    ;
    assert(-size <= big_a <= size) by (nonlinear_arith)
        requires
            -h <= a * 1_000_000 <= h,
            big_a == (a * 1_000_000) * 1_000_000,
            size == h * 1_000_000,
    ;
    assert(-size <= big_b <= size) by (nonlinear_arith)
        requires
            -h <= b * 1_000_000 <= h,
            big_b == (b * 1_000_000) * 1_000_000,
            size == h * 1_000_000,
    ;
    lemma_quot_square(big_a, h, size);
    lemma_quot_square(big_b, h, size);
    let xh: int = x * h;
    let zh: int = z * h;
    let total: int = (x * x + z * z) * (h * h);
    assert(total == xh * xh + zh * zh) by (nonlinear_arith)
        requires
            total == (x * x + z * z) * (h * h),
            xh == x * h,
            zh == z * h,
    ;
    let squares: int = big_a * big_a + big_b * big_b;
    assert(squares == (n * e) * e) by (nonlinear_arith)
        requires
            squares == big_a * big_a + big_b * big_b,
            big_a == a * e,
            big_b == b * e,
            n == a * a + b * b,
    ;
    assert(squares - 4 * (size * h) <= total <= squares);
    assert((h * h) * e <= squares < ((h + 1) * (h + 1)) * e) by (nonlinear_arith)
        requires
            squares == (n * e) * e,
            h * h <= n * e < (h + 1) * (h + 1),
            e == 1_000_000_000_000,
    ;
    let sum: int = x * x + z * z;
    assert(sum >= 0) by (nonlinear_arith)
        requires
            sum == x * x + z * z,
    ;
    if sum > e + 5_000_000 {
        assert(total >= ((h + 1) * (h + 1)) * e) by (nonlinear_arith)
            requires
                total == sum * (h * h),
                sum >= e + 5_000_001,
                h >= 1_000_000,
                e == 1_000_000_000_000,
        ;
    }
    if sum < e - 5_000_000 {
        assert(total < (h * h) * e - 4 * (size * h)) by (nonlinear_arith)
            requires
                total == sum * (h * h),
                0 <= sum <= e - 5_000_001,
                h >= 1_000_000,
                size == h * 1_000_000,
                e == 1_000_000_000_000,
        ;
    }
}

/// Whether `sin` and `cos` are the sine and the cosine of some angle, as
/// far as rounding allows: their squares sum to 1.0 within 0.000002.
pub open spec fn unit_heading(sin: int, cos: int) -> bool {
    ONE * ONE - 2 * ONE <= sin * sin + cos * cos <= ONE * ONE + 2 * ONE
}

/// A unit vector turned by an angle is a unit vector: when the squares of
/// `x` and `z` sum to 1.0 within 0.000005 and `sin` and `cos` are a
/// [`unit_heading`], the squares of the turned components, each rounded
/// toward zero and limited to `[-1.0, 1.0]`, sum to 1.0 within 0.00001.
pub proof fn lemma_turned_unit_vector(x: int, z: int, sin: int, cos: int)
    requires
        ONE * ONE - 5 * ONE <= x * x + z * z <= ONE * ONE + 5 * ONE,
        unit_heading(sin, cos),
    ensures
        ({
            let across = clamp(quot(x * cos - z * sin, ONE as int), -(ONE as int), ONE as int);
            let along = clamp(quot(z * cos + x * sin, ONE as int), -(ONE as int), ONE as int);
            ONE * ONE - 10 * ONE <= across * across + along * along <= ONE * ONE + 10 * ONE
        }),
{
    let e: int = 1_000_000_000_000;
    let one: int = 1_000_000;
    let p: int = x * cos - z * sin;
    let q: int = z * cos + x * sin;
    let length: int = x * x + z * z;
    let turn: int = sin * sin + cos * cos;
    let squares: int = p * p + q * q;
    let xc: int = x * cos;
    let zs: int = z * sin;
    let zc: int = z * cos;
    let xs: int = x * sin;
    let xx: int = x * x;
    let zz: int = z * z;
    let ss: int = sin * sin;
    let cc: int = cos * cos;
    assert(p * p == xc * xc - 2 * (xc * zs) + zs * zs) by (nonlinear_arith)
        requires
            p == xc - zs,
    ;
    assert(q * q == zc * zc + 2 * (zc * xs) + xs * xs) by (nonlinear_arith)
        requires
            q == zc + xs,
    ;
    assert(xc * zs == zc * xs) by (nonlinear_arith)
        requires
            xc == x * cos,
            zs == z * sin,
            zc == z * cos,
            xs == x * sin,
    ;
    assert(xc * xc == xx * cc) by (nonlinear_arith)
        requires
            xc == x * cos,
            xx == x * x,
            cc == cos * cos,
    ;
    assert(zs * zs == zz * ss) by (nonlinear_arith)
        requires
            zs == z * sin,
            zz == z * z,
            ss == sin * sin,
    ;
    assert(zc * zc == zz * cc) by (nonlinear_arith)
        requires
            zc == z * cos,
            zz == z * z,
            cc == cos * cos,
    ;
    assert(xs * xs == xx * ss) by (nonlinear_arith)
        requires
            xs == x * sin,
            xx == x * x,
            ss == sin * sin,
    ;
    assert(length * turn == xx * ss + xx * cc + zz * ss + zz * cc) by (nonlinear_arith)
        requires
            length == xx + zz,
            turn == ss + cc,
    ;
    assert(squares == length * turn);
    assert(e * e - 7_000_000 * e <= length * turn <= e * e + 7_000_010 * e) by (nonlinear_arith)
        requires
            e - 5_000_000 <= length <= e + 5_000_000,
            e - 2_000_000 <= turn <= e + 2_000_000,
            e == 1_000_000_000_000,
    ;
    // The sizes of the two turned components.
    let ap: int = if p >= 0 {
        p
    } else {
        -p
    };
    let aq: int = if q >= 0 {
        q
    } else {
        -q
    };
    assert(ap * ap == p * p && aq * aq == q * q) by (nonlinear_arith)
        requires
            ap == p || ap == -p,
            aq == q || aq == -q,
    ;
    assert((ap + aq) * (ap + aq) <= 2 * (ap * ap + aq * aq)) by (nonlinear_arith);
    let reach: int = 1_414_300_000_000;
    if ap + aq > reach {
        assert((ap + aq) * (ap + aq) > 2 * (e * e + 7_000_010 * e)) by (nonlinear_arith)
            requires
                ap + aq >= 1_414_300_000_001,
                e == 1_000_000_000_000,
        ;
    }
    lemma_quot_square(p, one, ap);
    lemma_quot_square(q, one, aq);
    let tp: int = quot(p, one);
    let tq: int = quot(q, one);
    let total: int = tp * tp + tq * tq;
    assert(total * e == (tp * one) * (tp * one) + (tq * one) * (tq * one)) by (nonlinear_arith)
        requires
            total == tp * tp + tq * tq,
            e == 1_000_000_000_000,
            one == 1_000_000,
    ;
    assert(ap * one + aq * one <= reach * one) by (nonlinear_arith)
        requires
            ap + aq <= reach,
            one == 1_000_000,
    ;
    assert(squares - 2 * (reach * one) <= total * e <= squares);
    assert(tp * tp >= 0 && tq * tq >= 0) by (nonlinear_arith);
    if total < e - 10_000_000 {
        assert(total * e < e * e - 7_000_000 * e - 2 * (reach * one)) by (nonlinear_arith)
            requires
                total <= e - 10_000_001,
                e == 1_000_000_000_000,
                reach == 1_414_300_000_000,
                one == 1_000_000,
        ;
    }
    if total > e + 8_000_000 {
        assert(total * e > e * e + 7_000_010 * e) by (nonlinear_arith)
            requires
                total >= e + 8_000_001,
                e == 1_000_000_000_000,
        ;
    }
    // Limiting a component to the unit interval keeps the sum in range.
    let across: int = clamp(tp, -one, one);
    let along: int = clamp(tq, -one, one);
    assert(across * across <= tp * tp && (across == tp || across * across == e))
        by (nonlinear_arith)
        requires
            across == tp && -one <= tp <= one || across == one && tp > one || across == -one && tp
                < -one,
            one == 1_000_000,
            e == 1_000_000_000_000,
    ;
    assert(along * along <= tq * tq && (along == tq || along * along == e)) by (nonlinear_arith)
        requires
            along == tq && -one <= tq <= one || along == one && tq > one || along == -one && tq
                < -one,
            one == 1_000_000,
            e == 1_000_000_000_000,
    ;
    assert(across * across >= 0 && along * along >= 0) by (nonlinear_arith);
}

/// A quotient is as small as its dividend is, measured in divisors.
pub proof fn lemma_quot_bound(a: int, b: int, k: int)
    requires
        b > 0,
        k >= 0,
        -(k * b) <= a <= k * b,
    ensures
        -k <= quot(a, b) <= k,
{
    if a >= 0 {
        assert(0 <= a / b <= k) by (nonlinear_arith)
            requires
                0 <= a <= k * b,
                b > 0,
        ;
    } else {
        assert(0 <= (-a) / b <= k) by (nonlinear_arith)
            requires
                0 <= -a <= k * b,
                b > 0,
        ;
    }
}

/// Every number that is not negative has an integer square root.
pub proof fn lemma_sqrt_exists(n: int)
    requires
        0 <= n,
    ensures
        is_sqrt(n, sqrt_floor(n)),
    decreases n,
{
    if n == 0 {
        assert(is_sqrt(0, 0));
    } else {
        lemma_sqrt_exists(n - 1);
        let r: int = sqrt_floor(n - 1);
        if n < (r + 1) * (r + 1) {
            assert(is_sqrt(n, r));
        } else {
            assert((r + 1) * (r + 1) <= n < (r + 2) * (r + 2)) by (nonlinear_arith)
                requires
                    0 <= r,
                    r * r <= n - 1 < (r + 1) * (r + 1),
                    (r + 1) * (r + 1) <= n,
            ;
            assert(is_sqrt(n, r + 1));
        }
    }
}

/// The integer square root is unique.
pub proof fn lemma_sqrt_unique(n: int, r: int, s: int)
    requires
        is_sqrt(n, r),
        is_sqrt(n, s),
    ensures
        r == s,
{
    if r < s {
        assert((r + 1) * (r + 1) <= s * s) by (nonlinear_arith)
            requires
                0 <= r,
                r + 1 <= s,
        ;
    } else if s < r {
        assert((s + 1) * (s + 1) <= r * r) by (nonlinear_arith)
            requires
                0 <= s,
                s + 1 <= r,
        ;
    }
}

/// Divides rounding toward zero.
pub fn div_toward_zero(a: i128, b: i128) -> (q: i128)
    requires
        b > 0,
    ensures
        q == quot(a as int, b as int),
{
    a / b
}

/// The product of three fixed-point numbers and a duration, as one
/// fixed-point number: `a * b * c * d` divided by `1.0` three times over in
/// a single step, rounded toward zero.
pub open spec fn scaled4(a: int, b: int, c: int, d: int) -> int {
    quot(a * b * c * d, 1_000_000_000_000_000_000)
}

/// The product of two fixed-point numbers and a duration, as one fixed-point
/// number: `a * b * d` divided by `1.0` twice over in a single step, rounded
/// toward zero.
pub open spec fn scaled3(a: int, b: int, d: int) -> int {
    quot(a * b * d, 1_000_000_000_000)
}

/// Computes [`scaled4`].
pub fn mul4_scaled(a: i32, b: i32, c: i32, d: u32) -> (r: i128)
    ensures
        r == scaled4(a as int, b as int, c as int, d as int),
        -0x8_0000_0000_0000_0000 <= r <= 0x8_0000_0000_0000_0000,
{
    assert(-0x4000_0000_0000_0000 <= a * b <= 0x4000_0000_0000_0000) by (nonlinear_arith)
        requires
            -0x8000_0000 <= a <= 0x8000_0000,
            -0x8000_0000 <= b <= 0x8000_0000,
    ;
    let ab: i128 = a as i128 * b as i128;
    assert(-0x2000_0000_0000_0000_0000_0000 <= ab * c <= 0x2000_0000_0000_0000_0000_0000)
        by (nonlinear_arith)
        requires
            -0x4000_0000_0000_0000 <= ab <= 0x4000_0000_0000_0000,
            -0x8000_0000 <= c <= 0x8000_0000,
    ;
    let abc: i128 = ab * c as i128;
    assert(-0x2000_0000_0000_0000_0000_0000_0000_0000 <= abc * d
        <= 0x2000_0000_0000_0000_0000_0000_0000_0000) by (nonlinear_arith)
        requires
            -0x2000_0000_0000_0000_0000_0000 <= abc <= 0x2000_0000_0000_0000_0000_0000,
            0 <= d <= 0x1_0000_0000,
    ;
    let abcd: i128 = abc * d as i128;
    proof {
        lemma_quot_bound(abcd as int, 1_000_000_000_000_000_000, 0x8_0000_0000_0000_0000);
    }
    abcd / 1_000_000_000_000_000_000
}

/// Computes [`scaled3`].
pub fn mul3_scaled(a: i32, b: i32, d: u32) -> (r: i128)
    ensures
        r == scaled3(a as int, b as int, d as int),
        -0x80_0000_0000_0000 <= r <= 0x80_0000_0000_0000,
{
    assert(-0x4000_0000_0000_0000 <= a * b <= 0x4000_0000_0000_0000) by (nonlinear_arith)
        requires
            -0x8000_0000 <= a <= 0x8000_0000,
            -0x8000_0000 <= b <= 0x8000_0000,
    ;
    let ab: i128 = a as i128 * b as i128;
    assert(-0x4000_0000_0000_0000_0000_0000 <= ab * d <= 0x4000_0000_0000_0000_0000_0000)
        by (nonlinear_arith)
        requires
            -0x4000_0000_0000_0000 <= ab <= 0x4000_0000_0000_0000,
            0 <= d <= 0x1_0000_0000,
    ;
    let abd: i128 = ab * d as i128;
    proof {
        lemma_quot_bound(abd as int, 1_000_000_000_000, 0x80_0000_0000_0000);
    }
    abd / 1_000_000_000_000
}

/// Computes [`unit_component`].
pub fn unit_share(c: i64, n: u128) -> (r: i32)
    requires
        c * c <= n,
        n <= 0x3_0000_0000_0000_0000,
    ensures
        r == unit_component(c as int, n as int),
        in_unit(r as int),
{
    if n == 0 {
        return 0;
    }
    proof {
        assert(0 <= c * c) by (nonlinear_arith);
        lemma_fine_root(c as int, n as int);
        lemma_unit_component_in_unit(c as int, n as int);
    }
    assert(n * 1_000_000_000_000 < 0x4000_0000_0000_0000_0000_0000_0000_0000) by (nonlinear_arith)
        requires
            0 <= n <= 0x3_0000_0000_0000_0000,
    ;
    let root: u64 = isqrt(n * 1_000_000_000_000);
    assert(-0x8000_0000_0000_0000_0000_0000_0000 <= c * 1_000_000_000_000
        <= 0x8000_0000_0000_0000_0000_0000_0000) by (nonlinear_arith)
        requires
            -0x8000_0000_0000_0000 <= c <= 0x8000_0000_0000_0000,
    ;
    div_toward_zero(c as i128 * 1_000_000_000_000, root as i128) as i32
}

/// Limits `v` to `[lo, hi]`.
pub fn clamp_to(v: i128, lo: i32, hi: i32) -> (r: i32)
    requires
        lo <= hi,
    ensures
        r == clamp(v as int, lo as int, hi as int),
{
    if v < lo as i128 {
        lo
    } else if v > hi as i128 {
        hi
    } else {
        v as i32
    }
}

/// Brings an angle into `(-π, π]` by whole turns.
pub fn wrap_to_half_turn(a: i128) -> (r: i32)
    requires
        -0x4000_0000_0000_0000_0000 <= a <= 0x4000_0000_0000_0000_0000,
    ensures
        r == wrap_angle(a as int),
        -(PI as int) < r <= PI as int,
{
    let shifted: i128 = a + (PI as i128 - 1);
    let mut m: i128 = shifted % (TWO_PI as i128);
    if m < 0 {
        m = m + TWO_PI as i128;
    }
    (m - (PI as i128 - 1)) as i32
}

/// Computes the integer square root of `n` by bisection.
pub fn isqrt(n: u128) -> (r: u64)
    requires
        n < 0x4000_0000_0000_0000_0000_0000_0000_0000,
    ensures
        is_sqrt(n as int, r as int),
        r == sqrt_floor(n as int),
{
    let mut lo: u128 = 0;
    let mut hi: u128 = 0x8000_0000_0000_0000;
    assert(n < hi * hi) by (nonlinear_arith)
        requires
            n < 0x4000_0000_0000_0000_0000_0000_0000_0000,
            hi == 0x8000_0000_0000_0000,
    ;
    while hi - lo > 1
        invariant
            lo < hi <= 0x8000_0000_0000_0000,
            lo * lo <= n < hi * hi,
        decreases hi - lo,
    {
        let mid: u128 = lo + (hi - lo) / 2;
        assert(mid * mid < 0x4000_0000_0000_0000_0000_0000_0000_0000) by (nonlinear_arith)
            requires
                0 <= mid < 0x8000_0000_0000_0000,
        ;
        if mid * mid <= n {
            lo = mid;
        } else {
            hi = mid;
        }
    }
    proof {
        let root: int = sqrt_floor(n as int);
        assert(is_sqrt(n as int, lo as int));
        lemma_sqrt_unique(n as int, lo as int, root);
    }
    lo as u64
}

} // verus!
