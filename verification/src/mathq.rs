use vstd::prelude::*;
use vstd::arithmetic::div_mod::{
    lemma_fundamental_div_mod, lemma_fundamental_div_mod_converse, lemma_div_is_ordered,
    lemma_div_multiples_vanish,
};
use vstd::arithmetic::mul::lemma_mul_inequality;

verus! {

/// The largest integer whose square does not exceed `n`.
pub open spec fn sqrt_floor(n: int) -> int {
    choose|r: int| 0 <= r && #[trigger] (r * r) <= n && n < (r + 1) * (r + 1)
}

pub proof fn lemma_sqrt_floor_is(n: int, r: int)
    requires
        0 <= r,
        r * r <= n,
        n < (r + 1) * (r + 1),
    ensures
        sqrt_floor(n) == r,
{
    assert(0 <= r && r * r <= n && n < (r + 1) * (r + 1));
    let c = sqrt_floor(n);
    assert(0 <= c && c * c <= n && n < (c + 1) * (c + 1));
    assert(c == r) by (nonlinear_arith)
        requires
            0 <= r,
            r * r <= n,
            n < (r + 1) * (r + 1),
            0 <= c,
            c * c <= n,
            n < (c + 1) * (c + 1),
    ;
}

/// A floor square root exists for every non-negative integer.
pub proof fn lemma_sqrt_exists(n: int)
    requires
        0 <= n,
    ensures
        exists|r: int| 0 <= r && #[trigger] (r * r) <= n && n < (r + 1) * (r + 1),
    decreases n,
{
    if n == 0 {
        assert(0 <= 0int && (0int * 0int) <= 0 && 0 < (0int + 1) * (0int + 1));
    } else {
        lemma_sqrt_exists(n - 1);
        let r = choose|r: int| 0 <= r && #[trigger] (r * r) <= n - 1 && n - 1 < (r + 1) * (r + 1);
        if n < (r + 1) * (r + 1) {
            assert(0 <= r && (r * r) <= n && n < (r + 1) * (r + 1));
        } else {
            let s = r + 1;
            assert(n == s * s);
            assert(n < (s + 1) * (s + 1)) by (nonlinear_arith)
                requires
                    n == s * s,
                    0 <= s,
            ;
            assert(0 <= s && (s * s) <= n && n < (s + 1) * (s + 1));
        }
    }
}

pub proof fn lemma_sqrt_props(n: int)
    requires
        0 <= n,
    ensures
        0 <= sqrt_floor(n),
        sqrt_floor(n) * sqrt_floor(n) <= n,
        n < (sqrt_floor(n) + 1) * (sqrt_floor(n) + 1),
{
    lemma_sqrt_exists(n);
}

pub proof fn lemma_sqrt_floor_below(n: int, b: int)
    requires
        0 <= n,
        0 <= b,
        n < b * b,
    ensures
        sqrt_floor(n) < b,
{
    lemma_sqrt_props(n);
    let r = sqrt_floor(n);
    assert(r < b) by (nonlinear_arith)
        requires
            0 <= r,
            0 <= b,
            r * r <= n,
            n < b * b,
    ;
}

pub proof fn lemma_sqrt_floor_at_least(n: int, b: int)
    requires
        0 <= b,
        b * b <= n,
    ensures
        b <= sqrt_floor(n),
{
    lemma_sqrt_props(n);
    let r = sqrt_floor(n);
    assert(b <= r) by (nonlinear_arith)
        requires
            0 <= r,
            0 <= b,
            b * b <= n,
            n < (r + 1) * (r + 1),
    ;
}

/// Floor of the square root, by binary search on the root.
pub fn isqrt(n: u128) -> (r: u64)
    requires
        (n as int) < 85070591730234615865843651857942052864int,  // 2^126
    ensures
        r as int == sqrt_floor(n as int),
        (r as int) * (r as int) <= n as int,
        (n as int) < (r as int + 1) * (r as int + 1),
{
    let mut lo: u64 = 0;
    let mut hi: u64 = 9223372036854775808u64;  // 2^63
    proof {
        assert((hi as int) * (hi as int) == 85070591730234615865843651857942052864int)
            by (nonlinear_arith)
            requires
                hi == 9223372036854775808u64,
        ;
    }
    while lo + 1 < hi
        invariant
            lo < hi,
            hi <= 9223372036854775808u64,
            (lo as int) * (lo as int) <= n as int,
            (n as int) < (hi as int) * (hi as int),
        decreases hi - lo,
    {
        let mid = lo + (hi - lo) / 2;
        proof {
            assert((mid as int) * (mid as int) < 340282366920938463463374607431768211455int)
                by (nonlinear_arith)
                requires
                    0 <= mid as int <= 9223372036854775808int,
            ;
        }
        let sq: u128 = (mid as u128) * (mid as u128);
        if sq <= n {
            lo = mid;
        } else {
            hi = mid;
        }
    }
    proof {
        lemma_sqrt_floor_is(n as int, lo as int);
    }
    lo
}

/// `x / d < b` whenever `x < b * d`.
pub proof fn lemma_div_lt(x: int, b: int, d: int)
    requires
        0 <= x,
        0 < d,
        x < b * d,
    ensures
        x / d < b,
{
    lemma_fundamental_div_mod(x, d);
    if x / d >= b {
        lemma_mul_inequality(b, x / d, d);
        assert((x / d) * d == d * (x / d)) by (nonlinear_arith);
        assert(b * d <= d * (x / d));
        lemma_mod_range(x, d);
        assert(false);
    }
}

/// The remainder is within `[0, d)`.
proof fn lemma_mod_range(x: int, d: int)
    requires
        0 < d,
    ensures
        0 <= x % d < d,
{
    vstd::arithmetic::div_mod::lemma_mod_bound(x, d);
}

/// Pins a quotient and remainder from the defining equation.
pub proof fn lemma_const_div_mod(x: int, d: int, q: int, r: int)
    requires
        d != 0,
        0 <= r < d,
        x == q * d + r,
    ensures
        x / d == q,
        x % d == r,
{
    lemma_fundamental_div_mod_converse(x, d, q, r);
}

/// `(d * x) / d == x` for positive `d`.
pub proof fn lemma_div_of_multiple(x: int, d: int)
    requires
        0 < d,
    ensures
        (d * x) / d == x,
{
    lemma_div_multiples_vanish(x, d);
}

/// `(a * b) / q <= b` for `0 <= a <= q`.
pub proof fn lemma_mul_div_le(a: int, b: int, q: int)
    requires
        0 <= a <= q,
        0 <= b,
        0 < q,
    ensures
        0 <= (a * b) / q <= b,
{
    lemma_mul_inequality(a, q, b);
    lemma_div_is_ordered(a * b, q * b, q);
    lemma_div_multiples_vanish(b, q);
    assert(q * b == b * q) by (nonlinear_arith);
    lemma_div_is_ordered(0, a * b, q);
}

/// Polynomial arctangent on the first octant: for `t` in thirtieth-bit
/// fixed point (`0 <= t <= 2^30`, standing for `t / 2^30` in `[0, 1]`),
/// the result approximates `atan(t / 2^30)` in radians, again with
/// thirty fractional bits.
pub open spec fn atan_poly_q30(t: int) -> int {
    let t2 = (t * t) / 1073741824;
    let p4 = 91410863 - (t2 * 22371518) / 1073741824;
    let p3 = 193424926 - (t2 * p4) / 1073741824;
    let p2 = 354656388 - (t2 * p3) / 1073741824;
    let p1 = 1073597943 - (t2 * p2) / 1073741824;
    (t * p1) / 1073741824
}

pub fn atan_poly(t: u64) -> (r: u64)
    requires
        t <= 1073741824,
    ensures
        r as int == atan_poly_q30(t as int),
        r <= 1073597943,
{
    proof {
        lemma_mul_div_le(t as int, t as int, 1073741824);
    }
    let t2: u64 = (t * t) / 1073741824;
    proof {
        lemma_mul_div_le(t2 as int, 22371518, 1073741824);
    }
    let p4: u64 = 91410863 - (t2 * 22371518) / 1073741824;
    proof {
        lemma_mul_div_le(t2 as int, p4 as int, 1073741824);
    }
    let p3: u64 = 193424926 - (t2 * p4) / 1073741824;
    proof {
        lemma_mul_div_le(t2 as int, p3 as int, 1073741824);
    }
    let p2: u64 = 354656388 - (t2 * p3) / 1073741824;
    proof {
        lemma_mul_div_le(t2 as int, p2 as int, 1073741824);
    }
    let p1: u64 = 1073597943 - (t2 * p2) / 1073741824;
    proof {
        lemma_mul_div_le(t as int, p1 as int, 1073741824);
    }
    (t * p1) / 1073741824
}

/// `atan(num / den)` in micro-degrees, for `0 <= num <= den`.
pub open spec fn octant_udeg_spec(num: int, den: int) -> int {
    (atan_poly_q30((num * 1073741824) / den) * 57295780) / 1073741824
}

fn octant_udeg(num: u64, den: u64) -> (r: u64)
    requires
        num <= den,
        1 <= den <= 5_000_000_000,
    ensures
        r as int == octant_udeg_spec(num as int, den as int),
        r <= 57_300_000,
{
    let t: u64 = (num * 1073741824) / den;
    proof {
        lemma_mul_inequality(num as int, den as int, 1073741824);
        lemma_div_is_ordered((num as int) * 1073741824, (den as int) * 1073741824, den as int);
        lemma_div_multiples_vanish(1073741824, den as int);
        assert((den as int) * 1073741824 == 1073741824 * (den as int)) by (nonlinear_arith);
        lemma_div_is_ordered(0, (num as int) * 1073741824, den as int);
    }
    let p = atan_poly(t);
    proof {
        lemma_mul_div_le(p as int, 57295780, 1073741824);
        lemma_mul_inequality(p as int, 1073741824, 57295780);
        lemma_div_is_ordered((p as int) * 57295780, 1073741824int * 57295780, 1073741824);
        lemma_div_multiples_vanish(57295780, 1073741824);
    }
    (p * 57295780) / 1073741824
}

/// The angle of the vector `(|x|, |y|)` within the first quadrant,
/// in micro-degrees (`0` to `90_000_000`).
pub open spec fn quadrant_udeg_spec(ax: int, ay: int) -> int {
    if ay <= ax {
        octant_udeg_spec(ay, ax)
    } else {
        90_000_000 - octant_udeg_spec(ax, ay)
    }
}

/// The signed angle of `(x, y)` in micro-degrees, in
/// `[-180_000_000, 180_000_000]`; both arguments zero give zero.
pub open spec fn atan2_udeg_spec(y: int, x: int) -> int {
    if y == 0 && x == 0 {
        0
    } else {
        let ay = if y < 0 { -y } else { y };
        let ax = if x < 0 { -x } else { x };
        let base = quadrant_udeg_spec(ax, ay);
        let a = if x >= 0 { base } else { 180_000_000 - base };
        if y >= 0 { a } else { -a }
    }
}

pub fn atan2_udeg(y: i64, x: i64) -> (r: i64)
    requires
        -5_000_000_000 <= y <= 5_000_000_000,
        -5_000_000_000 <= x <= 5_000_000_000,
    ensures
        r as int == atan2_udeg_spec(y as int, x as int),
        -180_000_000 <= r <= 180_000_000,
{
    if y == 0 && x == 0 {
        return 0;
    }
    let ay: u64 = if y < 0 { (-y) as u64 } else { y as u64 };
    let ax: u64 = if x < 0 { (-x) as u64 } else { x as u64 };
    let base: i64 = if ay <= ax {
        octant_udeg(ay, ax) as i64
    } else {
        90_000_000i64 - octant_udeg(ax, ay) as i64
    };
    let a: i64 = if x >= 0 { base } else { 180_000_000i64 - base };
    if y >= 0 { a } else { -a }
}

/// Folding an angle into the half circle: the canonical non-negative
/// representative of the angle modulo 180 degrees.
pub open spec fn fold_udeg_spec(a: int) -> int {
    a % 180_000_000
}

/// Folds a signed angle in micro-degrees into `[0, 180_000_000)`.
pub fn fold_orientation_udeg(a: i64) -> (r: u64)
    requires
        -9_000_000_000_000_000_000 < a,
    ensures
        r as int == fold_udeg_spec(a as int),
        r < 180_000_000,
{
    if a >= 0 {
        let r = (a as u64) % 180_000_000;
        proof {
            lemma_fundamental_div_mod(a as int, 180_000_000);
        }
        r
    } else {
        let n = (-a) as u64;
        let m = n % 180_000_000;
        proof {
            lemma_fundamental_div_mod(n as int, 180_000_000);
            let q = (n as int) / 180_000_000;
            if m == 0 {
                lemma_fundamental_div_mod_converse(a as int, 180_000_000, -q, 0);
            } else {
                lemma_fundamental_div_mod_converse(
                    a as int,
                    180_000_000,
                    -q - 1,
                    180_000_000 - (m as int),
                );
            }
        }
        if m == 0 { 0 } else { 180_000_000 - m }
    }
}

/// The gradient orientation of responses `(y, x)`: the angle of the
/// vector folded into the half circle, in micro-degrees.
pub open spec fn orient_udeg_spec(y: int, x: int) -> int {
    fold_udeg_spec(atan2_udeg_spec(y, x))
}

pub fn orient_udeg(y: i64, x: i64) -> (r: u64)
    requires
        -5_000_000_000 <= y <= 5_000_000_000,
        -5_000_000_000 <= x <= 5_000_000_000,
    ensures
        r as int == orient_udeg_spec(y as int, x as int),
        r < 180_000_000,
{
    let a = atan2_udeg(y, x);
    fold_orientation_udeg(a)
}

/// The gradient magnitude of responses `(y, x)`: the floor of the
/// euclidean length.
pub open spec fn mag_spec(y: int, x: int) -> int {
    sqrt_floor(x * x + y * y)
}

pub fn magnitude_q(y: i64, x: i64) -> (r: u64)
    requires
        -5_000_000_000 <= y <= 5_000_000_000,
        -5_000_000_000 <= x <= 5_000_000_000,
    ensures
        r as int == mag_spec(y as int, x as int),
        r <= 7_100_000_000,
{
    let ay: u64 = if y < 0 { (-y) as u64 } else { y as u64 };
    let ax: u64 = if x < 0 { (-x) as u64 } else { x as u64 };
    proof {
        assert((ax as int) * (ax as int) + (ay as int) * (ay as int) == (x as int) * (x as int)
            + (y as int) * (y as int)) by (nonlinear_arith)
            requires
                ax as int == if x < 0 { -(x as int) } else { x as int },
                ay as int == if y < 0 { -(y as int) } else { y as int },
        ;
        assert((ax as int) * (ax as int) <= 25_000_000_000_000_000_000) by (nonlinear_arith)
            requires
                0 <= ax <= 5_000_000_000,
        ;
        assert((ay as int) * (ay as int) <= 25_000_000_000_000_000_000) by (nonlinear_arith)
            requires
                0 <= ay <= 5_000_000_000,
        ;
    }
    let n: u128 = (ax as u128) * (ax as u128) + (ay as u128) * (ay as u128);
    let r = isqrt(n);
    proof {
        assert((n as int) < 7_100_000_000int * 7_100_000_000int) by (nonlinear_arith)
            requires
                n as int <= 50_000_000_000_000_000_000int,
        ;
        lemma_sqrt_floor_below(n as int, 7_100_000_000int);
    }
    r
}

} // verus!
