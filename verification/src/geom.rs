//! Fixed-point scalar and vector arithmetic for voxel-space geometry.
//!
//! Positions and directions are held in units of 1/1000 of a voxel edge
//! ("milli-voxels"), so that all geometry is exact integer arithmetic.

use vstd::prelude::*;

verus! {

/// Largest magnitude (in milli-voxels) any coordinate handled by the
/// geometry helpers may have; keeps every product inside `i64`.
pub const COORD_LIMIT: i64 = 100_000_000;

/// A point or direction in milli-voxel units.
#[derive(Clone, Copy, PartialEq, Eq, Structural, Debug)]
pub struct V3 {
    pub x: i64,
    pub y: i64,
    pub z: i64,
}

impl V3 {
    /// All three coordinates lie in `[lo, hi]`.
    pub open spec fn in_box(self, lo: int, hi: int) -> bool {
        lo <= self.x <= hi && lo <= self.y <= hi && lo <= self.z <= hi
    }

    pub fn add(self, o: V3) -> (r: V3)
        requires
            self.in_box(-COORD_LIMIT as int, COORD_LIMIT as int),
            o.in_box(-COORD_LIMIT as int, COORD_LIMIT as int),
        ensures
            r.x == self.x + o.x,
            r.y == self.y + o.y,
            r.z == self.z + o.z,
    {
        V3 { x: self.x + o.x, y: self.y + o.y, z: self.z + o.z }
    }

    pub fn sub(self, o: V3) -> (r: V3)
        requires
            self.in_box(-COORD_LIMIT as int, COORD_LIMIT as int),
            o.in_box(-COORD_LIMIT as int, COORD_LIMIT as int),
        ensures
            r.x == self.x - o.x,
            r.y == self.y - o.y,
            r.z == self.z - o.z,
    {
        V3 { x: self.x - o.x, y: self.y - o.y, z: self.z - o.z }
    }
}

/// Nearest voxel cell of a nonnegative milli-voxel coordinate
/// (ties round up, as `round` does on halves away from zero).
pub open spec fn round_milli(p: int) -> int {
    (p + 500) / 1000
}

/// Clamp `p` into `[lo, hi]`.
pub open spec fn clamp_spec(p: int, lo: int, hi: int) -> int {
    if p < lo {
        lo
    } else if p > hi {
        hi
    } else {
        p
    }
}

pub fn round_to_cell(p: i64) -> (r: u64)
    requires
        0 <= p <= COORD_LIMIT,
    ensures
        r == round_milli(p as int),
{
    ((p as u64) + 500) / 1000
}

pub fn clamp_i64(p: i64, lo: i64, hi: i64) -> (r: i64)
    requires
        lo <= hi,
    ensures
        r == clamp_spec(p as int, lo as int, hi as int),
{
    if p < lo {
        lo
    } else if p > hi {
        hi
    } else {
        p
    }
}

/// Clamp every coordinate of `p` into `[lo, hi]`.
pub fn clamp_v3(p: V3, lo: i64, hi: i64) -> (r: V3)
    requires
        lo <= hi,
    ensures
        r.x == clamp_spec(p.x as int, lo as int, hi as int),
        r.y == clamp_spec(p.y as int, lo as int, hi as int),
        r.z == clamp_spec(p.z as int, lo as int, hi as int),
{
    V3 {
        x: clamp_i64(p.x, lo, hi),
        y: clamp_i64(p.y, lo, hi),
        z: clamp_i64(p.z, lo, hi),
    }
}

/// Helper for `int_sqrt`: the least `k' >= k` with `(k' + 1)^2 > n`,
/// assuming `k * k <= n`.
pub open spec fn sqrt_from(n: nat, k: nat) -> nat
    decreases n - k,
{
    if k * k <= n && (k + 1) * (k + 1) <= n && k < n {
        sqrt_from(n, k + 1)
    } else {
        k
    }
}

/// Integer square root: the floor of the real square root of `n`.
pub open spec fn int_sqrt(n: nat) -> nat {
    sqrt_from(n, 0)
}

/// `m` is the integer square root of `n`.
pub open spec fn is_sqrt(m: nat, n: nat) -> bool {
    m * m <= n < (m + 1) * (m + 1)
}

proof fn lemma_sqrt_from(n: nat, k: nat)
    requires
        k * k <= n,
    ensures
        is_sqrt(sqrt_from(n, k), n),
    decreases n - k,
{
    if k * k <= n && (k + 1) * (k + 1) <= n && k < n {
        lemma_sqrt_from(n, k + 1);
    } else {
        if (k + 1) * (k + 1) <= n {
            // Then k < n must have failed, i.e. k >= n; but k * k <= n
            // forces k <= n, so k == n, and (n + 1)^2 > n: contradiction.
            assert(k <= n) by (nonlinear_arith)
                requires k * k <= n,
            ;
            assert((k + 1) * (k + 1) > k) by (nonlinear_arith);
        }
    }
}

/// The integer square root bounds its argument on both sides.
pub proof fn lemma_int_sqrt(n: nat)
    ensures
        is_sqrt(int_sqrt(n), n),
{
    lemma_sqrt_from(n, 0);
}

/// The integer square root is unique.
pub proof fn lemma_sqrt_unique(a: nat, b: nat, n: nat)
    requires
        is_sqrt(a, n),
        is_sqrt(b, n),
    ensures
        a == b,
{
    assert(a == b) by (nonlinear_arith)
        requires
            a * a <= n < (a + 1) * (a + 1),
            b * b <= n < (b + 1) * (b + 1),
    ;
}

/// Binary-search integer square root.
pub fn isqrt(n: u64) -> (r: u64)
    ensures
        r == int_sqrt(n as nat),
        is_sqrt(r as nat, n as nat),
{
    let mut lo: u64 = 0;
    let mut hi: u64 = 4_294_967_296;
    proof {
        assert((hi as nat) * (hi as nat) > n as nat) by (nonlinear_arith)
            requires hi == 4_294_967_296u64, n <= u64::MAX,
        ;
    }
    while lo + 1 < hi
        invariant
            lo < hi <= 4_294_967_296,
            (lo as nat) * (lo as nat) <= n as nat,
            (n as nat) < (hi as nat) * (hi as nat),
        decreases hi - lo,
    {
        let mid = lo + (hi - lo) / 2;
        assert(lo < mid < hi);
        proof {
            assert(mid * mid <= 4_294_967_295u64 * 4_294_967_295u64) by (nonlinear_arith)
                requires mid <= 4_294_967_295u64,
            ;
        }
        if mid * mid <= n {
            lo = mid;
        } else {
            hi = mid;
        }
    }
    proof {
        assert(is_sqrt(lo as nat, n as nat));
        lemma_int_sqrt(n as nat);
        lemma_sqrt_unique(lo as nat, int_sqrt(n as nat), n as nat);
    }
    lo
}

/// Squared Euclidean distance between `a` and `b`, in squared milli-voxels.
pub open spec fn dist2(a: V3, b: V3) -> int {
    (a.x - b.x) * (a.x - b.x) + (a.y - b.y) * (a.y - b.y) + (a.z - b.z) * (a.z - b.z)
}

pub fn distance_squared(a: V3, b: V3) -> (r: u64)
    requires
        a.in_box(-COORD_LIMIT as int, COORD_LIMIT as int),
        b.in_box(-COORD_LIMIT as int, COORD_LIMIT as int),
    ensures
        r == dist2(a, b),
{
    let dx = a.x - b.x;
    let dy = a.y - b.y;
    let dz = a.z - b.z;
    proof {
        assert(dx * dx <= 40_000_000_000_000_000 && dx * dx >= 0) by (nonlinear_arith)
            requires -200_000_000 <= dx <= 200_000_000,
        ;
        assert(dy * dy <= 40_000_000_000_000_000 && dy * dy >= 0) by (nonlinear_arith)
            requires -200_000_000 <= dy <= 200_000_000,
        ;
        assert(dz * dz <= 40_000_000_000_000_000 && dz * dz >= 0) by (nonlinear_arith)
            requires -200_000_000 <= dz <= 200_000_000,
        ;
    }
    (dx * dx + dy * dy + dz * dz) as u64
}

/// The magnitude (floor) of a vector, in milli-voxels.
pub open spec fn magnitude(v: V3) -> nat {
    int_sqrt(dist2(v, V3 { x: 0, y: 0, z: 0 }) as nat)
}

/// `r` is `v` rescaled to unit length (in milli-voxel units), or the
/// upward unit vector when `v` is zero.
pub open spec fn normalize_spec(v: V3) -> V3 {
    let m = magnitude(v) as int;
    if m == 0 {
        V3 { x: 0, y: 1000, z: 0 }
    } else {
        V3 {
            x: scale_div(v.x as int, m),
            y: scale_div(v.y as int, m),
            z: scale_div(v.z as int, m),
        }
    }
}

/// `c * 1000 / m`, rounding toward zero, as `i64` exec code computes it
/// on magnitudes.
pub open spec fn scale_div(c: int, m: int) -> i64 {
    if c >= 0 {
        ((c * 1000) / m) as i64
    } else {
        (-(((-c) * 1000) / m)) as i64
    }
}

/// Rescale `v` to unit length: each component becomes `v * 1000 / |v|`.
pub fn normalize(v: V3) -> (r: V3)
    requires
        v.in_box(-8_000_000 as int, 8_000_000 as int),
    ensures
        r == normalize_spec(v),
        r.in_box(-2000, 2000),
{
    let zero = V3 { x: 0, y: 0, z: 0 };
    let d2 = distance_squared(v, zero);
    let m = isqrt(d2);
    if m == 0 {
        proof {
            assert(magnitude(v) == 0);
        }
        V3 { x: 0, y: 1000, z: 0 }
    } else {
        proof {
            assert(v.x * v.x <= d2 && v.y * v.y <= d2 && v.z * v.z <= d2) by (nonlinear_arith)
                requires
                    d2 == v.x * v.x + v.y * v.y + v.z * v.z,
            ;
            assert(m <= 16_000_000) by (nonlinear_arith)
                requires
                    (m as nat) * (m as nat) <= d2 as nat,
                    d2 == v.x * v.x + v.y * v.y + v.z * v.z,
                    -8_000_000 <= v.x <= 8_000_000,
                    -8_000_000 <= v.y <= 8_000_000,
                    -8_000_000 <= v.z <= 8_000_000,
            ;
            lemma_abs_le_sqrt(v.x as int, m as nat, d2 as nat);
            lemma_abs_le_sqrt(v.y as int, m as nat, d2 as nat);
            lemma_abs_le_sqrt(v.z as int, m as nat, d2 as nat);
        }
        let x = scale_div_exec(v.x, m);
        let y = scale_div_exec(v.y, m);
        let z = scale_div_exec(v.z, m);
        V3 { x, y, z }
    }
}

/// If `c^2 <= n` and `m` is the integer square root of `n`, then `|c| <= m`.
proof fn lemma_abs_le_sqrt(c: int, m: nat, n: nat)
    requires
        c * c <= n,
        is_sqrt(m, n),
    ensures
        -(m as int) <= c <= m as int,
{
    assert(-(m as int) <= c <= m as int) by (nonlinear_arith)
        requires
            c * c <= n,
            m * m <= n < (m + 1) * (m + 1),
    ;
}

/// Exec counterpart of `scale_div`, for `|c| <= 1000 * m` ranges that the
/// normalizer meets.
fn scale_div_exec(c: i64, m: u64) -> (r: i64)
    requires
        1 <= m <= 16_000_000,
        -(m as int) <= c as int <= m as int,
    ensures
        r == scale_div(c as int, m as int),
        -1000 <= r <= 1000,
    {
    if c >= 0 {
        let q = ((c as u64) * 1000) / m;
        proof {
            assert((c as u64) * 1000 <= m * 1000) by (nonlinear_arith)
                requires c as u64 <= m,
            ;
            assert((c as nat) * 1000 / (m as nat) <= (m as nat) * 1000 / (m as nat))
                by (nonlinear_arith)
                requires (c as nat) * 1000 <= (m as nat) * 1000, m >= 1,
            ;
            assert((m as nat) * 1000 / (m as nat) == 1000) by (nonlinear_arith)
                requires m >= 1,
            ;
        }
        q as i64
    } else {
        let neg = (-(c)) as u64;
        let q = (neg * 1000) / m;
        proof {
            assert(neg * 1000 <= m * 1000) by (nonlinear_arith)
                requires neg <= m,
            ;
            assert((neg as nat) * 1000 / (m as nat) <= (m as nat) * 1000 / (m as nat))
                by (nonlinear_arith)
                requires (neg as nat) * 1000 <= (m as nat) * 1000, m >= 1,
            ;
            assert((m as nat) * 1000 / (m as nat) == 1000) by (nonlinear_arith)
                requires m >= 1,
            ;
        }
        -(q as i64)
    }
}

/// Absolute value.
pub open spec fn abs_sp(a: int) -> int {
    if a >= 0 {
        a
    } else {
        -a
    }
}

pub fn abs_i64(a: i64) -> (r: i64)
    requires
        -COORD_LIMIT <= a <= COORD_LIMIT,
    ensures
        r == abs_sp(a as int),
{
    if a >= 0 {
        a
    } else {
        -a
    }
}

/// Rounding to cells preserves order.
pub proof fn lemma_round_monotone(p: int, q: int)
    requires
        p <= q,
    ensures
        round_milli(p) <= round_milli(q),
{
    vstd::arithmetic::div_mod::lemma_div_is_ordered(p + 500, q + 500, 1000);
}

/// Shifting a coordinate by whole voxels shifts its cell by the same count.
pub proof fn lemma_round_shift(p: int, k: int)
    ensures
        round_milli(p + 1000 * k) == round_milli(p) + k,
{
    vstd::arithmetic::div_mod::lemma_fundamental_div_mod(p + 500, 1000);
    let q = (p + 500) / 1000;
    let r = (p + 500) % 1000;
    assert(p + 1000 * k + 500 == (q + k) * 1000 + r) by (nonlinear_arith)
        requires p + 500 == 1000 * q + r,
    ;
    vstd::arithmetic::div_mod::lemma_fundamental_div_mod_converse(
        p + 1000 * k + 500, 1000, q + k, r);
}

/// Truncating linear interpolation: the fraction `i/n` of a signed span.
pub open spec fn muldiv(d: int, i: int, n: int) -> int {
    if d >= 0 {
        d * i / n
    } else {
        -((-d) * i / n)
    }
}

/// For `0 <= i <= n` the interpolated offset lies between `0` and `d`,
/// starts at `0` and ends at `d`.
pub proof fn lemma_muldiv_between(d: int, i: int, n: int)
    requires
        0 < n,
        0 <= i <= n,
    ensures
        d >= 0 ==> 0 <= muldiv(d, i, n) <= d,
        d < 0 ==> d <= muldiv(d, i, n) <= 0,
        i == n ==> muldiv(d, i, n) == d,
        i == 0 ==> muldiv(d, i, n) == 0,
{
    let a = abs_sp(d);
    assert(0 <= a * i && a * i <= a * n && a * 0 == 0 && a * n == n * a) by (nonlinear_arith)
        requires 0 <= a, 0 <= i <= n,
    ;
    vstd::arithmetic::div_mod::lemma_div_pos_is_pos(a * i, n);
    vstd::arithmetic::div_mod::lemma_div_is_ordered(a * i, a * n, n);
    vstd::arithmetic::div_mod::lemma_div_by_multiple(a, n);
    assert(a * n / n == a);
    if i == 0 {
        vstd::arithmetic::div_mod::lemma_div_pos_is_pos(0, n);
        vstd::arithmetic::div_mod::lemma_div_is_ordered(a * 0, 0, n);
    }
}

/// Exec interpolation on the ranges the rasterizer uses.
pub fn muldiv_i64(d: i64, i: u64, n: u64) -> (r: i64)
    requires
        1 <= n <= 2_000_000,
        i <= n,
        -2_000_000 <= d <= 2_000_000,
    ensures
        r == muldiv(d as int, i as int, n as int),
        -2_000_000 <= r <= 2_000_000,
{
    proof {
        lemma_muldiv_between(d as int, i as int, n as int);
        assert(abs_sp(d as int) * i <= 2_000_000 * 2_000_000) by (nonlinear_arith)
            requires 0 <= abs_sp(d as int) <= 2_000_000, 0 <= i <= 2_000_000,
        ;
    }
    if d >= 0 {
        (((d as u64) * i) / n) as i64
    } else {
        let q = (((-d) as u64) * i) / n;
        -(q as i64)
    }
}

/// Signed division rounding toward zero, as exec code computes it on
/// magnitudes.
pub open spec fn sdiv_q(a: int, b: int) -> int {
    if a >= 0 {
        a / b
    } else {
        -((-a) / b)
    }
}

pub fn sdiv_i64(a: i64, b: i64) -> (r: i64)
    requires
        1 <= b,
        -4_000_000_000_000_000 <= a <= 4_000_000_000_000_000,
    ensures
        r == sdiv_q(a as int, b as int),
        a >= 0 ==> 0 <= r <= a,
        a < 0 ==> a <= r <= 0,
{
    if a >= 0 {
        let q = (a as u64) / (b as u64);
        proof {
            vstd::arithmetic::div_mod::lemma_div_pos_is_pos(a as int, b as int);
            vstd::arithmetic::div_mod::lemma_div_is_ordered_by_denominator(a as int, 1, b as int);
        }
        q as i64
    } else {
        let q = ((-a) as u64) / (b as u64);
        proof {
            vstd::arithmetic::div_mod::lemma_div_pos_is_pos(-(a as int), b as int);
            vstd::arithmetic::div_mod::lemma_div_is_ordered_by_denominator(-(a as int), 1, b as int);
        }
        -(q as i64)
    }
}

/// A truncating quotient squared, scaled back by the divisor squared,
/// never exceeds the dividend squared.
pub proof fn lemma_sdiv_sq(a: int, d: int)
    requires
        1 <= d,
    ensures
        sdiv_q(a, d) * sdiv_q(a, d) * (d * d) <= a * a,
{
    if a >= 0 {
        let q = a / d;
        vstd::arithmetic::div_mod::lemma_fundamental_div_mod(a, d);
        vstd::arithmetic::div_mod::lemma_mod_bound(a, d);
        vstd::arithmetic::div_mod::lemma_div_pos_is_pos(a, d);
        assert(q * d <= a) by (nonlinear_arith)
            requires a == d * q + a % d, a % d >= 0,
        ;
        assert(q * q * (d * d) <= a * a) by (nonlinear_arith)
            requires 0 <= q, 0 <= q * d <= a,
        ;
    } else {
        let b = -a;
        let q = b / d;
        vstd::arithmetic::div_mod::lemma_fundamental_div_mod(b, d);
        vstd::arithmetic::div_mod::lemma_mod_bound(b, d);
        vstd::arithmetic::div_mod::lemma_div_pos_is_pos(b, d);
        assert(q * d <= b) by (nonlinear_arith)
            requires b == d * q + b % d, b % d >= 0,
        ;
        assert((-q) * (-q) * (d * d) <= a * a) by (nonlinear_arith)
            requires 0 <= q, 0 <= q * d <= b, b == -a,
        ;
    }
}

/// The same for the milli-rescaling quotient `c * 1000 / m`.
proof fn lemma_scale_div_sq(c: int, m: int)
    requires
        1 <= m,
        -8_000_000 <= c <= 8_000_000,
    ensures
        scale_div(c, m) * scale_div(c, m) * (m * m) <= c * c * 1_000_000,
{
    if c >= 0 {
        let q = (c * 1000) / m;
        vstd::arithmetic::div_mod::lemma_fundamental_div_mod(c * 1000, m);
        vstd::arithmetic::div_mod::lemma_mod_bound(c * 1000, m);
        vstd::arithmetic::div_mod::lemma_div_pos_is_pos(c * 1000, m);
        assert(q * m <= c * 1000) by (nonlinear_arith)
            requires c * 1000 == m * q + (c * 1000) % m, (c * 1000) % m >= 0,
        ;
        assert(q <= c * 1000) by (nonlinear_arith)
            requires 0 <= q, 1 <= m, q * m <= c * 1000,
        ;
        assert(scale_div(c, m) == q);
        assert(q * q * (m * m) <= c * c * 1_000_000) by (nonlinear_arith)
            requires 0 <= q, 0 <= q * m <= c * 1000,
        ;
    } else {
        let b = -c;
        let q = (b * 1000) / m;
        vstd::arithmetic::div_mod::lemma_fundamental_div_mod(b * 1000, m);
        vstd::arithmetic::div_mod::lemma_mod_bound(b * 1000, m);
        vstd::arithmetic::div_mod::lemma_div_pos_is_pos(b * 1000, m);
        assert(q * m <= b * 1000) by (nonlinear_arith)
            requires b * 1000 == m * q + (b * 1000) % m, (b * 1000) % m >= 0,
        ;
        assert(q <= b * 1000) by (nonlinear_arith)
            requires 0 <= q, 1 <= m, q * m <= b * 1000,
        ;
        assert(scale_div(c, m) == -q);
        assert((-q) * (-q) * (m * m) <= c * c * 1_000_000) by (nonlinear_arith)
            requires 0 <= q, 0 <= q * m <= b * 1000, b == -c,
        ;
    }
}

/// Normalizing keeps the vector inside the unit ball, up to rounding:
/// for the zero vector or any vector of magnitude at least one voxel,
/// the squared magnitude of the result is at most `1_002_000`
/// (a tenth of a percent over one squared voxel).
pub proof fn lemma_normalize_unit(v: V3)
    requires
        v.in_box(-8_000_000, 8_000_000),
        dist2(v, V3 { x: 0, y: 0, z: 0 }) == 0
            || dist2(v, V3 { x: 0, y: 0, z: 0 }) >= 1_000_000,
    ensures
        dist2(normalize_spec(v), V3 { x: 0, y: 0, z: 0 }) <= 1_002_000,
{
    let zero = V3 { x: 0, y: 0, z: 0 };
    let dot = dist2(v, zero);
    assert(v.x * v.x >= 0 && v.y * v.y >= 0 && v.z * v.z >= 0) by (nonlinear_arith);
    if dot == 0 {
        lemma_int_sqrt(0);
        lemma_sqrt_unique(int_sqrt(0), 0, 0);
        assert(magnitude(v) == 0);
        assert(normalize_spec(v) == (V3 { x: 0, y: 1000, z: 0 }));
        assert((1000 - 0) * (1000 - 0) == 1_000_000 && (0 - 0) * (0 - 0) == 0)
            by (nonlinear_arith);
    } else {
        lemma_int_sqrt(dot as nat);
        let m = magnitude(v) as int;
        assert(m >= 1000) by (nonlinear_arith)
            requires dot < (m + 1) * (m + 1), dot >= 1_000_000, m >= 0,
        ;
        let u = normalize_spec(v);
        lemma_scale_div_sq(v.x as int, m);
        lemma_scale_div_sq(v.y as int, m);
        lemma_scale_div_sq(v.z as int, m);
        let su = u.x * u.x + u.y * u.y + u.z * u.z;
        assert(su * (m * m) <= dot * 1_000_000) by (nonlinear_arith)
            requires
                u.x * u.x * (m * m) <= v.x * v.x * 1_000_000,
                u.y * u.y * (m * m) <= v.y * v.y * 1_000_000,
                u.z * u.z * (m * m) <= v.z * v.z * 1_000_000,
                su == u.x * u.x + u.y * u.y + u.z * u.z,
                dot == v.x * v.x + v.y * v.y + v.z * v.z,
        ;
        assert(dot * 1_000_000 < 1_002_001 * (m * m)) by (nonlinear_arith)
            requires dot < (m + 1) * (m + 1), m >= 1000,
        ;
        assert(su <= 1_002_000) by (nonlinear_arith)
            requires su * (m * m) < 1_002_001 * (m * m), m >= 1000,
        ;
        assert(dist2(u, zero) == su);
    }
}

} // verus!
