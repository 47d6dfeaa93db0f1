//! Fixed-point 3D rotations for the grammar growth engine.
//!
//! A rotation is a 3x3 matrix of milli-scaled entries (1000 stands for
//! 1.0). Sines of whole degrees come from Bhaskara's rational
//! approximation, so every orientation is exact integer arithmetic and
//! growth is reproducible.

use vstd::prelude::*;

use crate::geom::{clamp_i64, clamp_spec, V3};

verus! {

/// Signed division by 1000 rounding toward zero, as the matrix arithmetic
/// computes it on magnitudes.
pub open spec fn sdiv1000(a: int) -> int {
    if a >= 0 {
        a / 1000
    } else {
        -((-a) / 1000)
    }
}

fn sdiv1000_i64(a: i64) -> (r: i64)
    requires
        -4_000_000_000 <= a <= 4_000_000_000,
    ensures
        r == sdiv1000(a as int),
        -4_000_000 <= r <= 4_000_000,
{
    if a >= 0 {
        let q = (a as u64) / 1000;
        proof {
            vstd::arithmetic::div_mod::lemma_div_is_ordered(a as int, 4_000_000_000, 1000);
        }
        q as i64
    } else {
        let q = ((-a) as u64) / 1000;
        proof {
            vstd::arithmetic::div_mod::lemma_div_is_ordered(-(a as int), 4_000_000_000, 1000);
            vstd::arithmetic::div_mod::lemma_div_pos_is_pos(-(a as int), 1000);
        }
        -(q as i64)
    }
}

/// Bhaskara's rational sine approximation for degrees `0..=180`, scaled
/// by 1000: `4 d (180 - d) / (40500 - d (180 - d))`.
pub open spec fn sin_half(d: int) -> int {
    4 * d * (180 - d) * 1000 / (40500 - d * (180 - d))
}

/// Milli-scaled sine of a whole number of degrees in `0..360`.
pub open spec fn sin_deg(d: int) -> int {
    if d <= 180 {
        sin_half(d)
    } else {
        -sin_half(d - 180)
    }
}

/// Milli-scaled cosine of a whole number of degrees in `0..360`.
pub open spec fn cos_deg(d: int) -> int {
    sin_deg((d + 90) % 360)
}

proof fn lemma_sin_half_range(d: int)
    requires
        0 <= d <= 180,
    ensures
        0 <= sin_half(d) <= 1000,
{
    let p = d * (180 - d);
    assert(0 <= d * (180 - d) <= 8100) by (nonlinear_arith)
        requires 0 <= d <= 180,
    ;
    let num = 4 * p * 1000;
    let den = 40500 - p;
    assert(4 * (d * (180 - d)) * 1000 == 4 * d * (180 - d) * 1000) by (nonlinear_arith);
    assert(32400 <= den <= 40500);
    assert(0 <= num <= 32_400_000);
    vstd::arithmetic::div_mod::lemma_div_pos_is_pos(num, den);
    assert(num <= 1000 * den) by (nonlinear_arith)
        requires num == 4 * p * 1000, den == 40500 - p, 0 <= p <= 8100,
    ;
    assert(num / den <= (1000 * den) / den) by {
        vstd::arithmetic::div_mod::lemma_div_is_ordered(num, 1000 * den, den);
    }
    assert((1000 * den) / den == 1000) by {
        vstd::arithmetic::div_mod::lemma_div_by_multiple(1000, den);
        assert(1000 * den == den * 1000) by (nonlinear_arith);
    }
}

/// The sine of any whole degree lies in `[-1000, 1000]`.
pub proof fn lemma_sin_deg_range(d: int)
    requires
        0 <= d < 360,
    ensures
        -1000 <= sin_deg(d) <= 1000,
{
    if d <= 180 {
        lemma_sin_half_range(d);
    } else {
        lemma_sin_half_range(d - 180);
    }
}

/// Milli-scaled sine of `d` whole degrees.
pub fn sin_milli(d: u64) -> (r: i64)
    requires
        d < 360,
    ensures
        r == sin_deg(d as int),
        -1000 <= r <= 1000,
{
    proof {
        lemma_sin_deg_range(d as int);
        if d <= 180 {
            assert(0 <= (d as int) * (180 - d as int) <= 8100) by (nonlinear_arith)
                requires d <= 180,
            ;
        } else {
            assert(0 <= (d as int - 180) * (180 - (d as int - 180)) <= 8100) by (nonlinear_arith)
                requires 180 < d < 360,
            ;
        }
    }
    if d <= 180 {
        let p = d * (180 - d);
        let num = 4 * p * 1000;
        let den = 40500 - p;
        proof {
            assert(4 * ((d as int) * (180 - d as int)) * 1000
                == 4 * (d as int) * (180 - d as int) * 1000) by (nonlinear_arith);
        }
        (num / den) as i64
    } else {
        let e = d - 180;
        let p = e * (180 - e);
        let num = 4 * p * 1000;
        let den = 40500 - p;
        proof {
            assert(4 * ((e as int) * (180 - e as int)) * 1000
                == 4 * (e as int) * (180 - e as int) * 1000) by (nonlinear_arith);
            lemma_sin_half_range(e as int);
        }
        -((num / den) as i64)
    }
}

/// Milli-scaled cosine of `d` whole degrees.
pub fn cos_milli(d: u64) -> (r: i64)
    requires
        d < 360,
    ensures
        r == cos_deg(d as int),
        -1000 <= r <= 1000,
{
    let e = (d + 90) % 360;
    proof {
        assert(e == ((d + 90) as int) % 360);
        lemma_sin_deg_range(e as int);
    }
    sin_milli(e)
}

/// A milli-scaled 3x3 rotation matrix, row major: row `x` is
/// `(xx, xy, xz)` and so on.
#[derive(Clone, Copy, PartialEq, Eq, Structural, Debug)]
pub struct Rot {
    pub xx: i64,
    pub xy: i64,
    pub xz: i64,
    pub yx: i64,
    pub yy: i64,
    pub yz: i64,
    pub zx: i64,
    pub zy: i64,
    pub zz: i64,
}

impl Rot {
    /// Every entry is a milli-scaled value in `[-1, 1]`.
    pub open spec fn wf(self) -> bool {
        &&& -1000 <= self.xx <= 1000 && -1000 <= self.xy <= 1000 && -1000 <= self.xz <= 1000
        &&& -1000 <= self.yx <= 1000 && -1000 <= self.yy <= 1000 && -1000 <= self.yz <= 1000
        &&& -1000 <= self.zx <= 1000 && -1000 <= self.zy <= 1000 && -1000 <= self.zz <= 1000
    }

    /// The identity rotation.
    pub fn identity() -> (r: Rot)
        ensures
            r == identity_spec(),
            r.wf(),
    {
        Rot { xx: 1000, xy: 0, xz: 0, yx: 0, yy: 1000, yz: 0, zx: 0, zy: 0, zz: 1000 }
    }
}

pub open spec fn identity_spec() -> Rot {
    Rot { xx: 1000, xy: 0, xz: 0, yx: 0, yy: 1000, yz: 0, zx: 0, zy: 0, zz: 1000 }
}

/// One entry of a fixed-point matrix product: the row-column dot product
/// rescaled and clamped back into `[-1000, 1000]` (a true rotation never
/// exceeds it; clamping absorbs rounding drift).
pub open spec fn rot_entry(a1: int, a2: int, a3: int, b1: int, b2: int, b3: int) -> i64 {
    clamp_spec(sdiv1000(a1 * b1 + a2 * b2 + a3 * b3), -1000, 1000) as i64
}

/// Fixed-point product of two rotations.
pub open spec fn rot_mul_spec(a: Rot, b: Rot) -> Rot {
    Rot {
        xx: rot_entry(a.xx as int, a.xy as int, a.xz as int, b.xx as int, b.yx as int, b.zx as int),
        xy: rot_entry(a.xx as int, a.xy as int, a.xz as int, b.xy as int, b.yy as int, b.zy as int),
        xz: rot_entry(a.xx as int, a.xy as int, a.xz as int, b.xz as int, b.yz as int, b.zz as int),
        yx: rot_entry(a.yx as int, a.yy as int, a.yz as int, b.xx as int, b.yx as int, b.zx as int),
        yy: rot_entry(a.yx as int, a.yy as int, a.yz as int, b.xy as int, b.yy as int, b.zy as int),
        yz: rot_entry(a.yx as int, a.yy as int, a.yz as int, b.xz as int, b.yz as int, b.zz as int),
        zx: rot_entry(a.zx as int, a.zy as int, a.zz as int, b.xx as int, b.yx as int, b.zx as int),
        zy: rot_entry(a.zx as int, a.zy as int, a.zz as int, b.xy as int, b.yy as int, b.zy as int),
        zz: rot_entry(a.zx as int, a.zy as int, a.zz as int, b.xz as int, b.yz as int, b.zz as int),
    }
}

fn rot_entry_exec(a1: i64, a2: i64, a3: i64, b1: i64, b2: i64, b3: i64) -> (r: i64)
    requires
        -1000 <= a1 <= 1000 && -1000 <= a2 <= 1000 && -1000 <= a3 <= 1000,
        -1000 <= b1 <= 1000 && -1000 <= b2 <= 1000 && -1000 <= b3 <= 1000,
    ensures
        r == rot_entry(a1 as int, a2 as int, a3 as int, b1 as int, b2 as int, b3 as int),
        -1000 <= r <= 1000,
{
    proof {
        assert(-1_000_000 <= a1 * b1 <= 1_000_000) by (nonlinear_arith)
            requires -1000 <= a1 <= 1000, -1000 <= b1 <= 1000,
        ;
        assert(-1_000_000 <= a2 * b2 <= 1_000_000) by (nonlinear_arith)
            requires -1000 <= a2 <= 1000, -1000 <= b2 <= 1000,
        ;
        assert(-1_000_000 <= a3 * b3 <= 1_000_000) by (nonlinear_arith)
            requires -1000 <= a3 <= 1000, -1000 <= b3 <= 1000,
        ;
    }
    let s = a1 * b1 + a2 * b2 + a3 * b3;
    let q = sdiv1000_i64(s);
    clamp_i64(q, -1000, 1000)
}

/// Multiply two rotations, entrywise rescaled and clamped.
pub fn rot_mul(a: Rot, b: Rot) -> (r: Rot)
    requires
        a.wf(),
        b.wf(),
    ensures
        r == rot_mul_spec(a, b),
        r.wf(),
{
    Rot {
        xx: rot_entry_exec(a.xx, a.xy, a.xz, b.xx, b.yx, b.zx),
        xy: rot_entry_exec(a.xx, a.xy, a.xz, b.xy, b.yy, b.zy),
        xz: rot_entry_exec(a.xx, a.xy, a.xz, b.xz, b.yz, b.zz),
        yx: rot_entry_exec(a.yx, a.yy, a.yz, b.xx, b.yx, b.zx),
        yy: rot_entry_exec(a.yx, a.yy, a.yz, b.xy, b.yy, b.zy),
        yz: rot_entry_exec(a.yx, a.yy, a.yz, b.xz, b.yz, b.zz),
        zx: rot_entry_exec(a.zx, a.zy, a.zz, b.xx, b.yx, b.zx),
        zy: rot_entry_exec(a.zx, a.zy, a.zz, b.xy, b.yy, b.zy),
        zz: rot_entry_exec(a.zx, a.zy, a.zz, b.xz, b.yz, b.zz),
    }
}

/// Rotation by `d` whole degrees about the vertical (y) axis.
pub open spec fn rot_yaw_spec(d: int) -> Rot {
    Rot {
        xx: cos_deg(d) as i64, xy: 0, xz: sin_deg(d) as i64,
        yx: 0, yy: 1000, yz: 0,
        zx: (-sin_deg(d)) as i64, zy: 0, zz: cos_deg(d) as i64,
    }
}

pub fn rot_yaw(d: u64) -> (r: Rot)
    requires
        d < 360,
    ensures
        r == rot_yaw_spec(d as int),
        r.wf(),
{
    let s = sin_milli(d);
    let c = cos_milli(d);
    proof {
        lemma_sin_deg_range(d as int);
    }
    Rot { xx: c, xy: 0, xz: s, yx: 0, yy: 1000, yz: 0, zx: -s, zy: 0, zz: c }
}

/// The fixed downward pitch of grammar side branches: a rotation of
/// -65 degrees about the x axis.
pub open spec fn rot_pitch_spec() -> Rot {
    Rot {
        xx: 1000, xy: 0, xz: 0,
        yx: 0, yy: cos_deg(65) as i64, yz: sin_deg(65) as i64,
        zx: 0, zy: (-sin_deg(65)) as i64, zz: cos_deg(65) as i64,
    }
}

pub fn rot_pitch_down() -> (r: Rot)
    ensures
        r == rot_pitch_spec(),
        r.wf(),
{
    let s = sin_milli(65);
    let c = cos_milli(65);
    proof {
        lemma_sin_deg_range(65);
    }
    Rot { xx: 1000, xy: 0, xz: 0, yx: 0, yy: c, yz: s, zx: 0, zy: -s, zz: c }
}

/// A rotation applied to the vector `(0, len, 0)`: the middle column of
/// the matrix scaled by `len`.
pub open spec fn rot_up_spec(r: Rot, len: int) -> V3 {
    V3 {
        x: sdiv1000(r.xy * len) as i64,
        y: sdiv1000(r.yy * len) as i64,
        z: sdiv1000(r.zy * len) as i64,
    }
}

/// Rotate the upward vector of length `len` (milli-voxels) by `r`: the
/// direction a branch of that length grows in under orientation `r`.
pub fn rot_up(r: Rot, len: i64) -> (v: V3)
    requires
        r.wf(),
        -2_000_000 <= len <= 2_000_000,
    ensures
        v == rot_up_spec(r, len as int),
        v.in_box(-2_000_000, 2_000_000),
{
    proof {
        lemma_rot_up_bounds(r, len as int);
        assert(-2_000_000_000 <= r.xy * len <= 2_000_000_000) by (nonlinear_arith)
            requires -1000 <= r.xy <= 1000, -2_000_000 <= len <= 2_000_000,
        ;
        assert(-2_000_000_000 <= r.yy * len <= 2_000_000_000) by (nonlinear_arith)
            requires -1000 <= r.yy <= 1000, -2_000_000 <= len <= 2_000_000,
        ;
        assert(-2_000_000_000 <= r.zy * len <= 2_000_000_000) by (nonlinear_arith)
            requires -1000 <= r.zy <= 1000, -2_000_000 <= len <= 2_000_000,
        ;
    }
    V3 {
        x: sdiv1000_i64(r.xy * len),
        y: sdiv1000_i64(r.yy * len),
        z: sdiv1000_i64(r.zy * len),
    }
}

/// A rotated upward vector is no longer than its input length.
pub proof fn lemma_rot_up_bounds(r: Rot, len: int)
    requires
        r.wf(),
        -2_000_000 <= len <= 2_000_000,
    ensures
        rot_up_spec(r, len).in_box(-2_000_000, 2_000_000),
{
    lemma_sdiv_scale(r.xy as int, len);
    lemma_sdiv_scale(r.yy as int, len);
    lemma_sdiv_scale(r.zy as int, len);
}

/// `|e * len / 1000| <= |len|` when `|e| <= 1000`.
proof fn lemma_sdiv_scale(e: int, len: int)
    requires
        -1000 <= e <= 1000,
        -2_000_000 <= len <= 2_000_000,
    ensures
        -2_000_000 <= sdiv1000(e * len) <= 2_000_000,
{
    let p = e * len;
    assert(-2_000_000_000 <= e * len <= 2_000_000_000) by (nonlinear_arith)
        requires -1000 <= e <= 1000, -2_000_000 <= len <= 2_000_000,
    ;
    if p >= 0 {
        vstd::arithmetic::div_mod::lemma_div_pos_is_pos(p, 1000);
        vstd::arithmetic::div_mod::lemma_div_is_ordered(p, 2_000_000_000, 1000);
    } else {
        vstd::arithmetic::div_mod::lemma_div_pos_is_pos(-p, 1000);
        vstd::arithmetic::div_mod::lemma_div_is_ordered(-p, 2_000_000_000, 1000);
    }
}

} // verus!
