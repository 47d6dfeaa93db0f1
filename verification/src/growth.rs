//! The space-colonization growth engine.
//!
//! A cloud of attractor points pulls branch tips toward a canopy shape:
//! each iteration removes attractors that a tip has reached, points every
//! remaining attractor at its nearest tip, advances the attracted tips by
//! one fixed-length step, rasterizes the new segments at the current
//! (tapering) thickness, and finally stamps leaf clusters on the open
//! tips once tapering crosses its floor.

use vstd::prelude::*;

use crate::geom::{
    clamp_v3, distance_squared, dist2, normalize, normalize_spec, round_milli, round_to_cell,
    sdiv_i64, sdiv_q, V3,
};
use crate::raster::{
    draw_thick_segment, lemma_safe_margin, lemma_thick_frame, occlusion_spec, occlusion_weight,
    safe_point, stamp_leaf_cluster, stamp_spec, thick_spec, thick_w, BRANCH_COLOR, LEAF_COLOR,
};
use crate::volume::Volume;

verus! {

/// Squared minimum distance (in squared milli-voxels) at which an
/// attractor counts as reached and is consumed: 2.5 voxels.
pub const REACH_SQ: i64 = 6_250_000;

/// Starting branch thickness, milli-voxels.
pub const START_WIDTH: i64 = 5000;
/// Thickness lost per iteration, milli-voxels.
pub const TAPER_STEP: i64 = 80;
/// Tapering floor: below one voxel of thickness, growth stops and leaf
/// clusters are placed.
pub const WIDTH_FLOOR: i64 = 1000;

/// A growing branch tip: its position, the unit heading it advanced
/// along, the attraction directions gathered this iteration, and whether
/// it is still an open tip (a leaf candidate).
pub struct GrowthBranch {
    pub pos: V3,
    pub dir: V3,
    pub next_dirs: Vec<V3>,
    pub leaf: bool,
}

/// The space-colonization simulation state: the remaining attractors,
/// every branch tip grown so far (append-only), the current tapering
/// thickness, and whether growth has finished.
pub struct Tree {
    pub leaves: Vec<V3>,
    pub branches: Vec<GrowthBranch>,
    pub width: i64,
    pub done: bool,
}

impl GrowthBranch {
    /// Structural soundness against a grid of edge `size`: the tip sits
    /// safely inside the grid, headings are unit-range, and no attraction
    /// directions are pending between iterations.
    pub open spec fn wf(self, size: int) -> bool {
        &&& safe_point(self.pos, size)
        &&& self.dir.in_box(-2000, 2000)
        &&& self.next_dirs@.len() == 0
    }
}

impl Tree {
    /// Structural soundness of the whole simulation state.
    pub open spec fn wf(self, size: int) -> bool {
        &&& forall|j: int| 0 <= j < self.branches@.len()
            ==> (#[trigger] self.branches@[j]).wf(size)
        &&& forall|j: int| 0 <= j < self.leaves@.len()
            ==> (#[trigger] self.leaves@[j]).in_box(-3_000_000, 3_000_000)
        &&& 0 <= self.width <= 16_000
        &&& self.leaves@.len() <= 1_000_000
    }
}

/// The tip of a fresh branch: one heading step from `from`, clamped into
/// the safe region.
pub open spec fn tip_of(from: V3, dir: V3, size: int) -> V3 {
    V3 {
        x: crate::geom::clamp_spec(from.x + dir.x, 8000, (size - 9) * 1000) as i64,
        y: crate::geom::clamp_spec(from.y + dir.y, 8000, (size - 9) * 1000) as i64,
        z: crate::geom::clamp_spec(from.z + dir.z, 8000, (size - 9) * 1000) as i64,
    }
}

impl GrowthBranch {
    /// A fresh tip one step from `from` along `dir`.
    pub fn new(from: V3, dir: V3, size: usize) -> (b: GrowthBranch)
        requires
            18 <= size <= 1024,
            safe_point(from, size as int),
            dir.in_box(-2000, 2000),
        ensures
            b.pos == tip_of(from, dir, size as int),
            b.dir == dir,
            b.next_dirs@.len() == 0,
            b.leaf == true,
            b.wf(size as int),
    {
        let pos = clamp_v3(from.add(dir), 8000, (size as i64 - 9) * 1000);
        GrowthBranch { pos, dir, next_dirs: Vec::new(), leaf: true }
    }
}

/// An attractor survives pruning when no branch tip has come within the
/// reach distance of it.
pub open spec fn attractor_kept(a: V3, branches: Seq<GrowthBranch>) -> bool {
    forall|j: int| 0 <= j < branches.len() ==> dist2(a, (#[trigger] branches[j]).pos) > REACH_SQ
}

/// The attractors among the first `k` that survive pruning, in order.
pub open spec fn pruned(attrs: Seq<V3>, branches: Seq<GrowthBranch>, k: int) -> Seq<V3>
    decreases k,
{
    if k <= 0 {
        Seq::empty()
    } else {
        let p = pruned(attrs, branches, k - 1);
        if attractor_kept(attrs[k - 1], branches) {
            p.push(attrs[k - 1])
        } else {
            p
        }
    }
}

/// Pruning never adds attractors: after initialization the attractor set
/// only ever shrinks.
pub proof fn lemma_pruning_monotone(attrs: Seq<V3>, branches: Seq<GrowthBranch>, k: int)
    requires
        0 <= k,
    ensures
        pruned(attrs, branches, k).len() <= k,
    decreases k,
{
    if k > 0 {
        lemma_pruning_monotone(attrs, branches, k - 1);
    }
}

/// The grid after placing leaf clusters for the first `k` branches: every
/// branch still marked as an open tip gets a cluster at its cell, unless
/// that cell is already enclosed by solid geometry (occlusion weight
/// above 3).
pub open spec fn leaves_spec(
    branches: Seq<GrowthBranch>, k: int, grid: Seq<u16>, size: int,
) -> Seq<u16>
    decreases k,
{
    if k <= 0 {
        grid
    } else {
        let g = leaves_spec(branches, k - 1, grid, size);
        let b = branches[k - 1];
        let cx = round_milli(b.pos.x as int);
        let cy = round_milli(b.pos.y as int);
        let cz = round_milli(b.pos.z as int);
        if b.leaf && occlusion_spec(g, size, cx, cy, cz) <= 3 {
            stamp_spec(g, size, cx, cy, cz, LEAF_COLOR)
        } else {
            g
        }
    }
}

/// Placing leaf clusters keeps the grid's length and writes only the
/// leaf color.
pub proof fn lemma_leaves_frame(
    branches: Seq<GrowthBranch>, k: int, grid: Seq<u16>, size: int,
)
    requires
        0 <= k,
    ensures
        leaves_spec(branches, k, grid, size).len() == grid.len(),
        forall|idx: int| 0 <= idx < grid.len()
            ==> leaves_spec(branches, k, grid, size)[idx] == grid[idx]
                || leaves_spec(branches, k, grid, size)[idx] == LEAF_COLOR,
    decreases k,
{
    if k > 0 {
        lemma_leaves_frame(branches, k - 1, grid, size);
    }
}

impl Tree {
    /// Stamp a leaf cluster at every branch still marked as an open tip,
    /// skipping tips already enclosed by other geometry.
    pub fn create_leaves(&self, vol: &mut Volume)
        requires
            old(vol).wf(),
            18 <= old(vol).side(),
            self.wf(old(vol).side()),
        ensures
            final(vol).wf(),
            final(vol).side() == old(vol).side(),
            final(vol).data@ == leaves_spec(
                self.branches@, self.branches@.len() as int, old(vol).data@, old(vol).side()),
    {
        let ghost size = old(vol).side();
        let ghost g0 = old(vol).data@;
        let n = self.branches.len();
        let mut k: usize = 0;
        while k < n
            invariant
                vol.wf(),
                vol.side() == size,
                18 <= size <= 1024,
                self.wf(size),
                n == self.branches@.len(),
                k <= n,
                vol.data@ == leaves_spec(self.branches@, k as int, g0, size),
                g0 == old(vol).data@,
            decreases n - k,
        {
            let p = self.branches[k].pos;
            let is_leaf = self.branches[k].leaf;
            proof {
                lemma_safe_margin(p, size, 2);
            }
            let cx = round_to_cell(p.x) as usize;
            let cy = round_to_cell(p.y) as usize;
            let cz = round_to_cell(p.z) as usize;
            if is_leaf {
                let w = occlusion_weight(vol, cx, cy, cz);
                if w <= 3 {
                    stamp_leaf_cluster(vol, p, LEAF_COLOR);
                }
            }
            k = k + 1;
        }
    }
}

/// Componentwise sum of a heading and the first `k` gathered directions.
pub open spec fn sum_dirs(dir: V3, dirs: Seq<V3>, k: int) -> V3
    decreases k,
{
    if k <= 0 {
        dir
    } else {
        let p = sum_dirs(dir, dirs, k - 1);
        V3 {
            x: (p.x + dirs[k - 1].x) as i64,
            y: (p.y + dirs[k - 1].y) as i64,
            z: (p.z + dirs[k - 1].z) as i64,
        }
    }
}

/// The averaged heading of a tip that gathered `dirs`: the mean of its
/// own heading and every attraction direction, renormalized.
pub open spec fn next_dir_spec(dir: V3, dirs: Seq<V3>) -> V3 {
    let s = sum_dirs(dir, dirs, dirs.len() as int);
    let n1 = dirs.len() + 1;
    normalize_spec(V3 {
        x: sdiv_q(s.x as int, n1 as int) as i64,
        y: sdiv_q(s.y as int, n1 as int) as i64,
        z: sdiv_q(s.z as int, n1 as int) as i64,
    })
}

/// Partial sums of unit-range directions stay within `2000 * (k + 1)`.
proof fn lemma_sum_dirs_bound(dir: V3, dirs: Seq<V3>, k: int)
    requires
        0 <= k <= dirs.len(),
        dir.in_box(-2000, 2000),
        forall|q: int| 0 <= q < dirs.len() ==> (#[trigger] dirs[q]).in_box(-2000, 2000),
        dirs.len() <= 1_000_000,
    ensures
        sum_dirs(dir, dirs, k).in_box(-2000 * (k + 1), 2000 * (k + 1)),
    decreases k,
{
    if k > 0 {
        lemma_sum_dirs_bound(dir, dirs, k - 1);
    }
}

impl GrowthBranch {
    /// Advance this tip: it stops being an open tip and spawns a child
    /// one step along the renormalized mean of its heading and gathered
    /// attraction directions; the gathered directions are drained.
    fn next(&mut self, size: usize) -> (child: GrowthBranch)
        requires
            18 <= size <= 1024,
            safe_point(old(self).pos, size as int),
            old(self).dir.in_box(-2000, 2000),
            forall|q: int| 0 <= q < old(self).next_dirs@.len()
                ==> (#[trigger] old(self).next_dirs@[q]).in_box(-2000, 2000),
            old(self).next_dirs@.len() <= 1_000_000,
        ensures
            final(self).pos == old(self).pos,
            final(self).dir == old(self).dir,
            final(self).leaf == false,
            final(self).next_dirs@.len() == 0,
            child.dir == next_dir_spec(old(self).dir, old(self).next_dirs@),
            child.pos == tip_of(old(self).pos, child.dir, size as int),
            child.leaf == true,
            child.next_dirs@.len() == 0,
            child.wf(size as int),
            final(self).wf(size as int),
    {
        self.leaf = false;
        let n = self.next_dirs.len();
        let ghost dirs = self.next_dirs@;
        let ghost d0 = self.dir;
        let mut sx = self.dir.x;
        let mut sy = self.dir.y;
        let mut sz2 = self.dir.z;
        let mut k: usize = 0;
        while k < n
            invariant
                n == dirs.len(),
                n <= 1_000_000,
                k <= n,
                d0.in_box(-2000, 2000),
                forall|q: int| 0 <= q < dirs.len() ==> (#[trigger] dirs[q]).in_box(-2000, 2000),
                self.next_dirs@ == dirs,
                sum_dirs(d0, dirs, k as int) == (V3 { x: sx, y: sy, z: sz2 }),
                -2000 * (k + 1) <= sx <= 2000 * (k + 1),
                -2000 * (k + 1) <= sy <= 2000 * (k + 1),
                -2000 * (k + 1) <= sz2 <= 2000 * (k + 1),
            decreases n - k,
        {
            let d = self.next_dirs[k];
            sx = sx + d.x;
            sy = sy + d.y;
            sz2 = sz2 + d.z;
            k = k + 1;
        }
        let n1 = (n as i64) + 1;
        let ax = sdiv_i64(sx, n1);
        let ay = sdiv_i64(sy, n1);
        let az = sdiv_i64(sz2, n1);
        proof {
            lemma_avg_bound(sx as int, n1 as int);
            lemma_avg_bound(sy as int, n1 as int);
            lemma_avg_bound(sz2 as int, n1 as int);
        }
        let nd = normalize(V3 { x: ax, y: ay, z: az });
        self.next_dirs = Vec::new();
        GrowthBranch::new(self.pos, nd, size)
    }
}

/// The mean of values bounded by `2000 * n1` is bounded by `2000`.
proof fn lemma_avg_bound(a: int, n1: int)
    requires
        1 <= n1,
        -2000 * n1 <= a <= 2000 * n1,
    ensures
        -2000 <= sdiv_q(a, n1) <= 2000,
{
    if a >= 0 {
        vstd::arithmetic::div_mod::lemma_div_pos_is_pos(a, n1);
        vstd::arithmetic::div_mod::lemma_div_is_ordered(a, 2000 * n1, n1);
        vstd::arithmetic::div_mod::lemma_div_by_multiple(2000, n1);
        assert(2000 * n1 == n1 * 2000) by (nonlinear_arith);
    } else {
        vstd::arithmetic::div_mod::lemma_div_pos_is_pos(-a, n1);
        vstd::arithmetic::div_mod::lemma_div_is_ordered(-a, 2000 * n1, n1);
        vstd::arithmetic::div_mod::lemma_div_by_multiple(2000, n1);
        assert(2000 * n1 == n1 * 2000) by (nonlinear_arith);
    }
}

/// Relies on rand::random (rand 0.8): draws one value from the standard
/// distribution of its type, from the thread-local generator. Nothing is
/// assumed about which value comes back.
pub assume_specification<T>[ rand::random::<T> ]() -> (r: T)
    where
        rand::distributions::Standard: rand::distributions::Distribution<T>,
;

/// A point sampled inside the sphere of `radius` milli-voxels around
/// `center`, driven by four raw entropy words: a rejection-free unit
/// direction (the raw direction scaled up so normalization is accurate)
/// times a radius fraction below one.
pub open spec fn sample_spec(center: V3, radius: int, r0: u32, r1: u32, r2: u32, r3: u32) -> V3 {
    let dir = V3 {
        x: ((r0 as int % 2001 - 1000) * 1000) as i64,
        y: ((r1 as int % 2001 - 1000) * 1000) as i64,
        z: ((r2 as int % 2001 - 1000) * 1000) as i64,
    };
    let u = normalize_spec(dir);
    let frac = r3 as int % 1000;
    V3 {
        x: (center.x + sdiv_q(u.x * radius * frac, 1_000_000)) as i64,
        y: (center.y + sdiv_q(u.y * radius * frac, 1_000_000)) as i64,
        z: (center.z + sdiv_q(u.z * radius * frac, 1_000_000)) as i64,
    }
}

/// Map four raw entropy words to an attractor position: always inside
/// the sphere of `radius` around `center`.
pub fn sample_attractor(center: V3, radius: i64, r0: u32, r1: u32, r2: u32, r3: u32) -> (p: V3)
    requires
        center.in_box(-2_000_000, 2_000_000),
        0 <= radius <= 500_000,
    ensures
        p == sample_spec(center, radius as int, r0, r1, r2, r3),
        dist2(p, center) <= radius * radius,
        p.in_box(-3_000_000, 3_000_000),
{
    let dx = ((r0 % 2001) as i64 - 1000) * 1000;
    let dy = ((r1 % 2001) as i64 - 1000) * 1000;
    let dz = ((r2 % 2001) as i64 - 1000) * 1000;
    let dirv = V3 { x: dx, y: dy, z: dz };
    proof {
        let zero = V3 { x: 0, y: 0, z: 0 };
        assert(dx == 0 || dx >= 1000 || dx <= -1000);
        assert(dy == 0 || dy >= 1000 || dy <= -1000);
        assert(dz == 0 || dz >= 1000 || dz <= -1000);
        assert(dx * dx + dy * dy + dz * dz == 0
            || dx * dx + dy * dy + dz * dz >= 1_000_000) by (nonlinear_arith)
            requires
                dx == 0 || dx >= 1000 || dx <= -1000,
                dy == 0 || dy >= 1000 || dy <= -1000,
                dz == 0 || dz >= 1000 || dz <= -1000,
        ;
        assert(dist2(dirv, zero) == dx * dx + dy * dy + dz * dz);
        crate::geom::lemma_normalize_unit(dirv);
    }
    let u = normalize(dirv);
    let frac = (r3 % 1000) as i64;
    proof {
        lemma_sample_off(u.x as int, radius as int, frac as int);
        lemma_sample_off(u.y as int, radius as int, frac as int);
        lemma_sample_off(u.z as int, radius as int, frac as int);
        lemma_offsets_in_sphere(u.x as int, u.y as int, u.z as int, radius as int, frac as int);
    }
    let ox = sdiv_i64(u.x * radius * frac, 1_000_000);
    let oy = sdiv_i64(u.y * radius * frac, 1_000_000);
    let oz = sdiv_i64(u.z * radius * frac, 1_000_000);
    let p = V3 { x: center.x + ox, y: center.y + oy, z: center.z + oz };
    proof {
        assert(dist2(p, center) == ox * ox + oy * oy + oz * oz);
    }
    p
}

/// The sampled offset stays within twice the radius (and all products in
/// `i64` range).
proof fn lemma_sample_off(u: int, radius: int, frac: int)
    requires
        -2000 <= u <= 2000,
        0 <= radius <= 500_000,
        0 <= frac <= 1000,
    ensures
        -1_000_000_000 <= u * radius <= 1_000_000_000,
        -4_000_000_000_000_000 <= u * radius * frac <= 4_000_000_000_000_000,
        -1_000_000 <= sdiv_q(u * radius * frac, 1_000_000) <= 1_000_000,
{
    assert(-1_000_000_000 <= u * radius <= 1_000_000_000
        && -1_000_000_000_000 <= u * radius * frac <= 1_000_000_000_000) by (nonlinear_arith)
        requires -2000 <= u <= 2000, 0 <= radius <= 500_000, 0 <= frac <= 1000,
    ;
    let a = u * radius * frac;
    if a >= 0 {
        vstd::arithmetic::div_mod::lemma_div_pos_is_pos(a, 1_000_000);
        vstd::arithmetic::div_mod::lemma_div_is_ordered(a, 1_000_000_000_000, 1_000_000);
        vstd::arithmetic::div_mod::lemma_div_by_multiple(1_000_000, 1_000_000);
        assert(1_000_000_000_000 == 1_000_000 * 1_000_000) by (nonlinear_arith);
    } else {
        vstd::arithmetic::div_mod::lemma_div_pos_is_pos(-a, 1_000_000);
        vstd::arithmetic::div_mod::lemma_div_is_ordered(-a, 1_000_000_000_000, 1_000_000);
        vstd::arithmetic::div_mod::lemma_div_by_multiple(1_000_000, 1_000_000);
        assert(1_000_000_000_000 == 1_000_000 * 1_000_000) by (nonlinear_arith);
    }
}

/// Offsets rescaled from a (nearly) unit direction land inside the
/// sphere: their squared sum is at most `radius^2`.
proof fn lemma_offsets_in_sphere(ux: int, uy: int, uz: int, radius: int, frac: int)
    requires
        ux * ux + uy * uy + uz * uz <= 1_002_000,
        -2000 <= ux <= 2000 && -2000 <= uy <= 2000 && -2000 <= uz <= 2000,
        0 <= radius <= 500_000,
        0 <= frac <= 999,
    ensures
        ({
            let ox = sdiv_q(ux * radius * frac, 1_000_000);
            let oy = sdiv_q(uy * radius * frac, 1_000_000);
            let oz = sdiv_q(uz * radius * frac, 1_000_000);
            ox * ox + oy * oy + oz * oz <= radius * radius
        }),
{
    let ox = sdiv_q(ux * radius * frac, 1_000_000);
    let oy = sdiv_q(uy * radius * frac, 1_000_000);
    let oz = sdiv_q(uz * radius * frac, 1_000_000);
    crate::geom::lemma_sdiv_sq(ux * radius * frac, 1_000_000);
    crate::geom::lemma_sdiv_sq(uy * radius * frac, 1_000_000);
    crate::geom::lemma_sdiv_sq(uz * radius * frac, 1_000_000);
    assert(1_000_000 * 1_000_000 == 1_000_000_000_000) by (nonlinear_arith);
    let rf = radius * frac;
    assert((ux * radius * frac) * (ux * radius * frac) == (ux * ux) * (rf * rf))
        by (nonlinear_arith)
        requires rf == radius * frac,
    ;
    assert((uy * radius * frac) * (uy * radius * frac) == (uy * uy) * (rf * rf))
        by (nonlinear_arith)
        requires rf == radius * frac,
    ;
    assert((uz * radius * frac) * (uz * radius * frac) == (uz * uz) * (rf * rf))
        by (nonlinear_arith)
        requires rf == radius * frac,
    ;
    let s = ox * ox + oy * oy + oz * oz;
    assert(s * 1_000_000_000_000 <= (ux * ux + uy * uy + uz * uz) * (rf * rf))
        by (nonlinear_arith)
        requires
            ox * ox * 1_000_000_000_000 <= (ux * ux) * (rf * rf),
            oy * oy * 1_000_000_000_000 <= (uy * uy) * (rf * rf),
            oz * oz * 1_000_000_000_000 <= (uz * uz) * (rf * rf),
            s == ox * ox + oy * oy + oz * oz,
    ;
    assert((ux * ux + uy * uy + uz * uz) * (rf * rf) <= 1_002_000 * (rf * rf))
        by (nonlinear_arith)
        requires ux * ux + uy * uy + uz * uz <= 1_002_000,
    ;
    assert(rf * rf <= 998_001 * (radius * radius)) by (nonlinear_arith)
        requires rf == radius * frac, 0 <= radius, 0 <= frac <= 999,
    ;
    assert(1_002_000 * (rf * rf) <= 1_000_000_000_000 * (radius * radius))
        by (nonlinear_arith)
        requires rf * rf <= 998_001 * (radius * radius), 0 <= radius * radius,
    ;
    assert(0 <= radius * radius) by (nonlinear_arith);
    assert(s <= radius * radius) by (nonlinear_arith)
        requires s * 1_000_000_000_000 <= 1_000_000_000_000 * (radius * radius),
    ;
}

impl Tree {
    /// Seed a simulation from an explicit attractor cloud: one root tip
    /// grows a single step upward from `start` and its segment is
    /// rasterized at the starting thickness.
    pub fn from_attractors(attractors: Vec<V3>, start: V3, vol: &mut Volume) -> (t: Tree)
        requires
            old(vol).wf(),
            18 <= old(vol).side(),
            safe_point(start, old(vol).side()),
            attractors@.len() <= 1_000_000,
            forall|j: int| 0 <= j < attractors@.len()
                ==> (#[trigger] attractors@[j]).in_box(-3_000_000, 3_000_000),
        ensures
            final(vol).wf(),
            final(vol).side() == old(vol).side(),
            t.wf(old(vol).side()),
            t.leaves@ == attractors@,
            t.branches@.len() == 1,
            t.branches@[0].pos == tip_of(start, (V3 { x: 0, y: 1000, z: 0 }), old(vol).side()),
            t.branches@[0].leaf == true,
            t.width == START_WIDTH,
            t.done == false,
            final(vol).data@ == thick_spec(
                old(vol).data@, old(vol).side(), start,
                tip_of(start, (V3 { x: 0, y: 1000, z: 0 }), old(vol).side()), 6, BRANCH_COLOR),
    {
        let ghost size = old(vol).side();
        let sz = vol.size();
        let root = GrowthBranch::new(start, V3 { x: 0, y: 1000, z: 0 }, sz);
        proof {
            lemma_safe_margin(start, size, 3);
            lemma_safe_margin(root.pos, size, 3);
        }
        draw_thick_segment(vol, start, root.pos, 6, BRANCH_COLOR);
        let mut branches: Vec<GrowthBranch> = Vec::new();
        branches.push(root);
        Tree { leaves: attractors, branches, width: START_WIDTH, done: false }
    }

    /// Seed a simulation with `count` attractors sampled at random inside
    /// the sphere of `radius` around `center` (canopy target), a root tip
    /// at `start`, and the first segment rasterized. The attractor cloud
    /// is random; everything ensured holds of every outcome.
    pub fn new(center: V3, radius: i64, count: usize, start: V3, vol: &mut Volume) -> (t: Tree)
        requires
            old(vol).wf(),
            18 <= old(vol).side(),
            safe_point(start, old(vol).side()),
            center.in_box(-2_000_000, 2_000_000),
            0 <= radius <= 500_000,
            count <= 1_000_000,
        ensures
            final(vol).wf(),
            final(vol).side() == old(vol).side(),
            t.wf(old(vol).side()),
            t.leaves@.len() == count,
            forall|j: int| 0 <= j < t.leaves@.len()
                ==> dist2(#[trigger] t.leaves@[j], center) <= radius * radius,
            t.branches@.len() == 1,
            t.branches@[0].pos == tip_of(start, (V3 { x: 0, y: 1000, z: 0 }), old(vol).side()),
            t.branches@[0].leaf == true,
            t.width == START_WIDTH,
            t.done == false,
            final(vol).data@ == thick_spec(
                old(vol).data@, old(vol).side(), start,
                tip_of(start, (V3 { x: 0, y: 1000, z: 0 }), old(vol).side()), 6, BRANCH_COLOR),
    {
        let mut attractors: Vec<V3> = Vec::new();
        let mut i: usize = 0;
        while i < count
            invariant
                i <= count,
                count <= 1_000_000,
                center.in_box(-2_000_000, 2_000_000),
                0 <= radius <= 500_000,
                attractors@.len() == i,
                forall|j: int| 0 <= j < attractors@.len()
                    ==> (#[trigger] attractors@[j]).in_box(-3_000_000, 3_000_000),
                forall|j: int| 0 <= j < attractors@.len()
                    ==> dist2(#[trigger] attractors@[j], center) <= radius * radius,
            decreases count - i,
        {
            let r0: u32 = rand::random();
            let r1: u32 = rand::random();
            let r2: u32 = rand::random();
            let r3: u32 = rand::random();
            let p = sample_attractor(center, radius, r0, r1, r2, r3);
            attractors.push(p);
            i = i + 1;
        }
        Tree::from_attractors(attractors, start, vol)
    }
}

/// First index among the first `k` positions with minimal squared
/// distance to `a` (ties keep the earlier index).
pub open spec fn nearest_in(poss: Seq<V3>, a: V3, k: int) -> int
    decreases k,
{
    if k <= 1 {
        0
    } else {
        let p = nearest_in(poss, a, k - 1);
        if dist2(a, poss[k - 1]) < dist2(a, poss[p]) {
            k - 1
        } else {
            p
        }
    }
}

proof fn lemma_nearest_in_range(poss: Seq<V3>, a: V3, k: int)
    requires
        1 <= k <= poss.len(),
    ensures
        0 <= nearest_in(poss, a, k) < k,
    decreases k,
{
    if k > 1 {
        lemma_nearest_in_range(poss, a, k - 1);
    }
}

/// The first branch tip (by index) nearest to `a`.
#[verifier::loop_isolation(false)]
fn nearest_index(poss: &Vec<V3>, a: V3) -> (r: usize)
    requires
        1 <= poss@.len(),
        a.in_box(-3_000_000, 3_000_000),
        forall|q: int| 0 <= q < poss@.len() ==> (#[trigger] poss@[q]).in_box(-2_000_000, 2_000_000),
    ensures
        r == nearest_in(poss@, a, poss@.len() as int),
        r < poss@.len(),
{
    proof {
        lemma_nearest_in_range(poss@, a, poss@.len() as int);
    }
    let mut best: usize = 0;
    let mut bestd = distance_squared(a, poss[0]);
    let mut j: usize = 1;
    while j < poss.len()
        invariant
            1 <= j <= poss@.len(),
            best == nearest_in(poss@, a, j as int),
            best < j,
            bestd == dist2(a, poss@[best as int]),
        decreases poss@.len() - j,
    {
        let d = distance_squared(a, poss[j]);
        if d < bestd {
            best = j;
            bestd = d;
        }
        j = j + 1;
    }
    best
}


/// The tip positions of a branch list.
pub open spec fn tips(branches: Seq<GrowthBranch>) -> Seq<V3> {
    Seq::new(branches.len(), |j: int| branches[j].pos)
}

/// Difference vector pointing from tip `p` toward attractor `a`.
pub open spec fn toward(a: V3, p: V3) -> V3 {
    V3 { x: (a.x - p.x) as i64, y: (a.y - p.y) as i64, z: (a.z - p.z) as i64 }
}

/// The attraction directions tip `j` gathers from the first `k`
/// surviving attractors: one normalized direction per attractor whose
/// nearest tip is `j`, in attractor order.
pub open spec fn gathered(ks: Seq<V3>, poss: Seq<V3>, j: int, k: int) -> Seq<V3>
    decreases k,
{
    if k <= 0 {
        Seq::empty()
    } else {
        let p = gathered(ks, poss, j, k - 1);
        if nearest_in(poss, ks[k - 1], poss.len() as int) == j {
            p.push(normalize_spec(toward(ks[k - 1], poss[j])))
        } else {
            p
        }
    }
}

/// Tip `j` advances this iteration: at least one surviving attractor has
/// it as its nearest tip.
pub open spec fn advances(ks: Seq<V3>, poss: Seq<V3>, j: int) -> bool {
    gathered(ks, poss, j, ks.len() as int).len() > 0
}

/// Heading of the child that tip `j` spawns: the renormalized mean of
/// the tip's own heading and everything it gathered.
pub open spec fn child_dir(
    branches: Seq<GrowthBranch>, ks: Seq<V3>, poss: Seq<V3>, j: int,
) -> V3 {
    next_dir_spec(branches[j].dir, gathered(ks, poss, j, ks.len() as int))
}

/// Position of the child that tip `j` spawns: one step from the parent.
pub open spec fn child_pos(
    branches: Seq<GrowthBranch>, ks: Seq<V3>, poss: Seq<V3>, j: int, size: int,
) -> V3 {
    tip_of(poss[j], child_dir(branches, ks, poss, j), size)
}

/// The indices of the advancing tips among the first `j`, in order.
pub open spec fn advanced_idxs(ks: Seq<V3>, poss: Seq<V3>, j: int) -> Seq<int>
    decreases j,
{
    if j <= 0 {
        Seq::empty()
    } else {
        let p = advanced_idxs(ks, poss, j - 1);
        if advances(ks, poss, j - 1) {
            p.push(j - 1)
        } else {
            p
        }
    }
}

proof fn lemma_advanced_idxs_range(ks: Seq<V3>, poss: Seq<V3>, j: int)
    requires
        0 <= j,
    ensures
        advanced_idxs(ks, poss, j).len() <= j,
        forall|q: int| 0 <= q < advanced_idxs(ks, poss, j).len()
            ==> 0 <= #[trigger] advanced_idxs(ks, poss, j)[q] < j,
    decreases j,
{
    if j > 0 {
        lemma_advanced_idxs_range(ks, poss, j - 1);
    }
}

/// The grid after rasterizing, in index order, the one-step segments of
/// the first `j` advancing tips at thickness `w` voxels.
pub open spec fn grow_raster(
    branches: Seq<GrowthBranch>, ks: Seq<V3>, poss: Seq<V3>, j: int,
    grid: Seq<u16>, size: int, w: int,
) -> Seq<u16>
    decreases j,
{
    if j <= 0 {
        grid
    } else {
        let g = grow_raster(branches, ks, poss, j - 1, grid, size, w);
        if advances(ks, poss, j - 1) {
            thick_spec(g, size, poss[j - 1], child_pos(branches, ks, poss, j - 1, size),
                w, BRANCH_COLOR)
        } else {
            g
        }
    }
}

/// A clamped tip is always a safe point.
proof fn lemma_tip_safe(from: V3, dir: V3, size: int)
    requires
        18 <= size <= 1024,
    ensures
        safe_point(tip_of(from, dir, size), size),
{
    assert(8000 <= crate::geom::clamp_spec(from.x + dir.x, 8000, (size - 9) * 1000)
        <= (size - 9) * 1000);
    assert(8000 <= crate::geom::clamp_spec(from.y + dir.y, 8000, (size - 9) * 1000)
        <= (size - 9) * 1000);
    assert(8000 <= crate::geom::clamp_spec(from.z + dir.z, 8000, (size - 9) * 1000)
        <= (size - 9) * 1000);
}

/// Rasterizing the new segments keeps the grid's length and writes only
/// the branch color.
pub proof fn lemma_grow_raster_frame(
    branches: Seq<GrowthBranch>, ks: Seq<V3>, poss: Seq<V3>, j: int,
    grid: Seq<u16>, size: int, w: int,
)
    requires
        grid.len() == size * size * size,
        18 <= size <= 1024,
        0 <= w <= 16,
        0 <= j <= branches.len(),
        poss == tips(branches),
        forall|q: int| 0 <= q < branches.len() ==> (#[trigger] branches[q]).wf(size),
    ensures
        grow_raster(branches, ks, poss, j, grid, size, w).len() == grid.len(),
        forall|idx: int| 0 <= idx < grid.len()
            ==> grow_raster(branches, ks, poss, j, grid, size, w)[idx] == grid[idx]
                || grow_raster(branches, ks, poss, j, grid, size, w)[idx] == BRANCH_COLOR,
    decreases j,
{
    if j > 0 {
        lemma_grow_raster_frame(branches, ks, poss, j - 1, grid, size, w);
        if advances(ks, poss, j - 1) {
            let g = grow_raster(branches, ks, poss, j - 1, grid, size, w);
            let cp = child_pos(branches, ks, poss, j - 1, size);
            lemma_tip_safe(poss[j - 1], child_dir(branches, ks, poss, j - 1), size);
            lemma_safe_margin(poss[j - 1], size, w / 2);
            lemma_safe_margin(cp, size, w / 2);
            lemma_thick_frame(g, size, poss[j - 1], cp, w, BRANCH_COLOR,
                thick_w(w) * thick_w(w));
            crate::raster::lemma_thick_len(g, size, poss[j - 1], cp, w, BRANCH_COLOR,
                thick_w(w) * thick_w(w));
        }
    }
}

impl Tree {
    /// The attractors that survive this iteration's pruning.
    pub open spec fn surviving(self) -> Seq<V3> {
        pruned(self.leaves@, self.branches@, self.leaves@.len() as int)
    }

    /// The whole-voxel thickness segments are rasterized at this
    /// iteration.
    pub open spec fn step_width(self) -> int {
        self.width as int / 1000
    }

    /// One space-colonization iteration.
    ///
    /// A finished simulation is a no-op. Otherwise: once tapering has
    /// crossed its floor, leaf clusters are placed and the simulation is
    /// marked done; every attractor within reach of a tip is consumed
    /// (`pruned` says exactly which survive, and the cloud never grows);
    /// each surviving attractor points its nearest tip toward itself
    /// (`gathered`); every tip that gathered at least one direction
    /// advances by one renormalized step (`child_dir` / `child_pos`), its
    /// segment rasterized at the current thickness (`grow_raster`); and
    /// the thickness tapers by one step. Existing tips never move.
    #[verifier::rlimit(100)]
    #[verifier::loop_isolation(false)]
    pub fn grow(&mut self, vol: &mut Volume)
        requires
            old(vol).wf(),
            18 <= old(vol).side(),
            old(self).wf(old(vol).side()),
        ensures
            final(vol).wf(),
            final(vol).side() == old(vol).side(),
            final(self).wf(old(vol).side()),
            old(self).done ==> *final(self) == *old(self)
                && final(vol).data@ == old(vol).data@,
            !old(self).done ==> final(self).done == (old(self).width < WIDTH_FLOOR),
            !old(self).done ==> final(self).width == (if old(self).width >= TAPER_STEP {
                old(self).width - TAPER_STEP
            } else {
                0int
            }),
            !old(self).done ==> final(self).leaves@ == old(self).surviving(),
            !old(self).done ==> final(self).leaves@.len() <= old(self).leaves@.len(),
            !old(self).done ==> final(self).branches@.len() == old(self).branches@.len()
                + advanced_idxs(old(self).surviving(), tips(old(self).branches@),
                    old(self).branches@.len() as int).len(),
            !old(self).done ==> forall|j: int| 0 <= j < old(self).branches@.len()
                ==> (#[trigger] final(self).branches@[j]).pos == old(self).branches@[j].pos
                    && final(self).branches@[j].dir == old(self).branches@[j].dir
                    && final(self).branches@[j].leaf == (if advances(old(self).surviving(),
                        tips(old(self).branches@), j) {
                        false
                    } else {
                        old(self).branches@[j].leaf
                    }),
            !old(self).done ==> forall|q: int|
                old(self).branches@.len() <= q < final(self).branches@.len()
                ==> {
                    let aj = advanced_idxs(old(self).surviving(), tips(old(self).branches@),
                        old(self).branches@.len() as int)[q - old(self).branches@.len()];
                    &&& (#[trigger] final(self).branches@[q]).pos == child_pos(
                        old(self).branches@, old(self).surviving(), tips(old(self).branches@),
                        aj, old(vol).side())
                    &&& final(self).branches@[q].dir == child_dir(
                        old(self).branches@, old(self).surviving(), tips(old(self).branches@),
                        aj)
                    &&& final(self).branches@[q].leaf == true
                },
            !old(self).done ==> final(vol).data@ == grow_raster(
                old(self).branches@,
                old(self).surviving(),
                tips(old(self).branches@),
                old(self).branches@.len() as int,
                (if old(self).width < WIDTH_FLOOR {
                    leaves_spec(old(self).branches@, old(self).branches@.len() as int,
                        old(vol).data@, old(vol).side())
                } else {
                    old(vol).data@
                }),
                old(vol).side(),
                old(self).step_width()),
            !old(self).done ==> forall|idx: int| 0 <= idx < old(vol).data@.len()
                ==> final(vol).data@[idx] == old(vol).data@[idx]
                    || final(vol).data@[idx] == BRANCH_COLOR
                    || final(vol).data@[idx] == LEAF_COLOR,
    {
        if self.done {
            return;
        }
        let ghost size = old(vol).side();
        let ghost g0 = old(vol).data@;
        let ghost t0 = *old(self);
        let sz = vol.size();
        if self.width < WIDTH_FLOOR {
            self.create_leaves(vol);
            self.done = true;
            proof {
                lemma_leaves_frame(self.branches@, self.branches@.len() as int, g0, size);
            }
        }
        let ghost g1 = vol.data@;
        let ghost ks = t0.surviving();
        let ghost pos0 = tips(t0.branches@);
        let na = self.leaves.len();
        let nb = self.branches.len();
        let mut kept: Vec<V3> = Vec::new();
        let mut i: usize = 0;
        while i < na
            invariant
                i <= na,
                kept@ == pruned(t0.leaves@, t0.branches@, i as int),
                kept@.len() <= i,
                forall|q: int| 0 <= q < kept@.len()
                    ==> (#[trigger] kept@[q]).in_box(-3_000_000, 3_000_000),
                self.leaves@ == t0.leaves@,
                self.branches@ == t0.branches@,
            decreases na - i,
        {
            proof {
                lemma_pruning_monotone(t0.leaves@, t0.branches@, i as int);
            }
            let a = self.leaves[i];
            let mut keep = true;
            let mut j: usize = 0;
            while j < nb
                invariant
                    j <= nb,
                    keep == (forall|q: int| 0 <= q < j
                        ==> dist2(a, (#[trigger] t0.branches@[q]).pos) > REACH_SQ as int),
                decreases nb - j,
            {
                let d2v = distance_squared(a, self.branches[j].pos);
                if d2v <= (REACH_SQ as u64) {
                    keep = false;
                }
                j = j + 1;
            }
            if keep {
                kept.push(a);
            }
            i = i + 1;
        }
        proof {
            lemma_pruning_monotone(t0.leaves@, t0.branches@, na as int);
        }
        self.leaves = kept;
        let ghost wsp = t0.step_width();
        if nb > 0 {
            let mut poss: Vec<V3> = Vec::new();
            let mut j: usize = 0;
            while j < nb
                invariant
                    j <= nb,
                    poss@.len() == j,
                    forall|q: int| 0 <= q < j ==> poss@[q] == (#[trigger] t0.branches@[q]).pos,
                    self.branches@ == t0.branches@,
                    self.leaves@ == ks,
                decreases nb - j,
            {
                let p = self.branches[j].pos;
                poss.push(p);
                j = j + 1;
            }
            proof {
                assert(poss@ =~= pos0);
                assert forall|q: int| 0 <= q < poss@.len()
                    implies (#[trigger] poss@[q]).in_box(-2_000_000, 2_000_000) by {
                    assert(t0.branches@[q].wf(size));
                }
            }
            let wvox = ((self.width as u64) / 1000) as usize;
            proof {
                assert(wvox as int == wsp);
            }
            let mut walked: Vec<GrowthBranch> = Vec::new();
            let mut fresh: Vec<GrowthBranch> = Vec::new();
            let mut j: usize = 0;
            while j < nb
                invariant
                    j <= nb,
                    self.branches@.len() == nb - j,
                    forall|q: int| 0 <= q < nb - j
                        ==> (#[trigger] self.branches@[q]) == t0.branches@[j + q],
                    self.done == (t0.width < WIDTH_FLOOR),
                    self.width == t0.width,
                    self.leaves@ == ks,
                    walked@.len() == j,
                    self.leaves@.len() <= 1_000_000,
                    forall|q: int| 0 <= q < self.leaves@.len()
                        ==> (#[trigger] self.leaves@[q]).in_box(-3_000_000, 3_000_000),
                    forall|q: int| 0 <= q < j
                        ==> (#[trigger] walked@[q]).pos == t0.branches@[q].pos
                            && walked@[q].dir == t0.branches@[q].dir
                            && walked@[q].wf(size)
                            && walked@[q].leaf == (if advances(ks, pos0, q) {
                                false
                            } else {
                                t0.branches@[q].leaf
                            }),
                    fresh@.len() == advanced_idxs(ks, pos0, j as int).len(),
                    forall|q: int| 0 <= q < fresh@.len()
                        ==> (#[trigger] fresh@[q]).wf(size)
                            && fresh@[q].leaf == true
                            && fresh@[q].next_dirs@.len() == 0
                            && fresh@[q].dir == child_dir(t0.branches@, ks, pos0,
                                advanced_idxs(ks, pos0, j as int)[q])
                            && fresh@[q].pos == child_pos(t0.branches@, ks, pos0,
                                advanced_idxs(ks, pos0, j as int)[q], size),
                    vol.wf(),
                    vol.side() == size,
                    wvox <= 16,
                    vol.data@ == grow_raster(t0.branches@, ks, pos0, j as int, g1, size, wsp),
                decreases nb - j,
            {
                let mut b = self.branches.remove(0);
                let ghost bpos = b.pos;
                let ghost bdir = b.dir;
                proof {
                    assert(bpos == pos0[j as int]);
                }
                let mut i2: usize = 0;
                while i2 < self.leaves.len()
                    invariant
                        i2 <= self.leaves@.len(),
                        self.leaves@.len() <= 1_000_000,
                        forall|q: int| 0 <= q < self.leaves@.len()
                            ==> (#[trigger] self.leaves@[q]).in_box(-3_000_000, 3_000_000),
                        b.pos == bpos,
                        b.dir == bdir,
                        b.leaf == t0.branches@[j as int].leaf,
                        b.next_dirs@ == gathered(ks, pos0, j as int, i2 as int),
                        b.next_dirs@.len() <= i2,
                        forall|q: int| 0 <= q < b.next_dirs@.len()
                            ==> (#[trigger] b.next_dirs@[q]).in_box(-2000, 2000),
                    decreases self.leaves@.len() - i2,
                {
                    let a = self.leaves[i2];
                    let ni = nearest_index(&poss, a);
                    if ni == j {
                        let diff = a.sub(poss[j]);
                        proof {
                            assert(diff == toward(ks[i2 as int], pos0[j as int]));
                        }
                        let d = normalize(diff);
                        b.next_dirs.push(d);
                    }
                    i2 = i2 + 1;
                }
                proof {
                    assert(b.next_dirs@ == gathered(ks, pos0, j as int, ks.len() as int));
                }
                if b.next_dirs.len() > 0 {
                    let child = b.next(sz);
                    let ghost gprev = vol.data@;
                    proof {
                        assert(child.dir == child_dir(t0.branches@, ks, pos0, j as int));
                        assert(child.pos == child_pos(t0.branches@, ks, pos0, j as int, size));
                        lemma_safe_margin(b.pos, size, (wvox / 2) as int);
                        lemma_safe_margin(child.pos, size, (wvox / 2) as int);
                    }
                    draw_thick_segment(vol, b.pos, child.pos, wvox, BRANCH_COLOR);
                    proof {
                        lemma_advanced_idxs_range(ks, pos0, j as int);
                        assert(vol.data@ == grow_raster(
                            t0.branches@, ks, pos0, j as int + 1, g1, size, wsp));
                    }
                    fresh.push(child);
                } else {
                    proof {
                        lemma_advanced_idxs_range(ks, pos0, j as int);
                        assert(!advances(ks, pos0, j as int));
                    }
                }
                walked.push(b);
                j = j + 1;
            }
            self.branches = walked;
            let ghost nf = fresh@.len();
            let ghost f0 = fresh@;
            let mut q: usize = 0;
            while q < fresh.len()
                invariant
                    q <= nf,
                    self.done == (t0.width < WIDTH_FLOOR),
                    self.width == t0.width,
                    self.leaves@ == ks,
                    self.leaves@.len() <= 1_000_000,
                    forall|r2: int| 0 <= r2 < self.leaves@.len()
                        ==> (#[trigger] self.leaves@[r2]).in_box(-3_000_000, 3_000_000),
                    fresh@ == f0,
                    nf == f0.len(),
                    self.branches@.len() == nb + q,
                    forall|r2: int| 0 <= r2 < nb
                        ==> (#[trigger] self.branches@[r2]).pos == t0.branches@[r2].pos
                            && self.branches@[r2].dir == t0.branches@[r2].dir
                            && self.branches@[r2].wf(size)
                            && self.branches@[r2].leaf == (if advances(ks, pos0, r2) {
                                false
                            } else {
                                t0.branches@[r2].leaf
                            }),
                    forall|r2: int| nb <= r2 < self.branches@.len()
                        ==> (#[trigger] self.branches@[r2]).wf(size)
                            && self.branches@[r2].pos == f0[r2 - nb].pos
                            && self.branches@[r2].dir == f0[r2 - nb].dir
                            && self.branches@[r2].leaf == f0[r2 - nb].leaf,
                    forall|r2: int| 0 <= r2 < nf ==> (#[trigger] f0[r2]).wf(size),
                decreases nf - q,
            {
                let c = fresh[q].pos;
                let cd = fresh[q].dir;
                let cl = fresh[q].leaf;
                let nbr = GrowthBranch { pos: c, dir: cd, next_dirs: Vec::new(), leaf: cl };
                self.branches.push(nbr);
                q = q + 1;
            }
            proof {
                lemma_grow_raster_frame(t0.branches@, ks, pos0, nb as int, g1, size, wsp);
            }
        }
        if self.width >= TAPER_STEP {
            self.width = self.width - TAPER_STEP;
        } else {
            self.width = 0;
        }
    }
}

} // verus!
