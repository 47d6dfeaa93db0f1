//! Stateless rasterization primitives on a voxel volume: digital 3D lines,
//! thick segments (a bundle of parallel offset lines), leaf-cluster stamps
//! and an occlusion weight for placement decisions.

use vstd::prelude::*;

use crate::geom::{
    abs_i64, abs_sp, lemma_muldiv_between, lemma_round_monotone, muldiv, muldiv_i64, round_milli,
    round_to_cell, V3,
};
use crate::volume::{lemma_vidx_bounds, vidx, Volume};

verus! {

/// Packed color written for branch segments.
pub const BRANCH_COLOR: u16 = 0b1_01010_00111_00011;
/// Packed color written for leaf clusters.
pub const LEAF_COLOR: u16 = 0b1_01001_10100_00101;

/// A milli-voxel point whose coordinates are nonnegative and round into
/// the grid of edge `size`.
pub open spec fn point_in_grid(p: V3, size: int) -> bool {
    &&& 0 <= p.x && round_milli(p.x as int) < size
    &&& 0 <= p.y && round_milli(p.y as int) < size
    &&& 0 <= p.z && round_milli(p.z as int) < size
}

/// Sign of a cell span: -1, 0 or 1.
pub open spec fn csign(a: int) -> int {
    if a > 0 {
        1
    } else if a < 0 {
        -1
    } else {
        0
    }
}

/// Coordinate of `p` on axis `axis` (0, 1, 2 for x, y, z).
pub open spec fn coord(p: V3, axis: int) -> int {
    if axis == 0 {
        p.x as int
    } else if axis == 1 {
        p.y as int
    } else {
        p.z as int
    }
}

/// The driving axis of a line: the axis with the strictly largest
/// absolute delta (x only when it beats both others, else y when it
/// beats z, else z).
pub open spec fn drive(from: V3, to: V3) -> int {
    let ax = abs_sp(to.x - from.x);
    let ay = abs_sp(to.y - from.y);
    let az = abs_sp(to.z - from.z);
    if ax > ay && ax > az {
        0
    } else if ay > az {
        1
    } else {
        2
    }
}

/// Whole-cell span of the driving axis: how many cells separate the two
/// endpoint cells.
pub open spec fn drive_span(from: V3, to: V3) -> int {
    let a = drive(from, to);
    abs_sp(round_milli(coord(to, a)) - round_milli(coord(from, a)))
}

/// Number of single-voxel steps a digital line takes: one per
/// driving-axis cell, and at least one.
pub open spec fn line_steps(from: V3, to: V3) -> int {
    if drive_span(from, to) == 0 {
        1
    } else {
        drive_span(from, to)
    }
}

/// Cell of step `i` on `axis`: the driving axis advances by exactly one
/// cell per step, from the start cell toward the target cell; the other
/// two axes advance by their proportional fraction of the span, rounded
/// to the nearest cell.
pub open spec fn line_cell(from: V3, to: V3, i: int, axis: int) -> int {
    if axis == drive(from, to) {
        round_milli(coord(from, axis))
            + i * csign(round_milli(coord(to, axis)) - round_milli(coord(from, axis)))
    } else {
        round_milli(
            coord(from, axis) + muldiv(coord(to, axis) - coord(from, axis), i,
                line_steps(from, to)))
    }
}

/// The grid after plotting step `i` of the line.
pub open spec fn line_write(
    grid: Seq<u16>, size: int, from: V3, to: V3, i: int, color: u16,
) -> Seq<u16> {
    grid.update(
        vidx(
            size,
            line_cell(from, to, i, 0),
            line_cell(from, to, i, 1),
            line_cell(from, to, i, 2),
        ),
        color,
    )
}

/// The grid after plotting steps `0 ..= i` of the digital line from `from`
/// to `to`.
pub open spec fn line_spec(
    grid: Seq<u16>, size: int, from: V3, to: V3, i: int, color: u16,
) -> Seq<u16>
    decreases i,
{
    if i <= 0 {
        line_write(grid, size, from, to, 0, color)
    } else {
        line_write(line_spec(grid, size, from, to, i - 1, color), size, from, to, i, color)
    }
}

/// Every step of an in-grid line rounds to a cell inside the grid,
/// between the two endpoint cells on each axis.
pub proof fn lemma_line_cell_in_grid(from: V3, to: V3, size: int, i: int)
    requires
        point_in_grid(from, size),
        point_in_grid(to, size),
        0 <= i <= line_steps(from, to),
    ensures
        0 <= line_cell(from, to, i, 0) < size,
        0 <= line_cell(from, to, i, 1) < size,
        0 <= line_cell(from, to, i, 2) < size,
{
    let n = line_steps(from, to);
    lemma_muldiv_between(to.x - from.x, i, n);
    lemma_muldiv_between(to.y - from.y, i, n);
    lemma_muldiv_between(to.z - from.z, i, n);
    lemma_round_monotone(0, from.x + muldiv(to.x - from.x, i, n));
    lemma_round_monotone(from.x + muldiv(to.x - from.x, i, n),
        if to.x >= from.x { to.x as int } else { from.x as int });
    lemma_round_monotone(0, from.y + muldiv(to.y - from.y, i, n));
    lemma_round_monotone(from.y + muldiv(to.y - from.y, i, n),
        if to.y >= from.y { to.y as int } else { from.y as int });
    lemma_round_monotone(0, from.z + muldiv(to.z - from.z, i, n));
    lemma_round_monotone(from.z + muldiv(to.z - from.z, i, n),
        if to.z >= from.z { to.z as int } else { from.z as int });
    assert(round_milli(0) == 0);
}

/// A plotted line keeps the grid's length.
pub proof fn lemma_line_spec_len(
    grid: Seq<u16>, size: int, from: V3, to: V3, i: int, color: u16,
)
    requires
        grid.len() == size * size * size,
        point_in_grid(from, size),
        point_in_grid(to, size),
        i <= line_steps(from, to),
    ensures
        line_spec(grid, size, from, to, i, color).len() == grid.len(),
    decreases i,
{
    if i <= 0 {
        lemma_line_cell_in_grid(from, to, size, 0);
        lemma_vidx_bounds(
            size,
            line_cell(from, to, 0, 0),
            line_cell(from, to, 0, 1),
            line_cell(from, to, 0, 2),
        );
    } else {
        lemma_line_spec_len(grid, size, from, to, i - 1, color);
        lemma_line_cell_in_grid(from, to, size, i);
        lemma_vidx_bounds(
            size,
            line_cell(from, to, i, 0),
            line_cell(from, to, i, 1),
            line_cell(from, to, i, 2),
        );
    }
}

/// Whatever a line writes, it writes its own color: a cell plotted at any
/// step `j <= i` still holds `color` after step `i`.
pub proof fn lemma_line_cell_colored(
    grid: Seq<u16>, size: int, from: V3, to: V3, i: int, j: int, color: u16,
)
    requires
        grid.len() == size * size * size,
        point_in_grid(from, size),
        point_in_grid(to, size),
        0 <= j <= i <= line_steps(from, to),
    ensures
        line_spec(grid, size, from, to, i, color)[
            vidx(size, line_cell(from, to, j, 0), line_cell(from, to, j, 1),
                line_cell(from, to, j, 2))
        ] == color,
    decreases i,
{
    lemma_line_cell_in_grid(from, to, size, j);
    lemma_line_cell_in_grid(from, to, size, i);
    lemma_vidx_bounds(
        size, line_cell(from, to, j, 0), line_cell(from, to, j, 1), line_cell(from, to, j, 2));
    lemma_vidx_bounds(
        size, line_cell(from, to, i, 0), line_cell(from, to, i, 1), line_cell(from, to, i, 2));
    lemma_line_spec_len(grid, size, from, to, i, color);
    if i <= 0 {
    } else if j == i {
        lemma_line_spec_len(grid, size, from, to, i - 1, color);
    } else {
        lemma_line_cell_colored(grid, size, from, to, i - 1, j, color);
        lemma_line_spec_len(grid, size, from, to, i - 1, color);
    }
}

/// Both endpoints of a line are covered: the cells of `from` and of `to`
/// hold the line color after the full line is plotted.
pub proof fn lemma_line_endpoints(
    grid: Seq<u16>, size: int, from: V3, to: V3, color: u16,
)
    requires
        grid.len() == size * size * size,
        point_in_grid(from, size),
        point_in_grid(to, size),
    ensures
        line_spec(grid, size, from, to, line_steps(from, to), color)[
            vidx(size, round_milli(from.x as int), round_milli(from.y as int),
                round_milli(from.z as int))
        ] == color,
        line_spec(grid, size, from, to, line_steps(from, to), color)[
            vidx(size, round_milli(to.x as int), round_milli(to.y as int),
                round_milli(to.z as int))
        ] == color,
{
    let n = line_steps(from, to);
    lemma_muldiv_between(to.x - from.x, 0, n);
    lemma_muldiv_between(to.y - from.y, 0, n);
    lemma_muldiv_between(to.z - from.z, 0, n);
    assert(line_cell(from, to, 0, 0) == round_milli(from.x as int));
    assert(line_cell(from, to, 0, 1) == round_milli(from.y as int));
    assert(line_cell(from, to, 0, 2) == round_milli(from.z as int));
    lemma_line_cell_colored(grid, size, from, to, n, 0, color);
    lemma_muldiv_between(to.x - from.x, n, n);
    lemma_muldiv_between(to.y - from.y, n, n);
    lemma_muldiv_between(to.z - from.z, n, n);
    assert(line_cell(from, to, n, 0) == round_milli(to.x as int));
    assert(line_cell(from, to, n, 1) == round_milli(to.y as int));
    assert(line_cell(from, to, n, 2) == round_milli(to.z as int));
    lemma_line_cell_colored(grid, size, from, to, n, n, color);
}

/// No holes along the driving axis: every cell between the two endpoint
/// cells of the driving axis (inclusive) is plotted with the line color,
/// at the step whose distance from the start cell reaches it.
pub proof fn lemma_line_driving_covered(
    grid: Seq<u16>, size: int, from: V3, to: V3, color: u16, c: int,
)
    requires
        grid.len() == size * size * size,
        point_in_grid(from, size),
        point_in_grid(to, size),
        round_milli(coord(from, drive(from, to))) <= round_milli(coord(to, drive(from, to)))
            ==> round_milli(coord(from, drive(from, to))) <= c
                <= round_milli(coord(to, drive(from, to))),
        round_milli(coord(to, drive(from, to))) <= round_milli(coord(from, drive(from, to)))
            ==> round_milli(coord(to, drive(from, to))) <= c
                <= round_milli(coord(from, drive(from, to))),
    ensures
        ({
            let i = abs_sp(c - round_milli(coord(from, drive(from, to))));
            &&& 0 <= i <= line_steps(from, to)
            &&& line_cell(from, to, i, drive(from, to)) == c
            &&& line_spec(grid, size, from, to, line_steps(from, to), color)[
                vidx(size, line_cell(from, to, i, 0), line_cell(from, to, i, 1),
                    line_cell(from, to, i, 2))
            ] == color
        }),
{
    let a = drive(from, to);
    let fc = round_milli(coord(from, a));
    let tc = round_milli(coord(to, a));
    let i = abs_sp(c - fc);
    assert(line_cell(from, to, i, a) == fc + i * csign(tc - fc));
    assert(fc + i * csign(tc - fc) == c);
    lemma_line_cell_colored(grid, size, from, to, line_steps(from, to), i, color);
}

/// Plot a single-voxel digital line from `from` to `to`.
///
/// The axis with the largest absolute delta drives: it advances by
/// exactly one voxel per step, from the start cell through every cell up
/// to and including the target cell, while the other two axes advance by
/// their proportional fraction of the span, each step rounded to the
/// nearest voxel.
pub fn draw_line(vol: &mut Volume, from: V3, to: V3, color: u16)
    requires
        old(vol).wf(),
        point_in_grid(from, old(vol).side()),
        point_in_grid(to, old(vol).side()),
    ensures
        final(vol).wf(),
        final(vol).side() == old(vol).side(),
        final(vol).data@ == line_spec(
            old(vol).data@, old(vol).side(), from, to, line_steps(from, to), color),
{
    let ghost size = old(vol).side();
    proof {
        lemma_point_bounds(from, size);
        lemma_point_bounds(to, size);
    }
    let dx = to.x - from.x;
    let dy = to.y - from.y;
    let dz = to.z - from.z;
    let ax = abs_i64(dx);
    let ay = abs_i64(dy);
    let az = abs_i64(dz);
    let axis: usize = if ax > ay && ax > az {
        0
    } else if ay > az {
        1
    } else {
        2
    };
    proof {
        assert(axis as int == drive(from, to));
    }
    let fdm = if axis == 0 { from.x } else if axis == 1 { from.y } else { from.z };
    let tdm = if axis == 0 { to.x } else if axis == 1 { to.y } else { to.z };
    let fdc = round_to_cell(fdm);
    let tdc = round_to_cell(tdm);
    let span = if tdc >= fdc { tdc - fdc } else { fdc - tdc };
    let n: u64 = if span == 0 { 1 } else { span };
    proof {
        assert(span == drive_span(from, to));
        assert(n == line_steps(from, to));
    }
    // Step 0 covers the start cell.
    let sx = step_cell(from, to, 0, n, 0, Ghost(size));
    let sy = step_cell(from, to, 0, n, 1, Ghost(size));
    let sz2 = step_cell(from, to, 0, n, 2, Ghost(size));
    vol.set(sx, sy, sz2, color);
    let mut i: u64 = 0;
    while i < n
        invariant
            vol.wf(),
            vol.side() == size,
            i <= n,
            n == line_steps(from, to),
            n <= 2_000_000,
            point_in_grid(from, size),
            point_in_grid(to, size),
            from.in_box(0, 1_024_000),
            to.in_box(0, 1_024_000),
            vol.data@ == line_spec(old(vol).data@, size, from, to, i as int, color),
        decreases n - i,
    {
        i = i + 1;
        let cx = step_cell(from, to, i, n, 0, Ghost(size));
        let cy = step_cell(from, to, i, n, 1, Ghost(size));
        let cz = step_cell(from, to, i, n, 2, Ghost(size));
        vol.set(cx, cy, cz, color);
    }
}

/// A point whose cells lie in a grid of edge at most 1024 has coordinates
/// below `1_024_000` milli-voxels.
pub proof fn lemma_point_bounds(p: V3, size: int)
    requires
        point_in_grid(p, size),
        size <= 1024,
    ensures
        p.in_box(0, 1_024_000),
{
    if p.x > size * 1000 {
        lemma_round_monotone(size * 1000, p.x as int);
        crate::geom::lemma_round_shift(0, size);
    }
    if p.y > size * 1000 {
        lemma_round_monotone(size * 1000, p.y as int);
        crate::geom::lemma_round_shift(0, size);
    }
    if p.z > size * 1000 {
        lemma_round_monotone(size * 1000, p.z as int);
        crate::geom::lemma_round_shift(0, size);
    }
}

/// Cell of line step `i` along `axis_sel` (0, 1, 2 for x, y, z), proved
/// to land inside the grid.
fn step_cell(
    from: V3, to: V3, i: u64, n: u64, axis_sel: usize, Ghost(size): Ghost<int>,
) -> (r: usize)
    requires
        point_in_grid(from, size),
        point_in_grid(to, size),
        size <= 1024,
        from.in_box(0, 1_024_000),
        to.in_box(0, 1_024_000),
        1 <= n <= 2_000_000,
        i <= n,
        n == line_steps(from, to),
        axis_sel <= 2,
    ensures
        r == line_cell(from, to, i as int, axis_sel as int),
        0 <= r < size,
{
    proof {
        lemma_line_cell_in_grid(from, to, size, i as int);
    }
    let dx = to.x - from.x;
    let dy = to.y - from.y;
    let dz = to.z - from.z;
    let ax = abs_i64(dx);
    let ay = abs_i64(dy);
    let az = abs_i64(dz);
    let axis: usize = if ax > ay && ax > az {
        0
    } else if ay > az {
        1
    } else {
        2
    };
    proof {
        assert(axis as int == drive(from, to));
    }
    let fromc = if axis_sel == 0 { from.x } else if axis_sel == 1 { from.y } else { from.z };
    let toc = if axis_sel == 0 { to.x } else if axis_sel == 1 { to.y } else { to.z };
    if axis_sel == axis {
        let fc = round_to_cell(fromc);
        let tc = round_to_cell(toc);
        if tc > fc {
            (fc + i) as usize
        } else if tc < fc {
            (fc - i) as usize
        } else {
            fc as usize
        }
    } else {
        proof {
            lemma_muldiv_between(toc - fromc, i as int, n as int);
        }
        let off = muldiv_i64(toc - fromc, i, n);
        let p = fromc + off;
        let c = round_to_cell(p);
        proof {
            lemma_round_monotone(p as int, 1_200_000_000);
        }
        c as usize
    }
}

/// Width of the cross-section grid of a thick segment: `t + 1` rows for
/// even `t` (corners are carved off), `t` rows for odd `t`.
pub open spec fn thick_w(t: int) -> int {
    t + 1 - (t % 2)
}

/// For even thickness the four corners of the cross-section are skipped,
/// approximating a round cross-section.
pub open spec fn thick_skip(t: int, i: int, j: int) -> bool {
    t % 2 == 0 && (if i == 0 { 1int } else { 0 }) + (if j == 0 { 1int } else { 0 })
        + (if i == t { 1int } else { 0 }) + (if j == t { 1int } else { 0 }) >= 2
}

/// A segment endpoint shifted by `o1` and `o2` voxels along the two axes
/// perpendicular to the driving axis (the axis of largest absolute delta
/// of `d`).
pub open spec fn thick_shift(p: V3, d: V3, o1: int, o2: int) -> V3 {
    if abs_sp(d.x as int) < abs_sp(d.y as int) || abs_sp(d.x as int) < abs_sp(d.z as int) {
        if abs_sp(d.y as int) < abs_sp(d.z as int) {
            V3 { x: (p.x + o1 * 1000) as i64, y: (p.y + o2 * 1000) as i64, z: p.z }
        } else {
            V3 { x: (p.x + o1 * 1000) as i64, y: p.y, z: (p.z + o2 * 1000) as i64 }
        }
    } else {
        V3 { x: p.x, y: (p.y + o1 * 1000) as i64, z: (p.z + o2 * 1000) as i64 }
    }
}

/// The grid after drawing the first `k` of the `thick_w(t)^2` offset lines
/// of a thick segment, in row-major cross-section order.
pub open spec fn thick_partial(
    grid: Seq<u16>, size: int, from: V3, to: V3, t: int, color: u16, k: int,
) -> Seq<u16>
    decreases k,
{
    if k <= 0 {
        grid
    } else {
        let w = thick_w(t);
        let i = (k - 1) / w;
        let j = (k - 1) % w;
        let g = thick_partial(grid, size, from, to, t, color, k - 1);
        if thick_skip(t, i, j) {
            g
        } else {
            let d = V3 { x: (to.x - from.x) as i64, y: (to.y - from.y) as i64,
                z: (to.z - from.z) as i64 };
            let sf = thick_shift(from, d, i - t / 2, j - t / 2);
            let st = thick_shift(to, d, i - t / 2, j - t / 2);
            line_spec(g, size, sf, st, line_steps(sf, st), color)
        }
    }
}

/// The grid after drawing a full thick segment: one digital line per
/// non-skipped cross-section offset, centered on the segment axis.
pub open spec fn thick_spec(
    grid: Seq<u16>, size: int, from: V3, to: V3, t: int, color: u16,
) -> Seq<u16> {
    thick_partial(grid, size, from, to, t, color, thick_w(t) * thick_w(t))
}

/// The endpoint has at least `h` whole voxels of room on every side of the
/// grid: shifted copies stay inside.
pub open spec fn margin_ok(p: V3, size: int, h: int) -> bool {
    &&& h * 1000 <= p.x && round_milli(p.x as int) + h < size
    &&& h * 1000 <= p.y && round_milli(p.y as int) + h < size
    &&& h * 1000 <= p.z && round_milli(p.z as int) + h < size
}

/// A point with margin `h` is in the grid, with bounded coordinates.
pub proof fn lemma_margin_bounds(p: V3, size: int, h: int)
    requires
        margin_ok(p, size, h),
        0 <= h,
        size <= 1024,
    ensures
        p.in_box(0, 1_024_000),
        point_in_grid(p, size),
        round_milli(p.x as int) >= h,
        round_milli(p.y as int) >= h,
        round_milli(p.z as int) >= h,
{
    assert(0 <= h * 1000) by (nonlinear_arith)
        requires 0 <= h,
    ;
    lemma_round_monotone(h * 1000, p.x as int);
    lemma_round_monotone(h * 1000, p.y as int);
    lemma_round_monotone(h * 1000, p.z as int);
    crate::geom::lemma_round_shift(0, h);
    lemma_point_bounds(p, size);
}

/// A point with margin `h` shifted by up to `h` voxels stays in the grid.
pub proof fn lemma_shift_in_grid(p: V3, d: V3, size: int, h: int, o1: int, o2: int)
    requires
        margin_ok(p, size, h),
        -h <= o1 <= h,
        -h <= o2 <= h,
        0 <= h <= 1000,
        size <= 1024,
    ensures
        point_in_grid(thick_shift(p, d, o1, o2), size),
{
    lemma_margin_bounds(p, size, h);
    assert(o1 * 1000 >= -h * 1000 && o1 * 1000 <= h * 1000
        && -1_000_000 <= -h * 1000 && h * 1000 <= 1_000_000) by (nonlinear_arith)
        requires -h <= o1 <= h, 0 <= h <= 1000,
    ;
    assert(o2 * 1000 >= -h * 1000 && o2 * 1000 <= h * 1000) by (nonlinear_arith)
        requires -h <= o2 <= h, 0 <= h <= 1000,
    ;
    crate::geom::lemma_round_shift(p.x as int, o1);
    crate::geom::lemma_round_shift(p.y as int, o1);
    crate::geom::lemma_round_shift(p.y as int, o2);
    crate::geom::lemma_round_shift(p.z as int, o2);
}

/// Draw a thick segment: a `thickness x thickness` cross-section of
/// parallel digital lines perpendicular to the dominant axis, with the
/// four corners skipped for even thickness.
#[verifier::rlimit(100)]
pub fn draw_thick_segment(vol: &mut Volume, from: V3, to: V3, thickness: usize, color: u16)
    requires
        old(vol).wf(),
        thickness <= 500,
        margin_ok(from, old(vol).side(), (thickness / 2) as int),
        margin_ok(to, old(vol).side(), (thickness / 2) as int),
    ensures
        final(vol).wf(),
        final(vol).side() == old(vol).side(),
        final(vol).data@ == thick_spec(
            old(vol).data@, old(vol).side(), from, to, thickness as int, color),
{
    let ghost size = old(vol).side();
    let t = thickness;
    let h = t / 2;
    let w = t + 1 - (t % 2);
    proof {
        assert(w == thick_w(t as int));
        assert(w * w <= 501 * 501) by (nonlinear_arith)
            requires w <= 501,
        ;
        lemma_margin_bounds(from, size, h as int);
        lemma_margin_bounds(to, size, h as int);
    }
    let dx = to.x - from.x;
    let dy = to.y - from.y;
    let dz = to.z - from.z;
    let ghost d = V3 { x: dx, y: dy, z: dz };
    let adx = abs_i64(dx);
    let ady = abs_i64(dy);
    let adz = abs_i64(dz);
    let ww = w * w;
    let mut k: usize = 0;
    while k < ww
        invariant
            ww == w * w,
            vol.wf(),
            vol.side() == size,
            k <= ww,
            w == thick_w(t as int),
            t <= 500,
            h == t / 2,
            w <= 501,
            margin_ok(from, size, h as int),
            margin_ok(to, size, h as int),
            d == (V3 { x: (to.x - from.x) as i64, y: (to.y - from.y) as i64,
                z: (to.z - from.z) as i64 }),
            dx == d.x && dy == d.y && dz == d.z,
            adx == abs_sp(d.x as int) && ady == abs_sp(d.y as int) && adz == abs_sp(d.z as int),
            from.in_box(0, 1_024_000),
            to.in_box(0, 1_024_000),
            vol.data@ == thick_partial(old(vol).data@, size, from, to, t as int, color, k as int),
        decreases ww - k,
    {
        let i = k / w;
        let j = k % w;
        proof {
            assert(k == (k / w) * w + k % w && k / w < w && k % w < w) by (nonlinear_arith)
                requires 1 <= w, k < w * w,
            ;
        }
        let skip = (t % 2 == 0) && {
            let mut c: usize = 0;
            if i == 0 { c = c + 1; }
            if j == 0 { c = c + 1; }
            if i == t { c = c + 1; }
            if j == t { c = c + 1; }
            c >= 2
        };
        proof {
            assert(skip == thick_skip(t as int, i as int, j as int));
        }
        if !skip {
            let o1 = (i as i64) - (h as i64);
            let o2 = (j as i64) - (h as i64);
            proof {
                assert(-(h as int) <= o1 <= h as int && -(h as int) <= o2 <= h as int) by {
                    assert(i < w && j < w);
                    assert(w - 1 - h <= h);
                }
                lemma_shift_in_grid(from, d, size, h as int, o1 as int, o2 as int);
                lemma_shift_in_grid(to, d, size, h as int, o1 as int, o2 as int);
            }
            let (sf, st) = if adx < ady || adx < adz {
                if ady < adz {
                    (V3 { x: from.x + o1 * 1000, y: from.y + o2 * 1000, z: from.z },
                     V3 { x: to.x + o1 * 1000, y: to.y + o2 * 1000, z: to.z })
                } else {
                    (V3 { x: from.x + o1 * 1000, y: from.y, z: from.z + o2 * 1000 },
                     V3 { x: to.x + o1 * 1000, y: to.y, z: to.z + o2 * 1000 })
                }
            } else {
                (V3 { x: from.x, y: from.y + o1 * 1000, z: from.z + o2 * 1000 },
                 V3 { x: to.x, y: to.y + o1 * 1000, z: to.z + o2 * 1000 })
            };
            proof {
                assert(sf == thick_shift(from, d, o1 as int, o2 as int));
                assert(st == thick_shift(to, d, o1 as int, o2 as int));
            }
            draw_line(vol, sf, st, color);
        }
        k = k + 1;
    }
}

/// A cross-section offset pair `(a, b)` (in voxels from the segment axis)
/// that the thick segment actually draws a line for.
pub open spec fn offset_used(t: int, a: int, b: int) -> bool {
    let h = t / 2;
    &&& -h <= a <= thick_w(t) - 1 - h
    &&& -h <= b <= thick_w(t) - 1 - h
    &&& !thick_skip(t, a + h, b + h)
}

/// Cross-section symmetry: the set of perpendicular offsets drawn by a
/// thick segment is symmetric about zero, for even and odd thickness
/// alike.
pub proof fn lemma_thick_symmetry(t: int, a: int, b: int)
    requires
        0 <= t,
    ensures
        offset_used(t, a, b) <==> offset_used(t, -a, -b),
{
    let h = t / 2;
    vstd::arithmetic::div_mod::lemma_fundamental_div_mod(t, 2);
    assert(t == 2 * h + t % 2);
    assert(0 <= t % 2 < 2);
}

/// A cluster offset coordinate lying on a face of the 5-cube.
pub open spec fn extremal(o: int) -> bool {
    o == 0 || o == 4
}

/// Offsets within the 5-cube that the leaf cluster colors: any cell with
/// two or more extremal coordinates (the cube's edges and corners) is
/// carved off, approximating a rounded cluster.
pub open spec fn cluster_offset(ox: int, oy: int, oz: int) -> bool {
    &&& 0 <= ox < 5 && 0 <= oy < 5 && 0 <= oz < 5
    &&& (if extremal(ox) { 1int } else { 0 }) + (if extremal(oy) { 1int } else { 0 })
        + (if extremal(oz) { 1int } else { 0 }) < 2
}

/// Whether flat index `idx` lies in the cluster stamped around cell
/// `(cx, cy, cz)` of a grid with edge `size`.
pub open spec fn in_cluster(size: int, cx: int, cy: int, cz: int, idx: int) -> bool {
    cluster_offset(
        idx % size - (cx - 2),
        (idx / size) % size - (cy - 2),
        idx / (size * size) - (cz - 2),
    )
}

/// An offset with two or more extremal coordinates is never colored.
pub proof fn lemma_cluster_carves_edges(ox: int, oy: int, oz: int)
    requires
        (if extremal(ox) { 1int } else { 0 }) + (if extremal(oy) { 1int } else { 0 })
            + (if extremal(oz) { 1int } else { 0 }) >= 2,
    ensures
        !cluster_offset(ox, oy, oz),
{
}

/// Offsets already stamped, in the row-major order the stamp walks:
/// strictly before position `(i, j, k)`.
pub open spec fn offset_before(ox: int, oy: int, oz: int, i: int, j: int, k: int) -> bool {
    ||| ox < i
    ||| (ox == i && oy < j)
    ||| (ox == i && oy == j && oz < k)
}

/// The grid after stamping a leaf cluster around cell `(cx, cy, cz)`:
/// every cluster cell takes `color`, everything else is untouched.
pub open spec fn stamp_spec(
    grid: Seq<u16>, size: int, cx: int, cy: int, cz: int, color: u16,
) -> Seq<u16> {
    Seq::new(grid.len(), |idx: int| if in_cluster(size, cx, cy, cz, idx) {
        color
    } else {
        grid[idx]
    })
}

/// Write a leaf cluster around `center`: a 5x5x5 cube of cells minus every
/// cell with two or more coordinates on the cube's boundary.
pub fn stamp_leaf_cluster(vol: &mut Volume, center: V3, color: u16)
    requires
        old(vol).wf(),
        margin_ok(center, old(vol).side(), 2),
    ensures
        final(vol).wf(),
        final(vol).side() == old(vol).side(),
        final(vol).data@ == stamp_spec(
            old(vol).data@,
            old(vol).side(),
            round_milli(center.x as int),
            round_milli(center.y as int),
            round_milli(center.z as int),
            color,
        ),
{
    let ghost size = old(vol).side();
    proof {
        lemma_margin_bounds(center, size, 2);
    }
    let cx = round_to_cell(center.x) as usize;
    let cy = round_to_cell(center.y) as usize;
    let cz = round_to_cell(center.z) as usize;
    let ghost cxi = cx as int;
    let ghost cyi = cy as int;
    let ghost czi = cz as int;
    let mut ox: usize = 0;
    while ox < 5
        invariant
            vol.wf(),
            vol.side() == size,
            ox <= 5,
            2 <= cxi && cxi + 2 < size,
            2 <= cyi && cyi + 2 < size,
            2 <= czi && czi + 2 < size,
            cxi == round_milli(center.x as int),
            cyi == round_milli(center.y as int),
            czi == round_milli(center.z as int),
            cx == cxi && cy == cyi && cz == czi,
            forall|idx: int| 0 <= idx < vol.data@.len()
                ==> vol.data@[idx] == (if in_cluster(size, cxi, cyi, czi, idx)
                    && offset_before(
                        idx % size - (cxi - 2),
                        (idx / size) % size - (cyi - 2),
                        idx / (size * size) - (czi - 2),
                        ox as int, 0, 0,
                    ) {
                    color
                } else {
                    old(vol).data@[idx]
                }),
        decreases 5 - ox,
    {
        let mut oy: usize = 0;
        while oy < 5
            invariant
                vol.wf(),
                vol.side() == size,
                ox < 5,
                oy <= 5,
                2 <= cxi && cxi + 2 < size,
                2 <= cyi && cyi + 2 < size,
                2 <= czi && czi + 2 < size,
                cx == cxi && cy == cyi && cz == czi,
                forall|idx: int| 0 <= idx < vol.data@.len()
                    ==> vol.data@[idx] == (if in_cluster(size, cxi, cyi, czi, idx)
                        && offset_before(
                            idx % size - (cxi - 2),
                            (idx / size) % size - (cyi - 2),
                            idx / (size * size) - (czi - 2),
                            ox as int, oy as int, 0,
                        ) {
                        color
                    } else {
                        old(vol).data@[idx]
                    }),
            decreases 5 - oy,
        {
            let mut oz: usize = 0;
            while oz < 5
                invariant
                    vol.wf(),
                    vol.side() == size,
                    ox < 5,
                    oy < 5,
                    oz <= 5,
                    2 <= cxi && cxi + 2 < size,
                    2 <= cyi && cyi + 2 < size,
                    2 <= czi && czi + 2 < size,
                    cx == cxi && cy == cyi && cz == czi,
                    forall|idx: int| 0 <= idx < vol.data@.len()
                        ==> vol.data@[idx] == (if in_cluster(size, cxi, cyi, czi, idx)
                            && offset_before(
                                idx % size - (cxi - 2),
                                (idx / size) % size - (cyi - 2),
                                idx / (size * size) - (czi - 2),
                                ox as int, oy as int, oz as int,
                            ) {
                            color
                        } else {
                            old(vol).data@[idx]
                        }),
                decreases 5 - oz,
            {
                let mut c: usize = 0;
                if ox == 0 || ox == 4 { c = c + 1; }
                if oy == 0 || oy == 4 { c = c + 1; }
                if oz == 0 || oz == 4 { c = c + 1; }
                let ghost wx = cxi - 2 + ox as int;
                let ghost wy = cyi - 2 + oy as int;
                let ghost wz = czi - 2 + oz as int;
                if c < 2 {
                    vol.set(cx - 2 + ox, cy - 2 + oy, cz - 2 + oz, color);
                }
                proof {
                    assert forall|idx: int| 0 <= idx < vol.data@.len()
                        implies vol.data@[idx] == (if in_cluster(size, cxi, cyi, czi, idx)
                            && offset_before(
                                idx % size - (cxi - 2),
                                (idx / size) % size - (cyi - 2),
                                idx / (size * size) - (czi - 2),
                                ox as int, oy as int, oz as int + 1,
                            ) {
                            color
                        } else {
                            old(vol).data@[idx]
                        }) by {
                        lemma_vidx_bounds(size, wx, wy, wz);
                        crate::volume::lemma_vidx_decode(size, wx, wy, wz);
                        if idx == vidx(size, wx, wy, wz) {
                        } else {
                            let dcx = idx % size;
                            let dcy = (idx / size) % size;
                            let dcz = idx / (size * size);
                            if 0 <= dcx - (cxi - 2) < 5 && 0 <= dcy - (cyi - 2) < 5
                                && 0 <= dcz - (czi - 2) < 5 {
                                crate::volume::lemma_vidx_decode(size, dcx, dcy, dcz);
                                vstd::arithmetic::div_mod::lemma_fundamental_div_mod(idx, size);
                                vstd::arithmetic::div_mod::lemma_fundamental_div_mod(
                                    idx / size, size);
                                vstd::arithmetic::div_mod::lemma_div_denominator(
                                    idx, size, size);
                                assert(idx == vidx(size, dcx, dcy, dcz)) by (nonlinear_arith)
                                    requires
                                        idx % size == dcx,
                                        (idx / size) % size == dcy,
                                        idx / (size * size) == dcz,
                                        idx == size * (idx / size) + idx % size,
                                        idx / size == size * (idx / size / size)
                                            + (idx / size) % size,
                                        size * size * (idx / size / size)
                                            == (size * size) * (idx / size / size),
                                        idx / (size * size) == idx / size / size,
                                        0 <= idx,
                                        0 < size,
                                ;
                            }
                        }
                    }
                }
                oz = oz + 1;
            }
            oy = oy + 1;
        }
        ox = ox + 1;
    }
    proof {
        assert(vol.data@ =~= stamp_spec(old(vol).data@, size, cxi, cyi, czi, color));
    }
}

/// Number of colored offsets among `(ox, oy, 0..k)`.
pub open spec fn cluster_count_z(ox: int, oy: int, k: int) -> int
    decreases k,
{
    if k <= 0 {
        0
    } else {
        cluster_count_z(ox, oy, k - 1) + (if cluster_offset(ox, oy, k - 1) { 1int } else { 0 })
    }
}

/// Number of colored offsets among `(ox, 0..j, 0..5)`.
pub open spec fn cluster_count_yz(ox: int, j: int) -> int
    decreases j,
{
    if j <= 0 {
        0
    } else {
        cluster_count_yz(ox, j - 1) + cluster_count_z(ox, j - 1, 5)
    }
}

/// Number of colored offsets among `(0..i, 0..5, 0..5)`.
pub open spec fn cluster_count(i: int) -> int
    decreases i,
{
    if i <= 0 {
        0
    } else {
        cluster_count(i - 1) + cluster_count_yz(i - 1, 5)
    }
}

proof fn lemma_cluster_count_z(ox: int, oy: int)
    requires
        0 <= ox < 5,
        0 <= oy < 5,
    ensures
        cluster_count_z(ox, oy, 5) == (if extremal(ox) && extremal(oy) {
            0int
        } else if extremal(ox) || extremal(oy) {
            3int
        } else {
            5int
        }),
{
    reveal_with_fuel(cluster_count_z, 6);
}

proof fn lemma_cluster_count_yz(ox: int)
    requires
        0 <= ox < 5,
    ensures
        cluster_count_yz(ox, 5) == (if extremal(ox) { 9int } else { 21int }),
{
    reveal_with_fuel(cluster_count_yz, 6);
    lemma_cluster_count_z(ox, 0);
    lemma_cluster_count_z(ox, 1);
    lemma_cluster_count_z(ox, 2);
    lemma_cluster_count_z(ox, 3);
    lemma_cluster_count_z(ox, 4);
}

/// Exact footprint size of a leaf cluster: of the `5^3 = 125` cells of the
/// cube, the 8 corners and the 36 other edge cells (every cell with two or
/// more extremal coordinates) are carved off, leaving exactly 81.
pub proof fn lemma_cluster_count()
    ensures
        cluster_count(5) == 81,
{
    reveal_with_fuel(cluster_count, 6);
    lemma_cluster_count_yz(0);
    lemma_cluster_count_yz(1);
    lemma_cluster_count_yz(2);
    lemma_cluster_count_yz(3);
    lemma_cluster_count_yz(4);
}

/// Contribution of neighbor slot `u` (of 27, row-major over the offsets
/// `-1..=1` on each axis) to the occlusion weight around `(x, y, z)`: a
/// solid in-grid neighbor adds `3` minus its Manhattan distance.
pub open spec fn occ_term(grid: Seq<u16>, size: int, x: int, y: int, z: int, u: int) -> int {
    let di = u / 9 - 1;
    let dj = (u % 9) / 3 - 1;
    let dk = u % 3 - 1;
    let nx = x + di;
    let ny = y + dj;
    let nz = z + dk;
    if di == 0 && dj == 0 && dk == 0 {
        0
    } else if nx < 0 || ny < 0 || nz < 0 || nx >= size || ny >= size || nz >= size {
        0
    } else if grid[vidx(size, nx, ny, nz)] > 0 {
        3 - abs_sp(di) - abs_sp(dj) - abs_sp(dk)
    } else {
        0
    }
}

/// Occlusion weight accumulated over the first `u` neighbor slots.
pub open spec fn occ_partial(grid: Seq<u16>, size: int, x: int, y: int, z: int, u: int) -> int
    decreases u,
{
    if u <= 0 {
        0
    } else {
        occ_partial(grid, size, x, y, z, u - 1) + occ_term(grid, size, x, y, z, u - 1)
    }
}

/// Occlusion weight of a cell: how enclosed it is by solid neighbors,
/// nearer neighbors counting more.
pub open spec fn occlusion_spec(grid: Seq<u16>, size: int, x: int, y: int, z: int) -> int {
    occ_partial(grid, size, x, y, z, 27)
}

/// Sum, over the 26 in-grid neighbors of `(x, y, z)` that are solid, of
/// `3` minus the neighbor's Manhattan distance. The growth engines use it
/// to skip leaf placement on tips already enclosed by other geometry.
pub fn occlusion_weight(vol: &Volume, x: usize, y: usize, z: usize) -> (w: usize)
    requires
        vol.wf(),
        vol.in_bounds(x as int, y as int, z as int),
    ensures
        w == occlusion_spec(vol.data@, vol.side(), x as int, y as int, z as int),
{
    let ghost size = vol.side();
    let mut w: usize = 0;
    let mut u: usize = 0;
    while u < 27
        invariant
            vol.wf(),
            size == vol.side(),
            vol.in_bounds(x as int, y as int, z as int),
            u <= 27,
            w <= 3 * u,
            w == occ_partial(vol.data@, size, x as int, y as int, z as int, u as int),
        decreases 27 - u,
    {
        let di = (u / 9) as i64 - 1;
        let dj = ((u % 9) / 3) as i64 - 1;
        let dk = (u % 3) as i64 - 1;
        let nx = x as i64 + di;
        let ny = y as i64 + dj;
        let nz = z as i64 + dk;
        let skip = (di == 0 && dj == 0 && dk == 0)
            || nx < 0 || ny < 0 || nz < 0
            || nx >= vol.size as i64 || ny >= vol.size as i64 || nz >= vol.size as i64;
        if !skip {
            let v = vol.get(nx as usize, ny as usize, nz as usize);
            if v > 0 {
                let mut gain: usize = 3;
                if di != 0 { gain = gain - 1; }
                if dj != 0 { gain = gain - 1; }
                if dk != 0 { gain = gain - 1; }
                proof {
                    assert(gain == 3 - abs_sp(di as int) - abs_sp(dj as int)
                        - abs_sp(dk as int));
                }
                w = w + gain;
            }
        }
        u = u + 1;
    }
    w
}

/// A point lying at least eight voxels inside the grid on every side:
/// safe for every primitive the growth engines call (thick segments up to
/// thickness 16 and leaf clusters).
pub open spec fn safe_point(p: V3, size: int) -> bool {
    p.in_box(8000, (size - 9) * 1000)
}

/// A safe point has margin `h` for any `h <= 8`.
pub proof fn lemma_safe_margin(p: V3, size: int, h: int)
    requires
        safe_point(p, size),
        18 <= size <= 1024,
        0 <= h <= 8,
    ensures
        margin_ok(p, size, h),
        point_in_grid(p, size),
{
    lemma_round_monotone(p.x as int, (size - 9) * 1000);
    lemma_round_monotone(p.y as int, (size - 9) * 1000);
    lemma_round_monotone(p.z as int, (size - 9) * 1000);
    crate::geom::lemma_round_shift(0, size - 9);
    lemma_round_monotone(0, p.x as int);
    lemma_round_monotone(0, p.y as int);
    lemma_round_monotone(0, p.z as int);
}

/// A line never writes anything but its own color.
pub proof fn lemma_line_frame(
    grid: Seq<u16>, size: int, from: V3, to: V3, i: int, color: u16,
)
    requires
        grid.len() == size * size * size,
        point_in_grid(from, size),
        point_in_grid(to, size),
        0 <= i <= line_steps(from, to),
    ensures
        forall|idx: int| 0 <= idx < grid.len()
            ==> line_spec(grid, size, from, to, i, color)[idx] == grid[idx]
                || line_spec(grid, size, from, to, i, color)[idx] == color,
    decreases i,
{
    let j = if i <= 0 { 0int } else { i };
    lemma_line_cell_in_grid(from, to, size, j);
    lemma_vidx_bounds(
        size,
        line_cell(from, to, j, 0),
        line_cell(from, to, j, 1),
        line_cell(from, to, j, 2),
    );
    if i > 0 {
        lemma_line_frame(grid, size, from, to, i - 1, color);
        lemma_line_spec_len(grid, size, from, to, i - 1, color);
    }
}

/// A thick segment keeps the grid's length.
pub proof fn lemma_thick_len(
    grid: Seq<u16>, size: int, from: V3, to: V3, t: int, color: u16, k: int,
)
    requires
        grid.len() == size * size * size,
        margin_ok(from, size, t / 2),
        margin_ok(to, size, t / 2),
        0 <= t <= 500,
        18 <= size <= 1024,
        0 <= k <= thick_w(t) * thick_w(t),
    ensures
        thick_partial(grid, size, from, to, t, color, k).len() == grid.len(),
    decreases k,
{
    if k > 0 {
        lemma_thick_len(grid, size, from, to, t, color, k - 1);
        let w = thick_w(t);
        let i = (k - 1) / w;
        let j = (k - 1) % w;
        assert(0 <= i < w && 0 <= j < w) by (nonlinear_arith)
            requires 0 <= k - 1 < w * w, 1 <= w, i == (k - 1) / w, j == (k - 1) % w,
        ;
        let d = V3 { x: (to.x - from.x) as i64, y: (to.y - from.y) as i64,
            z: (to.z - from.z) as i64 };
        if !thick_skip(t, i, j) {
            lemma_shift_in_grid(from, d, size, t / 2, i - t / 2, j - t / 2);
            lemma_shift_in_grid(to, d, size, t / 2, i - t / 2, j - t / 2);
            let sf = thick_shift(from, d, i - t / 2, j - t / 2);
            let st = thick_shift(to, d, i - t / 2, j - t / 2);
            lemma_line_spec_len(
                thick_partial(grid, size, from, to, t, color, k - 1),
                size, sf, st, line_steps(sf, st), color);
        }
    }
}

/// A thick segment never writes anything but its own color.
pub proof fn lemma_thick_frame(
    grid: Seq<u16>, size: int, from: V3, to: V3, t: int, color: u16, k: int,
)
    requires
        grid.len() == size * size * size,
        margin_ok(from, size, t / 2),
        margin_ok(to, size, t / 2),
        0 <= t <= 500,
        18 <= size <= 1024,
        0 <= k <= thick_w(t) * thick_w(t),
    ensures
        forall|idx: int| 0 <= idx < grid.len()
            ==> thick_partial(grid, size, from, to, t, color, k)[idx] == grid[idx]
                || thick_partial(grid, size, from, to, t, color, k)[idx] == color,
    decreases k,
{
    if k > 0 {
        lemma_thick_frame(grid, size, from, to, t, color, k - 1);
        lemma_thick_len(grid, size, from, to, t, color, k - 1);
        let w = thick_w(t);
        let i = (k - 1) / w;
        let j = (k - 1) % w;
        assert(0 <= i < w && 0 <= j < w) by (nonlinear_arith)
            requires 0 <= k - 1 < w * w, 1 <= w, i == (k - 1) / w, j == (k - 1) % w,
        ;
        let d = V3 { x: (to.x - from.x) as i64, y: (to.y - from.y) as i64,
            z: (to.z - from.z) as i64 };
        if !thick_skip(t, i, j) {
            lemma_shift_in_grid(from, d, size, t / 2, i - t / 2, j - t / 2);
            lemma_shift_in_grid(to, d, size, t / 2, i - t / 2, j - t / 2);
            let sf = thick_shift(from, d, i - t / 2, j - t / 2);
            let st = thick_shift(to, d, i - t / 2, j - t / 2);
            let g1 = thick_partial(grid, size, from, to, t, color, k - 1);
            lemma_line_frame(g1, size, sf, st, line_steps(sf, st), color);
        }
    }
}

} // verus!
