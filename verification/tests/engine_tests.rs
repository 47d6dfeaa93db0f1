use voxtree::geom::V3;
use voxtree::grammar::{Branch, Sequence};
use voxtree::growth::Tree;
use voxtree::raster::{
    draw_line, draw_thick_segment, occlusion_weight, stamp_leaf_cluster, BRANCH_COLOR, LEAF_COLOR,
};
use voxtree::rot::Rot;
use voxtree::volume::Volume;

fn mv(x: i64, y: i64, z: i64) -> V3 {
    V3 { x: x * 1000, y: y * 1000, z: z * 1000 }
}

#[test]
fn line_covers_both_endpoints() {
    let mut v = Volume::new(32);
    draw_line(&mut v, mv(10, 10, 10), mv(20, 15, 12), 0x8111);
    assert_eq!(v.get(10, 10, 10), 0x8111);
    assert_eq!(v.get(20, 15, 12), 0x8111);
}

#[test]
fn axis_line_colors_every_cell_between() {
    let mut v = Volume::new(32);
    draw_line(&mut v, mv(10, 10, 10), mv(13, 10, 10), BRANCH_COLOR);
    for x in 10..=13 {
        assert_eq!(v.get(x, 10, 10), BRANCH_COLOR);
    }
    assert_eq!(v.get(14, 10, 10), 0);
    assert_eq!(v.get(9, 10, 10), 0);
    let mut colored = 0;
    for i in 0..v.data.len() {
        if v.data[i] != 0 {
            colored += 1;
        }
    }
    assert_eq!(colored, 4);
}

#[test]
fn thick_segment_cross_section_is_symmetric() {
    // Vertical segment of even thickness 2: offsets in the x/z plane are
    // the plus-shape {(0,0), (1,0), (-1,0), (0,1), (0,-1)}; the four
    // corners are carved off, and the colored offsets are symmetric
    // about the axis.
    let mut v = Volume::new(32);
    draw_thick_segment(&mut v, mv(16, 10, 16), mv(16, 14, 16), 2, BRANCH_COLOR);
    for y in 10..=14 {
        assert_eq!(v.get(16, y, 16), BRANCH_COLOR);
        assert_eq!(v.get(17, y, 16), BRANCH_COLOR);
        assert_eq!(v.get(15, y, 16), BRANCH_COLOR);
        assert_eq!(v.get(16, y, 17), BRANCH_COLOR);
        assert_eq!(v.get(16, y, 15), BRANCH_COLOR);
        // corners of the cross-section stay empty
        assert_eq!(v.get(17, y, 17), 0);
        assert_eq!(v.get(15, y, 15), 0);
        assert_eq!(v.get(17, y, 15), 0);
        assert_eq!(v.get(15, y, 17), 0);
    }
}

#[test]
fn thick_segment_odd_thickness_symmetric() {
    let mut v = Volume::new(32);
    draw_thick_segment(&mut v, mv(16, 10, 16), mv(16, 14, 16), 3, BRANCH_COLOR);
    for y in 10..=14 {
        for dx in -1i64..=1 {
            for dz in -1i64..=1 {
                let c = v.get((16 + dx) as usize, y, (16 + dz) as usize);
                assert_eq!(c, BRANCH_COLOR);
                let m = v.get((16 - dx) as usize, y, (16 - dz) as usize);
                assert_eq!(c, m);
            }
        }
    }
}

#[test]
fn leaf_cluster_colors_exactly_81_cells() {
    // The 5^3 cube minus every cell with two or more coordinates on the
    // cube boundary: 125 - 8 corners - 36 other edge cells = 81.
    let mut v = Volume::new(16);
    stamp_leaf_cluster(&mut v, mv(8, 8, 8), LEAF_COLOR);
    let mut colored = 0;
    for z in 0..16i64 {
        for y in 0..16i64 {
            for x in 0..16i64 {
                if v.get(x as usize, y as usize, z as usize) != 0 {
                    colored += 1;
                    let ex = (x == 6 || x == 10) as u32;
                    let ey = (y == 6 || y == 10) as u32;
                    let ez = (z == 6 || z == 10) as u32;
                    assert!(ex + ey + ez < 2);
                    assert!((6..=10).contains(&x));
                    assert!((6..=10).contains(&y));
                    assert!((6..=10).contains(&z));
                }
            }
        }
    }
    assert_eq!(colored, 81);
    assert_eq!(v.get(8, 8, 8), LEAF_COLOR);
}

#[test]
fn occlusion_weight_exact_values() {
    let mut v = Volume::new(16);
    assert_eq!(occlusion_weight(&v, 8, 8, 8), 0);
    v.set(9, 8, 8, 1); // face neighbor: manhattan distance 1 adds 2
    assert_eq!(occlusion_weight(&v, 8, 8, 8), 2);
    v.set(9, 9, 8, 1); // edge neighbor: distance 2 adds 1
    assert_eq!(occlusion_weight(&v, 8, 8, 8), 3);
    v.set(9, 9, 9, 1); // corner neighbor: distance 3 adds 0
    assert_eq!(occlusion_weight(&v, 8, 8, 8), 3);
}

fn simple_recipe() -> Sequence {
    Sequence::Branch {
        side_count: 3,
        side_length: 4000,
        center_length: 5000,
        center_thickness: 2,
        rotation_offset: 10,
        side_seq: Box::new(Sequence::Leaf),
        center_seq: Box::new(Sequence::Leaf),
    }
}

#[test]
fn grammar_two_runs_give_identical_volumes() {
    // No hidden randomness: the same recipe and root transform grown the
    // same number of steps produce the same voxel buffer.
    let recipe = simple_recipe();
    let mut v1 = Volume::new(64);
    let mut v2 = Volume::new(64);
    let mut b1 = Branch::new(mv(32, 12, 32), 8000, 3, Rot::identity(), 64);
    let mut b2 = Branch::new(mv(32, 12, 32), 8000, 3, Rot::identity(), 64);
    for _ in 0..3 {
        b1 = b1.extend(&recipe, &mut v1);
        b2 = b2.extend(&recipe, &mut v2);
    }
    assert_eq!(v1.data, v2.data);
    let nonzero = v1.data.iter().filter(|&&c| c != 0).count();
    assert!(nonzero > 0);
}

#[test]
fn grammar_leaf_recipe_stamps_cluster_at_tip() {
    let mut v = Volume::new(32);
    let b = Branch::new(mv(16, 12, 16), 4000, 1, Rot::identity(), 32);
    let _ = b.extend(&Sequence::Leaf, &mut v);
    // the single-voxel segment from (16,12,16) to (16,16,16); its upper
    // cells are then overwritten by the leaf cluster around the tip
    for y in 12..=13 {
        assert_eq!(v.get(16, y, 16), BRANCH_COLOR);
    }
    for y in 14..=16 {
        assert_eq!(v.get(16, y, 16), LEAF_COLOR);
    }
    assert_eq!(v.get(16, 17, 16), LEAF_COLOR);
    assert_eq!(v.get(18, 16, 16), LEAF_COLOR);
}

#[test]
fn grammar_second_step_expands_children() {
    let recipe = simple_recipe();
    let mut v = Volume::new(64);
    let b = Branch::new(mv(32, 12, 32), 8000, 3, Rot::identity(), 64);
    let b = b.extend(&recipe, &mut v);
    // after one step the node has 3 side children plus the trunk
    assert_eq!(b.branches.len(), 4);
    assert!(b.extended);
    let b = b.extend(&recipe, &mut v);
    for child in &b.branches {
        assert!(child.extended);
    }
}

#[test]
fn growth_no_attractors_terminates_with_single_root() {
    let mut v = Volume::new(64);
    let start = mv(32, 16, 32);
    let mut t = Tree::from_attractors(Vec::new(), start, &mut v);
    // the root segment is rasterized at construction
    assert_eq!(v.get(32, 16, 32), BRANCH_COLOR);
    assert_eq!(v.get(32, 17, 32), BRANCH_COLOR);
    assert_eq!(t.branches.len(), 1);
    for _ in 0..60 {
        t.grow(&mut v);
    }
    // with nothing to attract toward, no branch ever advances and the
    // taper runs out
    assert!(t.done);
    assert_eq!(t.branches.len(), 1);
    assert_eq!(t.leaves.len(), 0);
}

#[test]
fn growth_prunes_reached_attractors_monotonically() {
    let mut v = Volume::new(64);
    let start = mv(32, 16, 32);
    // one attractor within reach (2.5 cells) of the root tip, one far away
    let near = mv(32, 18, 32);
    let far = mv(40, 40, 40);
    let mut t = Tree::from_attractors(vec![near, far], start, &mut v);
    let mut prev = t.leaves.len();
    t.grow(&mut v);
    assert_eq!(t.leaves.len(), 1);
    assert_eq!(t.leaves[0], far);
    for _ in 0..60 {
        t.grow(&mut v);
        assert!(t.leaves.len() <= prev);
        prev = t.leaves.len();
    }
}

#[test]
fn growth_attracted_tip_advances() {
    let mut v = Volume::new(64);
    let start = mv(32, 16, 32);
    let far = mv(40, 30, 32);
    let mut t = Tree::from_attractors(vec![far], start, &mut v);
    assert_eq!(t.branches.len(), 1);
    let w0 = t.width;
    t.grow(&mut v);
    assert_eq!(t.width, w0 - 80);
    // the attractor pulled the root tip: a new branch appeared
    assert_eq!(t.branches.len(), 2);
    assert!(!t.branches[0].leaf);
    assert!(t.branches[1].leaf);
}

#[test]
fn growth_random_cloud_has_requested_size() {
    let mut v = Volume::new(64);
    let t = Tree::new(mv(32, 40, 32), 10_000, 25, mv(32, 16, 32), &mut v);
    assert_eq!(t.leaves.len(), 25);
    assert!(t.branches[0].leaf);
    // every sampled attractor lies inside the requested sphere
    for a in &t.leaves {
        let dx = a.x - 32_000;
        let dy = a.y - 40_000;
        let dz = a.z - 32_000;
        assert!(dx * dx + dy * dy + dz * dz <= 10_000i64 * 10_000);
    }
}

#[test]
fn diagonal_line_colors_diagonal_cells() {
    let mut v = Volume::new(32);
    draw_line(&mut v, mv(10, 10, 10), mv(13, 13, 13), BRANCH_COLOR);
    for i in 0..=3 {
        assert_eq!(v.get(10 + i, 10 + i, 10 + i), BRANCH_COLOR);
    }
    let colored = v.data.iter().filter(|&&c| c != 0).count();
    assert_eq!(colored, 4);
}

#[test]
fn sample_attractor_exact_value() {
    // The whole fixed-point sampling chain is deterministic in the raw
    // entropy words: the raw direction (-999,-998,-997), scaled for
    // precision, normalizes to (-577,-577,-576), and a radius fraction
    // of 4/1000 lands here.
    let p = voxtree::growth::sample_attractor(
        V3 { x: 0, y: 0, z: 0 }, 500_000, 1, 2, 3, 4);
    assert_eq!(p, V3 { x: -1154, y: -1154, z: -1152 });
}

#[test]
fn line_driving_axis_has_no_holes() {
    // Fractional endpoints whose cells span one more cell than the
    // rounded delta: every driving-axis cell from 0 through 3 must still
    // be written.
    let mut v = Volume::new(32);
    let from = V3 { x: 300, y: 10_000, z: 10_000 };
    let to = V3 { x: 2799, y: 10_000, z: 10_000 };
    draw_line(&mut v, from, to, BRANCH_COLOR);
    for x in 0..=3 {
        assert_eq!(v.get(x, 10, 10), BRANCH_COLOR);
    }
    assert_eq!(v.get(4, 10, 10), 0);
}

#[test]
fn grammar_center_continuation_is_thicker() {
    // A recipe with no side spread but a thick trunk continuation grows
    // straight up; the second level rasterizes the continuation at its
    // own thickness.
    let recipe = Sequence::Branch {
        side_count: 1,
        side_length: 0,
        center_length: 6000,
        center_thickness: 3,
        rotation_offset: 0,
        side_seq: Box::new(Sequence::Leaf),
        center_seq: Box::new(Sequence::Leaf),
    };
    let mut v = Volume::new(64);
    let b = Branch::new(mv(32, 12, 32), 6000, 1, Rot::identity(), 64);
    let b = b.extend(&recipe, &mut v);
    assert_eq!(b.branches.len(), 2);
    let b = b.extend(&recipe, &mut v);
    // trunk continuation from (32,18,32) to (32,24,32) at thickness 3
    assert_eq!(v.get(33, 21, 32), BRANCH_COLOR);
    assert_eq!(v.get(31, 21, 32), BRANCH_COLOR);
    assert_eq!(v.get(32, 21, 33), BRANCH_COLOR);
    assert!(b.branches[1].extended);
}

#[test]
fn growth_done_tree_is_inert() {
    let mut v = Volume::new(64);
    let mut t = Tree::from_attractors(Vec::new(), mv(32, 16, 32), &mut v);
    for _ in 0..60 {
        t.grow(&mut v);
    }
    assert!(t.done);
    let snapshot = v.data.clone();
    let w = t.width;
    t.grow(&mut v);
    assert_eq!(v.data, snapshot);
    assert_eq!(t.width, w);
}
