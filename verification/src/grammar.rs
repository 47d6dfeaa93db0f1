//! The grammar-driven growth engine.
//!
//! A static branching recipe (`Sequence`) describes how each branch point
//! fans out: an interior node gives the number, length and pitch of side
//! branches plus an optional thicker trunk continuation; a `Leaf` node
//! ends growth with a leaf cluster. A grown tree of `Branch` nodes
//! advances one grammar level per `extend` call, rasterizing new thick
//! segments and leaf clusters into the volume as it goes. Everything is
//! fixed-point integer arithmetic, so growth is deterministic.

use vstd::prelude::*;

use crate::geom::{clamp_spec, clamp_v3, round_milli, V3};
use crate::raster::{
    draw_thick_segment, lemma_safe_margin, safe_point, stamp_leaf_cluster, stamp_spec,
    thick_spec, BRANCH_COLOR, LEAF_COLOR,
};
use crate::rot::{rot_mul, rot_mul_spec, rot_pitch_down, rot_pitch_spec, rot_up, rot_up_spec,
    rot_yaw, rot_yaw_spec, Rot};
use crate::volume::Volume;

verus! {

/// An authored branching recipe node.
pub enum Sequence {
    /// An interior node: `side_count` side branches of length
    /// `side_length` (milli-voxels) fan out under a fixed downward pitch,
    /// yawed evenly around the parent axis plus `rotation_offset` degrees;
    /// a nonzero `center_length` adds a trunk continuation of thickness
    /// `center_thickness` along the parent's own axis. Side branches grow
    /// on by `side_seq`, the trunk continuation by `center_seq`.
    Branch {
        side_count: usize,
        side_length: i64,
        center_length: i64,
        center_thickness: usize,
        rotation_offset: usize,
        side_seq: Box<Sequence>,
        center_seq: Box<Sequence>,
    },
    /// A terminal node: stamp a leaf cluster instead of branching on.
    Leaf,
}

/// Bounds an authored recipe must meet so that all arithmetic stays in
/// range: at least one side branch, lengths within one grid edge,
/// moderate thickness, and a yaw offset below a full turn.
pub open spec fn seq_wf(s: Sequence) -> bool
    decreases s,
{
    match s {
        Sequence::Branch {
            side_count,
            side_length,
            center_length,
            center_thickness,
            rotation_offset,
            side_seq,
            center_seq,
        } => {
            &&& 1 <= side_count <= 1000
            &&& -2_000_000 <= side_length <= 2_000_000
            &&& -2_000_000 <= center_length <= 2_000_000
            &&& center_thickness <= 16
            &&& rotation_offset <= 359
            &&& seq_wf(*side_seq)
            &&& seq_wf(*center_seq)
        },
        Sequence::Leaf => true,
    }
}

/// A grown branch: a rasterized (or pending) segment from `from` to `to`
/// with an orientation, a thickness, whether its own grammar level has
/// already been applied, and the child branches spawned from its tip.
pub struct Branch {
    pub from: V3,
    pub to: V3,
    pub rotation: Rot,
    pub thickness: usize,
    pub extended: bool,
    pub branches: Vec<Branch>,
}

/// The mathematical shape of a grown branch tree.
pub struct BranchModel {
    pub from: V3,
    pub to: V3,
    pub rotation: Rot,
    pub thickness: int,
    pub extended: bool,
    pub children: Seq<BranchModel>,
}

/// The models of the first `k` branches of a list.
pub open spec fn models_of(bs: Seq<Branch>, k: int) -> Seq<BranchModel>
    decreases bs, k,
{
    if k <= 0 || bs.len() < k {
        Seq::empty()
    } else {
        models_of(bs, k - 1).push(bs[k - 1].model())
    }
}

impl Branch {
    /// The abstract tree this branch stands for.
    pub open spec fn model(self) -> BranchModel
        decreases self, 0int,
        via Branch::model_decreases
    {
        BranchModel {
            from: self.from,
            to: self.to,
            rotation: self.rotation,
            thickness: self.thickness as int,
            extended: self.extended,
            children: models_of(self.branches@, self.branches@.len() as int),
        }
    }

    #[via_fn]
    proof fn model_decreases(self) {
        assert(decreases_to!(self => self.branches));
        assert(decreases_to!(self => self.branches@));
    }
}

/// The model list lines up with the branches element by element.
pub proof fn lemma_models_of(bs: Seq<Branch>, k: int)
    requires
        0 <= k <= bs.len(),
    ensures
        models_of(bs, k).len() == k,
        forall|i: int| 0 <= i < k ==> models_of(bs, k)[i] == bs[i].model(),
    decreases k,
{
    if k > 0 {
        lemma_models_of(bs, k - 1);
    }
}

/// Structural soundness of a grown tree against a grid of edge `size`:
/// all geometry sits safely inside the grid, orientations are unit-range,
/// thickness is moderate, and an unexpanded node has no children yet.
pub open spec fn wf_model(bm: BranchModel, size: int) -> bool
    decreases bm,
{
    &&& safe_point(bm.from, size)
    &&& safe_point(bm.to, size)
    &&& bm.rotation.wf()
    &&& 0 <= bm.thickness <= 16
    &&& !bm.extended ==> bm.children.len() == 0
    &&& forall|i: int| 0 <= i < bm.children.len() ==> wf_model(#[trigger] bm.children[i], size)
}

/// An expanded node's children line up with its recipe node: one child
/// per side branch, the trunk continuation last.
pub open spec fn compat(bm: BranchModel, s: Sequence) -> bool
    decreases s,
{
    if !bm.extended {
        true
    } else {
        match s {
            Sequence::Branch { side_count, center_length, side_seq, center_seq, .. } => {
                let extra: int = if center_length != 0 { 1 } else { 0 };
                &&& bm.children.len() == side_count + extra
                &&& forall|i: int| 0 <= i < side_count
                    ==> compat(#[trigger] bm.children[i], *side_seq)
                &&& center_length != 0 ==> compat(bm.children[side_count as int], *center_seq)
            },
            Sequence::Leaf => bm.children.len() == 0,
        }
    }
}

/// Yaw (whole degrees, below one turn) of side branch `i` of `amount`:
/// evenly distributed around the axis, plus the recipe's offset.
pub open spec fn child_yaw(i: int, amount: int, offset: int) -> int {
    (i * 360 / amount + offset) % 360
}

/// Orientation of a side branch: the parent's orientation composed with
/// the yaw about the vertical and the fixed downward pitch.
pub open spec fn child_rot(parent: Rot, yaw: int) -> Rot {
    rot_mul_spec(parent, rot_mul_spec(rot_yaw_spec(yaw), rot_pitch_spec()))
}

/// The tip of a branch grown from `from`: `from` plus the rotated upward
/// vector of length `len`, clamped into the safe region of the grid.
pub open spec fn tip_spec(from: V3, len: int, rot: Rot, size: int) -> V3 {
    let d = rot_up_spec(rot, len);
    V3 {
        x: clamp_spec(from.x + d.x, 8000, (size - 9) * 1000) as i64,
        y: clamp_spec(from.y + d.y, 8000, (size - 9) * 1000) as i64,
        z: clamp_spec(from.z + d.z, 8000, (size - 9) * 1000) as i64,
    }
}

/// A freshly spawned, unexpanded branch.
pub open spec fn new_branch_spec(from: V3, len: int, t: int, rot: Rot, size: int) -> BranchModel {
    BranchModel {
        from,
        to: tip_spec(from, len, rot, size),
        rotation: rot,
        thickness: t,
        extended: false,
        children: Seq::empty(),
    }
}

/// One grammar level applied to the first `k` children, left to right:
/// the updated children and grid.
pub open spec fn extend_kids(
    children: Seq<BranchModel>, k: int, ss: Sequence, grid: Seq<u16>, size: int,
) -> (Seq<BranchModel>, Seq<u16>)
    decreases ss, 1int, k,
{
    if k <= 0 {
        (children, grid)
    } else {
        let prev = extend_kids(children, k - 1, ss, grid, size);
        let stepped = extend_model(prev.0[k - 1], ss, prev.1, size);
        (prev.0.update(k - 1, stepped.0), stepped.1)
    }
}

/// One grammar level applied to a branch: an unexpanded node rasterizes
/// its own thick segment and then applies its recipe node (spawning side
/// and trunk children, or stamping a leaf cluster); an expanded node
/// passes the level down to its children, side branches first, the trunk
/// continuation last.
pub open spec fn extend_model(
    bm: BranchModel, s: Sequence, grid: Seq<u16>, size: int,
) -> (BranchModel, Seq<u16>)
    decreases s, 0int, 0int,
{
    if !bm.extended {
        let g1 = thick_spec(grid, size, bm.from, bm.to, bm.thickness, BRANCH_COLOR);
        match s {
            Sequence::Branch {
                side_count,
                side_length,
                center_length,
                center_thickness,
                rotation_offset,
                ..
            } => {
                let sides = Seq::new(
                    side_count as nat,
                    |i: int| new_branch_spec(
                        bm.to,
                        side_length as int,
                        1,
                        child_rot(bm.rotation, child_yaw(i, side_count as int,
                            rotation_offset as int)),
                        size,
                    ),
                );
                let kids = if center_length != 0 {
                    sides.push(new_branch_spec(
                        bm.to, center_length as int, center_thickness as int, bm.rotation, size))
                } else {
                    sides
                };
                (BranchModel {
                    from: bm.from,
                    to: bm.to,
                    rotation: bm.rotation,
                    thickness: bm.thickness,
                    extended: true,
                    children: kids,
                }, g1)
            },
            Sequence::Leaf => {
                let g2 = stamp_spec(
                    g1,
                    size,
                    round_milli(bm.to.x as int),
                    round_milli(bm.to.y as int),
                    round_milli(bm.to.z as int),
                    LEAF_COLOR,
                );
                (BranchModel {
                    from: bm.from,
                    to: bm.to,
                    rotation: bm.rotation,
                    thickness: bm.thickness,
                    extended: true,
                    children: bm.children,
                }, g2)
            },
        }
    } else {
        match s {
            Sequence::Branch { side_count, center_length, side_seq, center_seq, .. } => {
                let walked = extend_kids(bm.children, side_count as int, *side_seq, grid, size);
                let after = if center_length != 0 {
                    let stepped = extend_model(
                        walked.0[side_count as int], *center_seq, walked.1, size);
                    (walked.0.update(side_count as int, stepped.0), stepped.1)
                } else {
                    walked
                };
                (BranchModel {
                    from: bm.from,
                    to: bm.to,
                    rotation: bm.rotation,
                    thickness: bm.thickness,
                    extended: true,
                    children: after.0,
                }, after.1)
            },
            Sequence::Leaf => (bm, grid),
        }
    }
}

/// Walking a level into the first `k` children touches no later child and
/// keeps the count.
pub proof fn lemma_extend_kids_frame(
    children: Seq<BranchModel>, k: int, ss: Sequence, grid: Seq<u16>, size: int,
)
    requires
        0 <= k <= children.len(),
    ensures
        extend_kids(children, k, ss, grid, size).0.len() == children.len(),
        forall|j: int| k <= j < children.len()
            ==> extend_kids(children, k, ss, grid, size).0[j] == children[j],
    decreases k,
{
    if k > 0 {
        lemma_extend_kids_frame(children, k - 1, ss, grid, size);
    }
}

/// Grammar growth is deterministic: the next tree and volume are a pure
/// function of the previous tree, the recipe, and the previous volume, so
/// two runs from equal states advance identically.
pub proof fn lemma_grammar_deterministic(
    b1: BranchModel, b2: BranchModel, s: Sequence, g1: Seq<u16>, g2: Seq<u16>, size: int,
)
    requires
        b1 == b2,
        g1 == g2,
    ensures
        extend_model(b1, s, g1, size) == extend_model(b2, s, g2, size),
{
}

impl Branch {
    /// Spawn an unexpanded branch: it grows `len` milli-voxels from
    /// `from` along the upward axis of `rotation`, its tip clamped into
    /// the safe region of a grid of edge `size`.
    pub fn new(from: V3, len: i64, thickness: usize, rotation: Rot, size: usize) -> (b: Branch)
        requires
            18 <= size <= 1024,
            safe_point(from, size as int),
            -2_000_000 <= len <= 2_000_000,
            rotation.wf(),
            thickness <= 16,
        ensures
            b.model() == new_branch_spec(
                from, len as int, thickness as int, rotation, size as int),
            wf_model(b.model(), size as int),
    {
        let d = rot_up(rotation, len);
        let tip = clamp_v3(from.add(d), 8000, (size as i64 - 9) * 1000);
        let b = Branch {
            from,
            to: tip,
            rotation,
            thickness,
            extended: false,
            branches: Vec::new(),
        };
        proof {
            assert(b.model().children =~= Seq::<BranchModel>::empty());
            assert(tip == tip_spec(from, len as int, rotation, size as int));
        }
        b
    }

    /// Advance this branch by one grammar level, rasterizing into `vol`:
    /// an unexpanded node draws its own thick segment and applies its
    /// recipe node; an expanded node passes the level to its children.
    /// Exactly `extend_model` on the abstract tree.
    #[verifier::rlimit(100)]
    #[verifier::loop_isolation(false)]
    pub fn extend(self, seq: &Sequence, vol: &mut Volume) -> (r: Branch)
        requires
            old(vol).wf(),
            18 <= old(vol).side(),
            wf_model(self.model(), old(vol).side()),
            seq_wf(*seq),
            compat(self.model(), *seq),
        ensures
            final(vol).wf(),
            final(vol).side() == old(vol).side(),
            r.model() == extend_model(
                self.model(), *seq, old(vol).data@, old(vol).side()).0,
            final(vol).data@ == extend_model(
                self.model(), *seq, old(vol).data@, old(vol).side()).1,
            wf_model(r.model(), old(vol).side()),
            compat(r.model(), *seq),
        decreases *seq,
    {
        let ghost size = old(vol).side();
        let ghost g0 = old(vol).data@;
        let ghost m0 = self.model();
        let sz = vol.size();
        let Branch { from, to, rotation, thickness, extended, branches } = self;
        proof {
            lemma_models_of(branches@, branches@.len() as int);
        }
        if !extended {
            proof {
                lemma_safe_margin(from, size, (thickness / 2) as int);
                lemma_safe_margin(to, size, (thickness / 2) as int);
            }
            draw_thick_segment(vol, from, to, thickness, BRANCH_COLOR);
            match seq {
                Sequence::Branch {
                    side_count,
                    side_length,
                    center_length,
                    center_thickness,
                    rotation_offset,
                    side_seq,
                    center_seq,
                } => {
                    let amount = *side_count;
                    let slen = *side_length;
                    let clen = *center_length;
                    let cthick = *center_thickness;
                    let offset = *rotation_offset;
                    let mut kids: Vec<Branch> = Vec::new();
                    let mut i: usize = 0;
                    while i < amount
                        invariant
                            vol.wf(),
                            vol.side() == size,
                            18 <= size <= 1024,
                            sz as int == size,
                            i <= amount,
                            1 <= amount <= 1000,
                            -2_000_000 <= slen <= 2_000_000,
                            offset <= 359,
                            rotation.wf(),
                            safe_point(to, size),
                            kids@.len() == i,
                            forall|j: int| 0 <= j < i ==> (#[trigger] kids@[j]).model()
                                == new_branch_spec(
                                    to,
                                    slen as int,
                                    1,
                                    child_rot(rotation, child_yaw(j, amount as int,
                                        offset as int)),
                                    size,
                                ),
                            forall|j: int| 0 <= j < i
                                ==> wf_model((#[trigger] kids@[j]).model(), size),
                        decreases amount - i,
                    {
                        let yaw = ((i * 360) / amount + offset) % 360;
                        let rc = rot_mul(rotation, rot_mul(rot_yaw(yaw as u64), rot_pitch_down()));
                        proof {
                            assert(yaw as int == child_yaw(i as int, amount as int, offset as int));
                            assert(rc == child_rot(rotation,
                                child_yaw(i as int, amount as int, offset as int)));
                        }
                        let b = Branch::new(to, slen, 1, rc, sz);
                        kids.push(b);
                        i = i + 1;
                    }
                    if clen != 0 {
                        let b = Branch::new(to, clen, cthick, rotation, sz);
                        kids.push(b);
                    }
                    let r = Branch {
                        from,
                        to,
                        rotation,
                        thickness,
                        extended: true,
                        branches: kids,
                    };
                    proof {
                        lemma_models_of(r.branches@, r.branches@.len() as int);
                        let want = extend_model(m0, *seq, g0, size).0;
                        assert(r.model().children =~= want.children);
                        assert(r.model() == want);
                        assert forall|j: int| 0 <= j < amount
                            implies compat(#[trigger] r.model().children[j], **side_seq) by {
                            assert(!r.model().children[j].extended);
                        }
                        if clen != 0 {
                            assert(!r.model().children[amount as int].extended);
                            assert(compat(r.model().children[amount as int], **center_seq));
                        }
                        assert(compat(r.model(), *seq));
                    }
                    r
                },
                Sequence::Leaf => {
                    proof {
                        lemma_safe_margin(to, size, 2);
                    }
                    stamp_leaf_cluster(vol, to, LEAF_COLOR);
                    let r = Branch {
                        from,
                        to,
                        rotation,
                        thickness,
                        extended: true,
                        branches,
                    };
                    proof {
                        lemma_models_of(r.branches@, r.branches@.len() as int);
                        let want = extend_model(m0, *seq, g0, size).0;
                        assert(r.model().children =~= want.children);
                        assert(r.model() == want);
                    }
                    r
                },
            }
        } else {
            match seq {
                Sequence::Branch { side_count, center_length, side_seq, center_seq, .. } => {
                    let amount = *side_count;
                    let clen = *center_length;
                    let ghost ssg: Sequence = **side_seq;
                    let ghost extra: int = if clen != 0 { 1int } else { 0 };
                    let mut kids = branches;
                    let mut walked: Vec<Branch> = Vec::new();
                    let mut i: usize = 0;
                    proof {
                        assert(m0.children.len() == amount + extra);
                    }
                    while i < amount
                        invariant
                            vol.wf(),
                            vol.side() == size,
                            18 <= size <= 1024,
                            i <= amount,
                            seq_wf(ssg),
                            m0.children.len() == amount + extra,
                            0 <= extra <= 1,
                            kids@.len() == m0.children.len() - i,
                            forall|j: int| 0 <= j < kids@.len()
                                ==> (#[trigger] kids@[j]).model() == m0.children[i + j],
                            forall|j: int| 0 <= j < m0.children.len()
                                ==> wf_model(#[trigger] m0.children[j], size),
                            forall|j: int| 0 <= j < amount ==> compat(#[trigger] m0.children[j], ssg),
                            walked@.len() == i,
                            forall|j: int| 0 <= j < i ==> (#[trigger] walked@[j]).model()
                                == extend_kids(m0.children, i as int, ssg, g0, size).0[j],
                            forall|j: int| 0 <= j < i
                                ==> wf_model((#[trigger] walked@[j]).model(), size)
                                    && compat((#[trigger] walked@[j]).model(), ssg),
                            vol.data@ == extend_kids(m0.children, i as int, ssg, g0, size).1,
                        decreases amount - i,
                    {
                        proof {
                            lemma_extend_kids_frame(m0.children, i as int, ssg, g0, size);
                        }
                        let child = kids.remove(0);
                        let child = child.extend(&**side_seq, vol);
                        walked.push(child);
                        i = i + 1;
                        proof {
                            lemma_extend_kids_frame(m0.children, i as int, ssg, g0, size);
                            assert forall|j: int| 0 <= j < i
                                implies (#[trigger] walked@[j]).model()
                                    == extend_kids(m0.children, i as int, ssg, g0, size).0[j] by {
                                lemma_extend_kids_frame(
                                    m0.children, i as int - 1, ssg, g0, size);
                            }
                        }
                    }
                    if clen != 0 {
                        proof {
                            lemma_extend_kids_frame(m0.children, amount as int, ssg, g0, size);
                            assert(compat(m0, *seq));
                            assert(m0.children[amount as int] == kids@[0].model());
                        }
                        let child = kids.remove(0);
                        let child = child.extend(&**center_seq, vol);
                        walked.push(child);
                    }
                    let r = Branch {
                        from,
                        to,
                        rotation,
                        thickness,
                        extended,
                        branches: walked,
                    };
                    proof {
                        lemma_models_of(r.branches@, r.branches@.len() as int);
                        lemma_extend_kids_frame(m0.children, amount as int, ssg, g0, size);
                        let want = extend_model(m0, *seq, g0, size).0;
                        assert(r.model().children =~= want.children);
                        assert(r.model() == want);
                    }
                    r
                },
                Sequence::Leaf => {
                    let r = Branch {
                        from,
                        to,
                        rotation,
                        thickness,
                        extended,
                        branches,
                    };
                    proof {
                        lemma_models_of(r.branches@, r.branches@.len() as int);
                        assert(r.model().children =~= m0.children);
                        assert(r.model() == m0);
                    }
                    r
                },
            }
        }
    }
}

} // verus!
