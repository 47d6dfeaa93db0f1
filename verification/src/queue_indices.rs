//! Bookkeeping for the renderer boundary: which hardware queue families
//! the display backend selected for graphics work and for presentation.
//! The backend fills the two slots in; the library only answers whether
//! the selection is complete and which distinct family indices it spans.

use vstd::prelude::*;

verus! {

pub struct QueueIndices {
    pub graphics_family: Option<u32>,
    pub present_family: Option<u32>,
}

impl QueueIndices {
    /// Both a graphics and a presentation family have been chosen.
    pub open spec fn complete(self) -> bool {
        self.graphics_family is Some && self.present_family is Some
    }

    pub fn is_correct(&self) -> (r: bool)
        ensures
            r == self.complete(),
    {
        self.graphics_family.is_some() && self.present_family.is_some()
    }

    /// The distinct chosen family indices, graphics first; a shared
    /// family appears once.
    pub fn queue_families(&self) -> (v: Vec<u32>)
        requires
            self.complete(),
        ensures
            v@ == (if self.graphics_family->0 == self.present_family->0 {
                seq![self.graphics_family->0]
            } else {
                seq![self.graphics_family->0, self.present_family->0]
            }),
    {
        let g = self.graphics_family.unwrap();
        let p = self.present_family.unwrap();
        let mut v: Vec<u32> = Vec::new();
        v.push(g);
        if p != g {
            v.push(p);
        }
        proof {
            if g == p {
                assert(v@ =~= seq![self.graphics_family->0]);
            } else {
                assert(v@ =~= seq![self.graphics_family->0, self.present_family->0]);
            }
        }
        v
    }
}

} // verus!
