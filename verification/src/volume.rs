//! The dense cubic voxel volume.
//!
//! A volume is a `size^3` grid of packed voxel values addressed by
//! `index = z*size*size + y*size + x`. A voxel is a `u16` with bit 15 as the
//! visibility flag and three 5-bit color channels below it; an invisible
//! cell is all zero. The volume supports point access, terrain generation
//! from a sampled noise field, and a flat little-endian byte encoding used
//! for persistence (the file I/O itself lives outside the library).

use vstd::prelude::*;

verus! {

/// Largest supported cube edge; keeps all index arithmetic in range.
pub const MAX_SIZE: usize = 1024;

/// Terrain palette: the topmost cell of a ground run.
pub const SURFACE_COLOR: u16 = 0b1_01000_01111_00111;
/// Terrain palette: cells buried fewer than five cells deep.
pub const SHALLOW_COLOR: u16 = 0b1_01001_01000_00110;
/// Terrain palette: cells buried five or more cells deep.
pub const DEEP_COLOR: u16 = 0b1_01000_00111_00110;

/// A voxel is occupied exactly when its packed value is nonzero.
pub open spec fn voxel_visible(v: u16) -> bool {
    v != 0
}

/// What can go wrong with volume data: a byte buffer too short to decode,
/// or a coordinate outside the grid.
#[derive(Clone, Copy, PartialEq, Eq, Structural, Debug)]
pub enum VolumeError {
    Io,
    OutOfBounds,
}

/// Flat index of cell `(x, y, z)` in a cube of edge `size`.
pub open spec fn vidx(size: int, x: int, y: int, z: int) -> int {
    z * size * size + y * size + x
}

/// Every in-range cell has an index below `size^3`.
pub proof fn lemma_vidx_bounds(size: int, x: int, y: int, z: int)
    requires
        0 <= x < size,
        0 <= y < size,
        0 <= z < size,
    ensures
        0 <= vidx(size, x, y, z) < size * size * size,
{
    assert(0 <= z * size * size + y * size + x < size * size * size) by (nonlinear_arith)
        requires
            0 <= x < size,
            0 <= y < size,
            0 <= z < size,
    ;
}

/// The flat index determines the cell: coordinates can be recovered by
/// division and remainder.
pub proof fn lemma_vidx_decode(size: int, x: int, y: int, z: int)
    requires
        0 <= x < size,
        0 <= y < size,
        0 <= z < size,
    ensures
        vidx(size, x, y, z) % size == x,
        (vidx(size, x, y, z) / size) % size == y,
        vidx(size, x, y, z) / (size * size) == z,
{
    let n = vidx(size, x, y, z);
    assert(n == (z * size + y) * size + x && n == z * (size * size) + (y * size + x)
        && 0 <= y * size + x < size * size) by (nonlinear_arith)
        requires
            0 <= x < size,
            0 <= y < size,
            0 <= z < size,
            n == z * size * size + y * size + x,
    ;
    vstd::arithmetic::div_mod::lemma_fundamental_div_mod_converse(n, size, z * size + y, x);
    vstd::arithmetic::div_mod::lemma_fundamental_div_mod_converse(
        z * size + y, size, z, y);
    vstd::arithmetic::div_mod::lemma_fundamental_div_mod_converse(
        n, size * size, z, y * size + x);
}

/// Exec-side index arithmetic stays within `usize` and matches `vidx`.
proof fn lemma_idx_arith(size: int, x: int, y: int, z: int)
    requires
        0 <= x < size,
        0 <= y < size,
        0 <= z < size,
        size <= 1024,
    ensures
        z * size * size + y * size + x == vidx(size, x, y, z),
        z * size <= 1024 * 1024,
        z * size * size <= 1024 * 1024 * 1024,
        y * size <= 1024 * 1024,
        0 <= z * size * size + y * size + x < size * size * size,
        size * size <= 1024 * 1024,
        size * size * size <= 1024 * 1024 * 1024,
{
    assert(z * size <= 1024 * 1024 && z * size * size <= 1024 * 1024 * 1024
        && y * size <= 1024 * 1024
        && 0 <= z * size * size + y * size + x < size * size * size
        && size * size <= 1024 * 1024
        && size * size * size <= 1024 * 1024 * 1024) by (nonlinear_arith)
        requires
            0 <= x < size,
            0 <= y < size,
            0 <= z < size,
            size <= 1024,
    ;
}

pub struct Volume {
    pub size: usize,
    pub data: Vec<u16>,
}

impl Volume {
    /// Cube edge length.
    pub open spec fn side(&self) -> int {
        self.size as int
    }

    /// Structural invariant: the cell array covers the whole cube and the
    /// edge length is within the supported range.
    pub open spec fn wf(&self) -> bool {
        &&& self.data@.len() == self.side() * self.side() * self.side()
        &&& 0 < self.side() <= MAX_SIZE as int
    }

    /// Cell `(x, y, z)` lies inside the grid.
    pub open spec fn in_bounds(&self, x: int, y: int, z: int) -> bool {
        0 <= x < self.side() && 0 <= y < self.side() && 0 <= z < self.side()
    }

    /// An all-invisible volume of edge `size`.
    pub fn new(size: usize) -> (v: Volume)
        requires
            0 < size <= MAX_SIZE,
        ensures
            v.wf(),
            v.side() == size,
            forall|i: int| 0 <= i < v.data@.len() ==> v.data@[i] == 0u16,
    {
        proof {
            assert(size * size <= 1024 * 1024 && size * size * size <= 1024 * 1024 * 1024)
                by (nonlinear_arith)
                requires 0 < size <= 1024,
            ;
        }
        let total: usize = size * size * size;
        let mut data: Vec<u16> = Vec::new();
        while data.len() < total
            invariant
                data@.len() <= total,
                forall|i: int| 0 <= i < data@.len() ==> data@[i] == 0u16,
            decreases total - data@.len(),
        {
            data.push(0u16);
        }
        Volume { size, data }
    }

    /// Wrap an existing cell array as a volume.
    pub fn create_volume(size: usize, data: Vec<u16>) -> (v: Volume)
        requires
            0 < size <= MAX_SIZE,
            data@.len() == size * size * size,
        ensures
            v.wf(),
            v.side() == size,
            v.data@ == data@,
    {
        Volume { size, data }
    }

    pub fn size(&self) -> (s: usize)
        ensures
            s as int == self.side(),
    {
        self.size
    }

    /// Read the cell at `(x, y, z)`.
    pub fn get(&self, x: usize, y: usize, z: usize) -> (r: u16)
        requires
            self.wf(),
            self.in_bounds(x as int, y as int, z as int),
        ensures
            r == self.data@[vidx(self.side(), x as int, y as int, z as int)],
    {
        proof {
            lemma_idx_arith(self.side(), x as int, y as int, z as int);
        }
        self.data[z * self.size * self.size + y * self.size + x]
    }

    /// Overwrite the cell at `(x, y, z)`.
    pub fn set(&mut self, x: usize, y: usize, z: usize, value: u16)
        requires
            old(self).wf(),
            old(self).in_bounds(x as int, y as int, z as int),
        ensures
            final(self).wf(),
            final(self).side() == old(self).side(),
            final(self).data@ == old(self).data@.update(
                vidx(old(self).side(), x as int, y as int, z as int),
                value,
            ),
    {
        proof {
            lemma_idx_arith(self.side(), x as int, y as int, z as int);
        }
        let i = z * self.size * self.size + y * self.size + x;
        self.data.set(i, value);
    }

    /// Bounds-checked read: `Err(OutOfBounds)` exactly when a coordinate
    /// reaches past the grid.
    pub fn get_checked(&self, x: usize, y: usize, z: usize) -> (r: Result<u16, VolumeError>)
        requires
            self.wf(),
        ensures
            self.in_bounds(x as int, y as int, z as int)
                ==> r == Ok::<u16, VolumeError>(
                    self.data@[vidx(self.side(), x as int, y as int, z as int)]),
            !self.in_bounds(x as int, y as int, z as int)
                ==> r == Err::<u16, VolumeError>(VolumeError::OutOfBounds),
    {
        if x < self.size && y < self.size && z < self.size {
            Ok(self.get(x, y, z))
        } else {
            Err(VolumeError::OutOfBounds)
        }
    }

    /// Bounds-checked write: `Err(OutOfBounds)` exactly when a coordinate
    /// reaches past the grid; the volume is then left unchanged.
    pub fn set_checked(&mut self, x: usize, y: usize, z: usize, value: u16)
        -> (r: Result<(), VolumeError>)
        requires
            old(self).wf(),
        ensures
            final(self).wf(),
            final(self).side() == old(self).side(),
            old(self).in_bounds(x as int, y as int, z as int)
                ==> r == Ok::<(), VolumeError>(())
                    && final(self).data@ == old(self).data@.update(
                        vidx(old(self).side(), x as int, y as int, z as int),
                        value,
                    ),
            !old(self).in_bounds(x as int, y as int, z as int)
                ==> r == Err::<(), VolumeError>(VolumeError::OutOfBounds)
                    && *final(self) == *old(self),
    {
        if x < self.size && y < self.size && z < self.size {
            self.set(x, y, z, value);
            Ok(())
        } else {
            Err(VolumeError::OutOfBounds)
        }
    }
}

/// Cell `(x, y, z)` of the noise field is solid ground: the sampled noise
/// (in milli-units) exceeds the height bias `(y - size/4) / 100` of the
/// terrain profile. Stated over exact integers: `d/1000 - (y - size/4)/100
/// > 0` scaled by 2000.
pub open spec fn solid_at(density: Seq<i64>, size: int, x: int, y: int, z: int) -> bool {
    2 * density[vidx(size, x, y, z)] > 5 * (4 * y - size)
}

/// Number of consecutive solid cells directly above `(x, y, z)` in its
/// column, counted from the cell upward until the first gap or the top.
pub open spec fn ground_depth(density: Seq<i64>, size: int, x: int, y: int, z: int) -> int
    decreases size - y,
{
    if y + 1 >= size {
        0
    } else if solid_at(density, size, x, y + 1, z) {
        1 + ground_depth(density, size, x, y + 1, z)
    } else {
        0
    }
}

/// The terrain value of one cell: invisible where the noise field is not
/// solid, otherwise a palette color picked by burial depth.
pub open spec fn gen_cell(density: Seq<i64>, size: int, x: int, y: int, z: int) -> u16 {
    if !solid_at(density, size, x, y, z) {
        0u16
    } else {
        let d = ground_depth(density, size, x, y, z);
        if d == 0 {
            SURFACE_COLOR
        } else if d < 5 {
            SHALLOW_COLOR
        } else {
            DEEP_COLOR
        }
    }
}

/// Two distinct in-range cells never share a flat index.
pub proof fn lemma_vidx_injective(
    size: int, x1: int, y1: int, z1: int, x2: int, y2: int, z2: int,
)
    requires
        0 <= x1 < size, 0 <= y1 < size, 0 <= z1 < size,
        0 <= x2 < size, 0 <= y2 < size, 0 <= z2 < size,
        vidx(size, x1, y1, z1) == vidx(size, x2, y2, z2),
    ensures
        x1 == x2 && y1 == y2 && z1 == z2,
{
    lemma_vidx_decode(size, x1, y1, z1);
    lemma_vidx_decode(size, x2, y2, z2);
}

impl Volume {
    /// Procedural terrain from a sampled coherent-noise field.
    ///
    /// `density` holds one milli-scaled noise sample in `[-1000, 1000]` per
    /// cell, in the same flat layout as the volume. A cell is solid ground
    /// when its sample beats the height bias; solid cells are colored by how
    /// deep they are buried (surface / shallow / deep), walking each column
    /// top-down exactly as `ground_depth` states.
    pub fn generate(size: usize, density: &Vec<i64>) -> (v: Volume)
        requires
            0 < size <= MAX_SIZE,
            density@.len() == size * size * size,
            forall|i: int| 0 <= i < density@.len() ==> -1000 <= #[trigger] density@[i] <= 1000,
        ensures
            v.wf(),
            v.side() == size,
            forall|x: int, y: int, z: int|
                0 <= x < size && 0 <= y < size && 0 <= z < size
                    ==> v.data@[vidx(size as int, x, y, z)]
                        == gen_cell(density@, size as int, x, y, z),
            forall|x: int, y: int, z: int|
                0 <= x < size && 0 <= y < size && 0 <= z < size
                    ==> (voxel_visible(v.data@[vidx(size as int, x, y, z)])
                        <==> solid_at(density@, size as int, x, y, z)),
    {
        let ghost sz = size as int;
        let mut vol = Volume::new(size);
        proof {
            assert forall|x2: int, y2: int, z2: int|
                0 <= x2 < sz && 0 <= y2 < sz && 0 <= z2 < sz
                implies vol.data@[vidx(sz, x2, y2, z2)] == 0u16 by {
                lemma_vidx_bounds(sz, x2, y2, z2);
            }
        }
        let mut z: usize = 0;
        while z < size
            invariant
                vol.wf(),
                vol.side() == sz,
                sz == size as int,
                0 < size <= MAX_SIZE,
                density@.len() == size * size * size,
                forall|i: int| 0 <= i < density@.len() ==> -1000 <= #[trigger] density@[i] <= 1000,
                z <= size,
                forall|x2: int, y2: int, z2: int|
                    0 <= x2 < sz && 0 <= y2 < sz && 0 <= z2 < sz
                        ==> vol.data@[vidx(sz, x2, y2, z2)]
                            == (if z2 < z { gen_cell(density@, sz, x2, y2, z2) } else { 0u16 }),
            decreases size - z,
        {
            let mut x: usize = 0;
            while x < size
                invariant
                    vol.wf(),
                    vol.side() == sz,
                    sz == size as int,
                    0 < size <= MAX_SIZE,
                    density@.len() == size * size * size,
                    forall|i: int| 0 <= i < density@.len() ==> -1000 <= #[trigger] density@[i] <= 1000,
                    z < size,
                    x <= size,
                    forall|x2: int, y2: int, z2: int|
                        0 <= x2 < sz && 0 <= y2 < sz && 0 <= z2 < sz
                            ==> vol.data@[vidx(sz, x2, y2, z2)]
                                == (if z2 < z || (z2 == z && x2 < x) {
                                    gen_cell(density@, sz, x2, y2, z2)
                                } else {
                                    0u16
                                }),
                decreases size - x,
            {
                let mut depth_ctr: usize = 0;
                let mut yy: usize = 0;
                while yy < size
                    invariant
                        vol.wf(),
                        vol.side() == sz,
                        sz == size as int,
                        0 < size <= MAX_SIZE,
                        density@.len() == size * size * size,
                        forall|i: int| 0 <= i < density@.len() ==> -1000 <= #[trigger] density@[i] <= 1000,
                        z < size,
                        x < size,
                        yy <= size,
                        depth_ctr <= yy,
                        yy < size ==> depth_ctr
                            == ground_depth(density@, sz, x as int, sz - 1 - yy, z as int),
                        forall|x2: int, y2: int, z2: int|
                            0 <= x2 < sz && 0 <= y2 < sz && 0 <= z2 < sz
                                ==> vol.data@[vidx(sz, x2, y2, z2)]
                                    == (if z2 < z || (z2 == z && x2 < x)
                                        || (z2 == z && x2 == x && y2 >= sz - yy) {
                                        gen_cell(density@, sz, x2, y2, z2)
                                    } else {
                                        0u16
                                    }),
                    decreases size - yy,
                {
                    let h = size - 1 - yy;
                    proof {
                        lemma_idx_arith(sz, x as int, h as int, z as int);
                    }
                    let i = z * size * size + h * size + x;
                    let d = density[i];
                    let ghost prev = vol.data@;
                    let solid = 2 * d > 5 * (4 * (h as i64) - (size as i64));
                    assert(solid == solid_at(density@, sz, x as int, h as int, z as int));
                    if solid {
                        let c = if depth_ctr == 0 {
                            SURFACE_COLOR
                        } else if depth_ctr < 5 {
                            SHALLOW_COLOR
                        } else {
                            DEEP_COLOR
                        };
                        assert(c == gen_cell(density@, sz, x as int, h as int, z as int));
                        vol.set(x, h, z, c);
                        depth_ctr = depth_ctr + 1;
                    } else {
                        assert(0u16 == gen_cell(density@, sz, x as int, h as int, z as int));
                        depth_ctr = 0;
                    }
                    proof {
                        assert forall|x2: int, y2: int, z2: int|
                            0 <= x2 < sz && 0 <= y2 < sz && 0 <= z2 < sz
                            implies vol.data@[vidx(sz, x2, y2, z2)]
                                == (if z2 < z || (z2 == z && x2 < x)
                                    || (z2 == z && x2 == x && y2 >= sz - (yy + 1)) {
                                    gen_cell(density@, sz, x2, y2, z2)
                                } else {
                                    0u16
                                }) by {
                            lemma_vidx_bounds(sz, x2, y2, z2);
                            if vidx(sz, x2, y2, z2) == vidx(sz, x as int, h as int, z as int) {
                                lemma_vidx_injective(
                                    sz, x2, y2, z2, x as int, h as int, z as int);
                            }
                        }
                    }
                    yy = yy + 1;
                }
                x = x + 1;
            }
            z = z + 1;
        }
        vol
    }
}

/// Low byte of a packed voxel value.
pub open spec fn lo_byte(w: u16) -> u8 {
    (w as int % 256) as u8
}

/// High byte of a packed voxel value.
pub open spec fn hi_byte(w: u16) -> u8 {
    (w as int / 256) as u8
}

/// The voxel value spelled by a little-endian byte pair.
pub open spec fn word_of(lo: u8, hi: u8) -> u16 {
    (lo as int + hi as int * 256) as u16
}

/// Little-endian byte encoding of a cell array: two bytes per cell,
/// low byte first.
pub open spec fn encode_words(s: Seq<u16>) -> Seq<u8> {
    Seq::new(2 * s.len(), |i: int| if i % 2 == 0 { lo_byte(s[i / 2]) } else { hi_byte(s[i / 2]) })
}

/// The first `n` cells decoded from a little-endian byte buffer.
pub open spec fn decode_words(n: nat, b: Seq<u8>) -> Seq<u16> {
    Seq::new(n, |i: int| word_of(b[2 * i], b[2 * i + 1]))
}

/// Round trip: decoding an encoded cell array gives the array back, so a
/// volume saved to bytes and loaded again is reproduced cell for cell.
pub proof fn lemma_words_round_trip(s: Seq<u16>)
    ensures
        decode_words(s.len(), encode_words(s)) == s,
{
    let e = encode_words(s);
    let d = decode_words(s.len(), e);
    assert forall|i: int| 0 <= i < s.len() implies d[i] == s[i] by {
        assert((2 * i) % 2 == 0 && (2 * i) / 2 == i && (2 * i + 1) % 2 == 1
            && (2 * i + 1) / 2 == i) by (nonlinear_arith);
        assert(e[2 * i] == lo_byte(s[i]));
        assert(e[2 * i + 1] == hi_byte(s[i]));
        vstd::arithmetic::div_mod::lemma_fundamental_div_mod(s[i] as int, 256);
    }
    assert(d =~= s);
}

impl Volume {
    /// Serialize the whole grid as consecutive little-endian 16-bit values.
    pub fn to_bytes(&self) -> (r: Vec<u8>)
        requires
            self.wf(),
        ensures
            r@ == encode_words(self.data@),
    {
        proof {
            assert(self.side() * self.side() * self.side() <= 1024 * 1024 * 1024)
                by (nonlinear_arith)
                requires 0 < self.side() <= 1024,
            ;
        }
        let n = self.data.len();
        let mut r: Vec<u8> = Vec::new();
        let mut i: usize = 0;
        while i < n
            invariant
                n == self.data@.len(),
                n <= 1024 * 1024 * 1024,
                i <= n,
                r@.len() == 2 * i,
                forall|j: int| 0 <= j < 2 * i ==> r@[j] == encode_words(self.data@)[j],
            decreases n - i,
        {
            let w = self.data[i];
            let lo = (w & 0xff) as u8;
            let hi = (w >> 8) as u8;
            proof {
                assert(w & 0xff == w % 256 && w & 0xff < 256) by (bit_vector);
                assert(w >> 8 == w / 256 && w >> 8 < 256) by (bit_vector);
                assert((2 * i as int) % 2 == 0 && (2 * i as int) / 2 == i as int
                    && (2 * i as int + 1) % 2 == 1 && (2 * i as int + 1) / 2 == i as int)
                    by (nonlinear_arith);
            }
            r.push(lo);
            r.push(hi);
            i = i + 1;
        }
        proof {
            assert(r@ =~= encode_words(self.data@));
        }
        r
    }

    /// Rebuild a volume of edge `size` from its byte encoding. Fails with
    /// `Io` exactly when the buffer is shorter than the `2 * size^3` bytes
    /// the grid needs.
    pub fn from_bytes(size: usize, bytes: &Vec<u8>) -> (r: Result<Volume, VolumeError>)
        requires
            0 < size <= MAX_SIZE,
        ensures
            bytes@.len() >= 2 * (size * size * size)
                ==> (r matches Ok(v)
                    && v.wf()
                    && v.side() == size
                    && v.data@ == decode_words((size * size * size) as nat, bytes@)),
            bytes@.len() < 2 * (size * size * size)
                ==> r == Err::<Volume, VolumeError>(VolumeError::Io),
    {
        proof {
            assert(size * size <= 1024 * 1024 && size * size * size <= 1024 * 1024 * 1024)
                by (nonlinear_arith)
                requires 0 < size <= 1024,
            ;
        }
        let total: usize = size * size * size;
        if bytes.len() < 2 * total {
            return Err(VolumeError::Io);
        }
        let mut data: Vec<u16> = Vec::new();
        let mut i: usize = 0;
        while i < total
            invariant
                total == size * size * size,
                total <= 1024 * 1024 * 1024,
                bytes@.len() >= 2 * total,
                i <= total,
                data@.len() == i,
                forall|j: int| 0 <= j < i
                    ==> data@[j] == decode_words(total as nat, bytes@)[j],
            decreases total - i,
        {
            let lo = bytes[2 * i];
            let hi = bytes[2 * i + 1];
            let w = (lo as u16) | ((hi as u16) << 8);
            proof {
                let lw = lo as u16;
                let hw = hi as u16;
                assert(lw | (hw << 8) == lw + hw * 256) by (bit_vector)
                    requires lw < 256, hw < 256,
                ;
            }
            data.push(w);
            i = i + 1;
        }
        proof {
            assert(data@ =~= decode_words(total as nat, bytes@));
        }
        Ok(Volume { size, data })
    }
}

} // verus!
