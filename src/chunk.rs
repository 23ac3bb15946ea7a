//! Flat storage of voxel layers and their row occupancy masks.
use vstd::prelude::*;
use crate::bits::bit;

verus! {

/// A colour index of a voxel; within a layer a cell holds `colour + 1`, or
/// 0 where it is empty.
pub type ColourIdx = u16;

/// A 32 x 32 slice of a chunk: the value of cell `(x, z)` at `z * 32 + x`.
pub type ChunkLayer = [ColourIdx; 1024];

/// Row occupancy of a layer: bit `x` of row `z` is set iff cell `(x, z)` is
/// occupied.
pub type ChunkLayerMask = [u32; 32];

/// `mask` is the occupancy of `layer`.
pub open spec fn mask_matches(layer: ChunkLayer, mask: ChunkLayerMask) -> bool {
    forall|x: int, z: int|
        0 <= x < 32 && 0 <= z < 32 ==> #[trigger] bit(mask[z], x) == (layer[z * 32 + x] != 0)
}

/// Row `z` of the mask at height `y` of a range of masks whose first layer
/// lies at `start`: zero outside the range.
pub open spec fn mask_row(masks: Seq<ChunkLayerMask>, start: int, y: int, z: int) -> u32 {
    if start <= y < start + masks.len() {
        masks[y - start][z]
    } else {
        0
    }
}

/// The height encoded in a packed position.
pub open spec fn pos_y(pos: int) -> int {
    pos / 1024
}

/// The index of the cell within its layer encoded in a packed position.
pub open spec fn pos_cell(pos: int) -> int {
    pos % 1024
}

/// A packed position `(y << 10) | (z << 5) | x`, as a number.
pub open spec fn pack(x: int, y: int, z: int) -> int {
    y * 1024 + z * 32 + x
}

/// The cell at packed position `pos` of a range of layers whose first layer
/// lies at `start` holds a voxel.
pub open spec fn occupied_at(layers: Seq<ChunkLayer>, start: int, pos: int) -> bool {
    start <= pos_y(pos) < start + layers.len() && layers[pos_y(pos) - start][pos_cell(pos)] != 0
}

/// The colour index of the voxel at packed position `pos`.
pub open spec fn colour_at(layers: Seq<ChunkLayer>, start: int, pos: int) -> ColourIdx {
    (layers[pos_y(pos) - start][pos_cell(pos)] - 1) as ColourIdx
}

/// The layers and occupancy masks of every loaded chunk, one after the other.
#[derive(Clone, Debug)]
pub struct ChunkData {
    pub layers: Vec<ChunkLayer>,
    pub layer_masks: Vec<ChunkLayerMask>,
}

/// Where a chunk's layers lie in `ChunkData`: `y_len` layers from
/// `base_index`, the first of them at height `y_start` within the chunk.
#[derive(Copy, Clone, Debug, PartialEq, Eq, Structural)]
pub struct ChunkDataRef {
    pub base_index: u16,
    pub y_start: u8,
    pub y_len: u8,
}

/// A run of consecutive layers, the first of which lies at `layer_start`.
#[derive(Copy, Clone, Debug)]
pub struct ChunkLayerRange<'a> {
    pub layers: &'a [ChunkLayer],
    pub layer_start: usize,
}

/// A run of consecutive layer masks, the first of which lies at
/// `layer_start`.
#[derive(Copy, Clone, Debug)]
pub struct ChunkLayerMaskRange<'a> {
    pub layers: &'a [ChunkLayerMask],
    pub layer_start: usize,
}

impl ChunkDataRef {
    /// The indices in `ChunkData` of the layers that this refers to.
    pub fn data_range(self) -> (r: std::ops::Range<usize>)
        ensures
            r.start == self.base_index,
            r.end == self.base_index + self.y_len,
    {
        let idx = self.base_index as usize;
        let len = self.y_len as usize;
        idx..(idx + len)
    }
}

impl<'a> ChunkLayerMaskRange<'a> {
    /// The heights that the range holds layers for.
    pub fn y_range(self) -> (r: std::ops::Range<usize>)
        requires
            self.layer_start + self.layers@.len() <= usize::MAX,
        ensures
            r.start == self.layer_start,
            r.end == self.layer_start + self.layers@.len(),
    {
        self.layer_start..(self.layer_start + self.layers.len())
    }

    /// Height `y_idx` lies within the range.
    pub fn in_mask_range(self, y_idx: usize) -> (r: bool)
        ensures
            r == (self.layer_start <= y_idx < self.layer_start + self.layers@.len()),
    {
        y_idx >= self.layer_start && y_idx - self.layer_start < self.layers.len()
    }

    /// The mask at height `y_idx`, or the all-zero mask where the range holds
    /// no layer at that height.
    pub fn layer(self, y_idx: usize) -> (r: ChunkLayerMask)
        ensures
            forall|z: int|
                0 <= z < 32 ==> #[trigger] r[z] == mask_row(
                    self.layers@,
                    self.layer_start as int,
                    y_idx as int,
                    z,
                ),
    {
        if self.in_mask_range(y_idx) {
            self.layers[y_idx - self.layer_start]
        } else {
            [0u32; 32]
        }
    }
}

impl<'a> ChunkLayerRange<'a> {
    /// The colour index of the voxel at packed position `inner_pos`, which
    /// must be occupied.
    pub fn texture_idx(self, inner_pos: u16) -> (r: ColourIdx)
        requires
            occupied_at(self.layers@, self.layer_start as int, inner_pos as int),
        ensures
            r == colour_at(self.layers@, self.layer_start as int, inner_pos as int),
    {
        let y_idx = (inner_pos >> 10u16) as usize;
        let layer_idx = (inner_pos & 0x3FFu16) as usize;
        assert(inner_pos >> 10u16 == inner_pos / 1024 && inner_pos & 0x3FFu16 == inner_pos % 1024)
            by (bit_vector);
        self.layers[y_idx - self.layer_start][layer_idx] - 1
    }
}

impl ChunkData {
    /// Layer masks agree with their layers, one mask for each layer.
    pub open spec fn wf(&self) -> bool {
        &&& self.layers@.len() == self.layer_masks@.len()
        &&& forall|i: int|
            0 <= i < self.layers@.len() ==> #[trigger] mask_matches(
                self.layers@[i],
                self.layer_masks@[i],
            )
    }

    /// The masks that `range` refers to.
    pub fn layer_masks(&self, range: ChunkDataRef) -> (r: ChunkLayerMaskRange)
        requires
            range.base_index + range.y_len <= self.layer_masks@.len(),
        ensures
            r.layers@ == self.layer_masks@.subrange(
                range.base_index as int,
                range.base_index + range.y_len,
            ),
            r.layer_start == range.y_start,
    {
        let data_range = range.data_range();
        let layers = vstd::slice::slice_subrange(
            self.layer_masks.as_slice(),
            data_range.start,
            data_range.end,
        );
        ChunkLayerMaskRange { layers, layer_start: range.y_start as usize }
    }

    /// The layers that `range` refers to.
    pub fn layers(&self, range: ChunkDataRef) -> (r: ChunkLayerRange)
        requires
            range.base_index + range.y_len <= self.layers@.len(),
        ensures
            r.layers@ == self.layers@.subrange(
                range.base_index as int,
                range.base_index + range.y_len,
            ),
            r.layer_start == range.y_start,
    {
        let data_range = range.data_range();
        let layers = vstd::slice::slice_subrange(
            self.layers.as_slice(),
            data_range.start,
            data_range.end,
        );
        ChunkLayerRange { layers, layer_start: range.y_start as usize }
    }

    /// Appends `layers` and their masks; returns the index of the first
    /// appended layer.
    pub fn add_layers(&mut self, layers: &[ChunkLayer]) -> (r: u16)
        requires
            old(self).wf(),
            old(self).layers@.len() <= u16::MAX,
        ensures
            final(self).wf(),
            final(self).layers@ == old(self).layers@ + layers@,
            final(self).layer_masks@.subrange(0, old(self).layer_masks@.len() as int)
                == old(self).layer_masks@,
            r == old(self).layers@.len(),
    {
        let idx = self.layers.len() as u16;
        let ghost old_layers = self.layers@;
        let ghost old_masks = self.layer_masks@;
        let mut i: usize = 0;
        while i < layers.len()
            invariant
                0 <= i <= layers@.len(),
                self.wf(),
                self.layers@ == old_layers + layers@.subrange(0, i as int),
                self.layer_masks@.subrange(0, old_masks.len() as int) == old_masks,
                old_masks.len() == old_layers.len(),
            decreases layers@.len() - i,
        {
            let layer = &layers[i];
            let mask = layer_mask_of(layer);
            self.layer_masks.push(mask);
            self.layers.push(*layer);
            proof {
                assert(self.layers@ =~= old_layers + layers@.subrange(0, i + 1));
                assert(self.layer_masks@.subrange(0, old_masks.len() as int) =~= old_masks);
                assert forall|j: int| 0 <= j < self.layers@.len() implies #[trigger] mask_matches(
                    self.layers@[j],
                    self.layer_masks@[j],
                ) by {
                    if j < self.layers@.len() - 1 {
                        assert(mask_matches(
                            self.layers@.drop_last()[j],
                            self.layer_masks@.drop_last()[j],
                        ));
                    }
                }
            }
            i += 1;
        }
        assert(layers@.subrange(0, layers@.len() as int) =~= layers@);
        idx
    }
}

/// The occupancy mask of `layer`.
pub fn layer_mask_of(layer: &ChunkLayer) -> (r: ChunkLayerMask)
    ensures
        mask_matches(*layer, r),
{
    let mut masks: ChunkLayerMask = [0u32; 32];
    let mut z: usize = 0;
    while z < 32
        invariant
            0 <= z <= 32,
            forall|x: int, zz: int|
                0 <= x < 32 && 0 <= zz < z ==> #[trigger] bit(masks[zz], x) == (layer[zz * 32 + x]
                    != 0),
        decreases 32 - z,
    {
        let mut mask: u32 = 0;
        let mut x: usize = 0;
        assert(0u32 >> 0u32 == 0u32) by (bit_vector);
        while x < 32
            invariant
                0 <= x <= 32,
                z < 32,
                mask >> (x as u32) == 0 || x == 32,
                forall|xx: int| 0 <= xx < x ==> #[trigger] bit(mask, xx) == (layer[z * 32 + xx] != 0),
            decreases 32 - x,
        {
            let xs = x as u32;
            if layer[z * 32 + x] != 0 {
                let m = mask;
                mask = mask ^ (1u32 << xs);
                proof {
                    assert forall|xx: int| 0 <= xx <= x implies #[trigger] bit(mask, xx) == (layer[z
                        * 32 + xx] != 0) by {
                        let j = xx as u32;
                        assert(xs < 32 && j <= xs && m >> xs == 0 ==> ((((m ^ (1u32 << xs)) >> j)
                            & 1u32 == 1u32) <==> (j == xs || (m >> j) & 1u32 == 1u32)))
                            by (bit_vector);
                        assert(xs < 32 && j == xs && m >> xs == 0 ==> (m >> j) & 1u32 != 1u32)
                            by (bit_vector);
                        if xx < x {
                            assert(bit(m, xx) == (layer[z * 32 + xx] != 0));
                        }
                    }
                    assert(xs < 31 && m >> xs == 0 ==> (m ^ (1u32 << xs)) >> ((xs + 1) as u32) == 0)
                        by (bit_vector);
                }
            } else {
                proof {
                    assert(xs < 32 && mask >> xs == 0 ==> (mask >> xs) & 1u32 != 1u32)
                        by (bit_vector);
                    assert(xs < 31 && mask >> xs == 0 ==> mask >> ((xs + 1) as u32) == 0)
                        by (bit_vector);
                }
            }
            x += 1;
        }
        let ghost old_masks = masks;
        masks[z] = mask;
        proof {
            assert forall|xx: int, zz: int|
                0 <= xx < 32 && 0 <= zz < z + 1 implies #[trigger] bit(masks[zz], xx) == (layer[zz
                * 32 + xx] != 0) by {
                if zz < z {
                    assert(masks[zz] == old_masks[zz]);
                    assert(bit(old_masks[zz], xx) == (layer[zz * 32 + xx] != 0));
                }
            }
        }
        z += 1;
    }
    masks
}

/// Packs a position within a chunk as `(y << 10) | (z << 5) | x`.
pub fn pack_chunk_pos(x: usize, y: usize, z: usize) -> (r: u16)
    requires
        x < 32,
        z < 32,
        y < 64,
    ensures
        r == pack(x as int, y as int, z as int),
{
    let r = ((y << 10usize) ^ (z << 5usize) ^ x) as u16;
    assert(x < 32 && z < 32 && y < 64 ==> ((y << 10usize) ^ (z << 5usize) ^ x) as u16 == y * 1024
        + z * 32 + x) by (bit_vector);
    r
}

} // verus!
