//! Which voxel faces are exposed, and their extraction as merged surfaces.
use vstd::prelude::*;
use vstd::arithmetic::div_mod::lemma_fundamental_div_mod_converse;
use crate::bits::{
    bit, bits_of, lemma_and_not, lemma_or4_zero, lemma_runs_none, lemma_side_rows, lemma_zero_no_bits,
    runs,
};
use crate::chunk::{
    ChunkDataRef, ChunkLayerMaskRange, ChunkLayerRange, mask_matches, mask_row,
    occupied_at, pack, pack_chunk_pos, pos_cell, pos_y,
};
use crate::chunks::{Chunks, empty_ref, find_neighbour, find_ref, ChunkRef};
use crate::surfaces::{VoxelSurface, add_run_lengths, run_surfaces};
use crate::transpose::transpose;

verus! {

/// The record that a run of surfaces starts from: chunk `c`, face `f`, and
/// the packed position `pos` with 0 on the axis that the run varies.
pub open spec fn surface_base(c: int, f: int, pos: int) -> VoxelSurface {
    VoxelSurface {
        inner_pos: pos as u16,
        face: f as u8,
        extent: 0,
        chunk_idx: c as u16,
        colour_idx: 0,
    }
}

/// The data of the first chunk of `refs` at `(x, y, z)` is one of theirs.
proof fn lemma_find_ref_in(refs: Seq<ChunkRef>, x: int, y: int, z: int)
    ensures
        find_ref(refs, x, y, z) matches Some(d) ==> exists|k: int|
            0 <= k < refs.len() && #[trigger] refs[k].data_ref == d,
    decreases refs.len(),
{
    if refs.len() > 0 {
        let rest = refs.subrange(1, refs.len() as int);
        lemma_find_ref_in(rest, x, y, z);
        if !(refs[0].offset.x == x && refs[0].offset.y == y && refs[0].offset.z == z) {
            if let Some(d) = find_ref(rest, x, y, z) {
                let k = choose|k: int| 0 <= k < rest.len() && #[trigger] rest[k].data_ref == d;
                assert(refs[k + 1].data_ref == d);
            }
        } else {
            assert(refs[0].data_ref == refs[0].data_ref);
        }
    }
}

/// The packed position of a cell gives back its height and its place in the
/// layer.
pub proof fn lemma_pack(x: int, y: int, z: int)
    requires
        0 <= x < 32,
        0 <= z < 32,
        0 <= y < 32,
    ensures
        pos_y(pack(x, y, z)) == y,
        pos_cell(pack(x, y, z)) == z * 32 + x,
        0 <= pack(x, y, z) < 32768,
{
    lemma_fundamental_div_mod_converse(pack(x, y, z), 1024, y, z * 32 + x);
}

/// The masks of the six chunks next to one chunk, in the order -X, +X, -Y,
/// +Y, -Z, +Z.
pub struct Neighbours<'a> {
    pub x_neg: ChunkLayerMaskRange<'a>,
    pub x_pos: ChunkLayerMaskRange<'a>,
    pub y_neg: ChunkLayerMaskRange<'a>,
    pub y_pos: ChunkLayerMaskRange<'a>,
    pub z_neg: ChunkLayerMaskRange<'a>,
    pub z_pos: ChunkLayerMaskRange<'a>,
}

impl Chunks {
    /// Cell `(x, y, z)` of the chunk whose layers `d` refers to holds a voxel.
    pub open spec fn occ(&self, d: ChunkDataRef, x: int, y: int, z: int) -> bool {
        &&& 0 <= x < 32
        &&& 0 <= z < 32
        &&& d.y_start <= y < d.y_start + d.y_len
        &&& self.data.layers@[d.base_index + (y - d.y_start)][z * 32 + x] != 0
    }

    /// The layers of the chunk at offset `(dx, dy, dz)` from chunk `c`, or
    /// no layers where none is loaded there.
    pub open spec fn neighbour(&self, c: int, dx: int, dy: int, dz: int) -> ChunkDataRef {
        let o = self.refs@[c].offset;
        match find_ref(self.refs@, o.x + dx, o.y + dy, o.z + dz) {
            Some(d) => d,
            None => empty_ref(),
        }
    }

    /// The cell across face `f` of cell `(x, y, z)` of chunk `c` holds a
    /// voxel: within the chunk, or in the chunk next to it where the cell
    /// lies on the chunk's border.
    pub open spec fn across(&self, c: int, f: int, x: int, y: int, z: int) -> bool {
        let d = self.refs@[c].data_ref;
        if f == 0 {
            if x > 0 {
                self.occ(d, x - 1, y, z)
            } else {
                self.occ(self.neighbour(c, -1, 0, 0), 31, y, z)
            }
        } else if f == 1 {
            if x < 31 {
                self.occ(d, x + 1, y, z)
            } else {
                self.occ(self.neighbour(c, 1, 0, 0), 0, y, z)
            }
        } else if f == 2 {
            if y > 0 {
                self.occ(d, x, y - 1, z)
            } else {
                self.occ(self.neighbour(c, 0, -1, 0), x, 31, z)
            }
        } else if f == 3 {
            if y < 31 {
                self.occ(d, x, y + 1, z)
            } else {
                self.occ(self.neighbour(c, 0, 1, 0), x, 0, z)
            }
        } else if f == 4 {
            if z > 0 {
                self.occ(d, x, y, z - 1)
            } else {
                self.occ(self.neighbour(c, 0, 0, -1), x, y, 31)
            }
        } else {
            if z < 31 {
                self.occ(d, x, y, z + 1)
            } else {
                self.occ(self.neighbour(c, 0, 0, 1), x, y, 0)
            }
        }
    }

    /// Face `f` (0 to 5: -X, +X, -Y, +Y, -Z, +Z) of the voxel at `(x, y, z)`
    /// in chunk `c` is exposed: the cell holds a voxel and the cell across
    /// that face does not.
    pub open spec fn exposed(&self, c: int, f: int, x: int, y: int, z: int) -> bool {
        &&& 0 <= c < self.refs@.len()
        &&& 0 <= f < 6
        &&& self.occ(self.refs@[c].data_ref, x, y, z)
        &&& !self.across(c, f, x, y, z)
    }

    /// The surfaces of the exposed faces `f` (-X or +X) of column `x` of the
    /// layer at height `y` of chunk `c`, merged into runs along `z`.
    pub open spec fn column_surfaces(&self, c: int, f: int, x: int, y: int) -> Seq<VoxelSurface> {
        run_surfaces(
            runs(|z: int| self.exposed(c, f, x, y, z)),
            surface_base(c, f, pack(x, y, 0)),
            5,
            self.chunk_layers(c),
            self.refs@[c].data_ref.y_start as int,
        )
    }

    /// The surfaces of the exposed faces `f` (-Y, +Y, -Z or +Z) of row `z` of
    /// the layer at height `y` of chunk `c`, merged into runs along `x`.
    pub open spec fn row_surfaces(&self, c: int, f: int, y: int, z: int) -> Seq<VoxelSurface> {
        run_surfaces(
            runs(|x: int| self.exposed(c, f, x, y, z)),
            surface_base(c, f, pack(0, y, z)),
            0,
            self.chunk_layers(c),
            self.refs@[c].data_ref.y_start as int,
        )
    }

    /// The -X and +X surfaces of the first `n` columns of a layer.
    pub open spec fn side_surfaces_upto(&self, c: int, y: int, n: int) -> Seq<VoxelSurface>
        decreases n,
    {
        if n <= 0 {
            Seq::empty()
        } else {
            self.side_surfaces_upto(c, y, n - 1) + self.column_surfaces(c, 0, n - 1, y)
                + self.column_surfaces(c, 1, n - 1, y)
        }
    }

    /// The -Y, +Y, -Z and +Z surfaces of the first `n` rows of a layer.
    pub open spec fn row_faces_upto(&self, c: int, y: int, n: int) -> Seq<VoxelSurface>
        decreases n,
    {
        if n <= 0 {
            Seq::empty()
        } else {
            self.row_faces_upto(c, y, n - 1) + self.row_surfaces(c, 2, y, n - 1)
                + self.row_surfaces(c, 3, y, n - 1) + self.row_surfaces(c, 4, y, n - 1)
                + self.row_surfaces(c, 5, y, n - 1)
        }
    }

    /// The surfaces of the layer at height `y` of chunk `c`.
    pub open spec fn layer_surfaces(&self, c: int, y: int) -> Seq<VoxelSurface> {
        self.side_surfaces_upto(c, y, 32) + self.row_faces_upto(c, y, 32)
    }

    /// The surfaces of the first `n` layers of chunk `c`.
    pub open spec fn chunk_surfaces_upto(&self, c: int, n: int) -> Seq<VoxelSurface>
        decreases n,
    {
        if n <= 0 {
            Seq::empty()
        } else {
            self.chunk_surfaces_upto(c, n - 1) + self.layer_surfaces(
                c,
                self.refs@[c].data_ref.y_start + n - 1,
            )
        }
    }

    /// The surfaces of the first `n` chunks.
    pub open spec fn surfaces_upto(&self, n: int) -> Seq<VoxelSurface>
        decreases n,
    {
        if n <= 0 {
            Seq::empty()
        } else {
            self.surfaces_upto(n - 1) + self.chunk_surfaces_upto(
                n - 1,
                self.refs@[n - 1].data_ref.y_len as int,
            )
        }
    }

    /// The surfaces of all loaded chunks, chunk by chunk, layer by layer
    /// from the lowest: first the -X and +X surfaces column by column, then
    /// the -Y, +Y, -Z and +Z surfaces row by row.
    pub open spec fn surfaces(&self) -> Seq<VoxelSurface> {
        self.surfaces_upto(self.refs@.len() as int)
    }

    /// `v` holds the masks of the layers that `d` refers to.
    pub open spec fn mask_view(&self, v: ChunkLayerMaskRange, d: ChunkDataRef) -> bool {
        &&& v.layers@ == self.data.layer_masks@.subrange(
            d.base_index as int,
            d.base_index + d.y_len,
        )
        &&& v.layer_start == d.y_start
    }

    /// `d` refers to layers that exist, within 32 layers of height.
    pub open spec fn valid_ref(&self, d: ChunkDataRef) -> bool {
        &&& d.base_index + d.y_len <= self.data.layers@.len()
        &&& d.y_start + d.y_len <= 32
    }

    /// What the masks of the chunk `c`, its layers and its neighbours' masks
    /// are, as taken out of the chunk data.
    pub open spec fn views_of(
        &self,
        c: int,
        collision: ChunkLayerMaskRange,
        layers: ChunkLayerRange,
        n: Neighbours,
    ) -> bool {
        &&& self.mask_view(collision, self.refs@[c].data_ref)
        &&& layers.layers@ == self.chunk_layers(c)
        &&& layers.layer_start == self.refs@[c].data_ref.y_start
        &&& self.mask_view(n.x_neg, self.neighbour(c, -1, 0, 0))
        &&& self.mask_view(n.x_pos, self.neighbour(c, 1, 0, 0))
        &&& self.mask_view(n.y_neg, self.neighbour(c, 0, -1, 0))
        &&& self.mask_view(n.y_pos, self.neighbour(c, 0, 1, 0))
        &&& self.mask_view(n.z_neg, self.neighbour(c, 0, 0, -1))
        &&& self.mask_view(n.z_pos, self.neighbour(c, 0, 0, 1))
    }

    /// Every neighbour of a chunk refers to layers that exist.
    pub proof fn lemma_neighbour_valid(&self, c: int, dx: int, dy: int, dz: int)
        requires
            self.wf(),
            0 <= c < self.refs@.len(),
        ensures
            self.valid_ref(self.neighbour(c, dx, dy, dz)),
    {
        let o = self.refs@[c].offset;
        lemma_find_ref_in(self.refs@, o.x + dx, o.y + dy, o.z + dz);
        if let Some(d) = find_ref(self.refs@, o.x + dx, o.y + dy, o.z + dz) {
            let k = choose|k: int| 0 <= k < self.refs@.len() && #[trigger] self.refs@[k].data_ref == d;
            assert(self.refs@[k].data_ref == d);
        }
    }

    /// The bits of a row of masks are the voxels of that row.
    pub proof fn lemma_mask_bits(&self, v: ChunkLayerMaskRange, d: ChunkDataRef, y: int, z: int)
        requires
            self.wf(),
            self.valid_ref(d),
            self.mask_view(v, d),
            0 <= z < 32,
        ensures
            forall|x: int|
                #[trigger] bit(mask_row(v.layers@, v.layer_start as int, y, z), x) == self.occ(
                    d,
                    x,
                    y,
                    z,
                ),
    {
        let w = mask_row(v.layers@, v.layer_start as int, y, z);
        lemma_zero_no_bits(w);
        assert forall|x: int| #[trigger] bit(w, x) == self.occ(d, x, y, z) by {
            if d.y_start <= y < d.y_start + d.y_len && 0 <= x < 32 {
                let i = d.base_index + (y - d.y_start);
                assert(v.layers@[y - d.y_start] == self.data.layer_masks@[i]);
                assert(mask_matches(self.data.layers@[i], self.data.layer_masks@[i]));
            }
        }
    }

    /// Cells that hold a voxel are occupied in the chunk's own layers.
    pub proof fn lemma_occ_occupied(&self, c: int, x: int, y: int, z: int)
        requires
            self.wf(),
            0 <= c < self.refs@.len(),
            self.occ(self.refs@[c].data_ref, x, y, z),
        ensures
            occupied_at(
                self.chunk_layers(c),
                self.refs@[c].data_ref.y_start as int,
                pack(x, y, z),
            ),
            0 <= pack(x, y, z) < 32768,
    {
        let d = self.refs@[c].data_ref;
        lemma_pack(x, y, z);
        assert(self.chunk_layers(c)[y - d.y_start] == self.data.layers@[d.base_index + (y
            - d.y_start)]);
    }
}

impl Chunks {
    /// Appends the -X and +X surfaces of the layer at height `y` of chunk
    /// `c`, column by column; the two matrices are scratch space.
    fn add_side_surfaces(
        &self,
        surfaces: &mut Vec<VoxelSurface>,
        face_l_mat: &mut [u32; 32],
        face_r_mat: &mut [u32; 32],
        c: usize,
        collision: ChunkLayerMaskRange,
        layers: ChunkLayerRange,
        n: &Neighbours,
        y: usize,
    )
        requires
            self.wf(),
            c < self.refs@.len(),
            self.views_of(c as int, collision, layers, *n),
            y < 32,
        ensures
            final(surfaces)@ == old(surfaces)@ + self.side_surfaces_upto(c as int, y as int, 32),
    {
        let ghost ci = c as int;
        let ghost yi = y as int;
        let ghost d = self.refs@[ci].data_ref;
        let ghost nl = self.neighbour(ci, -1, 0, 0);
        let ghost nr = self.neighbour(ci, 1, 0, 0);
        proof {
            self.lemma_neighbour_valid(ci, -1, 0, 0);
            self.lemma_neighbour_valid(ci, 1, 0, 0);
            assert(self.valid_ref(d));
        }
        let layer_mask = collision.layer(y);
        let layer_mask_l = n.x_neg.layer(y);
        let layer_mask_r = n.x_pos.layer(y);
        let mut z: usize = 0;
        while z < 32
            invariant
                self.wf(),
                ci == c,
                ci < self.refs@.len(),
                self.views_of(ci, collision, layers, *n),
                d == self.refs@[ci].data_ref,
                nl == self.neighbour(ci, -1, 0, 0),
                nr == self.neighbour(ci, 1, 0, 0),
                self.valid_ref(d),
                self.valid_ref(nl),
                self.valid_ref(nr),
                yi == y,
                y < 32,
                z <= 32,
                forall|zz: int|
                    0 <= zz < 32 ==> #[trigger] layer_mask[zz] == mask_row(
                        collision.layers@,
                        collision.layer_start as int,
                        yi,
                        zz,
                    ),
                forall|zz: int|
                    0 <= zz < 32 ==> #[trigger] layer_mask_l[zz] == mask_row(
                        n.x_neg.layers@,
                        n.x_neg.layer_start as int,
                        yi,
                        zz,
                    ),
                forall|zz: int|
                    0 <= zz < 32 ==> #[trigger] layer_mask_r[zz] == mask_row(
                        n.x_pos.layers@,
                        n.x_pos.layer_start as int,
                        yi,
                        zz,
                    ),
                forall|zz: int, x: int|
                    0 <= zz < z ==> #[trigger] bit(face_l_mat[zz], x) == self.exposed(ci, 0, x, yi, zz),
                forall|zz: int, x: int|
                    0 <= zz < z ==> #[trigger] bit(face_r_mat[zz], x) == self.exposed(ci, 1, x, yi, zz),
            decreases 32 - z,
        {
            let row = layer_mask[z];
            let row_l = (layer_mask_l[z] >> 31u32) ^ (row << 1u32);
            let row_r = (layer_mask_r[z] << 31u32) ^ (row >> 1u32);
            let ghost prev_l = *face_l_mat;
            let ghost prev_r = *face_r_mat;
            face_l_mat[z] = row & !row_l;
            face_r_mat[z] = row & !row_r;
            proof {
                let zi = z as int;
                self.lemma_mask_bits(collision, d, yi, zi);
                self.lemma_mask_bits(n.x_neg, nl, yi, zi);
                self.lemma_mask_bits(n.x_pos, nr, yi, zi);
                lemma_side_rows(row, layer_mask_l[zi], layer_mask_r[zi]);
                assert forall|zz: int, x: int| 0 <= zz < z + 1 implies #[trigger] bit(face_l_mat[zz], x)
                    == self.exposed(ci, 0, x, yi, zz) by {
                    if zz < z {
                        assert(face_l_mat[zz] == prev_l[zz]);
                    } else if 0 < x < 32 {
                        assert(bit(row, x - 1) == self.occ(d, x - 1, yi, zi));
                    }
                }
                assert forall|zz: int, x: int| 0 <= zz < z + 1 implies #[trigger] bit(face_r_mat[zz], x)
                    == self.exposed(ci, 1, x, yi, zz) by {
                    if zz < z {
                        assert(face_r_mat[zz] == prev_r[zz]);
                    } else if 0 <= x < 31 {
                        assert(bit(row, x + 1) == self.occ(d, x + 1, yi, zi));
                    }
                }
            }
            z += 1;
        }
        transpose(face_l_mat);
        transpose(face_r_mat);
        let mut x: usize = 0;
        while x < 32
            invariant
                self.wf(),
                ci < self.refs@.len(),
                self.views_of(ci, collision, layers, *n),
                d == self.refs@[ci].data_ref,
                yi == y,
                y < 32,
                x <= 32,
                c == ci,
                forall|xx: int, zz: int|
                    0 <= xx < 32 && 0 <= zz < 32 ==> #[trigger] bit(face_l_mat[xx], zz)
                        == self.exposed(ci, 0, xx, yi, zz),
                forall|xx: int, zz: int|
                    0 <= xx < 32 && 0 <= zz < 32 ==> #[trigger] bit(face_r_mat[xx], zz)
                        == self.exposed(ci, 1, xx, yi, zz),
                surfaces@ == old(surfaces)@ + self.side_surfaces_upto(ci, yi, x as int),
            decreases 32 - x,
        {
            let packed = pack_chunk_pos(x, y, 0);
            let ghost xi = x as int;
            let ghost before = surfaces@;
            proof {
                lemma_pack(xi, yi, 0);
            }
            let word_l = face_l_mat[x];
            let word_r = face_r_mat[x];
            proof {
                assert forall|i: int| #[trigger] bit(word_l, i) implies occupied_at(
                    layers.layers@,
                    layers.layer_start as int,
                    packed + i * 32,
                ) by {
                    self.lemma_occ_occupied(ci, xi, yi, i);
                }
                assert forall|i: int| #[trigger] bit(word_r, i) implies occupied_at(
                    layers.layers@,
                    layers.layer_start as int,
                    packed + i * 32,
                ) by {
                    self.lemma_occ_occupied(ci, xi, yi, i);
                }
                assert(bits_of(word_l) =~= |zz: int| self.exposed(ci, 0, xi, yi, zz));
                assert(bits_of(word_r) =~= |zz: int| self.exposed(ci, 1, xi, yi, zz));
            }
            let base_l = VoxelSurface {
                inner_pos: packed,
                face: 0,
                extent: 0,
                chunk_idx: c as u16,
                colour_idx: 0,
            };
            let base_r = VoxelSurface {
                inner_pos: packed,
                face: 1,
                extent: 0,
                chunk_idx: c as u16,
                colour_idx: 0,
            };
            assert(base_l == surface_base(ci, 0, pack(xi, yi, 0)));
            assert(base_r == surface_base(ci, 1, pack(xi, yi, 0)));
            add_run_lengths(surfaces, layers, word_l, 5, base_l);
            add_run_lengths(surfaces, layers, word_r, 5, base_r);
            proof {
                assert(surfaces@ =~= old(surfaces)@ + self.side_surfaces_upto(ci, yi, xi + 1));
            }
            x += 1;
        }
    }
}

impl Chunks {
    /// Appends the -Y, +Y, -Z and +Z surfaces of the layer at height `y` of
    /// chunk `c`, row by row.
    fn add_row_surfaces(
        &self,
        surfaces: &mut Vec<VoxelSurface>,
        c: usize,
        collision: ChunkLayerMaskRange,
        layers: ChunkLayerRange,
        n: &Neighbours,
        y: usize,
    )
        requires
            self.wf(),
            c < self.refs@.len(),
            self.views_of(c as int, collision, layers, *n),
            y < 32,
        ensures
            final(surfaces)@ == old(surfaces)@ + self.row_faces_upto(c as int, y as int, 32),
    {
        let ghost ci = c as int;
        let ghost yi = y as int;
        let ghost d = self.refs@[ci].data_ref;
        let ghost nd = self.neighbour(ci, 0, -1, 0);
        let ghost nu = self.neighbour(ci, 0, 1, 0);
        let ghost nb = self.neighbour(ci, 0, 0, -1);
        let ghost nf = self.neighbour(ci, 0, 0, 1);
        proof {
            self.lemma_neighbour_valid(ci, 0, -1, 0);
            self.lemma_neighbour_valid(ci, 0, 1, 0);
            self.lemma_neighbour_valid(ci, 0, 0, -1);
            self.lemma_neighbour_valid(ci, 0, 0, 1);
            assert(self.valid_ref(d));
        }
        let layer_mask = collision.layer(y);
        let layer_mask_d = if y > 0 {
            collision.layer(y - 1)
        } else {
            n.y_neg.layer(31)
        };
        let layer_mask_u = if y < 31 {
            collision.layer(y + 1)
        } else {
            n.y_pos.layer(0)
        };
        let layer_mask_b = n.z_neg.layer(y);
        let layer_mask_f = n.z_pos.layer(y);
        let mut z: usize = 0;
        while z < 32
            invariant
                self.wf(),
                ci == c,
                ci < self.refs@.len(),
                self.views_of(ci, collision, layers, *n),
                d == self.refs@[ci].data_ref,
                nd == self.neighbour(ci, 0, -1, 0),
                nu == self.neighbour(ci, 0, 1, 0),
                nb == self.neighbour(ci, 0, 0, -1),
                nf == self.neighbour(ci, 0, 0, 1),
                self.valid_ref(d),
                self.valid_ref(nd),
                self.valid_ref(nu),
                self.valid_ref(nb),
                self.valid_ref(nf),
                yi == y,
                y < 32,
                z <= 32,
                forall|zz: int|
                    0 <= zz < 32 ==> #[trigger] layer_mask[zz] == mask_row(
                        collision.layers@,
                        collision.layer_start as int,
                        yi,
                        zz,
                    ),
                forall|zz: int|
                    0 <= zz < 32 ==> #[trigger] layer_mask_d[zz] == if yi > 0 {
                        mask_row(collision.layers@, collision.layer_start as int, yi - 1, zz)
                    } else {
                        mask_row(n.y_neg.layers@, n.y_neg.layer_start as int, 31, zz)
                    },
                forall|zz: int|
                    0 <= zz < 32 ==> #[trigger] layer_mask_u[zz] == if yi < 31 {
                        mask_row(collision.layers@, collision.layer_start as int, yi + 1, zz)
                    } else {
                        mask_row(n.y_pos.layers@, n.y_pos.layer_start as int, 0, zz)
                    },
                forall|zz: int|
                    0 <= zz < 32 ==> #[trigger] layer_mask_b[zz] == mask_row(
                        n.z_neg.layers@,
                        n.z_neg.layer_start as int,
                        yi,
                        zz,
                    ),
                forall|zz: int|
                    0 <= zz < 32 ==> #[trigger] layer_mask_f[zz] == mask_row(
                        n.z_pos.layers@,
                        n.z_pos.layer_start as int,
                        yi,
                        zz,
                    ),
                surfaces@ == old(surfaces)@ + self.row_faces_upto(ci, yi, z as int),
            decreases 32 - z,
        {
            let ghost zi = z as int;
            let ghost before = surfaces@;
            proof {
                self.lemma_mask_bits(collision, d, yi, zi);
                lemma_pack(0, yi, zi);
            }
            let row = layer_mask[z];
            if row != 0 {
                let row_d = layer_mask_d[z];
                let row_u = layer_mask_u[z];
                let row_b = if z != 0 {
                    layer_mask[z - 1]
                } else {
                    layer_mask_b[31]
                };
                let row_f = if z != 31 {
                    layer_mask[z + 1]
                } else {
                    layer_mask_f[0]
                };
                let face_d = row & !row_d;
                let face_u = row & !row_u;
                let face_b = row & !row_b;
                let face_f = row & !row_f;
                proof {
                    lemma_and_not(row, row_d);
                    lemma_and_not(row, row_u);
                    lemma_and_not(row, row_b);
                    lemma_and_not(row, row_f);
                    if yi > 0 {
                        self.lemma_mask_bits(collision, d, yi - 1, zi);
                    } else {
                        self.lemma_mask_bits(n.y_neg, nd, 31, zi);
                    }
                    if yi < 31 {
                        self.lemma_mask_bits(collision, d, yi + 1, zi);
                    } else {
                        self.lemma_mask_bits(n.y_pos, nu, 0, zi);
                    }
                    if zi > 0 {
                        self.lemma_mask_bits(collision, d, yi, zi - 1);
                    } else {
                        self.lemma_mask_bits(n.z_neg, nb, yi, 31);
                    }
                    if zi < 31 {
                        self.lemma_mask_bits(collision, d, yi, zi + 1);
                    } else {
                        self.lemma_mask_bits(n.z_pos, nf, yi, 0);
                    }
                    assert(bits_of(face_d) =~= |x: int| self.exposed(ci, 2, x, yi, zi));
                    assert(bits_of(face_u) =~= |x: int| self.exposed(ci, 3, x, yi, zi));
                    assert(bits_of(face_b) =~= |x: int| self.exposed(ci, 4, x, yi, zi));
                    assert(bits_of(face_f) =~= |x: int| self.exposed(ci, 5, x, yi, zi));
                }
                let face_merge = face_u | face_d | face_b | face_f;
                if face_merge != 0 {
                    let packed = pack_chunk_pos(0, y, z);
                    proof {
                        assert forall|i: int| #[trigger] bit(row, i) implies occupied_at(
                            layers.layers@,
                            layers.layer_start as int,
                            packed + i,
                        ) by {
                            self.lemma_occ_occupied(ci, i, yi, zi);
                        }
                    }
                    let base_d = VoxelSurface {
                        inner_pos: packed,
                        face: 2,
                        extent: 0,
                        chunk_idx: c as u16,
                        colour_idx: 0,
                    };
                    let base_u = VoxelSurface { face: 3, ..base_d };
                    let base_b = VoxelSurface { face: 4, ..base_d };
                    let base_f = VoxelSurface { face: 5, ..base_d };
                    assert(base_d == surface_base(ci, 2, pack(0, yi, zi)));
                    assert(base_u == surface_base(ci, 3, pack(0, yi, zi)));
                    assert(base_b == surface_base(ci, 4, pack(0, yi, zi)));
                    assert(base_f == surface_base(ci, 5, pack(0, yi, zi)));
                    add_run_lengths(surfaces, layers, face_d, 0, base_d);
                    add_run_lengths(surfaces, layers, face_u, 0, base_u);
                    add_run_lengths(surfaces, layers, face_b, 0, base_b);
                    add_run_lengths(surfaces, layers, face_f, 0, base_f);
                } else {
                    proof {
                        lemma_or4_zero(face_u, face_d, face_b, face_f);
                        lemma_zero_no_bits(0u32);
                        lemma_runs_none(|x: int| self.exposed(ci, 2, x, yi, zi));
                        lemma_runs_none(|x: int| self.exposed(ci, 3, x, yi, zi));
                        lemma_runs_none(|x: int| self.exposed(ci, 4, x, yi, zi));
                        lemma_runs_none(|x: int| self.exposed(ci, 5, x, yi, zi));
                    }
                }
            } else {
                proof {
                    lemma_zero_no_bits(row);
                    assert forall|x: int, f: int| 0 <= x < 32 implies !#[trigger] self.exposed(
                        ci,
                        f,
                        x,
                        yi,
                        zi,
                    ) by {
                        assert(!bit(row, x));
                    }
                    lemma_runs_none(|x: int| self.exposed(ci, 2, x, yi, zi));
                    lemma_runs_none(|x: int| self.exposed(ci, 3, x, yi, zi));
                    lemma_runs_none(|x: int| self.exposed(ci, 4, x, yi, zi));
                    lemma_runs_none(|x: int| self.exposed(ci, 5, x, yi, zi));
                }
            }
            proof {
                assert(surfaces@ =~= old(surfaces)@ + self.row_faces_upto(ci, yi, zi + 1));
            }
            z += 1;
        }
    }
}

impl Chunks {
    /// The masks of the chunk at offset `(dx, dy, dz)` from chunk `c`, or no
    /// masks where no chunk is loaded there.
    fn neighbour_masks(&self, c: usize, dx: i32, dy: i32, dz: i32) -> (r: ChunkLayerMaskRange)
        requires
            self.wf(),
            c < self.refs@.len(),
        ensures
            self.mask_view(r, self.neighbour(c as int, dx as int, dy as int, dz as int)),
    {
        let found = find_neighbour(self.refs.as_slice(), self.refs[c].offset, dx, dy, dz);
        let d = match found {
            Some(d) => d,
            None => ChunkDataRef { base_index: 0, y_start: 0, y_len: 0 },
        };
        proof {
            self.lemma_neighbour_valid(c as int, dx as int, dy as int, dz as int);
        }
        self.data.layer_masks(d)
    }

    /// The surfaces of all exposed voxel faces of the loaded chunks, merged
    /// into runs: see `surfaces` for their order.
    pub fn calculate_surfaces(&self) -> (r: Vec<VoxelSurface>)
        requires
            self.wf(),
        ensures
            r@ == self.surfaces(),
    {
        let chunk_data = &self.data;
        let chunk_refs = self.refs.as_slice();
        let mut surfaces: Vec<VoxelSurface> = Vec::new();
        let mut face_l_mat: [u32; 32] = [0u32; 32];
        let mut face_r_mat: [u32; 32] = [0u32; 32];
        let mut chunk_num: usize = 0;
        while chunk_num < chunk_refs.len()
            invariant
                self.wf(),
                chunk_refs@ == self.refs@,
                chunk_data == &self.data,
                chunk_num <= chunk_refs@.len(),
                surfaces@ == self.surfaces_upto(chunk_num as int),
            decreases chunk_refs@.len() - chunk_num,
        {
            let ghost ci = chunk_num as int;
            let chunk_ref = chunk_refs[chunk_num];
            let chunk = chunk_ref.data_ref;
            proof {
                assert(self.valid_ref(self.refs@[ci].data_ref));
            }
            let collision = chunk_data.layer_masks(chunk);
            let chunk_layers = chunk_data.layers(chunk);
            let n = Neighbours {
                x_neg: self.neighbour_masks(chunk_num, -1, 0, 0),
                x_pos: self.neighbour_masks(chunk_num, 1, 0, 0),
                y_neg: self.neighbour_masks(chunk_num, 0, -1, 0),
                y_pos: self.neighbour_masks(chunk_num, 0, 1, 0),
                z_neg: self.neighbour_masks(chunk_num, 0, 0, -1),
                z_pos: self.neighbour_masks(chunk_num, 0, 0, 1),
            };
            let mut layer_i: usize = 0;
            while layer_i < collision.layers.len()
                invariant
                    self.wf(),
                    chunk_refs@ == self.refs@,
                    chunk_data == &self.data,
                    ci == chunk_num,
                    chunk_num < chunk_refs@.len(),
                    chunk == self.refs@[ci].data_ref,
                    self.valid_ref(chunk),
                    self.views_of(ci, collision, chunk_layers, n),
                    layer_i <= collision.layers@.len(),
                    surfaces@ == self.surfaces_upto(ci) + self.chunk_surfaces_upto(
                        ci,
                        layer_i as int,
                    ),
                decreases collision.layers@.len() - layer_i,
            {
                let y = collision.layer_start + layer_i;
                let ghost before = surfaces@;
                self.add_side_surfaces(
                    &mut surfaces,
                    &mut face_l_mat,
                    &mut face_r_mat,
                    chunk_num,
                    collision,
                    chunk_layers,
                    &n,
                    y,
                );
                self.add_row_surfaces(&mut surfaces, chunk_num, collision, chunk_layers, &n, y);
                proof {
                    assert(surfaces@ =~= self.surfaces_upto(ci) + self.chunk_surfaces_upto(
                        ci,
                        layer_i + 1,
                    ));
                }
                layer_i += 1;
            }
            proof {
                assert(surfaces@ =~= self.surfaces_upto(ci + 1));
            }
            chunk_num += 1;
        }
        surfaces
    }
}

} // verus!
