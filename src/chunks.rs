//! Loaded chunks: their grid offsets, their layers, and the surfaces of the
//! voxels they hold.
use vstd::prelude::*;
use crate::chunk::{ChunkData, ChunkDataRef, ChunkLayer};

verus! {

/// The position of a chunk in the grid of chunks.
#[derive(Copy, Clone, Debug, PartialEq, Eq, Structural)]
pub struct GridOffset {
    pub x: i32,
    pub y: i32,
    pub z: i32,
}

/// A loaded chunk: its grid offset and where its layers lie.
#[derive(Copy, Clone, Debug, PartialEq, Eq, Structural)]
pub struct ChunkRef {
    pub offset: GridOffset,
    pub data_ref: ChunkDataRef,
}

/// The layers of a chunk to load, the first of them at height `y_start`.
#[derive(Copy, Clone, Debug)]
pub struct ChunkToAdd<'a> {
    pub layers: &'a [ChunkLayer],
    pub y_start: u8,
}

/// The reference to no layers: a chunk that holds nothing.
pub open spec fn empty_ref() -> ChunkDataRef {
    ChunkDataRef { base_index: 0, y_start: 0, y_len: 0 }
}

/// The data of the first chunk of `refs` whose offset is `(x, y, z)`.
pub open spec fn find_ref(refs: Seq<ChunkRef>, x: int, y: int, z: int) -> Option<ChunkDataRef>
    decreases refs.len(),
{
    if refs.len() == 0 {
        None
    } else if refs[0].offset.x == x && refs[0].offset.y == y && refs[0].offset.z == z {
        Some(refs[0].data_ref)
    } else {
        find_ref(refs.subrange(1, refs.len() as int), x, y, z)
    }
}

/// The number of layers in `chunks`, all together.
pub open spec fn total_layers(chunks: Seq<ChunkToAdd>) -> int
    decreases chunks.len(),
{
    if chunks.len() == 0 {
        0
    } else {
        total_layers(chunks.drop_last()) + chunks.last().layers@.len()
    }
}

/// The data of the first chunk in `chunk_refs` at `offset`, if there is one.
pub fn find_chunk(chunk_refs: &[ChunkRef], offset: GridOffset) -> (r: Option<ChunkDataRef>)
    ensures
        r == find_ref(chunk_refs@, offset.x as int, offset.y as int, offset.z as int),
{
    let mut i: usize = 0;
    assert(chunk_refs@.subrange(0, chunk_refs@.len() as int) =~= chunk_refs@);
    while i < chunk_refs.len()
        invariant
            0 <= i <= chunk_refs@.len(),
            find_ref(chunk_refs@, offset.x as int, offset.y as int, offset.z as int) == find_ref(
                chunk_refs@.subrange(i as int, chunk_refs@.len() as int),
                offset.x as int,
                offset.y as int,
                offset.z as int,
            ),
        decreases chunk_refs@.len() - i,
    {
        let pos = chunk_refs[i];
        let ghost rest = chunk_refs@.subrange(i as int, chunk_refs@.len() as int);
        assert(rest[0] == pos);
        if pos.offset == offset {
            return Some(pos.data_ref);
        }
        assert(rest.subrange(1, rest.len() as int) =~= chunk_refs@.subrange(
            i + 1,
            chunk_refs@.len() as int,
        ));
        i += 1;
    }
    None
}

/// The chunk offset `offset + (dx, dy, dz)`, where it can be written.
fn neighbour_offset(offset: GridOffset, dx: i32, dy: i32, dz: i32) -> (r: Option<GridOffset>)
    ensures
        r matches Some(o) ==> o.x == offset.x + dx && o.y == offset.y + dy && o.z == offset.z + dz,
        r is None ==> !(i32::MIN <= offset.x + dx <= i32::MAX && i32::MIN <= offset.y + dy
            <= i32::MAX && i32::MIN <= offset.z + dz <= i32::MAX),
{
    match (offset.x.checked_add(dx), offset.y.checked_add(dy), offset.z.checked_add(dz)) {
        (Some(x), Some(y), Some(z)) => Some(GridOffset { x, y, z }),
        _ => None,
    }
}

/// No chunk lies at an offset that an `i32` cannot hold.
proof fn lemma_find_ref_out_of_range(refs: Seq<ChunkRef>, x: int, y: int, z: int)
    requires
        !(i32::MIN <= x <= i32::MAX && i32::MIN <= y <= i32::MAX && i32::MIN <= z <= i32::MAX),
    ensures
        find_ref(refs, x, y, z) is None,
    decreases refs.len(),
{
    if refs.len() > 0 {
        lemma_find_ref_out_of_range(refs.subrange(1, refs.len() as int), x, y, z);
    }
}

/// The data of the chunk at `offset + (dx, dy, dz)`, if one is loaded.
pub(crate) fn find_neighbour(chunk_refs: &[ChunkRef], offset: GridOffset, dx: i32, dy: i32, dz: i32) -> (r:
    Option<ChunkDataRef>)
    ensures
        r == find_ref(chunk_refs@, offset.x + dx, offset.y + dy, offset.z + dz),
{
    match neighbour_offset(offset, dx, dy, dz) {
        Some(o) => find_chunk(chunk_refs, o),
        None => {
            proof {
                lemma_find_ref_out_of_range(
                    chunk_refs@,
                    offset.x + dx,
                    offset.y + dy,
                    offset.z + dz,
                );
            }
            None
        },
    }
}

/// All loaded chunks and their layer data.
pub struct Chunks {
    pub data: ChunkData,
    pub refs: Vec<ChunkRef>,
}

impl Chunks {
    /// The layer data is consistent, each chunk refers to layers that exist
    /// and lie within its 32 layers of height, and every chunk has an index
    /// that a `u16` can hold.
    pub open spec fn wf(&self) -> bool {
        &&& self.data.wf()
        &&& self.refs@.len() <= 65536
        &&& forall|k: int|
            0 <= k < self.refs@.len() ==> {
                let d = #[trigger] self.refs@[k].data_ref;
                &&& d.base_index + d.y_len <= self.data.layers@.len()
                &&& d.y_start + d.y_len <= 32
            }
    }

    /// The layers of chunk `k`.
    pub open spec fn chunk_layers(&self, k: int) -> Seq<ChunkLayer> {
        let d = self.refs@[k].data_ref;
        self.data.layers@.subrange(d.base_index as int, d.base_index + d.y_len)
    }

    /// No chunk is loaded.
    pub fn new() -> (r: Chunks)
        ensures
            r.wf(),
            r.refs@.len() == 0,
            r.data.layers@.len() == 0,
    {
        Chunks { data: ChunkData { layers: Vec::new(), layer_masks: Vec::new() }, refs: Vec::new() }
    }

    /// Loads chunk `k` of `chunks_to_add` at grid offset `chunk_positions[k]`,
    /// after the chunks that are already loaded, which stay as they are.
    pub fn load(&mut self, chunk_positions: &[GridOffset], chunks_to_add: &[ChunkToAdd])
        requires
            old(self).wf(),
            chunk_positions@.len() == chunks_to_add@.len(),
            forall|k: int|
                0 <= k < chunks_to_add@.len() ==> #[trigger] chunks_to_add@[k].y_start
                    + chunks_to_add@[k].layers@.len() <= 32,
            old(self).refs@.len() + chunks_to_add@.len() <= 65536,
            old(self).data.layers@.len() + total_layers(chunks_to_add@) <= u16::MAX,
        ensures
            final(self).wf(),
            final(self).refs@.len() == old(self).refs@.len() + chunks_to_add@.len(),
            final(self).refs@.subrange(0, old(self).refs@.len() as int) == old(self).refs@,
            final(self).data.layers@.subrange(0, old(self).data.layers@.len() as int)
                == old(self).data.layers@,
            final(self).data.layers@.len() == old(self).data.layers@.len() + total_layers(
                chunks_to_add@,
            ),
            forall|j: int|
                old(self).refs@.len() <= j < final(self).refs@.len() ==> {
                    let k = j - old(self).refs@.len();
                    let r = #[trigger] final(self).refs@[j];
                    &&& r.offset == chunk_positions@[k]
                    &&& r.data_ref.base_index == old(self).data.layers@.len() + total_layers(
                        chunks_to_add@.subrange(0, k),
                    )
                    &&& r.data_ref.y_start == chunks_to_add@[k].y_start
                    &&& r.data_ref.y_len == chunks_to_add@[k].layers@.len()
                    &&& final(self).chunk_layers(j) == chunks_to_add@[k].layers@
                },
    {
        let ghost old_refs = self.refs@;
        let ghost old_layers = self.data.layers@;
        let mut i: usize = 0;
        while i < chunks_to_add.len()
            invariant
                0 <= i <= chunks_to_add@.len(),
                chunk_positions@.len() == chunks_to_add@.len(),
                forall|k: int|
                    0 <= k < chunks_to_add@.len() ==> #[trigger] chunks_to_add@[k].y_start
                        + chunks_to_add@[k].layers@.len() <= 32,
                old_refs.len() + chunks_to_add@.len() <= 65536,
                old_layers.len() + total_layers(chunks_to_add@) <= u16::MAX,
                self.wf(),
                self.refs@.len() == old_refs.len() + i,
                self.refs@.subrange(0, old_refs.len() as int) == old_refs,
                self.data.layers@.len() >= old_layers.len(),
                self.data.layers@.subrange(0, old_layers.len() as int) == old_layers,
                self.data.layers@.len() == old_layers.len() + total_layers(
                    chunks_to_add@.subrange(0, i as int),
                ),
                forall|k: int|
                    0 <= k < i ==> {
                        let r = #[trigger] self.refs@[old_refs.len() + k];
                        &&& r.offset == chunk_positions@[k]
                        &&& r.data_ref.base_index == old_layers.len() + total_layers(
                            chunks_to_add@.subrange(0, k),
                        )
                        &&& r.data_ref.y_start == chunks_to_add@[k].y_start
                        &&& r.data_ref.y_len == chunks_to_add@[k].layers@.len()
                        &&& self.chunk_layers(old_refs.len() + k) == chunks_to_add@[k].layers@
                    },
            decreases chunks_to_add@.len() - i,
        {
            let chunk = chunks_to_add[i];
            proof {
                lemma_total_layers_prefix(chunks_to_add@, i as int);
            }
            let ghost before = self.data.layers@;
            let ghost before_refs = self.refs@;
            let idx = self.data.add_layers(chunk.layers);
            let chunk_ref = ChunkRef {
                offset: chunk_positions[i],
                data_ref: ChunkDataRef {
                    base_index: idx,
                    y_start: chunk.y_start,
                    y_len: chunk.layers.len() as u8,
                },
            };
            self.refs.push(chunk_ref);
            proof {
                assert(chunks_to_add@.subrange(0, i + 1).drop_last() =~= chunks_to_add@.subrange(
                    0,
                    i as int,
                ));
                assert(self.data.layers@.subrange(0, old_layers.len() as int) =~= before.subrange(
                    0,
                    old_layers.len() as int,
                ));
                assert(self.refs@.subrange(0, old_refs.len() as int) =~= old_refs) by {
                    assert(before_refs.subrange(0, old_refs.len() as int) == old_refs);
                }
                assert forall|k: int| 0 <= k < self.refs@.len() implies {
                    let d = #[trigger] self.refs@[k].data_ref;
                    &&& d.base_index + d.y_len <= self.data.layers@.len()
                    &&& d.y_start + d.y_len <= 32
                } by {
                    if k < self.refs@.len() - 1 {
                        assert(self.refs@[k] == before_refs[k]);
                    }
                }
                assert forall|k: int| 0 <= k < i + 1 implies {
                    let r = #[trigger] self.refs@[old_refs.len() + k];
                    &&& r.offset == chunk_positions@[k]
                    &&& r.data_ref.base_index == old_layers.len() + total_layers(
                        chunks_to_add@.subrange(0, k),
                    )
                    &&& r.data_ref.y_start == chunks_to_add@[k].y_start
                    &&& r.data_ref.y_len == chunks_to_add@[k].layers@.len()
                    &&& self.chunk_layers(old_refs.len() + k) == chunks_to_add@[k].layers@
                } by {
                    if k < i {
                        let r = before_refs[old_refs.len() + k];
                        assert(self.refs@[old_refs.len() + k] == r);
                        let b = r.data_ref.base_index as int;
                        assert(self.data.layers@.subrange(b, b + r.data_ref.y_len) =~= before.subrange(
                            b,
                            b + r.data_ref.y_len,
                        ));
                    } else {
                        assert(self.chunk_layers(old_refs.len() + k) =~= chunk.layers@);
                    }
                }
            }
            i += 1;
        }
        assert(chunks_to_add@.subrange(0, i as int) =~= chunks_to_add@);
        assert forall|j: int| old_refs.len() <= j < self.refs@.len() implies {
            let k = j - old_refs.len();
            let r = #[trigger] self.refs@[j];
            &&& r.offset == chunk_positions@[k]
            &&& r.data_ref.base_index == old_layers.len() + total_layers(
                chunks_to_add@.subrange(0, k),
            )
            &&& r.data_ref.y_start == chunks_to_add@[k].y_start
            &&& r.data_ref.y_len == chunks_to_add@[k].layers@.len()
            &&& self.chunk_layers(j) == chunks_to_add@[k].layers@
        } by {
            let k = j - old_refs.len();
            assert(self.refs@[old_refs.len() + k] == self.refs@[j]);
        }
    }
}

/// The layers of a prefix of `chunks` are no more than those of all of them.
proof fn lemma_total_layers_prefix(chunks: Seq<ChunkToAdd>, i: int)
    requires
        0 <= i < chunks.len(),
    ensures
        total_layers(chunks.subrange(0, i)) + chunks[i].layers@.len() == total_layers(
            chunks.subrange(0, i + 1),
        ),
        total_layers(chunks.subrange(0, i + 1)) <= total_layers(chunks),
    decreases chunks.len() - i,
{
    assert(chunks.subrange(0, i + 1).drop_last() =~= chunks.subrange(0, i));
    if i + 1 < chunks.len() {
        lemma_total_layers_prefix(chunks, i + 1);
    } else {
        assert(chunks.subrange(0, i + 1) =~= chunks);
    }
}

} // verus!
