//! Surface records and the merging of exposed faces into runs.
use vstd::prelude::*;
use vstd::std_specs::bits::axiom_u32_trailing_zeros;
use crate::bits::{
    bit, bits_of, is_end, is_start, lemma_clear_bit, lemma_no_start_no_bits, lemma_run_extends,
    lemma_runs_scan_run, lemma_runs_scan_skip, lemma_starts_ends, lemma_zero_no_bits, runs, runs_scan,
};
use crate::chunk::{ChunkLayer, ChunkLayerRange, ColourIdx, colour_at, occupied_at};

verus! {

/// One rectangular patch of voxel faces, one voxel thick.
///
/// `inner_pos` packs `(y << 10) | (z << 5) | x` of the patch's lowest cell;
/// the patch runs over `extent + 1` cells along `z` for the faces 0 (-X) and
/// 1 (+X), and along `x` for the faces 2 (-Y), 3 (+Y), 4 (-Z) and 5 (+Z).
#[derive(Copy, Clone, Debug, PartialEq, Eq, Structural)]
pub struct VoxelSurface {
    pub inner_pos: u16,
    pub face: u8,
    pub extent: u8,
    pub chunk_idx: u16,
    pub colour_idx: ColourIdx,
}

/// The six faces of a voxel.
#[derive(Copy, Clone, Debug, PartialEq, Eq, Structural)]
pub enum Face {
    XNeg,
    XPos,
    YNeg,
    YPos,
    ZNeg,
    ZPos,
}

impl Face {
    /// The number that `VoxelSurface::face` holds for this face.
    pub fn index(self) -> (r: u8)
        ensures
            r < 6,
            self == Face::XNeg ==> r == 0,
            self == Face::XPos ==> r == 1,
            self == Face::YNeg ==> r == 2,
            self == Face::YPos ==> r == 3,
            self == Face::ZNeg ==> r == 4,
            self == Face::ZPos ==> r == 5,
    {
        match self {
            Face::XNeg => 0,
            Face::XPos => 1,
            Face::YNeg => 2,
            Face::YPos => 3,
            Face::ZNeg => 4,
            Face::ZPos => 5,
        }
    }
}

/// The step in a packed position for one cell along the axis that a shift of
/// `shift` selects: `z` for 5, `x` for 0.
pub open spec fn axis_step(shift: int) -> int {
    if shift == 5 {
        32
    } else {
        1
    }
}

/// The surface of the run `r` of cells along the axis of `shift`, from the
/// packed position of `base`; its colour is that of the run's first cell.
pub open spec fn run_surface(
    base: VoxelSurface,
    shift: int,
    r: (int, int),
    layers: Seq<ChunkLayer>,
    start: int,
) -> VoxelSurface {
    let pos = base.inner_pos + r.0 * axis_step(shift);
    VoxelSurface {
        inner_pos: pos as u16,
        face: base.face,
        extent: (r.1 - r.0) as u8,
        chunk_idx: base.chunk_idx,
        colour_idx: colour_at(layers, start, pos),
    }
}

/// The surfaces of the runs `rs`, in order.
pub open spec fn run_surfaces(
    rs: Seq<(int, int)>,
    base: VoxelSurface,
    shift: int,
    layers: Seq<ChunkLayer>,
    start: int,
) -> Seq<VoxelSurface>
    decreases rs.len(),
{
    if rs.len() == 0 {
        Seq::empty()
    } else {
        run_surfaces(rs.drop_last(), base, shift, layers, start).push(
            run_surface(base, shift, rs.last(), layers, start),
        )
    }
}

/// Appends one surface for each maximal run of set bits of `row`, in
/// increasing order; bit `i` stands for the cell `i` steps along the axis of
/// `axis_shift` from the position of `base`.
pub fn add_run_lengths(
    surfaces: &mut Vec<VoxelSurface>,
    layers: ChunkLayerRange,
    row: u32,
    axis_shift: u32,
    base: VoxelSurface,
)
    requires
        axis_shift == 0 || axis_shift == 5,
        base.inner_pos + 31 * axis_step(axis_shift as int) < 65536,
        forall|i: int|
            #[trigger] bit(row, i) ==> occupied_at(
                layers.layers@,
                layers.layer_start as int,
                base.inner_pos + i * axis_step(axis_shift as int),
            ),
    ensures
        final(surfaces)@ == old(surfaces)@ + run_surfaces(
            runs(bits_of(row)),
            base,
            axis_shift as int,
            layers.layers@,
            layers.layer_start as int,
        ),
{
    let ghost p = bits_of(row);
    let ghost shift = axis_shift as int;
    let ghost lay = layers.layers@;
    let ghost ls = layers.layer_start as int;
    let mut face_start = row & !(row << 1u32);
    let mut face_end = row & !(row >> 1u32);
    let ghost mut c: int = 0;
    let ghost mut emitted: Seq<(int, int)> = Seq::empty();
    proof {
        lemma_starts_ends(row);
        assert(surfaces@ =~= old(surfaces)@ + run_surfaces(emitted, base, shift, lay, ls));
    }
    while face_start != 0
        invariant
            axis_shift == 0 || axis_shift == 5,
            base.inner_pos + 31 * axis_step(shift) < 65536,
            forall|i: int|
                #[trigger] bit(row, i) ==> occupied_at(lay, ls, base.inner_pos + i * axis_step(shift)),
            p == bits_of(row),
            shift == axis_shift,
            lay == layers.layers@,
            ls == layers.layer_start,
            0 <= c <= 32,
            c == 0 || is_end(row, c - 1),
            forall|i: int| #[trigger] bit(face_start, i) == (c <= i && is_start(row, i)),
            forall|i: int| #[trigger] bit(face_end, i) == (c <= i && is_end(row, i)),
            runs(p) == emitted + runs_scan(p, c, -1),
            surfaces@ == old(surfaces)@ + run_surfaces(emitted, base, shift, lay, ls),
        decreases 32 - c,
    {
        let start = face_start.trailing_zeros();
        let end = face_end.trailing_zeros();
        let ghost s = start as int;
        let ghost e = end as int;
        proof {
            axiom_u32_trailing_zeros(face_start);
            axiom_u32_trailing_zeros(face_end);
            assert(bit(face_start, s));
            assert forall|i: int| c <= i < s implies !#[trigger] is_start(row, i) by {
                assert((face_start >> (i as u32)) & 1u32 == 0u32);
                assert(!bit(face_start, i));
            }
            lemma_no_start_no_bits(row, c, s);
            if face_end == 0 {
                lemma_zero_no_bits(face_end);
                assert forall|i: int| s <= i < 31 implies !#[trigger] is_end(row, i) by {
                    assert(!bit(face_end, i));
                }
                lemma_run_extends(row, s, 31);
                assert(bit(face_end, 31));
            }
            assert(bit(face_end, e));
            assert forall|i: int| c <= i < e implies !#[trigger] is_end(row, i) by {
                assert((face_end >> (i as u32)) & 1u32 == 0u32);
                assert(!bit(face_end, i));
            }
            if e < s {
                assert(!bit(row, e));
            }
            assert forall|i: int| s <= i < e implies !#[trigger] is_end(row, i) by {}
            lemma_run_extends(row, s, e);
            assert forall|i: int| c <= i < s implies !#[trigger] p(i) by {
                assert(!bit(row, i));
            }
            lemma_runs_scan_skip(p, c, s);
            assert forall|i: int| s <= i <= e implies #[trigger] p(i) by {
                assert(bit(row, i));
            }
            lemma_runs_scan_run(p, s, e);
            assert(runs(p) == emitted.push((s, e)) + runs_scan(p, e + 1, -1));
        }
        let ghost fs = face_start;
        let ghost fe = face_end;
        face_start = face_start ^ (1u32 << start);
        face_end = face_end ^ (1u32 << end);
        proof {
            lemma_clear_bit(fs, start);
            lemma_clear_bit(fe, end);
            assert forall|i: int| #[trigger] bit(face_start, i) == (e + 1 <= i && is_start(row, i)) by {
                if s < i <= e {
                    assert(bit(row, i - 1));
                }
            }
            assert forall|i: int| #[trigger] bit(face_end, i) == (e + 1 <= i && is_end(row, i)) by {}
        }
        let extent = (end - start) as u8;
        let shifted = (start as u16) << axis_shift;
        proof {
            let st = start as u16;
            if axis_shift == 5 {
                assert(st < 32 ==> st << 5u32 == st * 32) by (bit_vector);
            } else {
                assert(st << 0u32 == st) by (bit_vector);
            }
        }
        let inner_pos = base.inner_pos + shifted;
        assert(bit(row, s));
        let colour_idx = layers.texture_idx(inner_pos);
        let surface = VoxelSurface {
            inner_pos,
            face: base.face,
            extent,
            chunk_idx: base.chunk_idx,
            colour_idx,
        };
        surfaces.push(surface);
        proof {
            let em2 = emitted.push((s, e));
            assert(em2.drop_last() =~= emitted);
            assert(surface == run_surface(base, shift, (s, e), lay, ls));
            assert(surfaces@ =~= old(surfaces)@ + run_surfaces(em2, base, shift, lay, ls));
            emitted = em2;
            c = e + 1;
        }
    }
    proof {
        lemma_zero_no_bits(face_start);
        assert forall|i: int| c <= i < 32 implies !#[trigger] is_start(row, i) by {
            assert(!bit(face_start, i));
        }
        lemma_no_start_no_bits(row, c, 32);
        assert forall|i: int| c <= i < 32 implies !#[trigger] p(i) by {
            assert(!bit(row, i));
        }
        lemma_runs_scan_skip(p, c, 32);
        assert(emitted + runs_scan(p, c, -1) =~= emitted);
    }
}

} // verus!
