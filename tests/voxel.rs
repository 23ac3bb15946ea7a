use std::collections::HashMap;

use ezcompute::chunk::{pack_chunk_pos, ChunkData, ChunkDataRef, ChunkLayer, layer_mask_of};
use ezcompute::chunks::{find_chunk, ChunkRef, ChunkToAdd, Chunks, GridOffset};
use ezcompute::chunk::ChunkLayerRange;
use ezcompute::surfaces::{add_run_lengths, Face, VoxelSurface};
use ezcompute::transpose::transpose;

fn off(x: i32, y: i32, z: i32) -> GridOffset {
    GridOffset { x, y, z }
}

fn layer_from(mut f: impl FnMut(usize, usize) -> u16) -> ChunkLayer {
    let mut layer = [0u16; 1024];
    for z in 0..32 {
        for x in 0..32 {
            layer[z * 32 + x] = f(x, z);
        }
    }
    layer
}

fn load_one(chunks: &mut Chunks, at: GridOffset, layers: &[ChunkLayer], y_start: u8) {
    chunks.load(&[at], &[ChunkToAdd { layers, y_start }]);
}

fn unpack(pos: u16) -> (i64, i64, i64) {
    let p = pos as i64;
    (p & 31, p >> 10, (p >> 5) & 31)
}

/// The faces that a surface covers, as (chunk, face, x, y, z).
fn covered(s: &VoxelSurface) -> Vec<(usize, u8, i64, i64, i64)> {
    let (x, y, z) = unpack(s.inner_pos);
    (0..=s.extent as i64)
        .map(|k| {
            if s.face < 2 {
                (s.chunk_idx as usize, s.face, x, y, z + k)
            } else {
                (s.chunk_idx as usize, s.face, x + k, y, z)
            }
        })
        .collect()
}

/// Exposed faces by direct inspection of every voxel and its six neighbours.
fn exposed_faces(chunks: &Chunks) -> Vec<(usize, u8, i64, i64, i64)> {
    let occ = |d: ChunkDataRef, x: i64, y: i64, z: i64| -> bool {
        if !(0..32).contains(&x) || !(0..32).contains(&z) {
            return false;
        }
        let ys = d.y_start as i64;
        if y < ys || y >= ys + d.y_len as i64 {
            return false;
        }
        chunks.data.layers[d.base_index as usize + (y - ys) as usize][(z * 32 + x) as usize] != 0
    };
    let empty = ChunkDataRef { base_index: 0, y_start: 0, y_len: 0 };
    let mut out = Vec::new();
    for (c, r) in chunks.refs.iter().enumerate() {
        let nb = |dx: i32, dy: i32, dz: i32| {
            find_chunk(&chunks.refs, off(r.offset.x + dx, r.offset.y + dy, r.offset.z + dz))
                .unwrap_or(empty)
        };
        let d = r.data_ref;
        for y in 0..32i64 {
            for z in 0..32i64 {
                for x in 0..32i64 {
                    if !occ(d, x, y, z) {
                        continue;
                    }
                    let across = [
                        if x > 0 { occ(d, x - 1, y, z) } else { occ(nb(-1, 0, 0), 31, y, z) },
                        if x < 31 { occ(d, x + 1, y, z) } else { occ(nb(1, 0, 0), 0, y, z) },
                        if y > 0 { occ(d, x, y - 1, z) } else { occ(nb(0, -1, 0), x, 31, z) },
                        if y < 31 { occ(d, x, y + 1, z) } else { occ(nb(0, 1, 0), x, 0, z) },
                        if z > 0 { occ(d, x, y, z - 1) } else { occ(nb(0, 0, -1), x, y, 31) },
                        if z < 31 { occ(d, x, y, z + 1) } else { occ(nb(0, 0, 1), x, y, 0) },
                    ];
                    for f in 0..6u8 {
                        if !across[f as usize] {
                            out.push((c, f, x, y, z));
                        }
                    }
                }
            }
        }
    }
    out
}

fn pseudo_random_layers(seed: u32, n: usize) -> Vec<ChunkLayer> {
    let mut state = seed;
    (0..n)
        .map(|_| {
            layer_from(|_, _| {
                state = state.wrapping_mul(1664525).wrapping_add(1013904223);
                if (state >> 28) < 7 {
                    ((state >> 8) % 3 + 1) as u16
                } else {
                    0
                }
            })
        })
        .collect()
}

fn mixed_chunks() -> Chunks {
    let mut chunks = Chunks::new();
    let a = pseudo_random_layers(7, 4);
    let b = pseudo_random_layers(11, 3);
    let c = pseudo_random_layers(13, 2);
    chunks.load(
        &[off(0, 0, 0), off(1, 0, 0), off(0, 1, 0)],
        &[
            ChunkToAdd { layers: &a, y_start: 0 },
            ChunkToAdd { layers: &b, y_start: 2 },
            ChunkToAdd { layers: &c, y_start: 30 },
        ],
    );
    chunks
}

#[test]
fn round_trip_left_half() {
    let mut chunks = Chunks::new();
    let layer = layer_from(|x, _| if x < 16 { 1 } else { 0 });
    load_one(&mut chunks, off(0, 0, 0), &[layer], 0);
    let s = chunks.calculate_surfaces();

    let of_face = |f: u8| s.iter().filter(|v| v.face == f).copied().collect::<Vec<_>>();
    let left = of_face(0);
    assert_eq!(left.len(), 1);
    assert_eq!((left[0].inner_pos, left[0].extent), (pack_chunk_pos(0, 0, 0), 31));
    let right = of_face(1);
    assert_eq!(right.len(), 1);
    assert_eq!((right[0].inner_pos, right[0].extent), (pack_chunk_pos(15, 0, 0), 31));
    for f in [2u8, 3] {
        let v = of_face(f);
        assert_eq!(v.len(), 32);
        for (z, surf) in v.iter().enumerate() {
            assert_eq!(surf.inner_pos, pack_chunk_pos(0, 0, z));
            assert_eq!(surf.extent, 15);
        }
    }
    let back = of_face(4);
    assert_eq!(back.len(), 1);
    assert_eq!((back[0].inner_pos, back[0].extent), (pack_chunk_pos(0, 0, 0), 15));
    let front = of_face(5);
    assert_eq!(front.len(), 1);
    assert_eq!((front[0].inner_pos, front[0].extent), (pack_chunk_pos(0, 0, 31), 15));
    assert_eq!(s.len(), 68);
    assert!(s.iter().all(|v| v.colour_idx == 0 && v.chunk_idx == 0));
}

#[test]
fn round_trip_surfaces_in_order() {
    let mut chunks = Chunks::new();
    let layer = layer_from(|x, _| if x < 16 { 1 } else { 0 });
    load_one(&mut chunks, off(0, 0, 0), &[layer], 0);
    let s = chunks.calculate_surfaces();
    let surf = |inner_pos: u16, face: u8, extent: u8| VoxelSurface {
        inner_pos,
        face,
        extent,
        chunk_idx: 0,
        colour_idx: 0,
    };
    assert_eq!(s[0], surf(0, 0, 31));
    assert_eq!(s[1], surf(15, 1, 31));
    assert_eq!(s[2], surf(0, 2, 15));
    assert_eq!(s[3], surf(0, 3, 15));
    assert_eq!(s[4], surf(0, 4, 15));
    assert_eq!(s[5], surf(32, 2, 15));
    assert_eq!(s[67], surf(31 * 32, 5, 15));
}

#[test]
fn neighbour_chunk_suppression() {
    let mut chunks = Chunks::new();
    let solid = vec![[1u16; 1024]; 32];
    chunks.load(
        &[off(0, 0, 0), off(1, 0, 0)],
        &[ChunkToAdd { layers: &solid, y_start: 0 }, ChunkToAdd { layers: &solid, y_start: 0 }],
    );
    let s = chunks.calculate_surfaces();
    assert!(!s.iter().any(|v| v.chunk_idx == 0 && v.face == 1));
    assert!(!s.iter().any(|v| v.chunk_idx == 1 && v.face == 0));
    for c in 0..2u16 {
        for f in 0..6u8 {
            if (c == 0 && f == 1) || (c == 1 && f == 0) {
                continue;
            }
            let n = s.iter().filter(|v| v.chunk_idx == c && v.face == f).count();
            assert_eq!(n, 32, "chunk {} face {}", c, f);
        }
    }
    assert!(s.iter().all(|v| v.extent == 31));
}

#[test]
fn boundary_wrap_zero_mask() {
    let mut chunks = Chunks::new();
    let layer = layer_from(|x, z| if x == 3 && z == 4 { 2 } else { 0 });
    load_one(&mut chunks, off(0, 0, 0), &[layer], 5);
    let masks = chunks.data.layer_masks(chunks.refs[0].data_ref);
    assert_eq!(masks.layer(4), [0u32; 32]);
    assert_eq!(masks.layer(6), [0u32; 32]);
    assert_eq!(masks.layer(5)[4], 1 << 3);
    let s = chunks.calculate_surfaces();
    assert_eq!(s.len(), 6);
    let pos = pack_chunk_pos(3, 5, 4);
    for (f, v) in s.iter().enumerate() {
        assert_eq!(v.inner_pos, pos);
        assert_eq!(v.extent, 0);
        assert_eq!(v.colour_idx, 1);
        assert!(s.iter().any(|w| w.face as usize == f));
    }
}

#[test]
fn calculating_twice_gives_the_same_surfaces() {
    let chunks = mixed_chunks();
    let first = chunks.calculate_surfaces();
    let second = chunks.calculate_surfaces();
    assert_eq!(first, second);
}

#[test]
fn bottom_faces_are_emitted_once() {
    let mut chunks = Chunks::new();
    let layer = layer_from(|x, z| if z == 0 && x < 4 { 1 } else { 0 });
    load_one(&mut chunks, off(0, 0, 0), &[layer], 0);
    let s = chunks.calculate_surfaces();
    let bottoms: Vec<_> = s.iter().filter(|v| v.face == 2).collect();
    assert_eq!(bottoms.len(), 1);
    assert_eq!((bottoms[0].inner_pos, bottoms[0].extent), (0, 3));
}

#[test]
fn every_exposed_face_is_covered_once() {
    let chunks = mixed_chunks();
    let s = chunks.calculate_surfaces();
    let mut counts: HashMap<(usize, u8, i64, i64, i64), usize> = HashMap::new();
    for v in &s {
        for t in covered(v) {
            *counts.entry(t).or_insert(0) += 1;
        }
    }
    let exposed = exposed_faces(&chunks);
    assert_eq!(counts.len(), exposed.len());
    for t in &exposed {
        assert_eq!(counts.get(t), Some(&1), "{:?}", t);
    }
}

#[test]
fn extents_sum_to_exposed_count_per_face() {
    let chunks = mixed_chunks();
    let s = chunks.calculate_surfaces();
    let exposed = exposed_faces(&chunks);
    for f in 0..6u8 {
        let sum: usize = s.iter().filter(|v| v.face == f).map(|v| v.extent as usize + 1).sum();
        let count = exposed.iter().filter(|t| t.1 == f).count();
        assert_eq!(sum, count, "face {}", f);
    }
}

#[test]
fn occlusion_does_not_depend_on_load_order() {
    let a = pseudo_random_layers(21, 3);
    let b = pseudo_random_layers(22, 3);
    let boundary = |chunks: &Chunks, c: u16, f: u8, x: i64| -> Vec<(i64, i64)> {
        let mut v: Vec<(i64, i64)> = chunks
            .calculate_surfaces()
            .iter()
            .filter(|s| s.chunk_idx == c && s.face == f)
            .flat_map(|s| covered(s))
            .filter(|t| t.2 == x)
            .map(|t| (t.3, t.4))
            .collect();
        v.sort();
        v
    };
    let mut ab = Chunks::new();
    ab.load(
        &[off(0, 0, 0), off(1, 0, 0)],
        &[ChunkToAdd { layers: &a, y_start: 0 }, ChunkToAdd { layers: &b, y_start: 0 }],
    );
    let mut ba = Chunks::new();
    ba.load(
        &[off(1, 0, 0), off(0, 0, 0)],
        &[ChunkToAdd { layers: &b, y_start: 0 }, ChunkToAdd { layers: &a, y_start: 0 }],
    );
    assert_eq!(boundary(&ab, 0, 1, 31), boundary(&ba, 1, 1, 31));
    assert_eq!(boundary(&ab, 1, 0, 0), boundary(&ba, 0, 0, 0));
    let mut expected = Vec::new();
    for y in 0..3i64 {
        for z in 0..32i64 {
            let in_a = a[y as usize][(z * 32 + 31) as usize] != 0;
            let in_b = b[y as usize][(z * 32) as usize] != 0;
            if in_a && !in_b {
                expected.push((y, z));
            }
        }
    }
    assert_eq!(boundary(&ab, 0, 1, 31), expected);
}

#[test]
fn missing_neighbour_leaves_border_exposed() {
    let mut chunks = Chunks::new();
    let solid = vec![[1u16; 1024]; 2];
    load_one(&mut chunks, off(0, 0, 0), &solid, 0);
    let s = chunks.calculate_surfaces();
    assert_eq!(s.iter().filter(|v| v.face == 0).count(), 2);
    assert_eq!(s.iter().filter(|v| v.face == 2).count(), 32);
    assert_eq!(s.iter().filter(|v| v.face == 3).count(), 32);
}

#[test]
fn chunk_below_hides_bottom_faces_only_at_height_zero() {
    let solid = vec![[1u16; 1024]; 32];
    let top = vec![[1u16; 1024]; 1];
    let mut chunks = Chunks::new();
    chunks.load(
        &[off(0, 0, 0), off(0, 1, 0)],
        &[ChunkToAdd { layers: &solid, y_start: 0 }, ChunkToAdd { layers: &top, y_start: 0 }],
    );
    let s = chunks.calculate_surfaces();
    assert_eq!(s.iter().filter(|v| v.chunk_idx == 1 && v.face == 2).count(), 0);
    assert_eq!(s.iter().filter(|v| v.chunk_idx == 0 && v.face == 3).count(), 0);

    let mut raised = Chunks::new();
    raised.load(
        &[off(0, 0, 0), off(0, 1, 0)],
        &[ChunkToAdd { layers: &solid, y_start: 0 }, ChunkToAdd { layers: &top, y_start: 3 }],
    );
    let s = raised.calculate_surfaces();
    assert_eq!(s.iter().filter(|v| v.chunk_idx == 1 && v.face == 2).count(), 32);
}

#[test]
fn colours_come_from_the_first_cell_of_each_run() {
    let mut chunks = Chunks::new();
    let layer = layer_from(|x, z| if z == 0 && x < 3 { (x + 5) as u16 } else { 0 });
    load_one(&mut chunks, off(0, 0, 0), &[layer], 0);
    let s = chunks.calculate_surfaces();
    let bottom: Vec<_> = s.iter().filter(|v| v.face == 2).collect();
    assert_eq!(bottom.len(), 1);
    assert_eq!(bottom[0].colour_idx, 4);
    let right: Vec<_> = s.iter().filter(|v| v.face == 1).collect();
    assert_eq!(right.len(), 1);
    assert_eq!(right[0].colour_idx, 6);
}

#[test]
fn z_positions_of_side_faces_are_not_mirrored() {
    let mut chunks = Chunks::new();
    let layer = layer_from(|x, z| if x == 7 && (2..5).contains(&z) { 1 } else { 0 });
    load_one(&mut chunks, off(0, 0, 0), &[layer], 0);
    let s = chunks.calculate_surfaces();
    let left: Vec<_> = s.iter().filter(|v| v.face == 0).collect();
    assert_eq!(left.len(), 1);
    assert_eq!((left[0].inner_pos, left[0].extent), (pack_chunk_pos(7, 0, 2), 2));
}

#[test]
fn load_appends_chunks() {
    let mut chunks = Chunks::new();
    let a = pseudo_random_layers(1, 2);
    let b = pseudo_random_layers(2, 3);
    load_one(&mut chunks, off(0, 0, 0), &a, 4);
    load_one(&mut chunks, off(0, 0, 0), &b, 1);
    assert_eq!(chunks.refs.len(), 2);
    assert_eq!(chunks.refs[1].data_ref, ChunkDataRef { base_index: 2, y_start: 1, y_len: 3 });
    assert_eq!(chunks.data.layers.len(), 5);
    assert_eq!(chunks.data.layer_masks.len(), 5);
    assert_eq!(chunks.data.layers[2..], b[..]);
    assert_eq!(
        find_chunk(&chunks.refs, off(0, 0, 0)),
        Some(ChunkDataRef { base_index: 0, y_start: 4, y_len: 2 })
    );
    assert_eq!(find_chunk(&chunks.refs, off(0, 0, 1)), None);
}

#[test]
fn find_chunk_returns_first_match() {
    let d = |i: u16| ChunkDataRef { base_index: i, y_start: 0, y_len: 1 };
    let refs = [
        ChunkRef { offset: off(1, 2, 3), data_ref: d(0) },
        ChunkRef { offset: off(-1, 0, 0), data_ref: d(1) },
        ChunkRef { offset: off(-1, 0, 0), data_ref: d(2) },
    ];
    assert_eq!(find_chunk(&refs, off(-1, 0, 0)), Some(d(1)));
    assert_eq!(find_chunk(&refs, off(1, 2, 3)), Some(d(0)));
    assert_eq!(find_chunk(&refs, off(3, 2, 1)), None);
    assert_eq!(find_chunk(&[], off(0, 0, 0)), None);
}

#[test]
fn chunks_at_the_edge_of_the_grid() {
    let mut chunks = Chunks::new();
    let solid = vec![[1u16; 1024]; 1];
    chunks.load(
        &[off(i32::MAX, 0, 0), off(i32::MIN, 0, 0)],
        &[ChunkToAdd { layers: &solid, y_start: 0 }, ChunkToAdd { layers: &solid, y_start: 0 }],
    );
    let s = chunks.calculate_surfaces();
    assert_eq!(s.iter().filter(|v| v.face == 1).count(), 2);
    assert_eq!(s.iter().filter(|v| v.face == 0).count(), 2);
}

#[test]
fn masks_follow_layers() {
    let layer = layer_from(|x, z| if (x + z) % 3 == 0 { 1 } else { 0 });
    let mask = layer_mask_of(&layer);
    for z in 0..32 {
        for x in 0..32 {
            assert_eq!((mask[z] >> x) & 1 == 1, (x + z) % 3 == 0);
        }
    }
    let mut data = ChunkData { layers: Vec::new(), layer_masks: Vec::new() };
    assert_eq!(data.add_layers(&[layer, layer]), 0);
    assert_eq!(data.add_layers(&[layer]), 2);
    assert_eq!(data.layer_masks, vec![mask; 3]);
}

#[test]
fn texture_idx_reads_colour() {
    let layer = layer_from(|x, z| (x + z) as u16 + 1);
    let layers = [layer, layer];
    let data = ChunkData { layers: layers.to_vec(), layer_masks: vec![layer_mask_of(&layer); 2] };
    let range = data.layers(ChunkDataRef { base_index: 0, y_start: 9, y_len: 2 });
    assert_eq!(range.texture_idx(pack_chunk_pos(4, 10, 6)), 10);
    assert_eq!(range.texture_idx(pack_chunk_pos(0, 9, 0)), 0);
}

#[test]
fn pack_positions() {
    assert_eq!(pack_chunk_pos(0, 0, 0), 0);
    assert_eq!(pack_chunk_pos(31, 0, 0), 31);
    assert_eq!(pack_chunk_pos(0, 0, 31), 31 << 5);
    assert_eq!(pack_chunk_pos(5, 3, 7), (3 << 10) | (7 << 5) | 5);
    assert_eq!(pack_chunk_pos(31, 31, 31), 32767);
}

#[test]
fn transpose_swaps_rows_and_columns() {
    let mut mat = [0u32; 32];
    mat[3] = 1 << 5;
    mat[0] = 0xffff_ffff;
    mat[31] = 1;
    transpose(&mut mat);
    for x in 0..32 {
        let mut expected = 1u32;
        if x == 5 {
            expected |= 1 << 3;
        }
        if x == 0 {
            expected |= 1 << 31;
        }
        assert_eq!(mat[x], expected, "row {}", x);
    }
    let orig = mat;
    transpose(&mut mat);
    transpose(&mut mat);
    assert_eq!(mat, orig);
}

#[test]
fn run_lengths_merge_runs_of_set_bits() {
    let layer = layer_from(|_, _| 3);
    let layers = [layer];
    let range = ChunkLayerRange { layers: &layers, layer_start: 2 };
    let base = VoxelSurface {
        inner_pos: pack_chunk_pos(0, 2, 9),
        face: 4,
        extent: 0,
        chunk_idx: 7,
        colour_idx: 0,
    };
    let mut out = Vec::new();
    add_run_lengths(&mut out, range, 0b1000_0000_0000_0000_0000_0000_0111_0110u32 | (1 << 31), 0, base);
    let got: Vec<(u16, u8)> = out.iter().map(|v| (v.inner_pos, v.extent)).collect();
    let p = pack_chunk_pos(0, 2, 9);
    assert_eq!(got, vec![(p + 1, 1), (p + 4, 2), (p + 31, 0)]);
    assert!(out.iter().all(|v| v.face == 4 && v.chunk_idx == 7 && v.colour_idx == 2));

    let mut along_z = Vec::new();
    add_run_lengths(&mut along_z, range, u32::MAX, 5, VoxelSurface { inner_pos: pack_chunk_pos(6, 2, 0), ..base });
    assert_eq!(along_z.len(), 1);
    assert_eq!((along_z[0].inner_pos, along_z[0].extent), (pack_chunk_pos(6, 2, 0), 31));

    let mut none = Vec::new();
    add_run_lengths(&mut none, range, 0, 0, base);
    assert!(none.is_empty());
}

#[test]
fn face_numbers() {
    let faces = [Face::XNeg, Face::XPos, Face::YNeg, Face::YPos, Face::ZNeg, Face::ZPos];
    for (i, f) in faces.iter().enumerate() {
        assert_eq!(f.index() as usize, i);
    }
}

#[test]
fn ranges_of_a_chunk() {
    let d = ChunkDataRef { base_index: 4, y_start: 10, y_len: 3 };
    assert_eq!(d.data_range(), 4..7);
    let layer = layer_from(|_, _| 1);
    let data = ChunkData { layers: vec![layer; 8], layer_masks: vec![layer_mask_of(&layer); 8] };
    let masks = data.layer_masks(d);
    assert_eq!(masks.y_range(), 10..13);
    assert!(!masks.in_mask_range(9));
    assert!(masks.in_mask_range(10));
    assert!(masks.in_mask_range(12));
    assert!(!masks.in_mask_range(13));
    assert_eq!(masks.layer(12), [u32::MAX; 32]);
    assert_eq!(data.layers(d).layers.len(), 3);
}
