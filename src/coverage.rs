//! Which faces a list of surfaces covers, and the proof that the extracted
//! surfaces cover each exposed face exactly once and nothing else.
use vstd::prelude::*;
use vstd::arithmetic::div_mod::lemma_fundamental_div_mod_converse;
use crate::bits::{lemma_runs_cover, run_count, runs};
use crate::chunk::{ChunkLayer, pack, pos_y};
use crate::chunks::{Chunks, find_ref};
use crate::extract::{lemma_pack, surface_base};
use crate::surfaces::{VoxelSurface, run_surface, run_surfaces};

verus! {

/// Surface `s` covers face `f` of cell `(x, y, z)` of chunk `c`.
pub open spec fn covers(s: VoxelSurface, c: int, f: int, x: int, y: int, z: int) -> bool {
    let p = s.inner_pos as int;
    &&& s.chunk_idx == c
    &&& s.face == f
    &&& pos_y(p) == y
    &&& if f < 2 {
        p % 32 == x && (p / 32) % 32 <= z <= (p / 32) % 32 + s.extent
    } else {
        (p / 32) % 32 == z && p % 32 <= x <= p % 32 + s.extent
    }
}

/// How many of the surfaces `ss` cover face `f` of cell `(x, y, z)` of chunk
/// `c`.
pub open spec fn cover_count(ss: Seq<VoxelSurface>, c: int, f: int, x: int, y: int, z: int) -> nat
    decreases ss.len(),
{
    if ss.len() == 0 {
        0
    } else {
        cover_count(ss.drop_last(), c, f, x, y, z) + if covers(ss.last(), c, f, x, y, z) {
            1nat
        } else {
            0nat
        }
    }
}

/// 1 where `b` holds, else 0.
pub open spec fn one_if(b: bool) -> nat {
    if b {
        1
    } else {
        0
    }
}

pub proof fn lemma_cover_count_add(
    a: Seq<VoxelSurface>,
    b: Seq<VoxelSurface>,
    c: int,
    f: int,
    x: int,
    y: int,
    z: int,
)
    ensures
        cover_count(a + b, c, f, x, y, z) == cover_count(a, c, f, x, y, z) + cover_count(
            b,
            c,
            f,
            x,
            y,
            z,
        ),
    decreases b.len(),
{
    if b.len() == 0 {
        assert(a + b =~= a);
    } else {
        assert((a + b).drop_last() =~= a + b.drop_last());
        lemma_cover_count_add(a, b.drop_last(), c, f, x, y, z);
    }
}

/// A packed position gives back its three coordinates.
proof fn lemma_unpack(x: int, y: int, z: int)
    requires
        0 <= x < 32,
        0 <= y < 32,
        0 <= z < 32,
    ensures
        pack(x, y, z) % 32 == x,
        (pack(x, y, z) / 32) % 32 == z,
        pos_y(pack(x, y, z)) == y,
        0 <= pack(x, y, z) < 32768,
{
    lemma_pack(x, y, z);
    lemma_fundamental_div_mod_converse(pack(x, y, z), 32, y * 32 + z, x);
    lemma_fundamental_div_mod_converse(y * 32 + z, 32, y, z);
}

/// The surfaces of runs along `z` (for `f0` of -X or +X) or along `x` (for
/// the other faces) cover each face of their line as often as runs hold it.
proof fn lemma_run_surfaces_count(
    rs: Seq<(int, int)>,
    c0: int,
    f0: int,
    x0: int,
    y0: int,
    z0: int,
    layers: Seq<ChunkLayer>,
    start: int,
    c: int,
    f: int,
    x: int,
    y: int,
    z: int,
)
    requires
        forall|k: int| 0 <= k < rs.len() ==> 0 <= #[trigger] rs[k].0 <= rs[k].1 < 32,
        0 <= c0 < 65536,
        0 <= f0 < 6,
        0 <= y0 < 32,
        f0 < 2 ==> 0 <= x0 < 32 && z0 == 0,
        f0 >= 2 ==> 0 <= z0 < 32 && x0 == 0,
        0 <= f < 6,
        0 <= x < 32,
        0 <= z < 32,
    ensures
        cover_count(
            run_surfaces(
                rs,
                surface_base(c0, f0, pack(x0, y0, z0)),
                if f0 < 2 {
                    5
                } else {
                    0
                },
                layers,
                start,
            ),
            c,
            f,
            x,
            y,
            z,
        ) == if c == c0 && f == f0 && y == y0 && (if f0 < 2 {
            x == x0
        } else {
            z == z0
        }) {
            run_count(
                rs,
                if f0 < 2 {
                    z
                } else {
                    x
                },
            )
        } else {
            0
        },
    decreases rs.len(),
{
    let shift = if f0 < 2 {
        5int
    } else {
        0int
    };
    let base = surface_base(c0, f0, pack(x0, y0, z0));
    if rs.len() > 0 {
        let rest = rs.drop_last();
        lemma_run_surfaces_count(rest, c0, f0, x0, y0, z0, layers, start, c, f, x, y, z);
        let r = rs.last();
        assert(r == rs[rs.len() - 1]);
        let s = run_surface(base, shift, r, layers, start);
        lemma_unpack(x0, y0, z0);
        if f0 < 2 {
            lemma_unpack(x0, y0, r.0);
            assert(s.inner_pos == pack(x0, y0, r.0));
        } else {
            lemma_unpack(r.0, y0, z0);
            assert(s.inner_pos == pack(r.0, y0, z0));
        }
        assert(run_surfaces(rs, base, shift, layers, start).drop_last() == run_surfaces(
            rest,
            base,
            shift,
            layers,
            start,
        ));
    }
}

impl Chunks {
    /// Each side face of a layer is covered once where it is exposed.
    proof fn lemma_side_count(&self, c0: int, y0: int, n: int, c: int, f: int, x: int, y: int, z: int)
        requires
            self.wf(),
            0 <= c0 < self.refs@.len(),
            0 <= y0 < 32,
            0 <= n <= 32,
            0 <= f < 6,
            0 <= x < 32,
            0 <= z < 32,
        ensures
            cover_count(self.side_surfaces_upto(c0, y0, n), c, f, x, y, z) == if c == c0 && y == y0
                && f < 2 && x < n {
                one_if(self.exposed(c, f, x, y, z))
            } else {
                0
            },
        decreases n,
    {
        if n > 0 {
            self.lemma_side_count(c0, y0, n - 1, c, f, x, y, z);
            let prev = self.side_surfaces_upto(c0, y0, n - 1);
            let l = self.column_surfaces(c0, 0, n - 1, y0);
            let r = self.column_surfaces(c0, 1, n - 1, y0);
            lemma_cover_count_add(prev + l, r, c, f, x, y, z);
            lemma_cover_count_add(prev, l, c, f, x, y, z);
            let pl = |zz: int| self.exposed(c0, 0, n - 1, y0, zz);
            let pr = |zz: int| self.exposed(c0, 1, n - 1, y0, zz);
            lemma_runs_cover(pl);
            lemma_runs_cover(pr);
            let layers = self.chunk_layers(c0);
            let st = self.refs@[c0].data_ref.y_start as int;
            lemma_run_surfaces_count(runs(pl), c0, 0, n - 1, y0, 0, layers, st, c, f, x, y, z);
            lemma_run_surfaces_count(runs(pr), c0, 1, n - 1, y0, 0, layers, st, c, f, x, y, z);
            assert(pl(z) == self.exposed(c0, 0, n - 1, y0, z));
            assert(pr(z) == self.exposed(c0, 1, n - 1, y0, z));
        }
    }

    /// Each -Y, +Y, -Z and +Z face of a layer is covered once where it is
    /// exposed.
    proof fn lemma_row_count(&self, c0: int, y0: int, n: int, c: int, f: int, x: int, y: int, z: int)
        requires
            self.wf(),
            0 <= c0 < self.refs@.len(),
            0 <= y0 < 32,
            0 <= n <= 32,
            0 <= f < 6,
            0 <= x < 32,
            0 <= z < 32,
        ensures
            cover_count(self.row_faces_upto(c0, y0, n), c, f, x, y, z) == if c == c0 && y == y0 && f
                >= 2 && z < n {
                one_if(self.exposed(c, f, x, y, z))
            } else {
                0
            },
        decreases n,
    {
        if n > 0 {
            self.lemma_row_count(c0, y0, n - 1, c, f, x, y, z);
            let prev = self.row_faces_upto(c0, y0, n - 1);
            let sd = self.row_surfaces(c0, 2, y0, n - 1);
            let su = self.row_surfaces(c0, 3, y0, n - 1);
            let sb = self.row_surfaces(c0, 4, y0, n - 1);
            let sf = self.row_surfaces(c0, 5, y0, n - 1);
            lemma_cover_count_add(prev + sd + su + sb, sf, c, f, x, y, z);
            lemma_cover_count_add(prev + sd + su, sb, c, f, x, y, z);
            lemma_cover_count_add(prev + sd, su, c, f, x, y, z);
            lemma_cover_count_add(prev, sd, c, f, x, y, z);
            let layers = self.chunk_layers(c0);
            let st = self.refs@[c0].data_ref.y_start as int;
            let pd = |xx: int| self.exposed(c0, 2, xx, y0, n - 1);
            let pu = |xx: int| self.exposed(c0, 3, xx, y0, n - 1);
            let pb = |xx: int| self.exposed(c0, 4, xx, y0, n - 1);
            let pf = |xx: int| self.exposed(c0, 5, xx, y0, n - 1);
            lemma_runs_cover(pd);
            lemma_runs_cover(pu);
            lemma_runs_cover(pb);
            lemma_runs_cover(pf);
            lemma_run_surfaces_count(runs(pd), c0, 2, 0, y0, n - 1, layers, st, c, f, x, y, z);
            lemma_run_surfaces_count(runs(pu), c0, 3, 0, y0, n - 1, layers, st, c, f, x, y, z);
            lemma_run_surfaces_count(runs(pb), c0, 4, 0, y0, n - 1, layers, st, c, f, x, y, z);
            lemma_run_surfaces_count(runs(pf), c0, 5, 0, y0, n - 1, layers, st, c, f, x, y, z);
            assert(pd(x) == self.exposed(c0, 2, x, y0, n - 1));
            assert(pu(x) == self.exposed(c0, 3, x, y0, n - 1));
            assert(pb(x) == self.exposed(c0, 4, x, y0, n - 1));
            assert(pf(x) == self.exposed(c0, 5, x, y0, n - 1));
        }
    }

    /// Each face of the first `n` layers of chunk `c0` is covered once where
    /// it is exposed.
    proof fn lemma_chunk_count(&self, c0: int, n: int, c: int, f: int, x: int, y: int, z: int)
        requires
            self.wf(),
            0 <= c0 < self.refs@.len(),
            0 <= n <= self.refs@[c0].data_ref.y_len,
            0 <= f < 6,
            0 <= x < 32,
            0 <= z < 32,
        ensures
            cover_count(self.chunk_surfaces_upto(c0, n), c, f, x, y, z) == if c == c0 && y
                < self.refs@[c0].data_ref.y_start + n {
                one_if(self.exposed(c, f, x, y, z))
            } else {
                0
            },
        decreases n,
    {
        let d = self.refs@[c0].data_ref;
        if n > 0 {
            self.lemma_chunk_count(c0, n - 1, c, f, x, y, z);
            let y0 = d.y_start + n - 1;
            lemma_cover_count_add(
                self.chunk_surfaces_upto(c0, n - 1),
                self.layer_surfaces(c0, y0),
                c,
                f,
                x,
                y,
                z,
            );
            lemma_cover_count_add(
                self.side_surfaces_upto(c0, y0, 32),
                self.row_faces_upto(c0, y0, 32),
                c,
                f,
                x,
                y,
                z,
            );
            self.lemma_side_count(c0, y0, 32, c, f, x, y, z);
            self.lemma_row_count(c0, y0, 32, c, f, x, y, z);
        } else {
            if c == c0 && y < d.y_start {
                assert(!self.exposed(c, f, x, y, z));
            }
        }
    }

    /// Each face of the first `n` chunks is covered once where it is exposed.
    proof fn lemma_upto_count(&self, n: int, c: int, f: int, x: int, y: int, z: int)
        requires
            self.wf(),
            0 <= n <= self.refs@.len(),
            0 <= f < 6,
            0 <= x < 32,
            0 <= z < 32,
        ensures
            cover_count(self.surfaces_upto(n), c, f, x, y, z) == if 0 <= c < n {
                one_if(self.exposed(c, f, x, y, z))
            } else {
                0
            },
        decreases n,
    {
        if n > 0 {
            self.lemma_upto_count(n - 1, c, f, x, y, z);
            let d = self.refs@[n - 1].data_ref;
            assert(d.y_start + d.y_len <= 32);
            lemma_cover_count_add(
                self.surfaces_upto(n - 1),
                self.chunk_surfaces_upto(n - 1, d.y_len as int),
                c,
                f,
                x,
                y,
                z,
            );
            self.lemma_chunk_count(n - 1, d.y_len as int, c, f, x, y, z);
        }
    }

    /// The extracted surfaces cover every exposed face of every loaded chunk
    /// exactly once, and no face that is not exposed: they partition the
    /// exposed faces.
    pub proof fn lemma_surfaces_partition_exposed_faces(
        &self,
        c: int,
        f: int,
        x: int,
        y: int,
        z: int,
    )
        requires
            self.wf(),
            0 <= f < 6,
            0 <= x < 32,
            0 <= z < 32,
        ensures
            cover_count(self.surfaces(), c, f, x, y, z) == one_if(self.exposed(c, f, x, y, z)),
    {
        self.lemma_upto_count(self.refs@.len() as int, c, f, x, y, z);
    }

    /// Where chunk `b` is the one chunk at the offset one step along +X from
    /// chunk `a`, and `a` the one chunk at its own offset, the +X faces of
    /// `a` and the -X faces of `b` on their shared border are exposed exactly
    /// where the cell on one side holds a voxel and the cell on the other
    /// does not, wherever the two stand in the list of chunks.
    pub proof fn lemma_occlusion_symmetry_x(&self, a: int, b: int, y: int, z: int)
        requires
            self.wf(),
            0 <= a < self.refs@.len(),
            0 <= b < self.refs@.len(),
            self.refs@[b].offset.x == self.refs@[a].offset.x + 1,
            self.refs@[b].offset.y == self.refs@[a].offset.y,
            self.refs@[b].offset.z == self.refs@[a].offset.z,
            forall|k: int|
                0 <= k < self.refs@.len() && #[trigger] self.refs@[k].offset == self.refs@[b].offset
                    ==> k == b,
            forall|k: int|
                0 <= k < self.refs@.len() && #[trigger] self.refs@[k].offset == self.refs@[a].offset
                    ==> k == a,
        ensures
            self.exposed(a, 1, 31, y, z) == (self.occ(self.refs@[a].data_ref, 31, y, z) && !self.occ(
                self.refs@[b].data_ref,
                0,
                y,
                z,
            )),
            self.exposed(b, 0, 0, y, z) == (self.occ(self.refs@[b].data_ref, 0, y, z) && !self.occ(
                self.refs@[a].data_ref,
                31,
                y,
                z,
            )),
    {
        let oa = self.refs@[a].offset;
        let ob = self.refs@[b].offset;
        lemma_find_unique(self.refs@, b, ob.x as int, ob.y as int, ob.z as int);
        lemma_find_unique(self.refs@, a, oa.x as int, oa.y as int, oa.z as int);
        assert(self.neighbour(a, 1, 0, 0) == self.refs@[b].data_ref);
        assert(self.neighbour(b, -1, 0, 0) == self.refs@[a].data_ref);
    }

    /// Extraction reads the chunks and nothing else: two extractions from
    /// the same chunks give the same surfaces, in the same order.
    pub proof fn lemma_extraction_repeatable(&self, first: Seq<VoxelSurface>, second: Seq<VoxelSurface>)
        requires
            first == self.surfaces(),
            second == self.surfaces(),
        ensures
            first == second,
    {
    }
}

/// Where only chunk `k` of `refs` lies at `(x, y, z)`, the lookup finds it.
proof fn lemma_find_unique(refs: Seq<crate::chunks::ChunkRef>, k: int, x: int, y: int, z: int)
    requires
        0 <= k < refs.len(),
        refs[k].offset.x == x && refs[k].offset.y == y && refs[k].offset.z == z,
        forall|j: int| 0 <= j < refs.len() && #[trigger] refs[j].offset == refs[k].offset ==> j == k,
    ensures
        find_ref(refs, x, y, z) == Some(refs[k].data_ref),
    decreases refs.len(),
{
    if k > 0 {
        let rest = refs.subrange(1, refs.len() as int);
        assert(refs[0].offset != refs[k].offset);
        assert forall|j: int| 0 <= j < rest.len() && #[trigger] rest[j].offset == rest[k
            - 1].offset implies j == k - 1 by {
            assert(refs[j + 1].offset == rest[j].offset);
        }
        lemma_find_unique(rest, k - 1, x, y, z);
    }
}

} // verus!
