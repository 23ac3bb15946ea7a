//! Counting exposed faces: the extents of the extracted surfaces add up to
//! the number of exposed faces in each direction.
use vstd::prelude::*;
use crate::bits::{runs, runs_scan};
use crate::chunk::{ChunkLayer, pack};
use crate::chunks::Chunks;
use crate::coverage::one_if;
use crate::extract::surface_base;
use crate::surfaces::{VoxelSurface, run_surfaces};

verus! {

/// `g(0) + ... + g(n - 1)`.
pub open spec fn sum_to(g: spec_fn(int) -> int, n: int) -> int
    decreases n,
{
    if n <= 0 {
        0
    } else {
        sum_to(g, n - 1) + g(n - 1)
    }
}

/// The number of cells in the runs `rs`.
pub open spec fn run_len_sum(rs: Seq<(int, int)>) -> int
    decreases rs.len(),
{
    if rs.len() == 0 {
        0
    } else {
        run_len_sum(rs.drop_last()) + (rs.last().1 - rs.last().0 + 1)
    }
}

/// The number of faces that the surfaces of `ss` with face `f` span: the
/// sum of their `extent + 1`.
pub open spec fn extent_sum(ss: Seq<VoxelSurface>, f: int) -> int
    decreases ss.len(),
{
    if ss.len() == 0 {
        0
    } else {
        extent_sum(ss.drop_last(), f) + if ss.last().face == f {
            ss.last().extent + 1
        } else {
            0
        }
    }
}

proof fn lemma_sum_to_ext(g1: spec_fn(int) -> int, g2: spec_fn(int) -> int, n: int)
    requires
        forall|i: int| 0 <= i < n ==> #[trigger] g1(i) == g2(i),
    ensures
        sum_to(g1, n) == sum_to(g2, n),
    decreases n,
{
    if n > 0 {
        lemma_sum_to_ext(g1, g2, n - 1);
    }
}

proof fn lemma_sum_to_add(a: spec_fn(int) -> int, b: spec_fn(int) -> int, n: int)
    ensures
        sum_to(|i: int| a(i) + b(i), n) == sum_to(a, n) + sum_to(b, n),
    decreases n,
{
    if n > 0 {
        lemma_sum_to_add(a, b, n - 1);
    }
}

proof fn lemma_sum_to_zero(g: spec_fn(int) -> int, n: int)
    requires
        forall|i: int| 0 <= i < n ==> #[trigger] g(i) == 0,
    ensures
        sum_to(g, n) == 0,
    decreases n,
{
    if n > 0 {
        lemma_sum_to_zero(g, n - 1);
    }
}

/// The order of a double sum does not matter.
proof fn lemma_sum_swap(g: spec_fn(int, int) -> int, n: int, m: int)
    requires
        0 <= n,
    ensures
        sum_to(|x: int| sum_to(|z: int| g(x, z), m), n) == sum_to(
            |z: int| sum_to(|x: int| g(x, z), n),
            m,
        ),
    decreases n,
{
    if n == 0 {
        lemma_sum_to_zero(|z: int| sum_to(|x: int| g(x, z), 0), m);
    } else {
        lemma_sum_swap(g, n - 1, m);
        let a = |z: int| sum_to(|x: int| g(x, z), n - 1);
        let b = |z: int| g(n - 1, z);
        lemma_sum_to_add(a, b, m);
        lemma_sum_to_ext(
            |z: int| sum_to(|x: int| g(x, z), n),
            |i: int| a(i) + b(i),
            m,
        );
        assert(sum_to(|x: int| sum_to(|z: int| g(x, z), m), n) == sum_to(
            |x: int| sum_to(|z: int| g(x, z), m),
            n - 1,
        ) + sum_to(b, m));
    }
}

/// A sum of a function that is zero outside `ys..ys + len` is the sum of
/// its values there.
proof fn lemma_sum_window(h: spec_fn(int) -> int, ys: int, len: int, m: int)
    requires
        0 <= ys,
        0 <= len,
        0 <= m,
        forall|i: int| !(ys <= i < ys + len) ==> #[trigger] h(i) == 0,
    ensures
        sum_to(h, m) == sum_to(
            |i: int| h(ys + i),
            if m <= ys {
                0
            } else if m >= ys + len {
                len
            } else {
                m - ys
            },
        ),
    decreases m,
{
    if m > 0 {
        lemma_sum_window(h, ys, len, m - 1);
        let k = m - 1 - ys;
        if 0 <= k < len {
            assert((|i: int| h(ys + i))(k) == h(m - 1));
        }
    }
}

/// The runs of a scan from `c` span the indices of `c..32` where `p`
/// holds, and the run open since `open`.
proof fn lemma_runs_scan_len(p: spec_fn(int) -> bool, c: int, open: int)
    requires
        0 <= c <= 32,
        open == -1 || (0 <= open < c && forall|j: int| open <= j < c ==> #[trigger] p(j)),
    ensures
        run_len_sum(runs_scan(p, c, open)) + sum_to(|i: int| one_if(p(i)) as int, c) == sum_to(
            |i: int| one_if(p(i)) as int,
            32,
        ) + if open >= 0 {
            c - open
        } else {
            0
        },
    decreases 32 - c,
{
    let g = |i: int| one_if(p(i)) as int;
    let rs = runs_scan(p, c, open);
    if c >= 32 {
        if open >= 0 {
            assert(rs == seq![(open, 31int)]);
            assert(rs.drop_last() =~= Seq::<(int, int)>::empty());
            assert(run_len_sum(rs.drop_last()) == 0);
        }
    } else if p(c) {
        let o = if open >= 0 {
            open
        } else {
            c
        };
        lemma_runs_scan_len(p, c + 1, o);
        assert(sum_to(g, c + 1) == sum_to(g, c) + 1);
    } else if open >= 0 {
        let first = seq![(open, c - 1)];
        let rest = runs_scan(p, c + 1, -1);
        assert(rs == first + rest);
        lemma_runs_scan_len(p, c + 1, -1);
        lemma_run_len_sum_add(first, rest);
        assert(first.drop_last() =~= Seq::<(int, int)>::empty());
        assert(run_len_sum(first.drop_last()) == 0);
        assert(run_len_sum(first) == c - open);
        assert(sum_to(g, c + 1) == sum_to(g, c));
    } else {
        lemma_runs_scan_len(p, c + 1, -1);
        assert(sum_to(g, c + 1) == sum_to(g, c));
    }
}

proof fn lemma_run_len_sum_add(a: Seq<(int, int)>, b: Seq<(int, int)>)
    ensures
        run_len_sum(a + b) == run_len_sum(a) + run_len_sum(b),
    decreases b.len(),
{
    if b.len() == 0 {
        assert(a + b =~= a);
    } else {
        assert((a + b).drop_last() =~= a + b.drop_last());
        lemma_run_len_sum_add(a, b.drop_last());
    }
}

pub proof fn lemma_extent_sum_add(a: Seq<VoxelSurface>, b: Seq<VoxelSurface>, f: int)
    ensures
        extent_sum(a + b, f) == extent_sum(a, f) + extent_sum(b, f),
    decreases b.len(),
{
    if b.len() == 0 {
        assert(a + b =~= a);
    } else {
        assert((a + b).drop_last() =~= a + b.drop_last());
        lemma_extent_sum_add(a, b.drop_last(), f);
    }
}

/// The surfaces of the runs of `p` span as many faces as `p` holds on.
proof fn lemma_run_surfaces_extent(
    p: spec_fn(int) -> bool,
    rs: Seq<(int, int)>,
    base: VoxelSurface,
    shift: int,
    layers: Seq<ChunkLayer>,
    start: int,
    f: int,
)
    requires
        forall|k: int| 0 <= k < rs.len() ==> 0 <= #[trigger] rs[k].0 <= rs[k].1 < 32,
    ensures
        extent_sum(run_surfaces(rs, base, shift, layers, start), f) == if base.face == f {
            run_len_sum(rs)
        } else {
            0
        },
    decreases rs.len(),
{
    if rs.len() > 0 {
        let rest = rs.drop_last();
        lemma_run_surfaces_extent(p, rest, base, shift, layers, start, f);
        assert(rs.last() == rs[rs.len() - 1]);
        assert(run_surfaces(rs, base, shift, layers, start).drop_last() == run_surfaces(
            rest,
            base,
            shift,
            layers,
            start,
        ));
    }
}

impl Chunks {
    /// The exposed faces `f` in row `z` of the layer at height `y` of chunk
    /// `c`.
    pub open spec fn row_count(&self, c: int, f: int, y: int, z: int) -> int {
        sum_to(|x: int| one_if(self.exposed(c, f, x, y, z)) as int, 32)
    }

    /// The exposed faces `f` in the layer at height `y` of chunk `c`.
    pub open spec fn layer_count(&self, c: int, f: int, y: int) -> int {
        sum_to(|z: int| self.row_count(c, f, y, z), 32)
    }

    /// The exposed faces `f` of chunk `c`.
    pub open spec fn chunk_count(&self, c: int, f: int) -> int {
        sum_to(|y: int| self.layer_count(c, f, y), 32)
    }

    /// The exposed faces `f` of all loaded chunks.
    pub open spec fn exposed_count(&self, f: int) -> int {
        sum_to(|c: int| self.chunk_count(c, f), self.refs@.len() as int)
    }

    /// The surfaces of the runs of exposed faces along a line span as many
    /// faces as are exposed there.
    proof fn lemma_line_extent(
        &self,
        p: spec_fn(int) -> bool,
        c0: int,
        f0: int,
        pos: int,
        shift: int,
        f: int,
    )
        requires
            0 <= f0 < 6,
        ensures
            extent_sum(
                run_surfaces(
                    runs(p),
                    surface_base(c0, f0, pos),
                    shift,
                    self.chunk_layers(c0),
                    self.refs@[c0].data_ref.y_start as int,
                ),
                f,
            ) == if f == f0 {
                sum_to(|i: int| one_if(p(i)) as int, 32)
            } else {
                0
            },
    {
        crate::bits::lemma_runs_cover(p);
        lemma_runs_scan_len(p, 0, -1);
        lemma_run_surfaces_extent(
            p,
            runs(p),
            surface_base(c0, f0, pos),
            shift,
            self.chunk_layers(c0),
            self.refs@[c0].data_ref.y_start as int,
            f,
        );
    }

    proof fn lemma_side_extent(&self, c0: int, y0: int, n: int, f: int)
        requires
            0 <= n <= 32,
        ensures
            extent_sum(self.side_surfaces_upto(c0, y0, n), f) == if f == 0 || f == 1 {
                sum_to(|x: int| sum_to(|z: int| one_if(self.exposed(c0, f, x, y0, z)) as int, 32), n)
            } else {
                0
            },
        decreases n,
    {
        if n > 0 {
            self.lemma_side_extent(c0, y0, n - 1, f);
            let prev = self.side_surfaces_upto(c0, y0, n - 1);
            let l = self.column_surfaces(c0, 0, n - 1, y0);
            let r = self.column_surfaces(c0, 1, n - 1, y0);
            lemma_extent_sum_add(prev + l, r, f);
            lemma_extent_sum_add(prev, l, f);
            self.lemma_line_extent(|z: int| self.exposed(c0, 0, n - 1, y0, z), c0, 0, pack(n - 1, y0, 0), 5, f);
            self.lemma_line_extent(|z: int| self.exposed(c0, 1, n - 1, y0, z), c0, 1, pack(n - 1, y0, 0), 5, f);
            if f == 0 || f == 1 {
                lemma_sum_to_ext(
                    |z: int| one_if((|zz: int| self.exposed(c0, f, n - 1, y0, zz))(z)) as int,
                    |z: int| one_if(self.exposed(c0, f, n - 1, y0, z)) as int,
                    32,
                );
            }
        }
    }

    proof fn lemma_row_extent(&self, c0: int, y0: int, n: int, f: int)
        requires
            0 <= n <= 32,
        ensures
            extent_sum(self.row_faces_upto(c0, y0, n), f) == if 2 <= f < 6 {
                sum_to(|z: int| self.row_count(c0, f, y0, z), n)
            } else {
                0
            },
        decreases n,
    {
        if n > 0 {
            self.lemma_row_extent(c0, y0, n - 1, f);
            let prev = self.row_faces_upto(c0, y0, n - 1);
            let sd = self.row_surfaces(c0, 2, y0, n - 1);
            let su = self.row_surfaces(c0, 3, y0, n - 1);
            let sb = self.row_surfaces(c0, 4, y0, n - 1);
            let sf = self.row_surfaces(c0, 5, y0, n - 1);
            lemma_extent_sum_add(prev + sd + su + sb, sf, f);
            lemma_extent_sum_add(prev + sd + su, sb, f);
            lemma_extent_sum_add(prev + sd, su, f);
            lemma_extent_sum_add(prev, sd, f);
            let pos = pack(0, y0, n - 1);
            self.lemma_line_extent(|x: int| self.exposed(c0, 2, x, y0, n - 1), c0, 2, pos, 0, f);
            self.lemma_line_extent(|x: int| self.exposed(c0, 3, x, y0, n - 1), c0, 3, pos, 0, f);
            self.lemma_line_extent(|x: int| self.exposed(c0, 4, x, y0, n - 1), c0, 4, pos, 0, f);
            self.lemma_line_extent(|x: int| self.exposed(c0, 5, x, y0, n - 1), c0, 5, pos, 0, f);
            if 2 <= f < 6 {
                lemma_sum_to_ext(
                    |x: int| one_if((|xx: int| self.exposed(c0, f, xx, y0, n - 1))(x)) as int,
                    |x: int| one_if(self.exposed(c0, f, x, y0, n - 1)) as int,
                    32,
                );
            }
        }
    }

    proof fn lemma_layer_extent(&self, c0: int, y0: int, f: int)
        requires
            0 <= f < 6,
        ensures
            extent_sum(self.layer_surfaces(c0, y0), f) == self.layer_count(c0, f, y0),
    {
        lemma_extent_sum_add(self.side_surfaces_upto(c0, y0, 32), self.row_faces_upto(c0, y0, 32), f);
        self.lemma_side_extent(c0, y0, 32, f);
        self.lemma_row_extent(c0, y0, 32, f);
        if f < 2 {
            let g = |x: int, z: int| one_if(self.exposed(c0, f, x, y0, z)) as int;
            lemma_sum_swap(g, 32, 32);
            let cols = |x: int| sum_to(|z: int| g(x, z), 32);
            let cols2 = |x: int| sum_to(|z: int| one_if(self.exposed(c0, f, x, y0, z)) as int, 32);
            assert forall|x: int| 0 <= x < 32 implies #[trigger] cols(x) == cols2(x) by {
                lemma_sum_to_ext(
                    |z: int| g(x, z),
                    |z: int| one_if(self.exposed(c0, f, x, y0, z)) as int,
                    32,
                );
            }
            lemma_sum_to_ext(cols, cols2, 32);
            let lhs = |z: int| sum_to(|x: int| g(x, z), 32);
            let rhs = |z: int| self.row_count(c0, f, y0, z);
            assert forall|z: int| 0 <= z < 32 implies #[trigger] lhs(z) == rhs(z) by {
                lemma_sum_to_ext(
                    |x: int| g(x, z),
                    |x: int| one_if(self.exposed(c0, f, x, y0, z)) as int,
                    32,
                );
            }
            lemma_sum_to_ext(lhs, rhs, 32);
        }
    }

    proof fn lemma_chunk_extent(&self, c0: int, n: int, f: int)
        requires
            self.wf(),
            0 <= c0 < self.refs@.len(),
            0 <= n <= self.refs@[c0].data_ref.y_len,
            0 <= f < 6,
        ensures
            extent_sum(self.chunk_surfaces_upto(c0, n), f) == sum_to(
                |i: int| self.layer_count(c0, f, self.refs@[c0].data_ref.y_start + i),
                n,
            ),
        decreases n,
    {
        if n > 0 {
            let y0 = self.refs@[c0].data_ref.y_start + n - 1;
            self.lemma_chunk_extent(c0, n - 1, f);
            lemma_extent_sum_add(self.chunk_surfaces_upto(c0, n - 1), self.layer_surfaces(c0, y0), f);
            self.lemma_layer_extent(c0, y0, f);
        }
    }

    /// A layer outside a chunk's range of heights has no exposed face.
    proof fn lemma_chunk_count_window(&self, c0: int, f: int)
        requires
            self.wf(),
            0 <= c0 < self.refs@.len(),
            0 <= f < 6,
        ensures
            self.chunk_count(c0, f) == sum_to(
                |i: int| self.layer_count(c0, f, self.refs@[c0].data_ref.y_start + i),
                self.refs@[c0].data_ref.y_len as int,
            ),
    {
        let d = self.refs@[c0].data_ref;
        let h = |y: int| self.layer_count(c0, f, y);
        assert forall|y: int| !(d.y_start <= y < d.y_start + d.y_len) implies #[trigger] h(y) == 0 by {
            let rows = |z: int| self.row_count(c0, f, y, z);
            assert forall|z: int| 0 <= z < 32 implies #[trigger] rows(z) == 0 by {
                lemma_sum_to_zero(|x: int| one_if(self.exposed(c0, f, x, y, z)) as int, 32);
            }
            lemma_sum_to_zero(|z: int| self.row_count(c0, f, y, z), 32);
        }
        lemma_sum_window(h, d.y_start as int, d.y_len as int, 32);
        lemma_sum_to_ext(
            |i: int| h(d.y_start + i),
            |i: int| self.layer_count(c0, f, self.refs@[c0].data_ref.y_start + i),
            d.y_len as int,
        );
    }

    proof fn lemma_upto_extent(&self, n: int, f: int)
        requires
            self.wf(),
            0 <= n <= self.refs@.len(),
            0 <= f < 6,
        ensures
            extent_sum(self.surfaces_upto(n), f) == sum_to(|c: int| self.chunk_count(c, f), n),
        decreases n,
    {
        if n > 0 {
            self.lemma_upto_extent(n - 1, f);
            let d = self.refs@[n - 1].data_ref;
            lemma_extent_sum_add(
                self.surfaces_upto(n - 1),
                self.chunk_surfaces_upto(n - 1, d.y_len as int),
                f,
            );
            self.lemma_chunk_extent(n - 1, d.y_len as int, f);
            self.lemma_chunk_count_window(n - 1, f);
        }
    }

    /// For each face direction, the extents (`extent + 1`) of the extracted
    /// surfaces of that direction add up to the number of exposed faces in
    /// that direction.
    pub proof fn lemma_extents_count_exposed_faces(&self, f: int)
        requires
            self.wf(),
            0 <= f < 6,
        ensures
            extent_sum(self.surfaces(), f) == self.exposed_count(f),
    {
        self.lemma_upto_extent(self.refs@.len() as int, f);
    }
}

} // verus!
