//! Transposition of a 32 x 32 bit matrix held as 32 row words.
use vstd::prelude::*;
use crate::bits::bit;

verus! {

/// Element `(r, c)` of a bit matrix: bit `c` of row `r`.
pub open spec fn elem(a: [u32; 32], r: u32, c: u32) -> bool {
    bit(a[r as int], c as int)
}

/// The block size `j` and the mask `m` of the low halves of its blocks, as
/// they stand at the start of one round of the transposition.
spec fn round_params(j: u32, m: u32) -> bool {
    (j == 16 && m == 0x0000ffff) || (j == 8 && m == 0x00ff00ff) || (j == 4 && m == 0x0f0f0f0f) || (j
        == 2 && m == 0x33333333) || (j == 1 && m == 0x55555555)
}

/// The rounds already done before the round of block size `j`, as a mask
/// of index bits.
spec fn rounds_done(j: u32, d: u32) -> bool {
    (j == 16 && d == 0) || (j == 8 && d == 16) || (j == 4 && d == 24) || (j == 2 && d == 28) || (j
        == 1 && d == 30) || (j == 0 && d == 31)
}

/// The row whose element lands at `(r, c)` once the index bits of `d` have
/// been swapped between rows and columns.
spec fn src_row(r: u32, c: u32, d: u32) -> u32 {
    (r & !d) | (c & d)
}

/// The column whose element lands at `(r, c)` once the index bits of `d`
/// have been swapped between rows and columns.
spec fn src_col(r: u32, c: u32, d: u32) -> u32 {
    (c & !d) | (r & d)
}

proof fn lemma_round_words(a: u32, b: u32, j: u32, m: u32, p: u32)
    by (bit_vector)
    requires
        (j == 16 && m == 0x0000ffff) || (j == 8 && m == 0x00ff00ff) || (j == 4 && m == 0x0f0f0f0f)
            || (j == 2 && m == 0x33333333) || (j == 1 && m == 0x55555555),
        p < 32,
    ensures
        (((a ^ ((((a >> j) ^ b) & m) << j)) >> p) & 1u32 == 1u32) == if p & j != 0 {
            (b >> (p ^ j)) & 1u32 == 1u32
        } else {
            (a >> p) & 1u32 == 1u32
        },
        (((b ^ (((a >> j) ^ b) & m)) >> p) & 1u32 == 1u32) == if p & j == 0 {
            (a >> (p ^ j)) & 1u32 == 1u32
        } else {
            (b >> p) & 1u32 == 1u32
        },
        p ^ j < 32,
{
}

proof fn lemma_next_pair(k: u32, j: u32, r: u32)
    by (bit_vector)
    requires
        j == 16 || j == 8 || j == 4 || j == 2 || j == 1,
        k < 32,
        k & j == 0,
        r < 32,
    ensures
        k + j < 32,
        ((k + j + 1) as u32 & !j) & j == 0,
        k < ((k + j + 1) as u32 & !j) <= 32,
        (r & j == 0 && r > k) ==> r >= ((k + j + 1) as u32 & !j),
        (r & !j) == k <==> (r == k || r == k + j),
        r == k + j ==> r & j != 0,
        r & j == 0 || r & j == j,
        (r & !j) & j == 0,
        r & !j <= r,
        r ^ j < 32,
        (r & j != 0) ==> (r & !j) == r ^ j,
        (r & j == 0) ==> (r & !j) == r,
{
}

proof fn lemma_compose(r: u32, c: u32, j: u32, d: u32)
    by (bit_vector)
    requires
        r < 32,
        c < 32,
        (j == 16 && d == 0) || (j == 8 && d == 16) || (j == 4 && d == 24) || (j == 2 && d == 28) || (
        j == 1 && d == 30),
    ensures
        (r & j) != (c & j) ==> ((((r ^ j) & !d) | ((c ^ j) & d)) == ((r & !(d | j)) | (c & (d
            | j))) && (((c ^ j) & !d) | ((r ^ j) & d)) == ((c & !(d | j)) | (r & (d | j)))),
        (r & j) == (c & j) ==> (((r & !d) | (c & d)) == ((r & !(d | j)) | (c & (d | j))) && ((c
            & !d) | (r & d)) == ((c & !(d | j)) | (r & (d | j)))),
        ((r & !d) | (c & d)) < 32,
        ((c & !d) | (r & d)) < 32,
        r ^ j < 32,
        c ^ j < 32,
{
}

proof fn lemma_round_step(j: u32, m: u32, d: u32)
    by (bit_vector)
    requires
        (j == 16 && m == 0x0000ffff && d == 0) || (j == 8 && m == 0x00ff00ff && d == 16) || (j == 4
            && m == 0x0f0f0f0f && d == 24) || (j == 2 && m == 0x33333333 && d == 28) || (j == 1 && m
            == 0x55555555 && d == 30),
    ensures
        (j >> 1u32) < j,
        ((j >> 1u32) == 8 && (m ^ (m << (j >> 1u32))) == 0x00ff00ff && (d | j) == 16) || ((j >> 1u32)
            == 4 && (m ^ (m << (j >> 1u32))) == 0x0f0f0f0f && (d | j) == 24) || ((j >> 1u32) == 2 && (m
            ^ (m << (j >> 1u32))) == 0x33333333 && (d | j) == 28) || ((j >> 1u32) == 1 && (m ^ (m << (j
            >> 1u32))) == 0x55555555 && (d | j) == 30) || ((j >> 1u32) == 0 && (d | j) == 31),
{
}

proof fn lemma_ends(r: u32, c: u32)
    by (bit_vector)
    requires
        r < 32,
        c < 32,
    ensures
        ((r & !0u32) | (c & 0u32)) == r,
        ((c & !0u32) | (r & 0u32)) == c,
        ((r & !31u32) | (c & 31u32)) == c,
        ((c & !31u32) | (r & 31u32)) == r,
{
}

/// One round: swaps index bit `j` between rows and columns.
fn transpose_round(mat: &mut [u32; 32], j: u32, m: u32)
    requires
        round_params(j, m),
    ensures
        forall|r: u32, c: u32|
            r < 32 && c < 32 ==> #[trigger] elem(*final(mat), r, c) == if (r & j) != (c & j) {
                elem(*old(mat), r ^ j, c ^ j)
            } else {
                elem(*old(mat), r, c)
            },
{
    let ghost start = *mat;
    let mut k: u32 = 0;
    assert(0u32 & j == 0) by (bit_vector);
    while k < 32
        invariant
            round_params(j, m),
            k <= 32,
            k & j == 0,
            forall|r: u32, c: u32|
                r < 32 && c < 32 ==> #[trigger] elem(*mat, r, c) == if (r & !j) < k {
                    if (r & j) != (c & j) {
                        elem(start, r ^ j, c ^ j)
                    } else {
                        elem(start, r, c)
                    }
                } else {
                    elem(start, r, c)
                },
        decreases 32 - k,
    {
        proof {
            lemma_next_pair(k, j, k);
        }
        let kj = (k + j) as usize;
        let ku = k as usize;
        let ghost before = *mat;
        let a = mat[ku];
        let b = mat[kj];
        let t = ((a >> j) ^ b) & m;
        mat[ku] = a ^ (t << j);
        mat[kj] = b ^ t;
        let nk = (k + j + 1) & !j;
        proof {
            assert forall|r: u32, c: u32| r < 32 && c < 32 implies #[trigger] elem(*mat, r, c) == if (r
                & !j) < nk {
                if (r & j) != (c & j) {
                    elem(start, r ^ j, c ^ j)
                } else {
                    elem(start, r, c)
                }
            } else {
                elem(start, r, c)
            } by {
                lemma_next_pair(k, j, r);
                lemma_next_pair(k, j, r & !j);
                lemma_next_pair(k, j, k);
                lemma_next_pair(k, j, (k + j) as u32);
                lemma_round_words(a, b, j, m, c);
                lemma_next_pair(k, j, c);
                if r == k {
                    assert(elem(before, k, c) == elem(start, k, c));
                    assert(elem(before, (k + j) as u32, c ^ j) == elem(start, (k + j) as u32, c ^ j));
                    assert(k ^ j == k + j) by (bit_vector)
                        requires
                            k & j == 0,
                            j == 16 || j == 8 || j == 4 || j == 2 || j == 1,
                            k < 32,
                    ;
                } else if r == k + j {
                    assert(elem(before, k, c ^ j) == elem(start, k, c ^ j));
                    assert(elem(before, r, c) == elem(start, r, c));
                    assert(r ^ j == k) by (bit_vector)
                        requires
                            r == k + j,
                            k & j == 0,
                            j == 16 || j == 8 || j == 4 || j == 2 || j == 1,
                            k < 32,
                    ;
                } else {
                    assert(mat[r as int] == before[r as int]);
                    assert(elem(*mat, r, c) == elem(before, r, c));

                }
            }
        }
        k = nk;
    }
    assert forall|r: u32| r < 32 implies (r & !j) < k by {
        lemma_next_pair(0, j, r);
    }
}

/// Transposes the bit matrix: afterwards bit `z` of row `x` is what bit `x`
/// of row `z` was.
pub fn transpose(mat: &mut [u32; 32])
    ensures
        forall|x: int, z: int|
            0 <= x < 32 && 0 <= z < 32 ==> #[trigger] bit(final(mat)[x], z) == bit(old(mat)[z], x),
{
    let ghost start = *mat;
    let ghost mut d: u32 = 0;
    let mut j: u32 = 16;
    let mut m: u32 = 0x0000ffff;
    proof {
        assert forall|r: u32, c: u32| r < 32 && c < 32 implies #[trigger] elem(*mat, r, c) == elem(
            start,
            src_row(r, c, d),
            src_col(r, c, d),
        ) by {
            lemma_ends(r, c);
        }
    }
    while j != 0
        invariant
            rounds_done(j, d),
            j != 0 ==> round_params(j, m),
            forall|r: u32, c: u32|
                r < 32 && c < 32 ==> #[trigger] elem(*mat, r, c) == elem(
                    start,
                    src_row(r, c, d),
                    src_col(r, c, d),
                ),
        decreases j,
    {
        let ghost before = *mat;
        transpose_round(mat, j, m);
        proof {
            assert forall|r: u32, c: u32| r < 32 && c < 32 implies #[trigger] elem(*mat, r, c)
                == elem(start, src_row(r, c, d | j), src_col(r, c, d | j)) by {
                lemma_compose(r, c, j, d);
                if (r & j) != (c & j) {
                    assert(elem(before, r ^ j, c ^ j) == elem(
                        start,
                        src_row(r ^ j, c ^ j, d),
                        src_col(r ^ j, c ^ j, d),
                    ));
                } else {
                    assert(elem(before, r, c) == elem(start, src_row(r, c, d), src_col(r, c, d)));
                }
            }
            lemma_round_step(j, m, d);
            d = d | j;
        }
        j = j >> 1u32;
        m = m ^ (m << j);
    }
    proof {
        assert forall|x: int, z: int| 0 <= x < 32 && 0 <= z < 32 implies #[trigger] bit(mat[x], z)
            == bit(start[z], x) by {
            let r = x as u32;
            let c = z as u32;
            lemma_ends(r, c);
            assert(elem(*mat, r, c) == elem(start, src_row(r, c, d), src_col(r, c, d)));
        }
    }
}

} // verus!
