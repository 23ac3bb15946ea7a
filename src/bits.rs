//! Bits of 32-bit row words and the maximal runs of set bits in them.
use vstd::prelude::*;

verus! {

/// Bit `i` of `w` is set.
pub open spec fn bit(w: u32, i: int) -> bool {
    0 <= i < 32 && (w >> (i as u32)) & 1u32 == 1u32
}

/// Bit `i` of `w` is set and begins a run of set bits.
pub open spec fn is_start(w: u32, i: int) -> bool {
    bit(w, i) && (i == 0 || !bit(w, i - 1))
}

/// Bit `i` of `w` is set and ends a run of set bits.
pub open spec fn is_end(w: u32, i: int) -> bool {
    bit(w, i) && (i == 31 || !bit(w, i + 1))
}

/// The predicate "bit `i` of `w` is set", over all integers.
pub open spec fn bits_of(w: u32) -> spec_fn(int) -> bool {
    |i: int| bit(w, i)
}

/// The maximal runs `(first, last)` of consecutive indices in `c..32` on
/// which `p` holds, in increasing order; `open` is the first index of a run
/// that is still going on at `c`, or -1 where there is none.
pub open spec fn runs_scan(p: spec_fn(int) -> bool, c: int, open: int) -> Seq<(int, int)>
    decreases 32 - c,
{
    if c >= 32 {
        if open >= 0 {
            seq![(open, 31)]
        } else {
            Seq::empty()
        }
    } else if p(c) {
        runs_scan(p, c + 1, if open >= 0 { open } else { c })
    } else if open >= 0 {
        seq![(open, c - 1)] + runs_scan(p, c + 1, -1)
    } else {
        runs_scan(p, c + 1, -1)
    }
}

/// The maximal runs of consecutive indices in `0..32` on which `p` holds,
/// in increasing order.
pub open spec fn runs(p: spec_fn(int) -> bool) -> Seq<(int, int)> {
    runs_scan(p, 0, -1)
}

/// How many of the runs `rs` contain index `i`.
pub open spec fn run_count(rs: Seq<(int, int)>, i: int) -> nat
    decreases rs.len(),
{
    if rs.len() == 0 {
        0
    } else {
        run_count(rs.drop_last(), i) + if rs.last().0 <= i <= rs.last().1 {
            1nat
        } else {
            0nat
        }
    }
}

pub proof fn lemma_run_count_add(a: Seq<(int, int)>, b: Seq<(int, int)>, i: int)
    ensures
        run_count(a + b, i) == run_count(a, i) + run_count(b, i),
    decreases b.len(),
{
    if b.len() == 0 {
        assert(a + b =~= a);
    } else {
        assert((a + b).drop_last() =~= a + b.drop_last());
        lemma_run_count_add(a, b.drop_last(), i);
    }
}

/// Every index of `0..32` lies in exactly as many runs of the scan as `p`
/// asks (one where it holds, none elsewhere), and every run lies in `0..32`.
proof fn lemma_runs_scan_cover(p: spec_fn(int) -> bool, c: int, open: int)
    requires
        0 <= c <= 32,
        open == -1 || (0 <= open < c && forall|j: int| open <= j < c ==> #[trigger] p(j)),
    ensures
        forall|i: int|
            0 <= i < 32 ==> #[trigger] run_count(runs_scan(p, c, open), i) == scan_count(
                p,
                c,
                open,
                i,
            ),
        forall|k: int|
            0 <= k < runs_scan(p, c, open).len() ==> 0 <= #[trigger] runs_scan(p, c, open)[k].0
                <= runs_scan(p, c, open)[k].1 < 32,
    decreases 32 - c,
{
    let rs = runs_scan(p, c, open);
    if c >= 32 {
        if open >= 0 {
            assert(rs == seq![(open, 31int)]);
            assert(rs.drop_last() =~= Seq::<(int, int)>::empty());
            assert forall|i: int| 0 <= i < 32 implies #[trigger] run_count(rs, i) == scan_count(
                p,
                c,
                open,
                i,
            ) by {
                assert(run_count(rs.drop_last(), i) == 0);
            }
        }
    } else if p(c) {
        let o = if open >= 0 {
            open
        } else {
            c
        };
        assert(rs == runs_scan(p, c + 1, o));
        lemma_runs_scan_cover(p, c + 1, o);
    } else if open >= 0 {
        let rest = runs_scan(p, c + 1, -1);
        let first = seq![(open, c - 1)];
        assert(rs == first + rest);
        lemma_runs_scan_cover(p, c + 1, -1);
        assert forall|i: int| 0 <= i < 32 implies #[trigger] run_count(rs, i) == scan_count(
            p,
            c,
            open,
            i,
        ) by {
            lemma_run_count_add(first, rest, i);
            assert(first.drop_last() =~= Seq::<(int, int)>::empty());
            assert(run_count(first.drop_last(), i) == 0);
            assert(run_count(rest, i) == scan_count(p, c + 1, -1, i));
        }
        assert forall|k: int| 0 <= k < rs.len() implies 0 <= #[trigger] rs[k].0 <= rs[k].1
            < 32 by {
            if k > 0 {
                assert(rs[k] == rest[k - 1]);
            }
        }
    } else {
        assert(rs == runs_scan(p, c + 1, -1));
        lemma_runs_scan_cover(p, c + 1, -1);
    }
}

/// The number of runs of a scan from `c` (with a run open since `open`, or
/// none where `open` is -1) that contain index `i`.
spec fn scan_count(p: spec_fn(int) -> bool, c: int, open: int, i: int) -> nat {
    if c <= i {
        if p(i) {
            1nat
        } else {
            0nat
        }
    } else if open >= 0 && open <= i {
        1nat
    } else {
        0nat
    }
}

/// Each index of `0..32` where `p` holds lies in exactly one run of
/// `runs(p)`, and no other index lies in any.
pub proof fn lemma_runs_cover(p: spec_fn(int) -> bool)
    ensures
        forall|i: int|
            0 <= i < 32 ==> #[trigger] run_count(runs(p), i) == if p(i) {
                1nat
            } else {
                0nat
            },
        forall|k: int| 0 <= k < runs(p).len() ==> 0 <= #[trigger] runs(p)[k].0 <= runs(p)[k].1 < 32,
{
    lemma_runs_scan_cover(p, 0, -1);
}

/// Indices where `p` fails can be skipped at the start of a scan.
pub proof fn lemma_runs_scan_skip(p: spec_fn(int) -> bool, c: int, d: int)
    requires
        0 <= c <= d <= 32,
        forall|i: int| c <= i < d ==> !#[trigger] p(i),
    ensures
        runs_scan(p, c, -1) == runs_scan(p, d, -1),
    decreases d - c,
{
    if c < d {
        lemma_runs_scan_skip(p, c + 1, d);
    }
}

proof fn lemma_runs_scan_open(p: spec_fn(int) -> bool, s: int, c: int, e: int)
    requires
        0 <= s < c <= e + 1,
        e < 32,
        forall|i: int| c <= i <= e ==> #[trigger] p(i),
        e == 31 || !p(e + 1),
    ensures
        runs_scan(p, c, s) == seq![(s, e)] + runs_scan(p, e + 1, -1),
    decreases e + 1 - c,
{
    if c <= e {
        lemma_runs_scan_open(p, s, c + 1, e);
    } else {
        if e < 31 {
            assert(runs_scan(p, e + 1, -1) == runs_scan(p, e + 2, -1));
        }
    }
}

/// A scan that starts on the first index `s` of a run ending at `e` yields
/// that run first.
pub proof fn lemma_runs_scan_run(p: spec_fn(int) -> bool, s: int, e: int)
    requires
        0 <= s <= e < 32,
        forall|i: int| s <= i <= e ==> #[trigger] p(i),
        e == 31 || !p(e + 1),
    ensures
        runs_scan(p, s, -1) == seq![(s, e)] + runs_scan(p, e + 1, -1),
{
    lemma_runs_scan_open(p, s, s + 1, e);
}

pub proof fn lemma_bit_start(w: u32, i: u32)
    requires
        i < 32,
    ensures
        ((w & !(w << 1u32)) >> i) & 1u32 == 1u32 <==> ((w >> i) & 1u32 == 1u32 && (i == 0 || (w
            >> ((i - 1) as u32)) & 1u32 != 1u32)),
{
    assert(i < 32 ==> (((w & !(w << 1u32)) >> i) & 1u32 == 1u32 <==> ((w >> i) & 1u32 == 1u32 && (
    i == 0 || (w >> ((i - 1) as u32)) & 1u32 != 1u32)))) by (bit_vector);
}

pub proof fn lemma_bit_end(w: u32, i: u32)
    requires
        i < 32,
    ensures
        ((w & !(w >> 1u32)) >> i) & 1u32 == 1u32 <==> ((w >> i) & 1u32 == 1u32 && (i == 31 || (w
            >> ((i + 1) as u32)) & 1u32 != 1u32)),
{
    assert(i < 32 ==> (((w & !(w >> 1u32)) >> i) & 1u32 == 1u32 <==> ((w >> i) & 1u32 == 1u32 && (
    i == 31 || (w >> ((i + 1) as u32)) & 1u32 != 1u32)))) by (bit_vector);
}

/// The bits of `w & !(w << 1)` are the starts of the runs of `w`, and those
/// of `w & !(w >> 1)` their ends.
pub proof fn lemma_starts_ends(w: u32)
    ensures
        forall|i: int| #[trigger] bit(w & !(w << 1u32), i) == is_start(w, i),
        forall|i: int| #[trigger] bit(w & !(w >> 1u32), i) == is_end(w, i),
{
    assert forall|i: int| #[trigger] bit(w & !(w << 1u32), i) == is_start(w, i) by {
        if 0 <= i < 32 {
            lemma_bit_start(w, i as u32);
        }
    }
    assert forall|i: int| #[trigger] bit(w & !(w >> 1u32), i) == is_end(w, i) by {
        if 0 <= i < 32 {
            lemma_bit_end(w, i as u32);
        }
    }
}

/// Flipping a set bit clears it and keeps the others.
pub proof fn lemma_clear_bit(w: u32, s: u32)
    requires
        s < 32,
        (w >> s) & 1u32 == 1u32,
    ensures
        forall|i: int| #[trigger] bit(w ^ (1u32 << s), i) == (bit(w, i) && i != s),
{
    assert forall|i: int| #[trigger] bit(w ^ (1u32 << s), i) == (bit(w, i) && i != s) by {
        if 0 <= i < 32 {
            let j = i as u32;
            assert(j < 32 && s < 32 && (w >> s) & 1u32 == 1u32 ==> ((((w ^ (1u32 << s)) >> j) & 1u32 == 1u32) <==> (((w >> j)
                & 1u32 == 1u32) && j != s))) by (bit_vector);
        }
    }
}

/// The word with no set bit is zero.
pub proof fn lemma_zero_no_bits(w: u32)
    ensures
        w == 0 ==> forall|i: int| !#[trigger] bit(w, i),
{
    if w == 0 {
        assert forall|i: int| !#[trigger] bit(w, i) by {
            if 0 <= i < 32 {
                let j = i as u32;
                assert((0u32 >> j) & 1u32 == 0u32) by (bit_vector);
            }
        }
    }
}

/// Where no index of `c..d` starts a run, and `c` does not continue a run
/// from below, no bit of `c..d` is set.
pub proof fn lemma_no_start_no_bits(w: u32, c: int, d: int)
    requires
        0 <= c <= d <= 32,
        c == 0 || !bit(w, c - 1) || is_end(w, c - 1),
        forall|i: int| c <= i < d ==> !#[trigger] is_start(w, i),
    ensures
        forall|i: int| c <= i < d ==> !#[trigger] bit(w, i),
    decreases d - c,
{
    if c < d {
        assert(!is_start(w, c));
        lemma_no_start_no_bits(w, c + 1, d);
    }
}

/// From a set bit `s`, bits stay set up to the first end at or after `s`.
pub proof fn lemma_run_extends(w: u32, s: int, e: int)
    requires
        0 <= s <= e < 32,
        bit(w, s),
        forall|i: int| s <= i < e ==> !#[trigger] is_end(w, i),
    ensures
        forall|i: int| s <= i <= e ==> #[trigger] bit(w, i),
    decreases e - s,
{
    if s < e {
        assert(!is_end(w, s));
        lemma_run_extends(w, s + 1, e);
    }
}

/// The bits of `a & !b` are those of `a` that `b` lacks.
pub proof fn lemma_and_not(a: u32, b: u32)
    ensures
        forall|i: int| #[trigger] bit(a & !b, i) == (bit(a, i) && !bit(b, i)),
{
    assert forall|i: int| #[trigger] bit(a & !b, i) == (bit(a, i) && !bit(b, i)) by {
        if 0 <= i < 32 {
            let j = i as u32;
            assert(j < 32 ==> ((((a & !b) >> j) & 1u32 == 1u32) == ((a >> j) & 1u32 == 1u32 && (b
                >> j) & 1u32 != 1u32))) by (bit_vector);
        }
    }
}

/// A row with its neighbours one step to the left (`row << 1`, with bit 31
/// of the row `l` before it) and one step to the right (`row >> 1`, with
/// bit 0 of the row `r` after it).
pub proof fn lemma_side_rows(row: u32, l: u32, r: u32)
    ensures
        forall|i: int|
            #[trigger] bit(row & !((l >> 31u32) ^ (row << 1u32)), i) == (bit(row, i) && !(if i == 0 {
                bit(l, 31)
            } else {
                bit(row, i - 1)
            })),
        forall|i: int|
            #[trigger] bit(row & !((r << 31u32) ^ (row >> 1u32)), i) == (bit(row, i) && !(if i
                == 31 {
                bit(r, 0)
            } else {
                bit(row, i + 1)
            })),
{
    assert forall|i: int|
        #[trigger] bit(row & !((l >> 31u32) ^ (row << 1u32)), i) == (bit(row, i) && !(if i == 0 {
            bit(l, 31)
        } else {
            bit(row, i - 1)
        })) by {
        if 0 <= i < 32 {
            let j = i as u32;
            assert(j < 32 ==> ((((row & !((l >> 31u32) ^ (row << 1u32))) >> j) & 1u32 == 1u32) == ((
            row >> j) & 1u32 == 1u32 && !(if j == 0 {
                (l >> 31u32) & 1u32 == 1u32
            } else {
                (row >> ((j - 1) as u32)) & 1u32 == 1u32
            })))) by (bit_vector);
        }
    }
    assert forall|i: int|
        #[trigger] bit(row & !((r << 31u32) ^ (row >> 1u32)), i) == (bit(row, i) && !(if i == 31 {
            bit(r, 0)
        } else {
            bit(row, i + 1)
        })) by {
        if 0 <= i < 32 {
            let j = i as u32;
            assert(j < 32 ==> ((((row & !((r << 31u32) ^ (row >> 1u32))) >> j) & 1u32 == 1u32) == ((
            row >> j) & 1u32 == 1u32 && !(if j == 31 {
                (r >> 0u32) & 1u32 == 1u32
            } else {
                (row >> ((j + 1) as u32)) & 1u32 == 1u32
            })))) by (bit_vector);
        }
    }
}

/// Where the union of four words is zero, each of them is.
pub proof fn lemma_or4_zero(a: u32, b: u32, c: u32, d: u32)
    ensures
        (a | b | c | d) == 0 ==> a == 0 && b == 0 && c == 0 && d == 0,
{
    assert((a | b | c | d) == 0 ==> a == 0 && b == 0 && c == 0 && d == 0) by (bit_vector);
}

/// A predicate that fails on all of `0..32` has no runs.
pub proof fn lemma_runs_none(p: spec_fn(int) -> bool)
    requires
        forall|i: int| 0 <= i < 32 ==> !#[trigger] p(i),
    ensures
        runs(p) == Seq::<(int, int)>::empty(),
{
    lemma_runs_scan_skip(p, 0, 32);
}

} // verus!
