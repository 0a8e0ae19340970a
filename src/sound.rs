//! The deduction rules never contradict a complete line that the hints describe.
use vstd::prelude::*;

use crate::board::{blank, grid_col, grid_determined, grid_shape, hints_of, Cell, Rule};
use crate::line::{
    counts, is_regions, lemma_refines_trans, lemma_regions_sorted, lemma_run_back, lemma_run_fwd, refines, run_back,
    run_fwd, span_back, span_fwd,
};
use crate::solver::{
    boxes_spec, complete_spec, count_on, cross_spec, ends_spec, fill_back, fill_front, grid_refines, iterate,
    lemma_count_on_refines, lemma_count_on_regions, lemma_derived_hints_fit, lemma_line_pass_refines,
    lemma_pass_refines, lemma_passes_monotone, lemma_saturation_sound, lemma_span_take, lemma_trim, left_start,
    line_of, line_pass, min_of, overlaps, pass_spec, right_end, rule_fits, rules_fit, scan_back, scan_front, span,
    sum_of, trim_spec, with_line,
};

verus! {

/// `w` is a complete line whose runs of painted cells, listed in `r`, have the lengths `h`.
pub open spec fn blocks_of(w: Seq<Cell>, r: Seq<(usize, usize)>, h: Seq<usize>) -> bool {
    &&& forall|x: int| 0 <= x < w.len() ==> w[x] != Cell::Undetermined
    &&& is_regions(w, false, 0, w.len() - 1, r)
    &&& h == r.map_values(|p: (usize, usize)| p.1)
}

/// A painted cell of `w` lies in the run of `r` at index `m`, for some `m`.
proof fn lemma_block_at(w: Seq<Cell>, r: Seq<(usize, usize)>, h: Seq<usize>, x: int) -> (m: int)
    requires
        blocks_of(w, r, h),
        0 <= x < w.len(),
        w[x] == Cell::On,
    ensures
        0 <= m < r.len(),
        r[m].0 <= x < r[m].0 + r[m].1,
{
    assert(counts(w[x], false));
    choose|m: int| 0 <= m < r.len() && #[trigger] r[m].0 <= x < r[m].0 + r[m].1
}

/// Runs listed earlier end before later ones start.
proof fn lemma_ends_before(w: Seq<Cell>, r: Seq<(usize, usize)>, h: Seq<usize>, a: int, b: int)
    requires
        blocks_of(w, r, h),
        0 <= a < b < r.len(),
    ensures
        r[a].0 + r[a].1 < r[b].0,
{
    assert(r[b - 1].0 + r[b - 1].1 < r[b].0);
    if a < b - 1 {
        lemma_regions_sorted(w, false, 0, w.len() - 1, r, a, b - 1);
        assert(r[a].0 + r[a].1 < r[a + 1].0);
        if a + 1 < b - 1 {
            lemma_regions_sorted(w, false, 0, w.len() - 1, r, a + 1, b - 1);
        }
    }
}

/// The forward scan agrees with `w`; the blocks it consumed end before the new start and
/// the next block starts at or after it.
pub proof fn lemma_scan_front_sound(s: Seq<Cell>, h: Seq<usize>, w: Seq<Cell>, r: Seq<(usize, usize)>, i: int, k: int)
    requires
        blocks_of(w, r, h),
        refines(s, w),
        0 <= i,
        0 <= k <= h.len(),
        k < r.len() ==> r[k].0 >= i,
        k > 0 ==> r[k - 1].0 + r[k - 1].1 <= i,
    ensures
        refines(scan_front(s, h, i, k, i).0, w),
        ({
            let f = scan_front(s, h, i, k, i);
            &&& k <= f.2 <= h.len()
            &&& f.2 < h.len() ==> r[f.2].0 >= f.1
            &&& f.2 < h.len() && f.2 > 0 ==> r[f.2 - 1].0 + r[f.2 - 1].1 <= f.1
        }),
    decreases s.len() - i,
{
    if i < s.len() && k < h.len() {
        if s[i] == Cell::Off {
            assert(w[i] == Cell::Off);
            if k < r.len() && r[k].0 == i {
                assert(counts(w[r[k].0 as int], false));
            }
            lemma_scan_front_sound(s, h, w, r, i + 1, k);
        } else if s[i] == Cell::On && run_fwd(s, i) == h[k] {
            lemma_run_fwd(s, i);
            let m = lemma_block_at(w, r, h, i);
            if m < k {
                if m < k - 1 {
                    lemma_ends_before(w, r, h, m, k - 1);
                }
            } else if m > k {
                lemma_regions_sorted(w, false, 0, w.len() - 1, r, k, m);
            }
            assert(m == k);
            assert(r[k].0 == i);
            let j = i + run_fwd(s, i);
            assert(j == r[k].0 + r[k].1);
            if k + 1 < h.len() {
                lemma_ends_before(w, r, h, k, k + 1);
                if j < s.len() {
                    assert(!counts(w[j], false));
                    let s2 = s.update(j, Cell::Off);
                    assert(refines(s2, w));
                    lemma_scan_front_sound(s2, h, w, r, j + 1, k + 1);
                }
            }
        }
    }
}

/// The backward scan agrees with `w`; the last block left ends at or before the new end
/// and the blocks it consumed start after it.
pub proof fn lemma_scan_back_sound(
    s: Seq<Cell>,
    h: Seq<usize>,
    w: Seq<Cell>,
    r: Seq<(usize, usize)>,
    i: int,
    lo: int,
    hi: int,
)
    requires
        blocks_of(w, r, h),
        refines(s, w),
        -2 <= i < s.len(),
        0 <= lo <= hi <= h.len(),
        hi < r.len() ==> r[hi].0 > i,
        hi > 0 ==> r[hi - 1].0 + r[hi - 1].1 - 1 <= i,
    ensures
        refines(scan_back(s, h, i, lo, hi, i).0, w),
        ({
            let b = scan_back(s, h, i, lo, hi, i);
            &&& lo <= b.2 <= hi
            &&& lo < b.2 < r.len() ==> r[b.2].0 > b.1
            &&& b.2 > 0 ==> r[b.2 - 1].0 + r[b.2 - 1].1 - 1 <= b.1
        }),
    decreases i + 2,
{
    if i >= 0 && hi > lo {
        if s[i] == Cell::Off {
            assert(w[i] == Cell::Off);
            if r[hi - 1].0 + r[hi - 1].1 - 1 == i {
                assert(counts(w[i], false));
            }
            lemma_scan_back_sound(s, h, w, r, i - 1, lo, hi);
        } else if s[i] == Cell::On && run_back(s, i) == h[hi - 1] {
            lemma_run_back(s, i);
            let m = lemma_block_at(w, r, h, i);
            if m > hi - 1 {
                if m > hi {
                    lemma_regions_sorted(w, false, 0, w.len() - 1, r, hi, m);
                }
            } else if m < hi - 1 {
                lemma_ends_before(w, r, h, m, hi - 1);
            }
            assert(m == hi - 1);
            let j = i - run_back(s, i);
            assert(j + 1 == r[hi - 1].0);
            if hi - 1 > 0 {
                lemma_ends_before(w, r, h, hi - 2, hi - 1);
            }
            if j >= 0 {
                assert(!counts(w[j], false));
                let s2 = s.update(j, Cell::Off);
                assert(refines(s2, w));
                lemma_scan_back_sound(s2, h, w, r, j - 1, lo, hi - 1);
            }
        }
    }
}

/// Trimming agrees with `w`, and the blocks left lie in the active interval.
pub proof fn lemma_trim_sound(h: Seq<usize>, s: Seq<Cell>, w: Seq<Cell>, r: Seq<(usize, usize)>)
    requires
        blocks_of(w, r, h),
        refines(s, w),
    ensures
        refines(trim_spec(h, s).0, w),
        0 <= trim_spec(h, s).1 <= s.len(),
        -1 <= trim_spec(h, s).2 < s.len(),
        ({
            let f = scan_front(s, h, 0, 0, 0);
            let b = scan_back(f.0, h, s.len() - 1, f.2, h.len() as int, s.len() - 1);
            let t = trim_spec(h, s);
            &&& t.3.len() > 0 ==> b.2 > f.2
            &&& b.2 > f.2 ==> {
                &&& 0 <= f.2 < b.2 <= h.len()
                &&& t.3 == h.subrange(f.2, b.2)
                &&& r[f.2].0 >= t.1
                &&& r[b.2 - 1].0 + r[b.2 - 1].1 - 1 <= t.2
                &&& f.2 > 0 ==> r[f.2 - 1].0 + r[f.2 - 1].1 <= t.1
                &&& b.2 < r.len() ==> r[b.2].0 > t.2
            }
        }),
{
    reveal(trim_spec);
    assert(h.len() == r.len());
    assert(is_regions(w, false, 0, w.len() - 1, r));
    lemma_derived_hints_fit(w, h);
    lemma_trim(h, s);
    lemma_scan_front_sound(s, h, w, r, 0, 0);
    let f = scan_front(s, h, 0, 0, 0);
    if h.len() > 0 {
        assert(r[h.len() - 1].0 + r[h.len() - 1].1 <= s.len());
    }
    lemma_scan_back_sound(f.0, h, w, r, s.len() - 1, f.2, h.len() as int);
}

/// Packed to the left from `start`, block `k` of the hints left starts no later than it
/// does in `w`.
proof fn lemma_left_packing(
    w: Seq<Cell>,
    r: Seq<(usize, usize)>,
    h: Seq<usize>,
    lo: int,
    hi: int,
    start: int,
    k: int,
)
    requires
        blocks_of(w, r, h),
        0 <= lo < hi <= h.len(),
        r[lo].0 >= start,
        0 <= k < hi - lo,
    ensures
        left_start(h.subrange(lo, hi), start, k) <= r[lo + k].0,
    decreases k,
{
    let g = h.subrange(lo, hi);
    if k == 0 {
        assert(g.take(0) =~= Seq::<usize>::empty());
    } else {
        lemma_left_packing(w, r, h, lo, hi, start, k - 1);
        lemma_span_take(g, k - 1);
        lemma_ends_before(w, r, h, lo + k - 1, lo + k);
    }
}

/// Packed to the right against `end`, block `k` of the hints left ends no earlier than it
/// does in `w`.
proof fn lemma_right_packing(
    w: Seq<Cell>,
    r: Seq<(usize, usize)>,
    h: Seq<usize>,
    lo: int,
    hi: int,
    end: int,
    k: int,
)
    requires
        blocks_of(w, r, h),
        0 <= lo < hi <= h.len(),
        r[hi - 1].0 + r[hi - 1].1 - 1 <= end,
        0 <= k < hi - lo,
    ensures
        right_end(h.subrange(lo, hi), end, k) >= r[lo + k].0 + r[lo + k].1 - 1,
    decreases hi - lo - k,
{
    let g = h.subrange(lo, hi);
    if k == hi - lo - 1 {
        assert(g.skip(k + 1) =~= Seq::<usize>::empty());
    } else {
        lemma_right_packing(w, r, h, lo, hi, end, k + 1);
        lemma_ends_before(w, r, h, lo + k, lo + k + 1);
        assert(g.skip(k + 1).drop_first() =~= g.skip(k + 2));
        assert(span(g.skip(k + 1)) == g[k + 1] + 1 + span(g.skip(k + 2)));
    }
}

/// A cell that block `k` of the hints left covers in both packings is painted in `w`.
proof fn lemma_overlap_painted(h: Seq<usize>, s: Seq<Cell>, w: Seq<Cell>, r: Seq<(usize, usize)>, k: int, x: int)
    requires
        blocks_of(w, r, h),
        refines(s, w),
        0 <= k < trim_spec(h, s).3.len(),
        overlaps(trim_spec(h, s).3, trim_spec(h, s).1, trim_spec(h, s).2, k, x),
    ensures
        0 <= x < w.len(),
        w[x] == Cell::On,
{
    lemma_trim_sound(h, s, w, r);
    let t = trim_spec(h, s);
    let f = scan_front(s, h, 0, 0, 0);
    let b = scan_back(f.0, h, s.len() - 1, f.2, h.len() as int, s.len() - 1);
    let g = t.3;
    let lo = f.2;
    let hi = b.2;
    lemma_left_packing(w, r, h, lo, hi, t.1, k);
    lemma_right_packing(w, r, h, lo, hi, t.2, k);
    assert(g[k] == h[lo + k]);
    assert(h[lo + k] == r[lo + k].1);
    assert(counts(w[x], false));
}

/// Forced overlap never contradicts a solution: for any complete line `w` that the hints
/// describe and that agrees with the decided cells of `s`, every cell that forced
/// overlap decides agrees with `w`.
pub proof fn lemma_boxes_sound(h: Seq<usize>, s: Seq<Cell>, w: Seq<Cell>, r: Seq<(usize, usize)>)
    requires
        blocks_of(w, r, h),
        refines(s, w),
    ensures
        refines(boxes_spec(h, s), w),
{
    lemma_trim_sound(h, s, w, r);
    let t = trim_spec(h, s);
    let out = boxes_spec(h, s);
    assert forall|x: int| 0 <= x < s.len() && out[x] != t.0[x] implies out[x] == w[x] by {
        let g = t.3;
        let k = choose|k: int| 0 <= k < g.len() && #[trigger] overlaps(g, t.1, t.2, k, x);
        lemma_overlap_painted(h, s, w, r, k, x);
    }
}

/// The block of `w` that covers a painted cell of the active interval is one of the
/// blocks left after trimming.
proof fn lemma_block_left(h: Seq<usize>, s: Seq<Cell>, w: Seq<Cell>, r: Seq<(usize, usize)>, x: int) -> (m: int)
    requires
        blocks_of(w, r, h),
        refines(s, w),
        trim_spec(h, s).3.len() > 0,
        trim_spec(h, s).1 <= x <= trim_spec(h, s).2,
        0 <= x < w.len(),
        w[x] == Cell::On,
    ensures
        ({
            let f = scan_front(s, h, 0, 0, 0);
            let b = scan_back(f.0, h, s.len() - 1, f.2, h.len() as int, s.len() - 1);
            &&& f.2 <= m < b.2
            &&& r[m].0 <= x < r[m].0 + r[m].1
            &&& trim_spec(h, s).1 <= r[m].0
            &&& r[m].0 + r[m].1 - 1 <= trim_spec(h, s).2
        }),
{
    lemma_trim_sound(h, s, w, r);
    let t = trim_spec(h, s);
    let f = scan_front(s, h, 0, 0, 0);
    let b = scan_back(f.0, h, s.len() - 1, f.2, h.len() as int, s.len() - 1);
    let m = lemma_block_at(w, r, h, x);
    if m < f.2 {
        if m < f.2 - 1 {
            lemma_ends_before(w, r, h, m, f.2 - 1);
        }
    }
    if m >= b.2 {
        if m > b.2 {
            lemma_regions_sorted(w, false, 0, w.len() - 1, r, b.2, m);
        }
    }
    if m > f.2 {
        lemma_regions_sorted(w, false, 0, w.len() - 1, r, f.2, m);
    }
    if m < b.2 - 1 {
        lemma_ends_before(w, r, h, m, b.2 - 1);
    }
    m
}

/// Completing the first block agrees with `w`.
proof fn lemma_front_fill_sound(h: Seq<usize>, s: Seq<Cell>, w: Seq<Cell>, r: Seq<(usize, usize)>)
    requires
        blocks_of(w, r, h),
        refines(s, w),
        trim_spec(h, s).3.len() > 0,
        trim_spec(h, s).1 <= trim_spec(h, s).2,
        trim_spec(h, s).0[trim_spec(h, s).1] == Cell::On,
    ensures
        refines(fill_front(trim_spec(h, s).0, trim_spec(h, s).1, trim_spec(h, s).3[0] as int), w),
{
    lemma_trim_sound(h, s, w, r);
    let t = trim_spec(h, s);
    let f = scan_front(s, h, 0, 0, 0);
    let m = lemma_block_left(h, s, w, r, t.1);
    if m > f.2 {
        lemma_regions_sorted(w, false, 0, w.len() - 1, r, f.2, m);
    }
    assert(m == f.2);
    assert(t.3[0] == r[m].1);
    let u = fill_front(t.0, t.1, t.3[0] as int);
    assert forall|x: int| 0 <= x < u.len() && u[x] != t.0[x] implies u[x] == w[x] by {
        if x < r[m].0 + r[m].1 {
            assert(counts(w[x], false));
        } else {
            assert(!counts(w[x], false));
        }
    }
}

/// Completing the last block agrees with `w`, on any line `u` that does.
proof fn lemma_back_fill_sound(h: Seq<usize>, s: Seq<Cell>, w: Seq<Cell>, r: Seq<(usize, usize)>, u: Seq<Cell>)
    requires
        blocks_of(w, r, h),
        refines(s, w),
        refines(u, w),
        trim_spec(h, s).3.len() > 0,
        trim_spec(h, s).1 <= trim_spec(h, s).2,
        trim_spec(h, s).0[trim_spec(h, s).2] == Cell::On,
    ensures
        refines(fill_back(u, trim_spec(h, s).2, trim_spec(h, s).3.last() as int), w),
{
    lemma_trim_sound(h, s, w, r);
    let t = trim_spec(h, s);
    let f = scan_front(s, h, 0, 0, 0);
    let b = scan_back(f.0, h, s.len() - 1, f.2, h.len() as int, s.len() - 1);
    let m = lemma_block_left(h, s, w, r, t.2);
    if m < b.2 - 1 {
        lemma_ends_before(w, r, h, m, b.2 - 1);
    }
    assert(m == b.2 - 1);
    assert(t.3.last() == r[m].1);
    let v = fill_back(u, t.2, t.3.last() as int);
    assert forall|x: int| 0 <= x < v.len() && v[x] != u[x] implies v[x] == w[x] by {
        if x > r[m].0 - 1 {
            assert(counts(w[x], false));
        } else {
            assert(!counts(w[x], false));
        }
    }
}

/// Boundary-block completion never contradicts a solution.
pub proof fn lemma_ends_sound(h: Seq<usize>, s: Seq<Cell>, w: Seq<Cell>, r: Seq<(usize, usize)>)
    requires
        blocks_of(w, r, h),
        refines(s, w),
    ensures
        refines(ends_spec(h, s), w),
{
    lemma_trim_sound(h, s, w, r);
    let t = trim_spec(h, s);
    if !(t.3.len() == 0 || t.1 > t.2) {
        let u = if t.0[t.1] == Cell::On {
            fill_front(t.0, t.1, t.3[0] as int)
        } else {
            t.0
        };
        if t.0[t.1] == Cell::On {
            lemma_front_fill_sound(h, s, w, r);
        }
        if t.0[t.2] == Cell::On {
            lemma_back_fill_sound(h, s, w, r, u);
        }
    }
}

/// A run of counted cells that reaches `e` (exclusive) gives `span_fwd` at least that far.
proof fn lemma_span_fwd_at_least(s: Seq<Cell>, incl: bool, x: int, e: int, hi: int)
    requires
        0 <= x <= e <= hi + 1,
        hi < s.len(),
        forall|y: int| x <= y < e ==> counts(#[trigger] s[y], incl),
    ensures
        span_fwd(s, incl, x, hi) >= e - x,
    decreases e - x,
{
    if x < e {
        lemma_span_fwd_at_least(s, incl, x + 1, e, hi);
    }
}

/// A run of counted cells that goes back to `b` gives `span_back` at least that far.
proof fn lemma_span_back_at_least(s: Seq<Cell>, incl: bool, b: int, x: int, lo: int)
    requires
        0 <= lo <= b <= x + 1,
        x < s.len(),
        forall|y: int| b <= y <= x ==> counts(#[trigger] s[y], incl),
    ensures
        span_back(s, incl, x, lo) >= x + 1 - b,
    decreases x + 1 - b,
{
    if b <= x {
        lemma_span_back_at_least(s, incl, b, x - 1, lo);
    }
}

/// The smallest hint is at most each hint.
proof fn lemma_min_of(g: Seq<usize>, k: int)
    requires
        0 <= k < g.len(),
    ensures
        min_of(g) <= g[k],
    decreases g.len(),
{
    if g.len() > 1 {
        if k < g.len() - 1 {
            lemma_min_of(g.drop_last(), k);
        }
    }
}

/// Impossible-region elimination never contradicts a solution.
pub proof fn lemma_cross_sound(h: Seq<usize>, s: Seq<Cell>, w: Seq<Cell>, r: Seq<(usize, usize)>)
    requires
        blocks_of(w, r, h),
        refines(s, w),
    ensures
        refines(cross_spec(h, s), w),
{
    lemma_trim_sound(h, s, w, r);
    let t = trim_spec(h, s);
    if !(t.3.len() == 0 || t.1 > t.2) {
        let f = scan_front(s, h, 0, 0, 0);
        let out = cross_spec(h, s);
        assert forall|x: int| 0 <= x < out.len() && out[x] != t.0[x] implies out[x] == w[x] by {
            if w[x] == Cell::On {
                let m = lemma_block_left(h, s, w, r, x);
                let st = r[m].0 as int;
                let e = st + r[m].1;
                assert forall|y: int| st <= y < e implies counts(#[trigger] t.0[y], true) by {
                    assert(counts(w[y], false));
                }
                lemma_span_fwd_at_least(t.0, true, x, e, t.2);
                lemma_span_back_at_least(t.0, true, st, x, t.1);
                lemma_min_of(t.3, m - f.2);
                assert(t.3[m - f.2] == h[m]);
            }
        }
    }
}


/// One application of all the deduction rules never contradicts a solution of the line.
pub proof fn lemma_line_pass_sound(h: Seq<usize>, s: Seq<Cell>, w: Seq<Cell>)
    requires
        hints_of(w, h),
        forall|x: int| 0 <= x < w.len() ==> w[x] != Cell::Undetermined,
        refines(s, w),
    ensures
        refines(line_pass(h, s), w),
{
    let r = choose|r: Seq<(usize, usize)>|
        #[trigger] is_regions(w, false, 0, w.len() - 1, r) && h == r.map_values(|p: (usize, usize)| p.1);
    assert(blocks_of(w, r, h));
    lemma_boxes_sound(h, s, w, r);
    let a = boxes_spec(h, s);
    lemma_saturation_sound(h, a, w);
    let b = complete_spec(h, a);
    lemma_ends_sound(h, b, w, r);
    let c = ends_spec(h, b);
    lemma_cross_sound(h, c, w, r);
    let d = cross_spec(h, c);
    if h.len() == 0 {
        assert forall|x: int| 0 <= x < w.len() implies w[x] == Cell::Off by {
            if w[x] == Cell::On {
                lemma_block_at(w, r, h, x);
            }
        }
    }
}

/// Saturation, over a whole pass: when a line already holds as many painted cells as its
/// hints add up to, and some complete line that the hints describe agrees with it, one
/// more pass leaves no undetermined cell in it.
pub proof fn lemma_saturated_line_pass(h: Seq<usize>, s: Seq<Cell>, w: Seq<Cell>)
    requires
        hints_of(w, h),
        forall|x: int| 0 <= x < w.len() ==> w[x] != Cell::Undetermined,
        refines(s, w),
        count_on(s) == sum_of(h),
    ensures
        forall|x: int| 0 <= x < s.len() ==> #[trigger] line_pass(h, s)[x] != Cell::Undetermined,
{
    let r = choose|r: Seq<(usize, usize)>|
        #[trigger] is_regions(w, false, 0, w.len() - 1, r) && h == r.map_values(|p: (usize, usize)| p.1);
    assert(blocks_of(w, r, h));
    lemma_derived_hints_fit(w, h);
    lemma_line_pass_refines(h, s);
    lemma_boxes_sound(h, s, w, r);
    let a = boxes_spec(h, s);
    lemma_count_on_refines(s, a);
    lemma_count_on_refines(a, w);
    lemma_count_on_regions(w, r, h);
    let b = complete_spec(h, a);
    assert forall|x: int| 0 <= x < s.len() implies #[trigger] line_pass(h, s)[x] != Cell::Undetermined by {
        assert(b[x] != Cell::Undetermined);
    }
}

/// `p` is a complete grid of the given shape that satisfies every rule.
pub open spec fn is_picture(p: Seq<Seq<Cell>>, rules: Seq<Rule>, rows: int, cols: int) -> bool {
    &&& grid_shape(p, rows, cols)
    &&& grid_determined(p)
    &&& rules_fit(rules, rows, cols)
    &&& forall|k: int| 0 <= k < rules.len() ==> hints_of(line_of(p, #[trigger] rules[k]), rules[k].hints@)
}

/// A pass over the rules never contradicts a grid that satisfies all of them.
pub proof fn lemma_pass_sound(g: Seq<Seq<Cell>>, p: Seq<Seq<Cell>>, rules: Seq<Rule>, rows: int, cols: int)
    requires
        is_picture(p, rules, rows, cols),
        grid_shape(g, rows, cols),
        grid_refines(g, p),
    ensures
        grid_refines(pass_spec(g, rules), p),
    decreases rules.len(),
{
    if rules.len() > 0 {
        let rest = rules.drop_last();
        assert(is_picture(p, rest, rows, cols)) by {
            assert forall|k: int| 0 <= k < rest.len() implies rule_fits(#[trigger] rest[k], rows, cols) by {
                assert(rest[k] == rules[k]);
            }
            assert forall|k: int| 0 <= k < rest.len() implies hints_of(line_of(p, #[trigger] rest[k]), rest[k].hints@) by {
                assert(rest[k] == rules[k]);
            }
        }
        lemma_pass_sound(g, p, rest, rows, cols);
        lemma_pass_refines(g, rest, rows, cols);
        let q = pass_spec(g, rest);
        let rule = rules.last();
        assert(rule_fits(rules[rules.len() - 1], rows, cols));
        assert(hints_of(line_of(p, rules[rules.len() - 1]), rules[rules.len() - 1].hints@));
        let lq = line_of(q, rule);
        let lp = line_of(p, rule);
        assert(refines(lq, lp)) by {
            if !rule.is_col {
                assert(refines(q[rule.n as int], p[rule.n as int]));
            } else {
                assert forall|i: int| 0 <= i < lq.len() && lq[i] != Cell::Undetermined implies lp[i] == lq[i] by {
                    assert(refines(q[i], p[i]));
                    assert(p[i].len() == cols && q[i].len() == cols);
                }
            }
        }
        assert forall|x: int| 0 <= x < lp.len() implies lp[x] != Cell::Undetermined by {
            if rule.is_col {
                assert(p[x].len() == cols);
            } else {
                assert(p[rule.n as int].len() == cols);
            }
        }
        lemma_line_pass_sound(rule.hints@, lq, lp);
        let l = line_pass(rule.hints@, lq);
        let out = pass_spec(g, rules);
        assert(out == with_line(q, rule, l));
        assert forall|i: int| 0 <= i < p.len() implies refines(#[trigger] out[i], p[i]) by {
            assert(refines(q[i], p[i]));
            assert(p[i].len() == cols && q[i].len() == cols);
            if rule.is_col {
                assert(out[i] == q[i].update(rule.n as int, l[i]));
            }
        }
    }
}

/// Passes from an undetermined grid never contradict a grid that satisfies every rule.
pub proof fn lemma_passes_sound(p: Seq<Seq<Cell>>, rules: Seq<Rule>, rows: int, cols: int, n: nat)
    requires
        is_picture(p, rules, rows, cols),
        cols >= 0,
    ensures
        grid_refines(iterate(blank(rows, cols), rules, n), p),
    decreases n,
{
    let b = blank(rows, cols);
    assert(grid_shape(b, rows, cols));
    if n == 0 {
        assert forall|i: int| 0 <= i < p.len() implies refines(#[trigger] b[i], p[i]) by {
            assert(p[i].len() == cols);
        }
    } else {
        lemma_passes_sound(p, rules, rows, cols, (n - 1) as nat);
        lemma_passes_monotone(b, rules, rows, cols, (n - 1) as nat);
        lemma_pass_sound(iterate(b, rules, (n - 1) as nat), p, rules, rows, cols);
    }
}

/// Round trip: when passes from an undetermined grid decide every cell, the result is the
/// one grid that satisfies the rules; so a complete picture whose derived rules solve
/// fully is reproduced exactly. (A picture that the rules fix but that line propagation
/// cannot decide is left partly undetermined.)
pub proof fn lemma_solved_grid_is_the_picture(p: Seq<Seq<Cell>>, rules: Seq<Rule>, rows: int, cols: int, n: nat)
    requires
        is_picture(p, rules, rows, cols),
        grid_determined(iterate(blank(rows, cols), rules, n)),
        cols >= 0,
    ensures
        iterate(blank(rows, cols), rules, n) == p,
{
    let b = blank(rows, cols);
    assert(grid_shape(b, rows, cols));
    lemma_passes_sound(p, rules, rows, cols, n);
    lemma_passes_monotone(b, rules, rows, cols, n);
    let g = iterate(b, rules, n);
    assert forall|i: int| 0 <= i < p.len() implies #[trigger] g[i] == p[i] by {
        assert(refines(g[i], p[i]));
        assert(g[i].len() == cols && p[i].len() == cols);
        assert forall|j: int| 0 <= j < cols implies g[i][j] == p[i][j] by {
            assert(g[i][j] != Cell::Undetermined);
        }
        assert(g[i] =~= p[i]);
    }
    assert(g =~= p);
}

} // verus!
