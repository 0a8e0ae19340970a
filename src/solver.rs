//! Line propagation: the trimming pass, the deduction rules and the fixpoint driver.
use vstd::prelude::*;

use crate::board::{blank, grid_col, grid_determined, grid_shape, hints_of, Board, Cell, Rule};
use crate::line::{
    count_undetermined, counts, is_regions, lemma_refines_count, lemma_refines_trans, lemma_regions_sorted,
    lemma_run_back, lemma_run_fwd, lemma_span_back, lemma_span_fwd, refines, run_back, run_fwd, span_back,
    span_fwd,
};

verus! {

/// Room that a hint sequence takes with one gap after every block: sum of `h[j] + 1`.
pub open spec fn span(h: Seq<usize>) -> nat
    decreases h.len(),
{
    if h.len() == 0 {
        0
    } else {
        (h[0] + 1 + span(h.drop_first())) as nat
    }
}

/// The blocks of `h` with their separating gaps fit in a line of `len` cells.
pub open spec fn fits(h: Seq<usize>, len: int) -> bool {
    span(h) <= len + 1
}

/// `span` adds up over concatenation.
pub proof fn lemma_span_concat(a: Seq<usize>, b: Seq<usize>)
    ensures
        span(a + b) == span(a) + span(b),
    decreases a.len(),
{
    if a.len() > 0 {
        lemma_span_concat(a.drop_first(), b);
        assert((a + b).drop_first() =~= a.drop_first() + b);
    } else {
        assert(a + b =~= b);
    }
}

/// The span of a contiguous part of `h` is at most the span of `h`.
pub proof fn lemma_span_subrange(h: Seq<usize>, lo: int, hi: int)
    requires
        0 <= lo <= hi <= h.len(),
    ensures
        span(h.subrange(lo, hi)) <= span(h),
{
    lemma_span_concat(h.take(lo), h.subrange(lo, hi));
    lemma_span_concat(h.take(lo) + h.subrange(lo, hi), h.subrange(hi, h.len() as int));
    assert(h.take(lo) + h.subrange(lo, hi) + h.subrange(hi, h.len() as int) =~= h);
}

/// The forward half of the trimming pass, from cell `i` with `k` hints consumed and the
/// active interval starting at `start`: returns the line, the new start and the new `k`.
pub open spec fn scan_front(s: Seq<Cell>, h: Seq<usize>, i: int, k: int, start: int) -> (Seq<Cell>, int, int)
    decreases s.len() - i,
{
    if i < 0 || i >= s.len() || k < 0 || k >= h.len() {
        (s, start, k)
    } else if s[i] == Cell::Off {
        scan_front(s, h, i + 1, k, i + 1)
    } else if s[i] == Cell::On && run_fwd(s, i) == h[k] {
        let j = i + run_fwd(s, i);
        if k + 1 == h.len() {
            (s, start, k + 1)
        } else if j < s.len() {
            scan_front(s.update(j, Cell::Off), h, j + 1, k + 1, j + 1)
        } else {
            (s, s.len() as int, k + 1)
        }
    } else {
        (s, start, k)
    }
}

/// The backward half of the trimming pass, from cell `i` with the hints `h[lo..hi]`
/// left and the active interval ending at `end`: returns the line, the new end and the new `hi`.
pub open spec fn scan_back(s: Seq<Cell>, h: Seq<usize>, i: int, lo: int, hi: int, end: int) -> (Seq<Cell>, int, int)
    decreases i + 1,
{
    if i < 0 || i >= s.len() || hi <= lo || hi > h.len() {
        (s, end, hi)
    } else if s[i] == Cell::Off {
        scan_back(s, h, i - 1, lo, hi, i - 1)
    } else if s[i] == Cell::On && run_back(s, i) == h[hi - 1] {
        let j = i - run_back(s, i);
        if j >= 0 {
            scan_back(s.update(j, Cell::Off), h, j - 1, lo, hi - 1, j - 1)
        } else {
            (s, end, hi - 1)
        }
    } else {
        (s, end, hi)
    }
}

/// The trimming pass on line `s` with hints `h`: the line with the separators it wrote,
/// the active interval `[start, end]`, and the hints left for it.
#[verifier::opaque]
pub open spec fn trim_spec(h: Seq<usize>, s: Seq<Cell>) -> (Seq<Cell>, int, int, Seq<usize>) {
    let f = scan_front(s, h, 0, 0, 0);
    let b = scan_back(f.0, h, s.len() - 1, f.2, h.len() as int, s.len() - 1);
    if b.2 <= f.2 {
        (b.0, s.len() as int, -1, Seq::empty())
    } else {
        (b.0, f.1, b.1, h.subrange(f.2, b.2))
    }
}

/// `span` of the first `k + 1` hints, from that of the first `k`.
pub proof fn lemma_span_take(g: Seq<usize>, k: int)
    requires
        0 <= k < g.len(),
    ensures
        span(g.take(k + 1)) == span(g.take(k)) + g[k] + 1,
        span(g) == span(g.take(k + 1)) + span(g.skip(k + 1)),
{
    let one = seq![g[k]];
    assert(one.drop_first() =~= Seq::<usize>::empty());
    assert(span(one.drop_first()) == 0);
    assert(span(one) == g[k] + 1);
    lemma_span_concat(g.take(k), one);
    assert(g.take(k + 1) =~= g.take(k) + one);
    lemma_span_concat(g.take(k + 1), g.skip(k + 1));
    assert(g.take(k + 1) + g.skip(k + 1) =~= g);
}

/// First cell of block `k` when the hints `g` are packed as far left as `start` allows.
pub open spec fn left_start(g: Seq<usize>, start: int, k: int) -> int {
    start + span(g.take(k))
}

/// Last cell of block `k` when the hints `g` are packed as far right as `end` allows.
pub open spec fn right_end(g: Seq<usize>, end: int, k: int) -> int {
    end - span(g.skip(k + 1))
}

/// Block `k` covers cell `x` in both packings.
pub open spec fn overlaps(g: Seq<usize>, start: int, end: int, k: int, x: int) -> bool {
    &&& left_start(g, start, k) <= x <= left_start(g, start, k) + g[k] - 1
    &&& right_end(g, end, k) - g[k] + 1 <= x <= right_end(g, end, k)
}

/// One of the first `n` blocks covers `x` in both packings.
pub open spec fn forced_by(g: Seq<usize>, start: int, end: int, n: int, x: int) -> bool {
    exists|k: int| 0 <= k < n && #[trigger] overlaps(g, start, end, k, x)
}

/// Forced overlap on line `s`: after trimming, each undetermined cell that some block
/// covers both when the hints left are packed to the left and when packed to the right is painted.
pub open spec fn boxes_spec(h: Seq<usize>, s: Seq<Cell>) -> Seq<Cell> {
    let t = trim_spec(h, s);
    overlap_cells(t.0, t.3, t.1, t.2)
}

/// Line `t` with each undetermined cell of `[start, end]` painted where a block of `g`
/// covers it in both packings.
pub open spec fn overlap_cells(t: Seq<Cell>, g: Seq<usize>, start: int, end: int) -> Seq<Cell> {
    Seq::new(
        t.len(),
        |x: int|
            if t[x] == Cell::Undetermined && forced_by(g, start, end, g.len() as int, x) {
                Cell::On
            } else {
                t[x]
            },
    )
}

/// The forward scan only decides undetermined cells and keeps its results in range.
pub proof fn lemma_scan_front(s: Seq<Cell>, h: Seq<usize>, i: int, k: int, start: int)
    requires
        0 <= i,
        0 <= start <= s.len(),
        0 <= k <= h.len(),
    ensures
        refines(s, scan_front(s, h, i, k, start).0),
        0 <= scan_front(s, h, i, k, start).1 <= s.len(),
        k <= scan_front(s, h, i, k, start).2 <= h.len(),
    decreases s.len() - i,
{
    if i < s.len() && k < h.len() {
        if s[i] == Cell::Off {
            lemma_scan_front(s, h, i + 1, k, i + 1);
        } else if s[i] == Cell::On && run_fwd(s, i) == h[k] {
            lemma_run_fwd(s, i);
            let j = i + run_fwd(s, i);
            if k + 1 < h.len() && j < s.len() {
                lemma_scan_front(s.update(j, Cell::Off), h, j + 1, k + 1, j + 1);
                lemma_refines_trans(s, s.update(j, Cell::Off), scan_front(s, h, i, k, start).0);
            }
        }
    }
}

/// The backward scan only decides undetermined cells and keeps its results in range.
pub proof fn lemma_scan_back(s: Seq<Cell>, h: Seq<usize>, i: int, lo: int, hi: int, end: int)
    requires
        -2 <= i < s.len(),
        -1 <= end < s.len(),
        0 <= lo <= hi <= h.len(),
    ensures
        refines(s, scan_back(s, h, i, lo, hi, end).0),
        -1 <= scan_back(s, h, i, lo, hi, end).1 < s.len(),
        lo <= scan_back(s, h, i, lo, hi, end).2 <= hi,
    decreases i + 2,
{
    if i >= 0 && hi > lo {
        if s[i] == Cell::Off {
            lemma_scan_back(s, h, i - 1, lo, hi, i - 1);
        } else if s[i] == Cell::On && run_back(s, i) == h[hi - 1] {
            lemma_run_back(s, i);
            let j = i - run_back(s, i);
            if j >= 0 {
                lemma_scan_back(s.update(j, Cell::Off), h, j - 1, lo, hi - 1, j - 1);
                lemma_refines_trans(s, s.update(j, Cell::Off), scan_back(s, h, i, lo, hi, end).0);
            }
        }
    }
}

/// Trimming only decides undetermined cells, and its interval and hints stay in range.
pub proof fn lemma_trim(h: Seq<usize>, s: Seq<Cell>)
    requires
        fits(h, s.len() as int),
    ensures
        refines(s, trim_spec(h, s).0),
        0 <= trim_spec(h, s).1 <= s.len(),
        -1 <= trim_spec(h, s).2 < s.len(),
        span(trim_spec(h, s).3) <= span(h),
{
    reveal(trim_spec);
    lemma_scan_front(s, h, 0, 0, 0);
    let f = scan_front(s, h, 0, 0, 0);
    lemma_scan_back(f.0, h, s.len() - 1, f.2, h.len() as int, s.len() - 1);
    let b = scan_back(f.0, h, s.len() - 1, f.2, h.len() as int, s.len() - 1);
    lemma_refines_trans(s, f.0, b.0);
    if b.2 > f.2 {
        lemma_span_subrange(h, f.2, b.2);
    } else {
        assert(span(Seq::<usize>::empty()) == 0);
    }
}

/// Consumes the blocks already complete at both ends of the line: returns the active
/// interval that is left (`(len, -1)` once every hint is consumed) and the hints left for it.
/// The cell just past each consumed block is marked empty.
pub fn trim_finished_hints(hints: &Vec<usize>, row: &mut Vec<Cell>) -> (r: ((i32, i32), Vec<usize>))
    requires
        old(row)@.len() < i32::MAX,
    ensures
        final(row)@ == trim_spec(hints@, old(row)@).0,
        r.0.0 == trim_spec(hints@, old(row)@).1,
        r.0.1 == trim_spec(hints@, old(row)@).2,
        r.1@ == trim_spec(hints@, old(row)@).3,
        refines(old(row)@, final(row)@),
        0 <= r.0.0 <= old(row)@.len(),
        -1 <= r.0.1 < old(row)@.len(),
        span(r.1@) <= span(hints@),
{
    reveal(trim_spec);
    let ghost s0 = row@;
    let len = row.len();
    let mut start: usize = 0;
    let mut k: usize = 0;
    let mut i: usize = 0;
    while i < len && k < hints.len()
        invariant_except_break
            scan_front(row@, hints@, i as int, k as int, start as int) == scan_front(s0, hints@, 0, 0, 0),
        invariant
            len == row@.len(),
            len < i32::MAX,
            start <= len,
            k <= hints@.len(),
            i <= len + 1,
            refines(s0, row@),
        ensures
            scan_front(s0, hints@, 0, 0, 0) == (row@, start as int, k as int),
        decreases len + 1 - i,
    {
        if row[i] == Cell::Off {
            start = i + 1;
            i += 1;
        } else if row[i] == Cell::On {
            let block_length = Board::count_block_length(row, i, false);
            proof {
                lemma_run_fwd(row@, i as int);
            }
            if block_length == hints[k] {
                if k + 1 == hints.len() {
                    k += 1;
                    break;
                }
                let j = i + block_length;
                k += 1;
                if j < len {
                    row.set(j, Cell::Off);
                    start = j + 1;
                    i = j + 1;
                } else {
                    start = len;
                    i = len + 1;
                }
            } else {
                break;
            }
        } else {
            break;
        }
    }
    let ghost s1 = row@;
    let lo = k;
    let mut hi: usize = hints.len();
    let mut end: i64 = len as i64 - 1;
    let mut i: i64 = len as i64 - 1;
    while i >= 0 && hi > lo
        invariant
            len == row@.len(),
            len < i32::MAX,
            lo <= hi <= hints@.len(),
            -1 <= end < len,
            -2 <= i < len,
            refines(s0, row@),
            scan_back(row@, hints@, i as int, lo as int, hi as int, end as int)
                == scan_back(s1, hints@, len - 1, lo as int, hints@.len() as int, len - 1),
        ensures
            scan_back(s1, hints@, len - 1, lo as int, hints@.len() as int, len - 1)
                == (row@, end as int, hi as int),
        decreases i + 2,
    {
        let iu = i as usize;
        if row[iu] == Cell::Off {
            end = i - 1;
            i -= 1;
        } else if row[iu] == Cell::On {
            let block_length = Board::count_block_length(row, iu, true);
            proof {
                lemma_run_back(row@, i as int);
            }
            if block_length == hints[hi - 1] {
                hi -= 1;
                let j = i - block_length as i64;
                if j >= 0 {
                    row.set(j as usize, Cell::Off);
                    end = j - 1;
                }
                i = j - 1;
            } else {
                break;
            }
        } else {
            break;
        }
    }
    let mut rest: Vec<usize> = Vec::new();
    if hi <= lo {
        return ((len as i32, -1), rest);
    }
    let mut x: usize = lo;
    while x < hi
        invariant
            lo <= x <= hi <= hints@.len(),
            rest@ == hints@.subrange(lo as int, x as int),
        decreases hi - x,
    {
        rest.push(hints[x]);
        x += 1;
    }
    proof {
        lemma_span_subrange(hints@, lo as int, hi as int);
    }
    ((start as i32, end as i32), rest)
}

/// Paints the cells that the blocks left after trimming must cover wherever they are placed.
pub fn simple_boxes(hints: &Vec<usize>, row: &mut Vec<Cell>)
    requires
        old(row)@.len() < i32::MAX,
        fits(hints@, old(row)@.len() as int),
    ensures
        final(row)@ == boxes_spec(hints@, old(row)@),
        refines(old(row)@, final(row)@),
{
    let ((start, end), rest) = trim_finished_hints(hints, row);
    mark_overlaps(&rest, start, end, row);
}

/// Paints the undetermined cells that a block of `rest` covers both when the blocks are
/// packed to the left from `start` and when packed to the right against `end`.
fn mark_overlaps(rest: &Vec<usize>, start: i32, end: i32, row: &mut Vec<Cell>)
    requires
        old(row)@.len() < i32::MAX,
        0 <= start <= old(row)@.len(),
        -1 <= end < old(row)@.len(),
        span(rest@) <= old(row)@.len() + 1,
    ensures
        final(row)@ == overlap_cells(old(row)@, rest@, start as int, end as int),
        refines(old(row)@, final(row)@),
{
    let ghost t = row@;
    let ghost g = rest@;
    let len = row.len();
    let mut total: i64 = 0;
    let mut k: usize = 0;
    while k < rest.len()
        invariant
            g == rest@,
            span(g) <= len + 1,
            len < i32::MAX,
            k <= g.len(),
            total == span(g.take(k as int)),
        decreases g.len() - k,
    {
        proof {
            lemma_span_take(g, k as int);
            lemma_span_subrange(g, 0, k as int + 1);
            assert(g.subrange(0, k as int + 1) =~= g.take(k as int + 1));
        }
        total = total + rest[k] as i64 + 1;
        k += 1;
    }
    assert(g.take(g.len() as int) =~= g);
    let mut before: i64 = 0;
    let mut k: usize = 0;
    while k < rest.len()
        invariant
            g == rest@,
            total == span(g),
            span(g) <= len + 1,
            len == row@.len(),
            len < i32::MAX,
            0 <= start <= len,
            -1 <= end < len,
            k <= g.len(),
            before == span(g.take(k as int)),
            refines(t, row@),
            forall|x: int| 0 <= x < len ==> #[trigger] row@[x] == (
                if t[x] == Cell::Undetermined && forced_by(g, start as int, end as int, k as int, x) {
                    Cell::On
                } else {
                    t[x]
                }),
        decreases g.len() - k,
    {
        proof {
            lemma_span_take(g, k as int);
            lemma_span_subrange(g, 0, k as int + 1);
            assert(g.subrange(0, k as int + 1) =~= g.take(k as int + 1));
        }
        let h = rest[k] as i64;
        let left = start as i64 + before;
        let right = end as i64 - (total - (before + h + 1));
        let lo = if left > right - h + 1 { left } else { right - h + 1 };
        let hi = if left + h - 1 < right { left + h - 1 } else { right };
        let mut y: i64 = lo;
        while y <= hi
            invariant
                g == rest@,
                len == row@.len(),
                len < i32::MAX,
                k < g.len(),
                0 <= start as int <= left,
                lo <= y <= hi + 1 || y == lo,
                lo >= left,
                hi <= right <= end,
                left == left_start(g, start as int, k as int),
                right == right_end(g, end as int, k as int),
                h == g[k as int],
                lo == (if left > right - h + 1 { left as int } else { right - h + 1 }),
                hi == (if left + h - 1 < right { left + h - 1 } else { right as int }),
                -1 <= end < len,
                refines(t, row@),
                forall|x: int| 0 <= x < len ==> #[trigger] row@[x] == (
                    if t[x] == Cell::Undetermined && (forced_by(g, start as int, end as int, k as int, x) || lo <= x < y) {
                        Cell::On
                    } else {
                        t[x]
                    }),
            decreases hi + 1 - y,
        {
            let yu = y as usize;
            if row[yu] == Cell::Undetermined {
                row.set(yu, Cell::On);
            }
            y += 1;
        }
        proof {
            assert forall|x: int| 0 <= x < len implies #[trigger] row@[x] == (
                if t[x] == Cell::Undetermined && forced_by(g, start as int, end as int, k as int + 1, x) {
                    Cell::On
                } else {
                    t[x]
                }) by {
                if forced_by(g, start as int, end as int, k as int + 1, x) && !forced_by(g, start as int, end as int, k as int, x) {
                    let kk = choose|kk: int| 0 <= kk < k + 1 && #[trigger] overlaps(g, start as int, end as int, kk, x);
                    assert(kk == k);
                }
                if lo <= x <= hi {
                    assert(overlaps(g, start as int, end as int, k as int, x));
                }
                if forced_by(g, start as int, end as int, k as int, x) {
                    let kk = choose|kk: int| 0 <= kk < k && #[trigger] overlaps(g, start as int, end as int, kk, x);
                    assert(overlaps(g, start as int, end as int, kk, x) && 0 <= kk < k + 1);
                }
            }
        }
        before = before + h + 1;
        k += 1;
    }
    assert(row@ =~= overlap_cells(t, g, start as int, end as int));
}


/// Paints the `h` undetermined cells from `a` on and marks the one after them empty.
pub open spec fn fill_front(s: Seq<Cell>, a: int, h: int) -> Seq<Cell> {
    Seq::new(
        s.len(),
        |x: int|
            if s[x] == Cell::Undetermined && a <= x < a + h {
                Cell::On
            } else if s[x] == Cell::Undetermined && x == a + h {
                Cell::Off
            } else {
                s[x]
            },
    )
}

/// Paints the `h` undetermined cells up to `b` and marks the one before them empty.
pub open spec fn fill_back(s: Seq<Cell>, b: int, h: int) -> Seq<Cell> {
    Seq::new(
        s.len(),
        |x: int|
            if s[x] == Cell::Undetermined && b - h < x <= b {
                Cell::On
            } else if s[x] == Cell::Undetermined && x == b - h {
                Cell::Off
            } else {
                s[x]
            },
    )
}

/// Boundary-block completion on line `s`: after trimming, a painted first cell of the
/// active interval starts the first block left, and a painted last cell ends the last one.
pub open spec fn ends_spec(h: Seq<usize>, s: Seq<Cell>) -> Seq<Cell> {
    let t = trim_spec(h, s);
    if t.3.len() == 0 || t.1 > t.2 {
        t.0
    } else {
        let u = if t.0[t.1] == Cell::On {
            fill_front(t.0, t.1, t.3[0] as int)
        } else {
            t.0
        };
        if t.0[t.2] == Cell::On {
            fill_back(u, t.2, t.3.last() as int)
        } else {
            u
        }
    }
}

/// Completes the first and the last block left after trimming where they touch the
/// ends of the active interval.
pub fn fill_first_and_last_block_if_possible(hints: &Vec<usize>, row: &mut Vec<Cell>)
    requires
        old(row)@.len() < i32::MAX,
        fits(hints@, old(row)@.len() as int),
    ensures
        final(row)@ == ends_spec(hints@, old(row)@),
        refines(old(row)@, final(row)@),
{
    let ghost s0 = row@;
    let ((start, end), rest) = trim_finished_hints(hints, row);
    if rest.len() == 0 || start > end {
        return;
    }
    let ghost t = row@;
    let len = row.len();
    let fst = start as usize;
    let lst = end as usize;
    let fst_on = row[fst] == Cell::On;
    let lst_on = row[lst] == Cell::On;
    if fst_on {
        let h = rest[0];
        let mut i: usize = 0;
        while i < h && fst + i < len
            invariant
                len == row@.len(),
                len < i32::MAX,
                fst < len,
                h <= len + 1,
                i <= h,
                forall|x: int| 0 <= x < len ==> #[trigger] row@[x] == (
                    if t[x] == Cell::Undetermined && fst <= x < fst + i { Cell::On } else { t[x] }),
            decreases h - i,
        {
            if row[fst + i] == Cell::Undetermined {
                row.set(fst + i, Cell::On);
            }
            i += 1;
        }
        if fst + h < len && row[fst + h] == Cell::Undetermined {
            row.set(fst + h, Cell::Off);
        }
        assert(row@ =~= fill_front(t, fst as int, h as int));
    }
    let ghost u = row@;
    if lst_on {
        let h = rest[rest.len() - 1];
        let mut i: usize = 0;
        while i < h && i <= lst
            invariant
                len == row@.len(),
                lst < len,
                i <= h,
                forall|x: int| 0 <= x < len ==> #[trigger] row@[x] == (
                    if u[x] == Cell::Undetermined && lst - i < x <= lst { Cell::On } else { u[x] }),
            decreases h - i,
        {
            if row[lst - i] == Cell::Undetermined {
                row.set(lst - i, Cell::On);
            }
            i += 1;
        }
        if lst >= h && row[lst - h] == Cell::Undetermined {
            row.set(lst - h, Cell::Off);
        }
        assert(row@ =~= fill_back(u, lst as int, h as int));
    }
}

/// The smallest of the hints (0 for none).
pub open spec fn min_of(g: Seq<usize>) -> int
    decreases g.len(),
{
    if g.len() == 0 {
        0
    } else if g.len() == 1 {
        g[0] as int
    } else if (g.last() as int) < min_of(g.drop_last()) {
        g.last() as int
    } else {
        min_of(g.drop_last())
    }
}

/// Impossible-region elimination on line `s`: after trimming, an undetermined cell of the
/// active interval whose run of not-empty cells there is shorter than every hint left is empty.
pub open spec fn cross_spec(h: Seq<usize>, s: Seq<Cell>) -> Seq<Cell> {
    let t = trim_spec(h, s);
    if t.3.len() == 0 || t.1 > t.2 {
        t.0
    } else {
        Seq::new(
            s.len(),
            |x: int|
                if t.1 <= x <= t.2 && t.0[x] == Cell::Undetermined && span_back(t.0, true, x, t.1)
                    + span_fwd(t.0, true, x, t.2) - 1 < min_of(t.3) {
                    Cell::Off
                } else {
                    t.0[x]
                },
        )
    }
}

/// Marks empty the undetermined cells of the active interval that lie in a run too short
/// for any of the hints left.
pub fn cross_impossible_region(hints: &Vec<usize>, row: &mut Vec<Cell>)
    requires
        old(row)@.len() < i32::MAX,
    ensures
        final(row)@ == cross_spec(hints@, old(row)@),
        refines(old(row)@, final(row)@),
{
    let ghost s0 = row@;
    let ((start, end), rest) = trim_finished_hints(hints, row);
    if rest.len() == 0 || start > end {
        return;
    }
    let ghost t = row@;
    let ghost g = rest@;
    let len = row.len();
    let lo = start as usize;
    let hi = end as usize;
    let regions = Board::get_consecutive_regions(row, true, Some((lo, hi)));
    let mut smallest: usize = rest[0];
    let mut k: usize = 1;
    while k < rest.len()
        invariant
            g == rest@,
            1 <= k <= g.len(),
            smallest == min_of(g.take(k as int)),
        decreases g.len() - k,
    {
        assert(g.take(k as int + 1).drop_last() =~= g.take(k as int));
        if rest[k] < smallest {
            smallest = rest[k];
        }
        k += 1;
    }
    assert(g.take(g.len() as int) =~= g);
    let mut k: usize = 0;
    while k < regions.len()
        invariant
            len == row@.len(),
            lo <= hi < len,
            is_regions(t, true, lo as int, hi as int, regions@),
            k <= regions@.len(),
            forall|x: int| 0 <= x < len ==> #[trigger] row@[x] == (
                if t[x] == Cell::Undetermined && exists|j: int| 0 <= j < k && #[trigger] regions@[j].0 <= x < regions@[j].0 + regions@[j].1
                    && regions@[j].1 < smallest {
                    Cell::Off
                } else {
                    t[x]
                }),
        decreases regions@.len() - k,
    {
        let (reg_pos, reg_len) = regions[k];
        if reg_len < smallest {
            let mut i: usize = reg_pos;
            while i < reg_pos + reg_len
                invariant
                    len == row@.len(),
                    reg_pos + reg_len <= hi + 1,
                    hi < len,
                    reg_pos <= i <= reg_pos + reg_len,
                    (reg_pos, reg_len) == regions@[k as int],
                    reg_len < smallest,
                    forall|x: int| 0 <= x < len ==> #[trigger] row@[x] == (
                        if t[x] == Cell::Undetermined && ((exists|j: int| 0 <= j < k && #[trigger] regions@[j].0 <= x < regions@[j].0 + regions@[j].1
                            && regions@[j].1 < smallest) || reg_pos <= x < i) {
                            Cell::Off
                        } else {
                            t[x]
                        }),
                decreases reg_pos + reg_len - i,
            {
                if row[i] == Cell::Undetermined {
                    row.set(i, Cell::Off);
                }
                i += 1;
            }
        }
        proof {
            assert forall|x: int| 0 <= x < len implies #[trigger] row@[x] == (
                if t[x] == Cell::Undetermined && exists|j: int| 0 <= j < k + 1 && #[trigger] regions@[j].0 <= x < regions@[j].0 + regions@[j].1
                    && regions@[j].1 < smallest {
                    Cell::Off
                } else {
                    t[x]
                }) by {
                if exists|j: int| 0 <= j < k + 1 && #[trigger] regions@[j].0 <= x < regions@[j].0 + regions@[j].1
                    && regions@[j].1 < smallest {
                    let j = choose|j: int| 0 <= j < k + 1 && #[trigger] regions@[j].0 <= x < regions@[j].0 + regions@[j].1
                        && regions@[j].1 < smallest;
                    if j < k {
                        assert(exists|j: int| 0 <= j < k && #[trigger] regions@[j].0 <= x < regions@[j].0 + regions@[j].1
                            && regions@[j].1 < smallest);
                    }
                }
                if reg_len < smallest && reg_pos <= x < reg_pos + reg_len {
                    assert(regions@[k as int].0 <= x < regions@[k as int].0 + regions@[k as int].1);
                }
                if exists|j: int| 0 <= j < k && #[trigger] regions@[j].0 <= x < regions@[j].0 + regions@[j].1
                    && regions@[j].1 < smallest {
                    let j = choose|j: int| 0 <= j < k && #[trigger] regions@[j].0 <= x < regions@[j].0 + regions@[j].1
                        && regions@[j].1 < smallest;
                    assert(0 <= j < k + 1 && regions@[j].0 <= x < regions@[j].0 + regions@[j].1);
                }
            }
        }
        k += 1;
    }
    proof {
        assert forall|x: int| 0 <= x < len implies #[trigger] row@[x] == cross_spec(hints@, s0)[x] by {
            if lo <= x <= hi && counts(t[x], true) {
                let j = choose|j: int| 0 <= j < regions@.len() && #[trigger] regions@[j].0 <= x < regions@[j].0 + regions@[j].1;
                let r = regions@[j];
                lemma_span_fwd(t, true, x, r.0 + r.1, hi as int);
                lemma_span_back(t, true, r.0 as int, x, lo as int);
                if exists|j2: int| 0 <= j2 < regions@.len() && #[trigger] regions@[j2].0 <= x < regions@[j2].0 + regions@[j2].1
                    && regions@[j2].1 < smallest {
                    let j2 = choose|j2: int| 0 <= j2 < regions@.len() && #[trigger] regions@[j2].0 <= x < regions@[j2].0 + regions@[j2].1
                        && regions@[j2].1 < smallest;
                    let r2 = regions@[j2];
                    lemma_span_fwd(t, true, x, r2.0 + r2.1, hi as int);
                    lemma_span_back(t, true, r2.0 as int, x, lo as int);
                }
            } else if t[x] == Cell::Undetermined {
                assert(!(exists|j: int| 0 <= j < regions@.len() && #[trigger] regions@[j].0 <= x < regions@[j].0 + regions@[j].1));
            }
        }
        assert(row@ =~= cross_spec(hints@, s0));
    }
}

/// The sum of the hints.
pub open spec fn sum_of(h: Seq<usize>) -> int
    decreases h.len(),
{
    if h.len() == 0 {
        0
    } else {
        sum_of(h.drop_last()) + h.last()
    }
}

/// The number of painted cells of a line.
pub open spec fn count_on(s: Seq<Cell>) -> int
    decreases s.len(),
{
    if s.len() == 0 {
        0
    } else {
        count_on(s.drop_last()) + if s.last() == Cell::On {
            1int
        } else {
            0
        }
    }
}

/// Saturation on line `s`: once it holds as many painted cells as its hints add up to,
/// every undetermined cell is empty.
pub open spec fn complete_spec(h: Seq<usize>, s: Seq<Cell>) -> Seq<Cell> {
    if count_on(s) == sum_of(h) {
        Seq::new(s.len(), |x: int| if s[x] == Cell::Undetermined { Cell::Off } else { s[x] })
    } else {
        s
    }
}

/// The span is the sum of the hints plus one gap per hint.
pub proof fn lemma_sum_span(h: Seq<usize>)
    ensures
        sum_of(h) + h.len() == span(h),
    decreases h.len(),
{
    if h.len() > 0 {
        lemma_sum_span(h.drop_last());
        lemma_span_take(h, h.len() - 1);
        assert(h.take(h.len() - 1) =~= h.drop_last());
        assert(h.take(h.len() as int) =~= h);
    }
}

/// Saturation: once a line holds as many painted cells as its hints add up to, the
/// saturation rule leaves no undetermined cell in it and changes no decided one.
pub proof fn lemma_saturated_line_closes(h: Seq<usize>, s: Seq<Cell>)
    requires
        count_on(s) == sum_of(h),
    ensures
        complete_spec(h, s).len() == s.len(),
        forall|x: int| 0 <= x < s.len() ==> #[trigger] complete_spec(h, s)[x] != Cell::Undetermined,
        refines(s, complete_spec(h, s)),
{
}

/// `w` is a complete line whose runs of painted cells are the blocks of `h`.
pub open spec fn solves_line(w: Seq<Cell>, h: Seq<usize>) -> bool {
    &&& forall|x: int| 0 <= x < w.len() ==> w[x] != Cell::Undetermined
    &&& hints_of(w, h)
}

/// Saturation never contradicts a solution: for any complete line `w` that the hints
/// describe and that agrees with the decided cells of `s`, the cells that the saturation
/// rule decides agree with `w` too.
pub proof fn lemma_saturation_sound(h: Seq<usize>, s: Seq<Cell>, w: Seq<Cell>)
    requires
        solves_line(w, h),
        refines(s, w),
    ensures
        refines(complete_spec(h, s), w),
{
    if count_on(s) == sum_of(h) {
        let r = choose|r: Seq<(usize, usize)>|
            #[trigger] is_regions(w, false, 0, w.len() - 1, r) && h == r.map_values(|p: (usize, usize)| p.1);
        lemma_count_on_regions(w, r, h);
        lemma_count_on_refines(s, w);
    }
}

/// Painted cells add up over concatenation.
pub proof fn lemma_count_on_concat(a: Seq<Cell>, b: Seq<Cell>)
    ensures
        count_on(a + b) == count_on(a) + count_on(b),
    decreases b.len(),
{
    if b.len() > 0 {
        lemma_count_on_concat(a, b.drop_last());
        assert((a + b).drop_last() =~= a + b.drop_last());
    } else {
        assert(a + b =~= a);
    }
}

/// A line with no painted cell counts none; an all-painted one counts all.
pub proof fn lemma_count_on_uniform(a: Seq<Cell>)
    ensures
        (forall|x: int| 0 <= x < a.len() ==> a[x] != Cell::On) ==> count_on(a) == 0,
        (forall|x: int| 0 <= x < a.len() ==> a[x] == Cell::On) ==> count_on(a) == a.len(),
    decreases a.len(),
{
    if a.len() > 0 {
        lemma_count_on_uniform(a.drop_last());
    }
}

/// Painted cells of `s` stay painted in `w`; with as many of them, `w` paints no other.
pub proof fn lemma_count_on_refines(s: Seq<Cell>, w: Seq<Cell>)
    requires
        refines(s, w),
    ensures
        count_on(s) <= count_on(w),
        count_on(s) == count_on(w) ==> forall|x: int| 0 <= x < w.len() && w[x] == Cell::On ==> s[x] == Cell::On,
    decreases s.len(),
{
    if s.len() > 0 {
        lemma_count_on_refines(s.drop_last(), w.drop_last());
        if count_on(s) == count_on(w) {
            assert forall|x: int| 0 <= x < w.len() && w[x] == Cell::On implies s[x] == Cell::On by {
                if x < w.len() - 1 {
                    assert(s.drop_last()[x] == s[x] && w.drop_last()[x] == w[x]);
                }
            }
        }
    }
}

/// The painted cells of a line are as many as the lengths of its runs add up to.
pub proof fn lemma_count_on_regions(w: Seq<Cell>, r: Seq<(usize, usize)>, h: Seq<usize>)
    requires
        is_regions(w, false, 0, w.len() - 1, r),
        h == r.map_values(|p: (usize, usize)| p.1),
    ensures
        count_on(w) == sum_of(h),
{
    let n = r.len() as int;
    let e = if n == 0 { 0 } else { r[n - 1].0 + r[n - 1].1 };
    lemma_count_on_prefix(w, r, h, n);
    let tail = w.subrange(e, w.len() as int);
    assert forall|x: int| 0 <= x < tail.len() implies tail[x] != Cell::On by {
        let j = e + x;
        if w[j] == Cell::On {
            assert(counts(w[j], false));
            let m = choose|m: int| 0 <= m < r.len() && #[trigger] r[m].0 <= j < r[m].0 + r[m].1;
            if m < n - 1 {
                lemma_regions_sorted(w, false, 0, w.len() - 1, r, m, n - 1);
            }
        }
    }
    lemma_count_on_uniform(tail);
    lemma_count_on_concat(w.take(e), tail);
    assert(w.take(e) + tail =~= w);
    assert(h.take(n) =~= h);
}

/// The cells up to the end of the `k`-th run hold as many painted cells as the first `k` runs.
proof fn lemma_count_on_prefix(w: Seq<Cell>, r: Seq<(usize, usize)>, h: Seq<usize>, k: int)
    requires
        is_regions(w, false, 0, w.len() - 1, r),
        h == r.map_values(|p: (usize, usize)| p.1),
        0 <= k <= r.len(),
    ensures
        count_on(w.take(if k == 0 { 0 } else { r[k - 1].0 + r[k - 1].1 })) == sum_of(h.take(k)),
    decreases k,
{
    if k == 0 {
        assert(w.take(0) =~= Seq::<Cell>::empty());
        assert(h.take(0) =~= Seq::<usize>::empty());
    } else {
        lemma_count_on_prefix(w, r, h, k - 1);
        let b = if k == 1 { 0 } else { r[k - 2].0 + r[k - 2].1 };
        let st = r[k - 1].0 as int;
        let e = st + r[k - 1].1;
        assert(r[k - 1].1 > 0);
        if k > 1 {
            assert(r[k - 2].0 + r[k - 2].1 < r[k - 1].0);
        }
        let gap = w.subrange(b, st);
        let run = w.subrange(st, e);
        assert forall|x: int| 0 <= x < gap.len() implies gap[x] != Cell::On by {
            let j = b + x;
            if w[j] == Cell::On {
                assert(counts(w[j], false));
                let m = choose|m: int| 0 <= m < r.len() && #[trigger] r[m].0 <= j < r[m].0 + r[m].1;
                if m < k - 1 {
                    if m < k - 2 {
                        lemma_regions_sorted(w, false, 0, w.len() - 1, r, m, k - 2);
                    }
                } else if m > k - 1 {
                    lemma_regions_sorted(w, false, 0, w.len() - 1, r, k - 1, m);
                }
            }
        }
        assert forall|x: int| 0 <= x < run.len() implies run[x] == Cell::On by {
            assert(counts(w[st + x], false));
        }
        lemma_count_on_uniform(gap);
        lemma_count_on_uniform(run);
        lemma_count_on_concat(w.take(b), gap);
        lemma_count_on_concat(w.take(b) + gap, run);
        assert(w.take(b) + gap + run =~= w.take(e));
        assert(h.take(k).drop_last() =~= h.take(k - 1));
    }
}

/// Marks every undetermined cell empty when the painted cells already account for all hints.
pub fn mark_complete_row(rule: &Rule, col_or_row: &mut Vec<Cell>)
    requires
        fits(rule.hints@, old(col_or_row)@.len() as int),
    ensures
        final(col_or_row)@ == complete_spec(rule.hints@, old(col_or_row)@),
        refines(old(col_or_row)@, final(col_or_row)@),
{
    let ghost s = col_or_row@;
    let ghost h = rule.hints@;
    let len = col_or_row.len();
    let mut total: usize = 0;
    let mut k: usize = 0;
    while k < rule.hints.len()
        invariant
            h == rule.hints@,
            span(h) <= len + 1,
            k <= h.len(),
            total == sum_of(h.take(k as int)),
        decreases h.len() - k,
    {
        proof {
            assert(h.take(k as int + 1).drop_last() =~= h.take(k as int));
            lemma_sum_span(h.take(k as int + 1));
            lemma_span_subrange(h, 0, k as int + 1);
            assert(h.subrange(0, k as int + 1) =~= h.take(k as int + 1));
        }
        total = total + rule.hints[k];
        k += 1;
    }
    assert(h.take(h.len() as int) =~= h);
    let mut on: usize = 0;
    let mut i: usize = 0;
    while i < len
        invariant
            len == col_or_row@.len(),
            col_or_row@ == s,
            i <= len,
            on <= i,
            on == count_on(s.take(i as int)),
        decreases len - i,
    {
        assert(s.take(i as int + 1).drop_last() =~= s.take(i as int));
        if col_or_row[i] == Cell::On {
            on += 1;
        }
        i += 1;
    }
    assert(s.take(len as int) =~= s);
    if on == total {
        let mut i: usize = 0;
        while i < len
            invariant
                len == col_or_row@.len(),
                i <= len,
                forall|x: int| 0 <= x < len ==> #[trigger] col_or_row@[x] == (
                    if s[x] == Cell::Undetermined && x < i { Cell::Off } else { s[x] }),
            decreases len - i,
        {
            if col_or_row[i] == Cell::Undetermined {
                col_or_row.set(i, Cell::Off);
            }
            i += 1;
        }
        assert(col_or_row@ =~= complete_spec(h, s));
    }
}


/// One application of the deduction rules to a line with hints `h`, in the solver's order.
pub open spec fn line_pass(h: Seq<usize>, s: Seq<Cell>) -> Seq<Cell> {
    let d = cross_spec(h, ends_spec(h, complete_spec(h, boxes_spec(h, s))));
    if h.len() == 0 {
        Seq::new(d.len(), |x: int| if d[x] == Cell::Undetermined { Cell::Off } else { d[x] })
    } else {
        d
    }
}

/// The deduction rules only decide undetermined cells.
pub proof fn lemma_line_pass_refines(h: Seq<usize>, s: Seq<Cell>)
    requires
        fits(h, s.len() as int),
    ensures
        refines(s, line_pass(h, s)),
        refines(s, boxes_spec(h, s)),
        refines(complete_spec(h, boxes_spec(h, s)), line_pass(h, s)),
{
    lemma_trim(h, s);
    let a = boxes_spec(h, s);
    lemma_refines_trans(s, trim_spec(h, s).0, a);
    let b = complete_spec(h, a);
    lemma_trim(h, b);
    let c = ends_spec(h, b);
    let tc = trim_spec(h, b);
    if !(tc.3.len() == 0 || tc.1 > tc.2) {
        let u = if tc.0[tc.1] == Cell::On {
            fill_front(tc.0, tc.1, tc.3[0] as int)
        } else {
            tc.0
        };
        lemma_refines_trans(b, tc.0, u);
    }
    lemma_refines_trans(b, trim_spec(h, b).0, c);
    lemma_trim(h, c);
    let d = cross_spec(h, c);
    lemma_refines_trans(c, trim_spec(h, c).0, d);
    lemma_refines_trans(s, a, b);
    lemma_refines_trans(s, b, c);
    lemma_refines_trans(s, c, d);
    lemma_refines_trans(b, c, d);
    lemma_refines_trans(b, d, line_pass(h, s));
}

/// Applies every deduction rule, in order, to one line with the hints of `rule`.
pub fn solve_line(rule: &Rule, line: &mut Vec<Cell>)
    requires
        old(line)@.len() < i32::MAX,
        fits(rule.hints@, old(line)@.len() as int),
    ensures
        final(line)@ == line_pass(rule.hints@, old(line)@),
        refines(old(line)@, final(line)@),
{
    let ghost s = line@;
    simple_boxes(&rule.hints, line);
    mark_complete_row(rule, line);
    fill_first_and_last_block_if_possible(&rule.hints, line);
    cross_impossible_region(&rule.hints, line);
    if rule.hints.len() == 0 {
        let ghost d = line@;
        let len = line.len();
        let mut i: usize = 0;
        while i < len
            invariant
                len == line@.len(),
                i <= len,
                forall|x: int| 0 <= x < len ==> #[trigger] line@[x] == (
                    if d[x] == Cell::Undetermined && x < i { Cell::Off } else { d[x] }),
            decreases len - i,
        {
            if line[i] == Cell::Undetermined {
                line.set(i, Cell::Off);
            }
            i += 1;
        }
        assert(line@ =~= line_pass(rule.hints@, s));
    }
    proof {
        lemma_line_pass_refines(rule.hints@, s);
    }
}


/// The rule names a line of a `rows` by `cols` grid, and its hints fit in that line.
pub open spec fn rule_fits(rule: Rule, rows: int, cols: int) -> bool {
    if rule.is_col {
        rule.n < cols && fits(rule.hints@, rows)
    } else {
        rule.n < rows && fits(rule.hints@, cols)
    }
}

/// Every rule fits the grid.
pub open spec fn rules_fit(rules: Seq<Rule>, rows: int, cols: int) -> bool {
    forall|i: int| 0 <= i < rules.len() ==> rule_fits(#[trigger] rules[i], rows, cols)
}

/// The line of grid `g` that `rule` constrains.
pub open spec fn line_of(g: Seq<Seq<Cell>>, rule: Rule) -> Seq<Cell> {
    if rule.is_col {
        grid_col(g, rule.n as int)
    } else {
        g[rule.n as int]
    }
}

/// Grid `g` with the line that `rule` constrains replaced by `l`.
pub open spec fn with_line(g: Seq<Seq<Cell>>, rule: Rule, l: Seq<Cell>) -> Seq<Seq<Cell>> {
    if rule.is_col {
        Seq::new(g.len(), |i: int| g[i].update(rule.n as int, l[i]))
    } else {
        g.update(rule.n as int, l)
    }
}

/// The deduction rules applied to the line of one rule.
pub open spec fn apply_rule(g: Seq<Seq<Cell>>, rule: Rule) -> Seq<Seq<Cell>> {
    with_line(g, rule, line_pass(rule.hints@, line_of(g, rule)))
}

/// One full pass: every rule in turn.
pub open spec fn pass_spec(g: Seq<Seq<Cell>>, rules: Seq<Rule>) -> Seq<Seq<Cell>>
    decreases rules.len(),
{
    if rules.len() == 0 {
        g
    } else {
        apply_rule(pass_spec(g, rules.drop_last()), rules.last())
    }
}

/// `n` full passes.
pub open spec fn iterate(g: Seq<Seq<Cell>>, rules: Seq<Rule>, n: nat) -> Seq<Seq<Cell>>
    decreases n,
{
    if n == 0 {
        g
    } else {
        pass_spec(iterate(g, rules, (n - 1) as nat), rules)
    }
}

/// A full pass changes nothing.
pub open spec fn is_stable(g: Seq<Seq<Cell>>, rules: Seq<Rule>) -> bool {
    pass_spec(g, rules) == g
}

/// `b` keeps every decided cell of `a`.
pub open spec fn grid_refines(a: Seq<Seq<Cell>>, b: Seq<Seq<Cell>>) -> bool {
    &&& a.len() == b.len()
    &&& forall|i: int| 0 <= i < a.len() ==> refines(#[trigger] a[i], b[i])
}

/// Number of undetermined cells of a grid.
pub open spec fn grid_undetermined(g: Seq<Seq<Cell>>) -> nat
    decreases g.len(),
{
    if g.len() == 0 {
        0
    } else {
        grid_undetermined(g.drop_last()) + count_undetermined(g.last())
    }
}

/// Deciding cells never adds undetermined ones to a grid, and any change removes one.
pub proof fn lemma_grid_refines_count(a: Seq<Seq<Cell>>, b: Seq<Seq<Cell>>)
    requires
        grid_refines(a, b),
    ensures
        grid_undetermined(b) <= grid_undetermined(a),
        a != b ==> grid_undetermined(b) < grid_undetermined(a),
    decreases a.len(),
{
    if a.len() > 0 {
        lemma_grid_refines_count(a.drop_last(), b.drop_last());
        lemma_refines_count(a.last(), b.last());
        if a != b && a.drop_last() == b.drop_last() {
            assert(a.last() != b.last()) by {
                if a.last() == b.last() {
                    assert(a =~= b.drop_last().push(b.last()));
                    assert(b =~= b.drop_last().push(b.last()));
                }
            }
        }
    } else {
        assert(a =~= b);
    }
}

/// A grid of `rows` by `cols` cells has at most `rows * cols` undetermined ones.
pub proof fn lemma_grid_undetermined_bound(g: Seq<Seq<Cell>>, rows: int, cols: int)
    requires
        grid_shape(g, rows, cols),
        cols >= 0,
    ensures
        grid_undetermined(g) <= rows * cols,
    decreases g.len(),
{
    if g.len() > 0 {
        lemma_grid_undetermined_bound(g.drop_last(), rows - 1, cols);
        lemma_refines_count(g.last(), g.last());
        assert((rows - 1) * cols + cols == rows * cols) by (nonlinear_arith);
    }
}

/// Writing back a line that refines the old one refines the grid, and changes it if the line changed.
pub proof fn lemma_with_line(g: Seq<Seq<Cell>>, rule: Rule, l: Seq<Cell>, rows: int, cols: int)
    requires
        grid_shape(g, rows, cols),
        rule_fits(rule, rows, cols),
        refines(line_of(g, rule), l),
    ensures
        grid_shape(with_line(g, rule, l), rows, cols),
        grid_refines(g, with_line(g, rule, l)),
        l != line_of(g, rule) ==> with_line(g, rule, l) != g,
        l == line_of(g, rule) ==> with_line(g, rule, l) == g,
{
    let w = with_line(g, rule, l);
    if l == line_of(g, rule) {
        if rule.is_col {
            assert forall|i: int| 0 <= i < g.len() implies #[trigger] w[i] == g[i] by {
                assert(g[i].len() == cols);
                assert(w[i] =~= g[i]);
            }
        }
        assert(w =~= g);
    }
    if rule.is_col {
        assert forall|i: int| 0 <= i < g.len() implies refines(#[trigger] g[i], w[i]) by {
            assert(g[i].len() == cols);
        }
        if l != line_of(g, rule) {
            if w == g {
                assert forall|i: int| 0 <= i < l.len() implies l[i] == line_of(g, rule)[i] by {
                    assert(w[i][rule.n as int] == g[i][rule.n as int]);
                }
                assert(l =~= line_of(g, rule));
            }
        }
    } else {
        if l != line_of(g, rule) {
            assert(w[rule.n as int] == l);
        }
    }
}

/// A pass keeps the grid's shape and only decides undetermined cells.
pub proof fn lemma_pass_refines(g: Seq<Seq<Cell>>, rules: Seq<Rule>, rows: int, cols: int)
    requires
        grid_shape(g, rows, cols),
        rules_fit(rules, rows, cols),
    ensures
        grid_shape(pass_spec(g, rules), rows, cols),
        grid_refines(g, pass_spec(g, rules)),
    decreases rules.len(),
{
    if rules.len() > 0 {
        let rest = rules.drop_last();
        assert(rules_fit(rest, rows, cols)) by {
            assert forall|i: int| 0 <= i < rest.len() implies rule_fits(#[trigger] rest[i], rows, cols) by {
                assert(rest[i] == rules[i]);
            }
        }
        lemma_pass_refines(g, rest, rows, cols);
        let p = pass_spec(g, rest);
        let rule = rules.last();
        assert(rule_fits(rules[rules.len() - 1], rows, cols));
        let l = line_of(p, rule);
        assert(l.len() == if rule.is_col { rows } else { cols }) by {
            if !rule.is_col {
                assert(p[rule.n as int].len() == cols);
            }
        }
        lemma_line_pass_refines(rule.hints@, l);
        lemma_with_line(p, rule, line_pass(rule.hints@, l), rows, cols);
        let q = pass_spec(g, rules);
        assert forall|i: int| 0 <= i < g.len() implies refines(#[trigger] g[i], q[i]) by {
            lemma_refines_trans(g[i], p[i], q[i]);
        }
    }
}

/// Monotonicity: across any number of passes, a decided cell keeps its state.
pub proof fn lemma_passes_monotone(g: Seq<Seq<Cell>>, rules: Seq<Rule>, rows: int, cols: int, n: nat)
    requires
        grid_shape(g, rows, cols),
        rules_fit(rules, rows, cols),
    ensures
        grid_shape(iterate(g, rules, n), rows, cols),
        grid_refines(g, iterate(g, rules, n)),
    decreases n,
{
    if n > 0 {
        lemma_passes_monotone(g, rules, rows, cols, (n - 1) as nat);
        let p = iterate(g, rules, (n - 1) as nat);
        lemma_pass_refines(p, rules, rows, cols);
        let q = iterate(g, rules, n);
        assert forall|i: int| 0 <= i < g.len() implies refines(#[trigger] g[i], q[i]) by {
            lemma_refines_trans(g[i], p[i], q[i]);
        }
    }
}

/// Idempotence: on a stable grid, any number of further passes changes nothing.
pub proof fn lemma_stable_passes(g: Seq<Seq<Cell>>, rules: Seq<Rule>, n: nat)
    requires
        is_stable(g, rules),
    ensures
        iterate(g, rules, n) == g,
    decreases n,
{
    if n > 0 {
        lemma_stable_passes(g, rules, (n - 1) as nat);
    }
}

/// Whether two lines hold the same cells.
fn lines_equal(a: &Vec<Cell>, b: &Vec<Cell>) -> (r: bool)
    ensures
        r == (a@ == b@),
{
    if a.len() != b.len() {
        return false;
    }
    let mut i: usize = 0;
    while i < a.len()
        invariant
            a@.len() == b@.len(),
            i <= a@.len(),
            forall|x: int| 0 <= x < i ==> a@[x] == b@[x],
        decreases a@.len() - i,
    {
        if a[i] != b[i] {
            return false;
        }
        i += 1;
    }
    assert(a@ =~= b@);
    true
}

/// One full pass over the rules of the board; tells whether any cell changed.
pub fn run_pass(board: &mut Board) -> (changed: bool)
    requires
        old(board).wf(),
        old(board).rows < i32::MAX,
        old(board).cols < i32::MAX,
        rules_fit(old(board).rules@, old(board).rows as int, old(board).cols as int),
    ensures
        final(board).wf(),
        final(board).rows == old(board).rows,
        final(board).cols == old(board).cols,
        final(board).rules == old(board).rules,
        final(board).cells() == pass_spec(old(board).cells(), old(board).rules@),
        changed == (final(board).cells() != old(board).cells()),
{
    let ghost g0 = board.cells();
    let ghost rules = board.rules@;
    let ghost rows = board.rows as int;
    let ghost cols = board.cols as int;
    let mut changed = false;
    let mut k: usize = 0;
    while k < board.rules.len()
        invariant
            board.wf(),
            board.rows == old(board).rows,
            board.cols == old(board).cols,
            board.rules == old(board).rules,
            rules == board.rules@,
            rows == board.rows,
            cols == board.cols,
            rows < i32::MAX,
            cols < i32::MAX,
            g0 == old(board).cells(),
            rules_fit(rules, rows, cols),
            k <= rules.len(),
            board.cells() == pass_spec(g0, rules.take(k as int)),
            grid_refines(g0, board.cells()),
            changed ==> grid_undetermined(board.cells()) < grid_undetermined(g0),
            !changed ==> board.cells() == g0,
        decreases rules.len() - k,
    {
        let ghost g = board.cells();
        let ghost rule = rules[k as int];
        assert(rule_fits(rules[k as int], rows, cols));
        assert(rules.take(k as int + 1).drop_last() =~= rules.take(k as int));
        let is_col = board.rules[k].is_col;
        let n = board.rules[k].n;
        let mut line = if is_col {
            board.get_col(n)
        } else {
            board.get_row(n)
        };
        assert(line@ == line_of(g, rule));
        let before = line.clone();
        solve_line(&board.rules[k], &mut line);
        let same = lines_equal(&before, &line);
        proof {
            lemma_with_line(g, rule, line@, rows, cols);
            lemma_grid_refines_count(g, with_line(g, rule, line@));
            assert forall|i: int| 0 <= i < g0.len() implies refines(#[trigger] g0[i], with_line(g, rule, line@)[i]) by {
                lemma_refines_trans(g0[i], g[i], with_line(g, rule, line@)[i]);
            }
        }
        if is_col {
            board.set_col(n, line);
        } else {
            board.set_row(n, line);
        }
        if !same {
            changed = true;
        }
        k += 1;
    }
    assert(rules.take(rules.len() as int) =~= rules);
    proof {
        lemma_grid_refines_count(g0, board.cells());
    }
    changed
}

/// Runs passes until one changes nothing, and returns how many passes changed the grid.
/// The count is at most the number of undetermined cells at the start.
pub fn propagate(board: &mut Board) -> (passes: usize)
    requires
        old(board).wf(),
        old(board).rows < i32::MAX,
        old(board).cols < i32::MAX,
        old(board).rows * old(board).cols <= usize::MAX,
        rules_fit(old(board).rules@, old(board).rows as int, old(board).cols as int),
    ensures
        final(board).wf(),
        final(board).rows == old(board).rows,
        final(board).cols == old(board).cols,
        final(board).rules == old(board).rules,
        final(board).cells() == iterate(old(board).cells(), old(board).rules@, passes as nat),
        is_stable(final(board).cells(), old(board).rules@),
        passes <= grid_undetermined(old(board).cells()),
        passes <= old(board).rows * old(board).cols,
        grid_refines(old(board).cells(), final(board).cells()),
{
    let ghost g0 = board.cells();
    let ghost rules = board.rules@;
    proof {
        lemma_grid_undetermined_bound(g0, board.rows as int, board.cols as int);
    }
    let mut passes: usize = 0;
    loop
        invariant
            board.wf(),
            board.rows == old(board).rows,
            board.cols == old(board).cols,
            board.rules == old(board).rules,
            rules == board.rules@,
            g0 == old(board).cells(),
            board.rows < i32::MAX,
            board.cols < i32::MAX,
            rules_fit(rules, board.rows as int, board.cols as int),
            grid_undetermined(g0) <= board.rows * board.cols,
            board.rows * board.cols <= usize::MAX,
            board.cells() == iterate(g0, rules, passes as nat),
            passes + grid_undetermined(board.cells()) <= grid_undetermined(g0),
        ensures
            board.wf(),
            board.rows == old(board).rows,
            board.cols == old(board).cols,
            board.rules == old(board).rules,
            board.cells() == iterate(g0, rules, passes as nat),
            is_stable(board.cells(), rules),
            passes <= grid_undetermined(g0),
        decreases grid_undetermined(board.cells()),
    {
        let ghost before = board.cells();
        let changed = run_pass(board);
        if !changed {
            break;
        }
        proof {
            lemma_pass_refines(before, rules, board.rows as int, board.cols as int);
            lemma_grid_refines_count(before, board.cells());
        }
        passes += 1;
    }
    proof {
        lemma_passes_monotone(g0, rules, board.rows as int, board.cols as int, passes as nat);
    }
    passes
}

/// Whether every cell of the board is decided.
pub fn is_solved(board: &Board) -> (r: bool)
    requires
        board.wf(),
    ensures
        r == grid_determined(board.cells()),
{
    let mut i: usize = 0;
    while i < board.rows
        invariant
            board.wf(),
            i <= board.rows,
            forall|a: int, b: int| 0 <= a < i && 0 <= b < board.cells()[a].len() ==> board.cells()[a][b] != Cell::Undetermined,
        decreases board.rows - i,
    {
        let mut j: usize = 0;
        assert(board.cells()[i as int].len() == board.cols);
        while j < board.cols
            invariant
                board.wf(),
                i < board.rows,
                j <= board.cols,
                board.cells()[i as int].len() == board.cols,
                forall|b: int| 0 <= b < j ==> board.cells()[i as int][b] != Cell::Undetermined,
            decreases board.cols - j,
        {
            if board.data[i][j] == Cell::Undetermined {
                return false;
            }
            j += 1;
        }
        i += 1;
    }
    true
}


/// The grid that `solve` starts from.
pub open spec fn start_grid(board: Board, clear_board: bool) -> Seq<Seq<Cell>> {
    if clear_board {
        blank(board.rows as int, board.cols as int)
    } else {
        board.cells()
    }
}

/// Deduces cells until a full pass over the rules changes nothing, starting from an
/// undetermined grid when `clear_board` is set, and tells whether every cell is then decided.
pub fn solve(board: &mut Board, clear_board: bool) -> (solved: bool)
    requires
        old(board).wf(),
        old(board).rows < i32::MAX,
        old(board).cols < i32::MAX,
        old(board).rows * old(board).cols <= usize::MAX,
        rules_fit(old(board).rules@, old(board).rows as int, old(board).cols as int),
    ensures
        final(board).wf(),
        final(board).rows == old(board).rows,
        final(board).cols == old(board).cols,
        final(board).rules == old(board).rules,
        is_stable(final(board).cells(), old(board).rules@),
        exists|n: nat| final(board).cells() == iterate(start_grid(*old(board), clear_board), old(board).rules@, n),
        grid_refines(start_grid(*old(board), clear_board), final(board).cells()),
        !clear_board && is_stable(old(board).cells(), old(board).rules@) ==> final(board).cells() == old(board).cells(),
        solved == grid_determined(final(board).cells()),
{
    if clear_board {
        board.clear_board();
    }
    let ghost g = board.cells();
    let passes = propagate(board);
    proof {
        if !clear_board && is_stable(old(board).cells(), old(board).rules@) {
            lemma_stable_passes(g, board.rules@, passes as nat);
        }
        assert(g == start_grid(*old(board), clear_board));
        assert(board.cells() == iterate(start_grid(*old(board), clear_board), old(board).rules@, passes as nat));
    }
    is_solved(board)
}


/// What `solve` needs of a board: its shape, sizes that the solver's arithmetic holds,
/// and rules that name lines of the board with hints that fit in them.
pub open spec fn solvable(board: Board) -> bool {
    &&& board.wf()
    &&& board.rows < i32::MAX
    &&& board.cols < i32::MAX
    &&& board.rows * board.cols <= usize::MAX
    &&& rules_fit(board.rules@, board.rows as int, board.cols as int)
}

/// The hints derived from a line always fit in it, so a painted grid's derived rules
/// are valid input for solving.
pub proof fn lemma_derived_hints_fit(s: Seq<Cell>, h: Seq<usize>)
    requires
        hints_of(s, h),
    ensures
        fits(h, s.len() as int),
{
    let r = choose|r: Seq<(usize, usize)>|
        #[trigger] is_regions(s, false, 0, s.len() - 1, r) && h == r.map_values(|p: (usize, usize)| p.1);
    if h.len() > 0 {
        lemma_regions_span(s, r, h, h.len() as int);
        assert(h.take(h.len() as int) =~= h);
    }
}

/// The first `k` runs with their gaps take no more room than up to the end of run `k - 1`.
proof fn lemma_regions_span(s: Seq<Cell>, r: Seq<(usize, usize)>, h: Seq<usize>, k: int)
    requires
        is_regions(s, false, 0, s.len() - 1, r),
        h == r.map_values(|p: (usize, usize)| p.1),
        1 <= k <= h.len(),
    ensures
        span(h.take(k)) <= r[k - 1].0 + r[k - 1].1 + 1,
        r[k - 1].0 + r[k - 1].1 <= s.len(),
    decreases k,
{
    lemma_span_take(h, k - 1);
    assert(r[k - 1].1 > 0);
    if k > 1 {
        lemma_regions_span(s, r, h, k - 1);
        assert(r[k - 2].0 + r[k - 2].1 < r[k - 1].0);
    } else {
        assert(h.take(0) =~= Seq::<usize>::empty());
    }
}

/// Whether the hints, with a gap between blocks, fit in a line of `len` cells.
pub fn hints_fit(hints: &Vec<usize>, len: usize) -> (r: bool)
    requires
        len < usize::MAX,
    ensures
        r == fits(hints@, len as int),
{
    let ghost h = hints@;
    let mut acc: usize = 0;
    let mut k: usize = 0;
    while k < hints.len()
        invariant
            h == hints@,
            len < usize::MAX,
            k <= h.len(),
            acc == span(h.take(k as int)),
            acc <= len + 1,
        decreases h.len() - k,
    {
        proof {
            lemma_span_take(h, k as int);
            lemma_span_subrange(h, 0, k as int + 1);
            assert(h.subrange(0, k as int + 1) =~= h.take(k as int + 1));
        }
        if acc > len || hints[k] > len - acc {
            return false;
        }
        acc = acc + hints[k] + 1;
        k += 1;
    }
    assert(h.take(h.len() as int) =~= h);
    true
}

/// Whether `solve` may be called on the board.
pub fn rules_are_valid(board: &Board) -> (r: bool)
    requires
        board.wf(),
    ensures
        r == solvable(*board),
{
    if board.rows >= 2147483647 || board.cols >= 2147483647 {
        return false;
    }
    if board.rows.checked_mul(board.cols).is_none() {
        return false;
    }
    let mut k: usize = 0;
    while k < board.rules.len()
        invariant
            board.wf(),
            board.rows < i32::MAX,
            board.cols < i32::MAX,
            k <= board.rules@.len(),
            forall|i: int| 0 <= i < k ==> rule_fits(#[trigger] board.rules@[i], board.rows as int, board.cols as int),
        decreases board.rules@.len() - k,
    {
        let rule = &board.rules[k];
        let ok = if rule.is_col {
            rule.n < board.cols && hints_fit(&rule.hints, board.rows)
        } else {
            rule.n < board.rows && hints_fit(&rule.hints, board.cols)
        };
        if !ok {
            return false;
        }
        k += 1;
    }
    true
}


/// Two rule lists that name the same lines with the same hints.
pub open spec fn same_rules(a: Seq<Rule>, b: Seq<Rule>) -> bool {
    &&& a.len() == b.len()
    &&& forall|k: int| 0 <= k < a.len() ==> (#[trigger] a[k]).n == b[k].n && a[k].is_col == b[k].is_col
        && a[k].hints@ == b[k].hints@
}

/// A pass depends on the rules' lines and hints alone.
pub proof fn lemma_same_rules_pass(g: Seq<Seq<Cell>>, a: Seq<Rule>, b: Seq<Rule>)
    requires
        same_rules(a, b),
    ensures
        pass_spec(g, a) == pass_spec(g, b),
    decreases a.len(),
{
    if a.len() > 0 {
        assert(same_rules(a.drop_last(), b.drop_last())) by {
            assert forall|k: int| 0 <= k < a.len() - 1 implies (#[trigger] a.drop_last()[k]).n == b.drop_last()[k].n
                && a.drop_last()[k].is_col == b.drop_last()[k].is_col && a.drop_last()[k].hints@ == b.drop_last()[k].hints@ by {
                assert(a.drop_last()[k] == a[k] && b.drop_last()[k] == b[k]);
            }
        }
        lemma_same_rules_pass(g, a.drop_last(), b.drop_last());
        assert(a.last().hints@ == b.last().hints@ && a.last().n == b.last().n && a.last().is_col == b.last().is_col);
    }
}

/// Passes depend on the rules' lines and hints alone.
pub proof fn lemma_same_rules_iterate(g: Seq<Seq<Cell>>, a: Seq<Rule>, b: Seq<Rule>, n: nat)
    requires
        same_rules(a, b),
    ensures
        iterate(g, a, n) == iterate(g, b, n),
    decreases n,
{
    if n > 0 {
        lemma_same_rules_iterate(g, a, b, (n - 1) as nat);
        lemma_same_rules_pass(iterate(g, a, (n - 1) as nat), a, b);
    }
}


/// Block `k` of `g` takes the same cells in both packings: its place is known.
pub open spec fn exact_block(g: Seq<usize>, start: int, end: int, k: int) -> bool {
    g[k] > 0 && left_start(g, start, k) == right_end(g, end, k) - g[k] + 1
}

/// Cell `x` is just before or just after a block whose place is known.
pub open spec fn beside_exact(g: Seq<usize>, start: int, end: int, n: int, x: int) -> bool {
    exists|k: int|
        0 <= k < n && #[trigger] exact_block(g, start, end, k) && (x == left_start(g, start, k) - 1 || x
            == left_start(g, start, k) + g[k])
}

/// Forced overlap on line `s`, after which the cells on both sides of a block whose
/// place is known are marked empty.
pub open spec fn intersection_spec(h: Seq<usize>, s: Seq<Cell>) -> Seq<Cell> {
    let t = trim_spec(h, s);
    let b = overlap_cells(t.0, t.3, t.1, t.2);
    Seq::new(
        s.len(),
        |x: int|
            if b[x] == Cell::Undetermined && beside_exact(t.3, t.1, t.2, t.3.len() as int, x) {
                Cell::Off
            } else {
                b[x]
            },
    )
}

/// Forced overlap that also closes each block whose place it fixes with empty cells.
pub fn block_intersection(rule: &Rule, row: &mut Vec<Cell>)
    requires
        old(row)@.len() < i32::MAX,
        fits(rule.hints@, old(row)@.len() as int),
    ensures
        final(row)@ == intersection_spec(rule.hints@, old(row)@),
        refines(old(row)@, final(row)@),
{
    let ghost s0 = row@;
    let ((start, end), rest) = trim_finished_hints(&rule.hints, row);
    mark_overlaps(&rest, start, end, row);
    let ghost b = row@;
    let ghost g = rest@;
    let len = row.len();
    let mut total: i64 = 0;
    let mut k: usize = 0;
    while k < rest.len()
        invariant
            g == rest@,
            span(g) <= len + 1,
            len < i32::MAX,
            k <= g.len(),
            total == span(g.take(k as int)),
        decreases g.len() - k,
    {
        proof {
            lemma_span_take(g, k as int);
            lemma_span_subrange(g, 0, k as int + 1);
            assert(g.subrange(0, k as int + 1) =~= g.take(k as int + 1));
        }
        total = total + rest[k] as i64 + 1;
        k += 1;
    }
    assert(g.take(g.len() as int) =~= g);
    let mut before: i64 = 0;
    let mut k: usize = 0;
    while k < rest.len()
        invariant
            g == rest@,
            total == span(g),
            span(g) <= len + 1,
            len == row@.len(),
            len < i32::MAX,
            0 <= start <= len,
            -1 <= end < len,
            k <= g.len(),
            before == span(g.take(k as int)),
            refines(b, row@),
            forall|x: int| 0 <= x < len ==> #[trigger] row@[x] == (
                if b[x] == Cell::Undetermined && beside_exact(g, start as int, end as int, k as int, x) {
                    Cell::Off
                } else {
                    b[x]
                }),
        decreases g.len() - k,
    {
        proof {
            lemma_span_take(g, k as int);
            lemma_span_subrange(g, 0, k as int + 1);
            assert(g.subrange(0, k as int + 1) =~= g.take(k as int + 1));
        }
        let h = rest[k] as i64;
        let left = start as i64 + before;
        let right = end as i64 - (total - (before + h + 1));
        let exact = h > 0 && left == right - h + 1;
        if exact {
            if left >= 1 && row[(left - 1) as usize] == Cell::Undetermined {
                row.set((left - 1) as usize, Cell::Off);
            }
            if left + h < len as i64 && row[(left + h) as usize] == Cell::Undetermined {
                row.set((left + h) as usize, Cell::Off);
            }
        }
        proof {
            assert(left == left_start(g, start as int, k as int));
            assert(right == right_end(g, end as int, k as int));
            assert(exact == exact_block(g, start as int, end as int, k as int));
            assert forall|x: int| 0 <= x < len implies #[trigger] row@[x] == (
                if b[x] == Cell::Undetermined && beside_exact(g, start as int, end as int, k as int + 1, x) {
                    Cell::Off
                } else {
                    b[x]
                }) by {
                if beside_exact(g, start as int, end as int, k as int + 1, x) && !beside_exact(g, start as int, end as int, k as int, x) {
                    let kk = choose|kk: int| 0 <= kk < k + 1 && #[trigger] exact_block(g, start as int, end as int, kk) && (x
                        == left_start(g, start as int, kk) - 1 || x == left_start(g, start as int, kk) + g[kk]);
                    assert(kk == k);
                }
                if exact && (x == left - 1 || x == left + h) {
                    assert(exact_block(g, start as int, end as int, k as int));
                }
                if beside_exact(g, start as int, end as int, k as int, x) {
                    let kk = choose|kk: int| 0 <= kk < k && #[trigger] exact_block(g, start as int, end as int, kk) && (x
                        == left_start(g, start as int, kk) - 1 || x == left_start(g, start as int, kk) + g[kk]);
                    assert(0 <= kk < k + 1 && exact_block(g, start as int, end as int, kk));
                }
            }
        }
        before = before + h + 1;
        k += 1;
    }
    assert(row@ =~= intersection_spec(rule.hints@, s0));
}


/// The largest of the hints (0 for none).
pub open spec fn max_of(g: Seq<usize>) -> int
    decreases g.len(),
{
    if g.len() == 0 {
        0
    } else if (g.last() as int) > max_of(g.drop_last()) {
        g.last() as int
    } else {
        max_of(g.drop_last())
    }
}

/// A maximal run of exactly `m` painted cells starts at `p`.
pub open spec fn run_at(s: Seq<Cell>, p: int, m: int) -> bool {
    &&& 0 <= p < s.len()
    &&& s[p] == Cell::On
    &&& (p == 0 || s[p - 1] != Cell::On)
    &&& run_fwd(s, p) == m
}

/// `p` is the first place where a maximal run of exactly `m` painted cells starts.
pub open spec fn first_run_at(s: Seq<Cell>, m: int, p: int) -> bool {
    run_at(s, p, m) && forall|q: int| 0 <= q < p ==> !run_at(s, q, m)
}

/// Encloses with empty cells the first run of painted cells as long as the longest hint.
pub open spec fn enclose_spec(h: Seq<usize>, s: Seq<Cell>) -> Seq<Cell> {
    let m = max_of(h);
    if h.len() > 0 && exists|p: int| first_run_at(s, m, p) {
        let p = choose|p: int| first_run_at(s, m, p);
        Seq::new(
            s.len(),
            |x: int|
                if s[x] == Cell::Undetermined && (x == p - 1 || x == p + m) {
                    Cell::Off
                } else {
                    s[x]
                },
        )
    } else {
        s
    }
}

/// A run of painted cells as long as the longest hint is a complete block: marks the
/// cells on both sides of the first such run empty.
pub fn enclose_completed_region(rule: &Rule, col_or_row: &mut Vec<Cell>)
    ensures
        final(col_or_row)@ == enclose_spec(rule.hints@, old(col_or_row)@),
        refines(old(col_or_row)@, final(col_or_row)@),
{
    let ghost s = col_or_row@;
    let ghost h = rule.hints@;
    if rule.hints.len() == 0 {
        return;
    }
    let mut max_hint: usize = rule.hints[0];
    assert(h.take(1).drop_last() =~= Seq::<usize>::empty());
    assert(h.take(1).last() == h[0]);
    assert(max_of(h.take(1).drop_last()) == 0);
    let mut k: usize = 1;
    while k < rule.hints.len()
        invariant
            h == rule.hints@,
            1 <= k <= h.len(),
            max_hint == max_of(h.take(k as int)),
        decreases h.len() - k,
    {
        assert(h.take(k as int + 1).drop_last() =~= h.take(k as int));
        if rule.hints[k] > max_hint {
            max_hint = rule.hints[k];
        }
        k += 1;
    }
    assert(h.take(h.len() as int) =~= h);
    assert(max_hint == max_of(h));
    let len = col_or_row.len();
    let ghost m = max_hint as int;
    let mut i: usize = 0;
    while i < len
        invariant
            col_or_row@ == s,
            len == s.len(),
            m == max_hint as int,
            m == max_of(h),
            h.len() > 0,
            h == rule.hints@,
            s == old(col_or_row)@,
            i <= len,
            i < len ==> (i == 0 || s[i - 1] != Cell::On),
            forall|q: int| 0 <= q < i ==> !run_at(s, q, m),
        decreases len - i,
    {
        if col_or_row[i] == Cell::On {
            let block_length = Board::count_block_length(col_or_row, i, false);
            proof {
                lemma_run_fwd(s, i as int);
            }
            if block_length == max_hint {
                let ghost p = i as int;
                assert(first_run_at(s, m, p));
                if i > 0 {
                    col_or_row.set(i - 1, Cell::Off);
                }
                if i + block_length < len {
                    col_or_row.set(i + block_length, Cell::Off);
                }
                proof {
                    let chosen = choose|chosen: int| first_run_at(s, m, chosen);
                    assert(chosen == p);
                    let e = enclose_spec(h, s);
                    assert(p + m < len ==> s[p + m] != Cell::On);
                    assert forall|x: int| 0 <= x < len implies col_or_row@[x] == e[x] by {
                        if x == p - 1 || x == p + m {
                            assert(s[x] != Cell::On);
                        }
                    }
                    assert(col_or_row@ =~= e);
                }
                return;
            }
            proof {
                assert forall|q: int| 0 <= q < i + block_length + 1 implies !run_at(s, q, m) by {
                    if i < q < i + block_length {
                        assert(s[q - 1] == Cell::On);
                    }
                }
            }
            if i + block_length >= len {
                i = len;
            } else {
                i = i + block_length + 1;
            }
        } else {
            i += 1;
        }
    }
    proof {
        assert(!exists|p: int| first_run_at(s, m, p));
    }
}


/// A maximal run of not-empty cells starts at `p`.
pub open spec fn open_start(s: Seq<Cell>, p: int) -> bool {
    &&& 0 <= p < s.len()
    &&& counts(s[p], true)
    &&& (p == 0 || !counts(s[p - 1], true))
}

/// Length of the run of not-empty cells from `p`.
pub open spec fn open_len(s: Seq<Cell>, p: int) -> int {
    span_fwd(s, true, p, s.len() - 1) as int
}

/// The run of not-empty cells at `p` is the only one long enough for a block of `hint`.
pub open spec fn sole_place(s: Seq<Cell>, hint: int, p: int) -> bool {
    &&& open_start(s, p)
    &&& hint <= open_len(s, p)
    &&& forall|q: int| #[trigger] open_start(s, q) && hint <= open_len(s, q) ==> q == p
}

/// Some two painted cells of `[p, p + len)` lie `hint` or more apart.
pub open spec fn spread_ok(a: Seq<Cell>, p: int, len: int, hint: int) -> bool {
    forall|i: int, j: int|
        p <= i < p + len && p <= j < p + len && #[trigger] a[i] == Cell::On && #[trigger] a[j] == Cell::On ==> j - i
            < hint
}

/// Cell `x` lies between two painted cells of `[p, p + len)`.
pub open spec fn between_on(a: Seq<Cell>, p: int, len: int, x: int) -> bool {
    exists|i: int, j: int|
        p <= i <= x && x <= j < p + len && #[trigger] a[i] == Cell::On && #[trigger] a[j] == Cell::On
}

/// A block of `hint` known to lie in the run `[p, p + len)`: the cells it covers
/// wherever it sits there are painted, then the gaps between its painted cells are filled
/// when they all fit in one block.
pub open spec fn settle_in(s: Seq<Cell>, p: int, len: int, hint: int) -> Seq<Cell> {
    let a = Seq::new(
        s.len(),
        |x: int| if s[x] == Cell::Undetermined && p + len - hint <= x < p + hint { Cell::On } else { s[x] },
    );
    Seq::new(
        s.len(),
        |x: int|
            if a[x] == Cell::Undetermined && p <= x < p + len && spread_ok(a, p, len, hint) && between_on(a, p, len, x) {
                Cell::On
            } else {
                a[x]
            },
    )
}

/// Hints from the `k`-th on, while each fits in only one run of not-empty cells of `s0`.
pub open spec fn sole_places_spec(h: Seq<usize>, s0: Seq<Cell>, cur: Seq<Cell>, k: int) -> Seq<Cell>
    decreases h.len() - k,
{
    if 0 <= k < h.len() && exists|p: int| sole_place(s0, h[k] as int, p) {
        let p = choose|p: int| sole_place(s0, h[k] as int, p);
        sole_places_spec(h, s0, settle_in(cur, p, open_len(s0, p), h[k] as int), k + 1)
    } else {
        cur
    }
}

/// Places each hint, in order and while it has only one run of not-empty cells long
/// enough for it, in that run.
pub fn fill_only_one_possible_hint_region(rule: &Rule, col_or_row: &mut Vec<Cell>)
    ensures
        final(col_or_row)@ == sole_places_spec(rule.hints@, old(col_or_row)@, old(col_or_row)@, 0),
        refines(old(col_or_row)@, final(col_or_row)@),
{
    let ghost s0 = col_or_row@;
    let ghost h = rule.hints@;
    let len = col_or_row.len();
    let open_regions = Board::get_consecutive_regions(col_or_row, true, None);
    let ghost regs = open_regions@;
    proof {
        lemma_regions_located(s0, regs);
    }
    let mut k: usize = 0;
    while k < rule.hints.len()
        invariant_except_break
            sole_places_spec(h, s0, col_or_row@, k as int) == sole_places_spec(h, s0, s0, 0),
        invariant
            h == rule.hints@,
            s0 == old(col_or_row)@,
            len == col_or_row@.len(),
            regs == open_regions@,
            regions_located(s0, regs),
            k <= h.len(),
            refines(s0, col_or_row@),
            forall|x: int| 0 <= x < len ==> counts(#[trigger] col_or_row@[x], true) == counts(s0[x], true),
        ensures
            sole_places_spec(h, s0, s0, 0) == col_or_row@,
            refines(s0, col_or_row@),
        decreases h.len() - k,
    {
        let hint = rule.hints[k];
        let found = sole_region(&open_regions, hint, Ghost(s0));
        match found {
            None => {
                break;
            },
            Some(first) => {
                let (p, reg_len) = open_regions[first];
                proof {
                    let chosen = choose|chosen: int| sole_place(s0, hint as int, chosen);
                    assert(chosen == p);
                    assert(p + reg_len <= len);
                    assert forall|x: int| p <= x < p + reg_len implies counts(#[trigger] col_or_row@[x], true) by {
                        assert(counts(s0[x], true));
                    }
                }
                let ghost before = col_or_row@;
                settle_hint(col_or_row, p, reg_len, hint);
                proof {
                    lemma_refines_trans(s0, before, col_or_row@);
                }
                k += 1;
            },
        }
    }
}

/// The list `r` holds the runs of not-empty cells of the whole line `s`, and each of them
/// starts a run in the sense of `open_start`, with its `open_len`.
pub open spec fn regions_located(s: Seq<Cell>, r: Seq<(usize, usize)>) -> bool {
    &&& is_regions(s, true, 0, s.len() - 1, r)
    &&& forall|j: int| 0 <= j < r.len() ==> open_start(s, #[trigger] r[j].0 as int) && open_len(s, r[j].0 as int) == r[j].1
    &&& forall|q: int| #[trigger] open_start(s, q) ==> exists|j: int| 0 <= j < r.len() && r[j].0 == q
}

/// Each listed run of not-empty cells starts a run, and every run start is listed.
pub proof fn lemma_regions_located(s: Seq<Cell>, r: Seq<(usize, usize)>)
    requires
        is_regions(s, true, 0, s.len() - 1, r),
    ensures
        regions_located(s, r),
{
    assert forall|j: int| 0 <= j < r.len() implies open_start(s, #[trigger] r[j].0 as int) && open_len(s, r[j].0 as int)
        == r[j].1 by {
        lemma_region_located(s, r, j);
    }
    assert forall|q: int| #[trigger] open_start(s, q) implies exists|j: int| 0 <= j < r.len() && r[j].0 == q by {
        lemma_start_listed(s, r, q);
    }
}

/// A listed run starts a run of not-empty cells of its listed length.
proof fn lemma_region_located(s: Seq<Cell>, r: Seq<(usize, usize)>, j: int)
    requires
        is_regions(s, true, 0, s.len() - 1, r),
        0 <= j < r.len(),
    ensures
        open_start(s, r[j].0 as int),
        open_len(s, r[j].0 as int) == r[j].1,
{
    let e = r[j].0 + r[j].1;
    assert(forall|x: int| r[j].0 <= x < e ==> counts(#[trigger] s[x], true));
    lemma_span_fwd(s, true, r[j].0 as int, e, s.len() - 1);
}

/// Every start of a run of not-empty cells is listed.
proof fn lemma_start_listed(s: Seq<Cell>, r: Seq<(usize, usize)>, q: int)
    requires
        is_regions(s, true, 0, s.len() - 1, r),
        open_start(s, q),
    ensures
        exists|j: int| 0 <= j < r.len() && r[j].0 == q,
{
    assert(counts(s[q], true));
    let j = choose|j: int| 0 <= j < r.len() && #[trigger] r[j].0 <= q < r[j].0 + r[j].1;
    if r[j].0 < q {
        assert(counts(s[q - 1], true));
    }
}

/// Index of the only run long enough for `hint`, if there is exactly one.
fn sole_region(regions: &Vec<(usize, usize)>, hint: usize, Ghost(s0): Ghost<Seq<Cell>>) -> (r: Option<usize>)
    requires
        regions_located(s0, regions@),
    ensures
        r is Some ==> r->0 < regions@.len() && sole_place(s0, hint as int, regions@[r->0 as int].0 as int),
        r is None ==> !exists|p: int| sole_place(s0, hint as int, p),
{
    let ghost regs = regions@;
    let ghost len = s0.len();
    let mut first: usize = 0;
    let mut found = false;
    let mut second = false;
    let mut j: usize = 0;
    while j < regions.len()
        invariant
            regs == regions@,
            j <= regs.len(),
            found ==> first < j && hint <= regs[first as int].1,
            found ==> forall|x: int| 0 <= x < first ==> regs[x].1 < hint,
            !found ==> forall|x: int| 0 <= x < j ==> regs[x].1 < hint,
            found && !second ==> forall|x: int| first < x < j ==> regs[x].1 < hint,
            second ==> found && exists|x: int| 0 <= x < regs.len() && x != first && hint <= regs[x].1,
        decreases regs.len() - j,
    {
        if hint <= regions[j].1 {
            if found {
                second = true;
            } else {
                found = true;
                first = j;
            }
        }
        j += 1;
    }
    if !found || second {
        proof {
            if exists|p: int| sole_place(s0, hint as int, p) {
                let p = choose|p: int| sole_place(s0, hint as int, p);
                assert(open_start(s0, p));
                let jp = choose|jp: int| 0 <= jp < regs.len() && regs[jp].0 == p;
                assert(open_start(s0, regs[jp].0 as int));
                if second {
                    let x = choose|x: int| 0 <= x < regs.len() && x != first && hint <= regs[x].1;
                    assert(open_start(s0, regs[x].0 as int));
                    assert(open_start(s0, regs[first as int].0 as int));
                    if x < first {
                        lemma_regions_sorted(s0, true, 0, len - 1, regs, x, first as int);
                    } else {
                        lemma_regions_sorted(s0, true, 0, len - 1, regs, first as int, x);
                    }
                }
            }
        }
        return None;
    }
    proof {
        let p = regs[first as int].0 as int;
        assert(open_start(s0, p));
        assert forall|q: int| #[trigger] open_start(s0, q) && hint <= open_len(s0, q) implies q == p by {
            let jq = choose|jq: int| 0 <= jq < regs.len() && regs[jq].0 == q;
            assert(open_start(s0, regs[jq].0 as int));
        }
    }
    Some(first)
}

/// Applies `settle_in` to the line, for a run `[p, p + len)` of not-empty cells that
/// can hold a block of `hint`.
fn settle_hint(row: &mut Vec<Cell>, p: usize, len: usize, hint: usize)
    requires
        p + len <= old(row)@.len(),
        hint <= len,
        forall|x: int| p <= x < p + len ==> counts(#[trigger] old(row)@[x], true),
    ensures
        final(row)@ == settle_in(old(row)@, p as int, len as int, hint as int),
        refines(old(row)@, final(row)@),
        forall|x: int| 0 <= x < old(row)@.len() ==> counts(#[trigger] final(row)@[x], true) == counts(old(row)@[x], true),
{
    let ghost s = row@;
    let n = row.len();
    let skip = len - hint;
    let mut i: usize = skip;
    while i < hint
        invariant
            p + len <= n,
            n == row@.len(),
            s.len() == row@.len(),
            skip == len - hint,
            hint <= len,
            skip <= i,
            i <= hint || i == skip,
            forall|x: int| 0 <= x < s.len() ==> #[trigger] row@[x] == (
                if s[x] == Cell::Undetermined && p + skip <= x < p + i { Cell::On } else { s[x] }),
        decreases hint - i,
    {
        if row[p + i] == Cell::Undetermined {
            row.set(p + i, Cell::On);
        }
        i += 1;
    }
    let ghost a = row@;
    assert(a =~= Seq::new(
        s.len(),
        |x: int| if s[x] == Cell::Undetermined && p + len - hint <= x < p + hint { Cell::On } else { s[x] },
    ));
    let mut fst: usize = p;
    while fst < p + len && row[fst] != Cell::On
        invariant
            a == row@,
            p <= fst <= p + len,
            p + len <= n,
            n == row@.len(),
            forall|x: int| p <= x < fst ==> a[x] != Cell::On,
        decreases p + len - fst,
    {
        fst += 1;
    }
    if fst == p + len {
        assert(row@ =~= settle_in(s, p as int, len as int, hint as int));
        return;
    }
    let mut lst: usize = p + len - 1;
    while lst > fst && row[lst] != Cell::On
        invariant
            a == row@,
            fst <= lst < p + len,
            p + len <= n,
            n == row@.len(),
            a[fst as int] == Cell::On,
            forall|x: int| lst < x < p + len ==> a[x] != Cell::On,
        decreases lst - fst,
    {
        lst -= 1;
    }
    assert(a[lst as int] == Cell::On);
    let ok = lst - fst < hint;
    proof {
        if ok {
            assert forall|i: int, j: int|
                p <= i < p + len && p <= j < p + len && #[trigger] a[i] == Cell::On && #[trigger] a[j] == Cell::On implies j - i
                    < hint by {
                assert(fst <= i && j <= lst);
            }
        } else {
            assert(!spread_ok(a, p as int, len as int, hint as int)) by {
                assert(a[fst as int] == Cell::On && a[lst as int] == Cell::On);
            }
        }
    }
    if ok {
        let mut x: usize = fst;
        while x <= lst
            invariant
                fst <= x <= lst + 1,
                lst < p + len,
                p + len <= n,
                n == row@.len(),
                a.len() == row@.len(),
                forall|y: int| 0 <= y < a.len() ==> #[trigger] row@[y] == (
                    if a[y] == Cell::Undetermined && fst <= y < x { Cell::On } else { a[y] }),
            decreases lst + 1 - x,
        {
            if row[x] == Cell::Undetermined {
                row.set(x, Cell::On);
            }
            x += 1;
        }
    }
    proof {
        assert forall|y: int| 0 <= y < a.len() implies #[trigger] row@[y] == settle_in(s, p as int, len as int, hint as int)[y] by {
            if p <= y < p + len && between_on(a, p as int, len as int, y) {
                let (i, j) = choose|i: int, j: int|
                    p <= i <= y && y <= j < p + len && #[trigger] a[i] == Cell::On && #[trigger] a[j] == Cell::On;
                assert(fst <= i && j <= lst);
            }
            if ok && fst <= y <= lst {
                assert(between_on(a, p as int, len as int, y)) by {
                    assert(p <= fst <= y && y <= lst < p + len && a[fst as int] == Cell::On && a[lst as int] == Cell::On);
                }
            }
        }
        assert(row@ =~= settle_in(s, p as int, len as int, hint as int));
    }
}

} // verus!
