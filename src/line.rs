//! Mathematical model of a line (a row or a column) and the facts the solver's proofs share.
use vstd::prelude::*;

use crate::board::Cell;

verus! {

/// Whether a cell belongs to a run: painted cells always, undetermined ones when `incl` is set.
pub open spec fn counts(c: Cell, incl: bool) -> bool {
    c == Cell::On || (incl && c == Cell::Undetermined)
}

/// `b` keeps every decided cell of `a`: only undetermined cells may have changed.
pub open spec fn refines(a: Seq<Cell>, b: Seq<Cell>) -> bool {
    &&& a.len() == b.len()
    &&& forall|i: int| 0 <= i < a.len() && a[i] != Cell::Undetermined ==> b[i] == a[i]
}

/// Number of consecutive painted cells from `pos` onwards.
pub open spec fn run_fwd(s: Seq<Cell>, pos: int) -> nat
    decreases s.len() - pos,
{
    if 0 <= pos < s.len() && s[pos] == Cell::On {
        1 + run_fwd(s, pos + 1)
    } else {
        0
    }
}

/// Number of consecutive painted cells from `pos` backwards.
pub open spec fn run_back(s: Seq<Cell>, pos: int) -> nat
    decreases pos + 1,
{
    if 0 <= pos < s.len() && s[pos] == Cell::On {
        1 + run_back(s, pos - 1)
    } else {
        0
    }
}

/// Number of consecutive counted cells from `j` up to `hi` (inclusive).
pub open spec fn span_fwd(s: Seq<Cell>, incl: bool, j: int, hi: int) -> nat
    decreases hi + 1 - j,
{
    if 0 <= j <= hi && j < s.len() && counts(s[j], incl) {
        1 + span_fwd(s, incl, j + 1, hi)
    } else {
        0
    }
}

/// Number of consecutive counted cells from `j` down to `lo` (inclusive).
pub open spec fn span_back(s: Seq<Cell>, incl: bool, j: int, lo: int) -> nat
    decreases j + 1 - lo,
{
    if 0 <= lo <= j && j < s.len() && counts(s[j], incl) {
        1 + span_back(s, incl, j - 1, lo)
    } else {
        0
    }
}

/// `r` lists, left to right as (start, length), the maximal runs of counted cells
/// that lie in the inclusive interval `[lo, hi]` of `s`.
pub open spec fn is_regions(s: Seq<Cell>, incl: bool, lo: int, hi: int, r: Seq<(usize, usize)>) -> bool {
    &&& forall|k: int| #![trigger r[k]] 0 <= k < r.len() ==> {
        &&& r[k].1 > 0
        &&& lo <= r[k].0
        &&& r[k].0 + r[k].1 <= hi + 1
        &&& (r[k].0 == lo || !counts(s[r[k].0 - 1], incl))
        &&& (r[k].0 + r[k].1 == hi + 1 || !counts(s[r[k].0 + r[k].1], incl))
        &&& forall|j: int| r[k].0 <= j < r[k].0 + r[k].1 ==> counts(#[trigger] s[j], incl)
    }
    &&& forall|k: int| 0 <= k < r.len() - 1 ==> #[trigger] r[k].0 + r[k].1 < r[k + 1].0
    &&& forall|j: int|
        lo <= j <= hi && #[trigger] counts(s[j], incl) ==> exists|k: int|
            0 <= k < r.len() && #[trigger] r[k].0 <= j < r[k].0 + r[k].1
}

/// A run of counted cells that ends at `e` (exclusive) covers `span_fwd` from any of its cells.
pub proof fn lemma_span_fwd(s: Seq<Cell>, incl: bool, j: int, e: int, hi: int)
    requires
        0 <= j <= e <= hi + 1,
        hi < s.len(),
        forall|x: int| j <= x < e ==> counts(#[trigger] s[x], incl),
        e == hi + 1 || !counts(s[e], incl),
    ensures
        span_fwd(s, incl, j, hi) == e - j,
    decreases e - j,
{
    if j < e {
        lemma_span_fwd(s, incl, j + 1, e, hi);
    }
}

/// A run of counted cells that starts at `b` covers `span_back` from any of its cells.
pub proof fn lemma_span_back(s: Seq<Cell>, incl: bool, b: int, j: int, lo: int)
    requires
        0 <= lo <= b <= j + 1,
        j < s.len(),
        forall|x: int| b <= x <= j ==> counts(#[trigger] s[x], incl),
        b == lo || !counts(s[b - 1], incl),
    ensures
        span_back(s, incl, j, lo) == j + 1 - b,
    decreases j + 1 - b,
{
    if b <= j {
        lemma_span_back(s, incl, b, j - 1, lo);
    }
}

/// The painted run from `i` stays in the line, is all painted, and stops at a cell that is not.
pub proof fn lemma_run_fwd(s: Seq<Cell>, i: int)
    requires
        0 <= i <= s.len(),
    ensures
        i + run_fwd(s, i) <= s.len(),
        forall|x: int| i <= x < i + run_fwd(s, i) ==> #[trigger] s[x] == Cell::On,
        i + run_fwd(s, i) < s.len() ==> s[i + run_fwd(s, i)] != Cell::On,
    decreases s.len() - i,
{
    if i < s.len() && s[i] == Cell::On {
        lemma_run_fwd(s, i + 1);
    }
}

/// The painted run back from `i` stays in the line, is all painted, and stops at a cell that is not.
pub proof fn lemma_run_back(s: Seq<Cell>, i: int)
    requires
        -1 <= i < s.len(),
    ensures
        run_back(s, i) <= i + 1,
        forall|x: int| i - run_back(s, i) < x <= i ==> #[trigger] s[x] == Cell::On,
        i - run_back(s, i) >= 0 ==> s[i - run_back(s, i)] != Cell::On,
    decreases i + 1,
{
    if i >= 0 && s[i] == Cell::On {
        lemma_run_back(s, i - 1);
    }
}

/// Number of undetermined cells of a line.
pub open spec fn count_undetermined(s: Seq<Cell>) -> nat
    decreases s.len(),
{
    if s.len() == 0 {
        0
    } else {
        count_undetermined(s.drop_last()) + if s.last() == Cell::Undetermined {
            1nat
        } else {
            0
        }
    }
}

/// Refinement is transitive.
pub proof fn lemma_refines_trans(a: Seq<Cell>, b: Seq<Cell>, c: Seq<Cell>)
    requires
        refines(a, b),
        refines(b, c),
    ensures
        refines(a, c),
{
}

/// Deciding cells never adds undetermined ones, and any change removes at least one.
pub proof fn lemma_refines_count(a: Seq<Cell>, b: Seq<Cell>)
    requires
        refines(a, b),
    ensures
        count_undetermined(b) <= count_undetermined(a),
        a != b ==> count_undetermined(b) < count_undetermined(a),
        count_undetermined(a) <= a.len(),
    decreases a.len(),
{
    if a.len() > 0 {
        lemma_refines_count(a.drop_last(), b.drop_last());
        if a != b && a.drop_last() == b.drop_last() {
            assert(a.last() != b.last()) by {
                if a.last() == b.last() {
                    assert(a =~= b.drop_last().push(b.last()));
                    assert(b =~= b.drop_last().push(b.last()));
                }
            }
        }
    } else {
        assert(a =~= b);
    }
}

/// The runs of a region list start left to right.
pub proof fn lemma_regions_sorted(s: Seq<Cell>, incl: bool, lo: int, hi: int, r: Seq<(usize, usize)>, a: int, b: int)
    requires
        is_regions(s, incl, lo, hi, r),
        0 <= a < b < r.len(),
    ensures
        r[a].0 < r[b].0,
    decreases b - a,
{
    assert(r[b - 1].0 + r[b - 1].1 < r[b].0);
    if a < b - 1 {
        lemma_regions_sorted(s, incl, lo, hi, r, a, b - 1);
    }
}

} // verus!
