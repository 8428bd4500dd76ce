//! Counting the positions of a rectangle at which a predicate holds.

use vstd::prelude::*;

verus! {

/// How many `x` in `0..w` satisfy `f(x, y)`.
pub open spec fn row_tally(f: spec_fn(int, int) -> bool, y: int, w: int) -> nat
    decreases w,
{
    if w <= 0 {
        0
    } else {
        row_tally(f, y, w - 1) + if f(w - 1, y) {
            1nat
        } else {
            0nat
        }
    }
}

/// How many `(x, y)` with `0 <= x < w` and `0 <= y < h` satisfy `f(x, y)`.
pub open spec fn tally(f: spec_fn(int, int) -> bool, w: int, h: int) -> nat
    decreases h,
{
    if h <= 0 {
        0
    } else {
        tally(f, w, h - 1) + row_tally(f, h - 1, w)
    }
}

/// Predicates that agree along a row count the same there.
pub proof fn lemma_row_tally_same(
    f: spec_fn(int, int) -> bool,
    g: spec_fn(int, int) -> bool,
    y: int,
    w: int,
)
    requires
        forall|x: int| 0 <= x < w ==> #[trigger] f(x, y) == #[trigger] g(x, y),
    ensures
        row_tally(f, y, w) == row_tally(g, y, w),
    decreases w,
{
    if w > 0 {
        lemma_row_tally_same(f, g, y, w - 1);
    }
}

/// Turning the predicate on at one position of a row adds one to its count.
pub proof fn lemma_row_tally_gain(
    f: spec_fn(int, int) -> bool,
    g: spec_fn(int, int) -> bool,
    y: int,
    w: int,
    px: int,
)
    requires
        0 <= px < w,
        !f(px, y),
        g(px, y),
        forall|x: int| 0 <= x < w && x != px ==> #[trigger] f(x, y) == #[trigger] g(x, y),
    ensures
        row_tally(g, y, w) == row_tally(f, y, w) + 1,
    decreases w,
{
    if w - 1 == px {
        lemma_row_tally_same(f, g, y, w - 1);
    } else {
        lemma_row_tally_gain(f, g, y, w - 1, px);
    }
}

/// Predicates that agree on the whole rectangle count the same.
pub proof fn lemma_tally_same(
    f: spec_fn(int, int) -> bool,
    g: spec_fn(int, int) -> bool,
    w: int,
    h: int,
)
    requires
        forall|x: int, y: int| 0 <= x < w && 0 <= y < h ==> #[trigger] f(x, y) == #[trigger] g(x, y),
    ensures
        tally(f, w, h) == tally(g, w, h),
    decreases h,
{
    if h > 0 {
        lemma_tally_same(f, g, w, h - 1);
        lemma_row_tally_same(f, g, h - 1, w);
    }
}

/// Turning the predicate on at one position of the rectangle adds one to the
/// count.
pub proof fn lemma_tally_gain(
    f: spec_fn(int, int) -> bool,
    g: spec_fn(int, int) -> bool,
    w: int,
    h: int,
    px: int,
    py: int,
)
    requires
        0 <= px < w,
        0 <= py < h,
        !f(px, py),
        g(px, py),
        forall|x: int, y: int|
            0 <= x < w && 0 <= y < h && (x != px || y != py) ==> #[trigger] f(x, y) == #[trigger] g(x, y),
    ensures
        tally(g, w, h) == tally(f, w, h) + 1,
    decreases h,
{
    if h - 1 == py {
        lemma_tally_same(f, g, w, h - 1);
        lemma_row_tally_gain(f, g, h - 1, w, px);
    } else {
        lemma_tally_gain(f, g, w, h - 1, px, py);
        lemma_row_tally_same(f, g, h - 1, w);
    }
}

/// A predicate that holds nowhere on the rectangle counts zero.
pub proof fn lemma_tally_none(f: spec_fn(int, int) -> bool, w: int, h: int)
    requires
        forall|x: int, y: int| 0 <= x < w && 0 <= y < h ==> !#[trigger] f(x, y),
    ensures
        tally(f, w, h) == 0,
    decreases h,
{
    if h > 0 {
        lemma_tally_none(f, w, h - 1);
        lemma_row_tally_none(f, h - 1, w);
    }
}

/// A predicate that holds nowhere along a row counts zero there.
pub proof fn lemma_row_tally_none(f: spec_fn(int, int) -> bool, y: int, w: int)
    requires
        forall|x: int| 0 <= x < w ==> !#[trigger] f(x, y),
    ensures
        row_tally(f, y, w) == 0,
    decreases w,
{
    if w > 0 {
        lemma_row_tally_none(f, y, w - 1);
    }
}

/// A predicate that holds everywhere along a row counts its width.
pub proof fn lemma_row_tally_all(f: spec_fn(int, int) -> bool, y: int, w: int)
    requires
        0 <= w,
        forall|x: int| 0 <= x < w ==> #[trigger] f(x, y),
    ensures
        row_tally(f, y, w) == w,
    decreases w,
{
    if w > 0 {
        lemma_row_tally_all(f, y, w - 1);
    }
}

/// A predicate that holds everywhere on the rectangle counts its area.
pub proof fn lemma_tally_all(f: spec_fn(int, int) -> bool, w: int, h: int)
    requires
        0 <= w,
        0 <= h,
        forall|x: int, y: int| 0 <= x < w && 0 <= y < h ==> #[trigger] f(x, y),
    ensures
        tally(f, w, h) == w * h,
    decreases h,
{
    if h > 0 {
        lemma_tally_all(f, w, h - 1);
        lemma_row_tally_all(f, h - 1, w);
        assert(w * (h - 1) + w == w * h) by (nonlinear_arith);
    } else {
        assert(w * h == 0) by (nonlinear_arith)
            requires
                h == 0,
        ;
    }
}

/// A row of width `w` counts at most `w`.
pub proof fn lemma_row_tally_bound(f: spec_fn(int, int) -> bool, y: int, w: int)
    requires
        0 <= w,
    ensures
        row_tally(f, y, w) <= w,
    decreases w,
{
    if w > 0 {
        lemma_row_tally_bound(f, y, w - 1);
    }
}

/// A rectangle counts at most its area.
pub proof fn lemma_tally_bound(f: spec_fn(int, int) -> bool, w: int, h: int)
    requires
        0 <= w,
        0 <= h,
    ensures
        tally(f, w, h) <= w * h,
    decreases h,
{
    if h > 0 {
        lemma_tally_bound(f, w, h - 1);
        lemma_row_tally_bound(f, h - 1, w);
        assert(w * (h - 1) + w == w * h) by (nonlinear_arith);
    } else {
        assert(w * h == 0) by (nonlinear_arith)
            requires
                h == 0,
        ;
    }
}

} // verus!
