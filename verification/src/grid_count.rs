//! Counting the cells of a rectangular grid that satisfy a predicate.
//!
//! The counts serve as termination measures: marking a cell, opening a wall or
//! extending a route each flips the predicate at exactly one cell.
use vstd::prelude::*;

verus! {

/// Number of columns `x` in `0..n` of row `y` for which `p(x, y)` holds.
pub open spec fn count_in_row(p: spec_fn(int, int) -> bool, y: int, n: int) -> nat
    decreases n,
{
    if n <= 0 {
        0
    } else {
        count_in_row(p, y, n - 1) + if p(n - 1, y) {
            1nat
        } else {
            0nat
        }
    }
}

/// Number of cells `(x, y)` with `x` in `0..w` and `y` in `0..n` for which `p(x, y)` holds.
pub open spec fn count_in_grid(p: spec_fn(int, int) -> bool, w: int, n: int) -> nat
    decreases n,
{
    if n <= 0 {
        0
    } else {
        count_in_grid(p, w, n - 1) + count_in_row(p, n - 1, w)
    }
}

proof fn lemma_row_count_agree(p: spec_fn(int, int) -> bool, q: spec_fn(int, int) -> bool, y: int, n: int)
    requires
        forall|x: int| 0 <= x < n ==> #[trigger] p(x, y) == q(x, y),
    ensures
        count_in_row(p, y, n) == count_in_row(q, y, n),
    decreases n,
{
    if n > 0 {
        lemma_row_count_agree(p, q, y, n - 1);
        assert(p(n - 1, y) == q(n - 1, y));
    }
}

proof fn lemma_row_count_flip(
    p: spec_fn(int, int) -> bool,
    q: spec_fn(int, int) -> bool,
    y: int,
    n: int,
    x0: int,
)
    requires
        0 <= x0 < n,
        p(x0, y),
        !q(x0, y),
        forall|x: int| 0 <= x < n && x != x0 ==> #[trigger] p(x, y) == q(x, y),
    ensures
        count_in_row(q, y, n) + 1 == count_in_row(p, y, n),
    decreases n,
{
    if n - 1 == x0 {
        lemma_row_count_agree(p, q, y, n - 1);
    } else {
        lemma_row_count_flip(p, q, y, n - 1, x0);
        assert(p(n - 1, y) == q(n - 1, y));
    }
}

proof fn lemma_grid_count_agree(p: spec_fn(int, int) -> bool, q: spec_fn(int, int) -> bool, w: int, n: int)
    requires
        forall|x: int, y: int| 0 <= x < w && 0 <= y < n ==> #[trigger] p(x, y) == q(x, y),
    ensures
        count_in_grid(p, w, n) == count_in_grid(q, w, n),
    decreases n,
{
    if n > 0 {
        lemma_grid_count_agree(p, q, w, n - 1);
        assert forall|x: int| 0 <= x < w implies #[trigger] p(x, n - 1) == q(x, n - 1) by {}
        lemma_row_count_agree(p, q, n - 1, w);
    }
}

/// Two predicates that agree on a `w` by `h` grid count the same cells.
pub proof fn lemma_count_agree(p: spec_fn(int, int) -> bool, q: spec_fn(int, int) -> bool, w: int, h: int)
    requires
        forall|x: int, y: int| 0 <= x < w && 0 <= y < h ==> #[trigger] p(x, y) == q(x, y),
    ensures
        count_in_grid(p, w, h) == count_in_grid(q, w, h),
{
    lemma_grid_count_agree(p, q, w, h);
}

proof fn lemma_row_count_mono(p: spec_fn(int, int) -> bool, q: spec_fn(int, int) -> bool, y: int, n: int)
    requires
        forall|x: int| 0 <= x < n && #[trigger] p(x, y) ==> q(x, y),
    ensures
        count_in_row(p, y, n) <= count_in_row(q, y, n),
    decreases n,
{
    if n > 0 {
        lemma_row_count_mono(p, q, y, n - 1);
        assert(p(n - 1, y) ==> q(n - 1, y));
    }
}

/// A predicate that implies another on a `w` by `h` grid counts no more cells.
pub proof fn lemma_count_mono(p: spec_fn(int, int) -> bool, q: spec_fn(int, int) -> bool, w: int, h: int)
    requires
        forall|x: int, y: int| 0 <= x < w && 0 <= y < h && #[trigger] p(x, y) ==> q(x, y),
    ensures
        count_in_grid(p, w, h) <= count_in_grid(q, w, h),
    decreases h,
{
    if h > 0 {
        lemma_count_mono(p, q, w, h - 1);
        assert forall|x: int| 0 <= x < w && #[trigger] p(x, h - 1) implies q(x, h - 1) by {}
        lemma_row_count_mono(p, q, h - 1, w);
    }
}

/// Turning the predicate off at one cell of the grid lowers the count by one.
pub proof fn lemma_count_flip(
    p: spec_fn(int, int) -> bool,
    q: spec_fn(int, int) -> bool,
    w: int,
    h: int,
    x0: int,
    y0: int,
)
    requires
        0 <= x0 < w,
        0 <= y0 < h,
        p(x0, y0),
        !q(x0, y0),
        forall|x: int, y: int|
            0 <= x < w && 0 <= y < h && !(x == x0 && y == y0) ==> #[trigger] p(x, y) == q(x, y),
    ensures
        count_in_grid(q, w, h) + 1 == count_in_grid(p, w, h),
    decreases h,
{
    if h - 1 == y0 {
        lemma_grid_count_agree(p, q, w, h - 1);
        assert forall|x: int| 0 <= x < w && x != x0 implies #[trigger] p(x, y0) == q(x, y0) by {}
        lemma_row_count_flip(p, q, y0, w, x0);
    } else {
        lemma_count_flip(p, q, w, h - 1, x0, y0);
        assert forall|x: int| 0 <= x < w implies #[trigger] p(x, h - 1) == q(x, h - 1) by {}
        lemma_row_count_agree(p, q, h - 1, w);
    }
}

} // verus!
