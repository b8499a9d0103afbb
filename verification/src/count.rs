//! Counting the squares of a rectangle that satisfy a predicate.
use vstd::prelude::*;

verus! {

/// How many of the squares `(r, 0)` .. `(r, n - 1)` satisfy `f`.
pub open spec fn count_row(f: spec_fn(int, int) -> bool, r: int, n: int) -> nat
    decreases n,
{
    if n <= 0 {
        0
    } else {
        count_row(f, r, n - 1) + if f(r, n - 1) {
            1nat
        } else {
            0nat
        }
    }
}

/// How many squares of the `rows` by `cols` rectangle satisfy `f`.
pub open spec fn count_rect(f: spec_fn(int, int) -> bool, rows: int, cols: int) -> nat
    decreases rows,
{
    if rows <= 0 {
        0
    } else {
        count_rect(f, rows - 1, cols) + count_row(f, rows - 1, cols)
    }
}

proof fn lemma_count_row_mono(f: spec_fn(int, int) -> bool, g: spec_fn(int, int) -> bool, r: int, n: int)
    requires
        forall|c: int| 0 <= c < n ==> #[trigger] f(r, c) ==> g(r, c),
    ensures
        count_row(f, r, n) <= count_row(g, r, n),
    decreases n,
{
    if n > 0 {
        lemma_count_row_mono(f, g, r, n - 1);
        assert(f(r, n - 1) ==> g(r, n - 1));
    }
}

proof fn lemma_count_row_strict(
    f: spec_fn(int, int) -> bool,
    g: spec_fn(int, int) -> bool,
    r: int,
    n: int,
    c0: int,
)
    requires
        forall|c: int| 0 <= c < n ==> #[trigger] f(r, c) ==> g(r, c),
        0 <= c0 < n,
        !f(r, c0),
        g(r, c0),
    ensures
        count_row(f, r, n) < count_row(g, r, n),
    decreases n,
{
    if c0 < n - 1 {
        lemma_count_row_strict(f, g, r, n - 1, c0);
        assert(f(r, n - 1) ==> g(r, n - 1));
    } else {
        lemma_count_row_mono(f, g, r, n - 1);
    }
}

/// Counting is monotone in the predicate.
pub proof fn lemma_count_mono(
    f: spec_fn(int, int) -> bool,
    g: spec_fn(int, int) -> bool,
    rows: int,
    cols: int,
)
    requires
        forall|r: int, c: int| 0 <= r < rows && 0 <= c < cols ==> #[trigger] f(r, c) ==> g(r, c),
    ensures
        count_rect(f, rows, cols) <= count_rect(g, rows, cols),
    decreases rows,
{
    if rows > 0 {
        lemma_count_mono(f, g, rows - 1, cols);
        assert forall|c: int| 0 <= c < cols && #[trigger] f(rows - 1, c) implies g(rows - 1, c) by {
        }
        lemma_count_row_mono(f, g, rows - 1, cols);
    }
}

/// Counting is strictly monotone when one more square satisfies the larger predicate.
pub proof fn lemma_count_strict(
    f: spec_fn(int, int) -> bool,
    g: spec_fn(int, int) -> bool,
    rows: int,
    cols: int,
    r0: int,
    c0: int,
)
    requires
        forall|r: int, c: int| 0 <= r < rows && 0 <= c < cols ==> #[trigger] f(r, c) ==> g(r, c),
        0 <= r0 < rows,
        0 <= c0 < cols,
        !f(r0, c0),
        g(r0, c0),
    ensures
        count_rect(f, rows, cols) < count_rect(g, rows, cols),
    decreases rows,
{
    assert forall|c: int| 0 <= c < cols && #[trigger] f(rows - 1, c) implies g(rows - 1, c) by {}
    if r0 < rows - 1 {
        lemma_count_strict(f, g, rows - 1, cols, r0, c0);
        lemma_count_row_mono(f, g, rows - 1, cols);
    } else {
        lemma_count_mono(f, g, rows - 1, cols);
        lemma_count_row_strict(f, g, rows - 1, cols, c0);
    }
}

} // verus!

verus! {

proof fn lemma_count_row_ext(f: spec_fn(int, int) -> bool, g: spec_fn(int, int) -> bool, r: int, n: int)
    requires
        forall|c: int| 0 <= c < n ==> #[trigger] f(r, c) == g(r, c),
    ensures
        count_row(f, r, n) == count_row(g, r, n),
    decreases n,
{
    if n > 0 {
        lemma_count_row_ext(f, g, r, n - 1);
        assert(f(r, n - 1) == g(r, n - 1));
    }
}

/// Predicates that agree on the rectangle count alike.
pub proof fn lemma_count_ext(f: spec_fn(int, int) -> bool, g: spec_fn(int, int) -> bool, rows: int, cols: int)
    requires
        forall|r: int, c: int| 0 <= r < rows && 0 <= c < cols ==> #[trigger] f(r, c) == g(r, c),
    ensures
        count_rect(f, rows, cols) == count_rect(g, rows, cols),
    decreases rows,
{
    if rows > 0 {
        lemma_count_ext(f, g, rows - 1, cols);
        assert forall|c: int| 0 <= c < cols implies #[trigger] f(rows - 1, c) == g(rows - 1, c) by {}
        lemma_count_row_ext(f, g, rows - 1, cols);
    }
}

proof fn lemma_count_row_insert(
    f: spec_fn(int, int) -> bool,
    g: spec_fn(int, int) -> bool,
    r: int,
    n: int,
    c0: int,
)
    requires
        forall|c: int| 0 <= c < n ==> #[trigger] g(r, c) == (f(r, c) || c == c0),
        0 <= c0 < n,
        !f(r, c0),
    ensures
        count_row(g, r, n) == count_row(f, r, n) + 1,
    decreases n,
{
    if c0 < n - 1 {
        lemma_count_row_insert(f, g, r, n - 1, c0);
        assert(g(r, n - 1) == f(r, n - 1));
    } else {
        assert forall|c: int| 0 <= c < n - 1 implies #[trigger] f(r, c) == g(r, c) by {}
        lemma_count_row_ext(f, g, r, n - 1);
    }
}

/// Adding one square to a predicate adds one to its count.
pub proof fn lemma_count_insert(
    f: spec_fn(int, int) -> bool,
    g: spec_fn(int, int) -> bool,
    rows: int,
    cols: int,
    r0: int,
    c0: int,
)
    requires
        forall|r: int, c: int|
            0 <= r < rows && 0 <= c < cols ==> #[trigger] g(r, c) == (f(r, c) || (r == r0 && c
                == c0)),
        0 <= r0 < rows,
        0 <= c0 < cols,
        !f(r0, c0),
    ensures
        count_rect(g, rows, cols) == count_rect(f, rows, cols) + 1,
    decreases rows,
{
    if r0 < rows - 1 {
        lemma_count_insert(f, g, rows - 1, cols, r0, c0);
        assert forall|c: int| 0 <= c < cols implies #[trigger] f(rows - 1, c) == g(rows - 1, c) by {}
        lemma_count_row_ext(f, g, rows - 1, cols);
    } else {
        assert forall|r: int, c: int| 0 <= r < rows - 1 && 0 <= c < cols implies #[trigger] f(r, c)
            == g(r, c) by {}
        lemma_count_ext(f, g, rows - 1, cols);
        assert forall|c: int| 0 <= c < cols implies #[trigger] g(rows - 1, c) == (f(rows - 1, c)
            || c == c0) by {}
        lemma_count_row_insert(f, g, rows - 1, cols, c0);
    }
}

proof fn lemma_count_row_none(f: spec_fn(int, int) -> bool, r: int, n: int)
    requires
        forall|c: int| 0 <= c < n ==> !#[trigger] f(r, c),
    ensures
        count_row(f, r, n) == 0,
    decreases n,
{
    if n > 0 {
        lemma_count_row_none(f, r, n - 1);
    }
}

/// A predicate that holds nowhere in the rectangle counts zero.
pub proof fn lemma_count_none(f: spec_fn(int, int) -> bool, rows: int, cols: int)
    requires
        forall|r: int, c: int| 0 <= r < rows && 0 <= c < cols ==> !#[trigger] f(r, c),
    ensures
        count_rect(f, rows, cols) == 0,
    decreases rows,
{
    if rows > 0 {
        lemma_count_none(f, rows - 1, cols);
        assert forall|c: int| 0 <= c < cols implies !#[trigger] f(rows - 1, c) by {}
        lemma_count_row_none(f, rows - 1, cols);
    }
}

} // verus!
