//! Fields over the grid that are written cell by cell: the interior in row-major
//! order, each cell from a formula, the walls left as they were.

use crate::grid::{
    at, cell_index, interior, lemma_at_update, lemma_fields_equal, lemma_offset_parts, on_grid,
};
use vstd::prelude::*;

verus! {

/// The field that holds `f(i, j)` in every interior cell `(i, j)` and the values of
/// `x` along the walls.
pub open spec fn interior_map<T>(n: int, x: Seq<T>, f: spec_fn(int, int) -> T) -> Seq<T> {
    Seq::new(
        x.len(),
        |k: int|
            if interior(n, k % n, k / n) {
                f(k % n, k / n)
            } else {
                x[k]
            },
    )
}

/// Whether a row-major walk reaches `(a, b)` before `(i, j)`.
pub open spec fn before(i: int, j: int, a: int, b: int) -> bool {
    b < j || (b == j && a < i)
}

/// Whether `cur` is `base` with `f` written to the interior cells that a row-major
/// walk reaches before `(i, j)`.
pub open spec fn filled_to<T>(
    n: int,
    cur: Seq<T>,
    base: Seq<T>,
    f: spec_fn(int, int) -> T,
    i: int,
    j: int,
) -> bool {
    &&& cur.len() == base.len()
    &&& forall|a: int, b: int|
        on_grid(n, a, b) ==> #[trigger] at(cur, n, a, b) == if interior(n, a, b) && before(
            i,
            j,
            a,
            b,
        ) {
            f(a, b)
        } else {
            at(base, n, a, b)
        }
}

/// What `interior_map` holds for a cell of the grid.
pub proof fn lemma_at_interior_map<T>(
    n: int,
    x: Seq<T>,
    f: spec_fn(int, int) -> T,
    i: int,
    j: int,
)
    requires
        n >= 1,
        x.len() == n * n,
        on_grid(n, i, j),
    ensures
        at(interior_map(n, x, f), n, i, j) == if interior(n, i, j) {
            f(i, j)
        } else {
            at(x, n, i, j)
        },
{
    lemma_offset_parts(n, i, j);
}

/// Where `p` holds of every value of `x` and of `f` in every interior cell, it
/// holds of every value of `interior_map`.
pub proof fn lemma_interior_map_all<T>(
    n: int,
    x: Seq<T>,
    f: spec_fn(int, int) -> T,
    p: spec_fn(T) -> bool,
)
    requires
        forall|k: int| 0 <= k < x.len() ==> p(#[trigger] x[k]),
        forall|i: int, j: int| interior(n, i, j) ==> p(#[trigger] f(i, j)),
    ensures
        forall|k: int| 0 <= k < x.len() ==> p(#[trigger] interior_map(n, x, f)[k]),
{
    assert forall|k: int| 0 <= k < x.len() implies p(#[trigger] interior_map(n, x, f)[k]) by {
        if interior(n, k % n, k / n) {
            assert(p(f(k % n, k / n)));
        } else {
            assert(p(x[k]));
        }
    }
}

/// Before the walk starts nothing is written.
pub proof fn lemma_filled_start<T>(n: int, base: Seq<T>, f: spec_fn(int, int) -> T)
    ensures
        filled_to(n, base, base, f, 1, 1),
{
}

/// Writing `f(i, j)` to the interior cell `(i, j)` moves the walk one cell on.
pub proof fn lemma_filled_step<T>(
    n: int,
    cur: Seq<T>,
    base: Seq<T>,
    f: spec_fn(int, int) -> T,
    i: int,
    j: int,
)
    requires
        n >= 1,
        base.len() == n * n,
        interior(n, i, j),
        filled_to(n, cur, base, f, i, j),
    ensures
        filled_to(n, cur.update(cell_index(n, i, j), f(i, j)), base, f, i + 1, j),
{
    lemma_offset_parts(n, i, j);
    let next = cur.update(cell_index(n, i, j), f(i, j));
    assert(next.len() == base.len());
    assert forall|a: int, b: int| on_grid(n, a, b) implies #[trigger] at(next, n, a, b) == if
        interior(n, a, b) && before(i + 1, j, a, b) {
        f(a, b)
    } else {
        at(base, n, a, b)
    } by {
        lemma_at_update(cur, n, i, j, f(i, j), a, b);
        assert(at(cur, n, a, b) == if interior(n, a, b) && before(i, j, a, b) {
            f(a, b)
        } else {
            at(base, n, a, b)
        });
    }
}

/// At the end of a row the walk stands at the start of the next one.
pub proof fn lemma_filled_next_row<T>(
    n: int,
    cur: Seq<T>,
    base: Seq<T>,
    f: spec_fn(int, int) -> T,
    j: int,
)
    requires
        filled_to(n, cur, base, f, n - 1, j),
    ensures
        filled_to(n, cur, base, f, 1, j + 1),
{
    assert forall|a: int, b: int| on_grid(n, a, b) implies #[trigger] at(cur, n, a, b) == if
        interior(n, a, b) && before(1, j + 1, a, b) {
        f(a, b)
    } else {
        at(base, n, a, b)
    } by {
        assert(interior(n, a, b) ==> (before(1, j + 1, a, b) <==> before(n - 1, j, a, b)));
    }
}

/// When the walk has passed the last interior row, the field is `interior_map`.
pub proof fn lemma_filled_done<T>(n: int, cur: Seq<T>, base: Seq<T>, f: spec_fn(int, int) -> T)
    requires
        n >= 1,
        base.len() == n * n,
        filled_to(n, cur, base, f, 1, n - 1),
    ensures
        cur == interior_map(n, base, f),
{
    let target = interior_map(n, base, f);
    assert forall|i: int, j: int| on_grid(n, i, j) implies #[trigger] at(cur, n, i, j) == at(
        target,
        n,
        i,
        j,
    ) by {
        lemma_at_interior_map(n, base, f, i, j);
    }
    lemma_fields_equal(n, cur, target);
}

} // verus!
