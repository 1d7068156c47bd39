//! The square grid: clamping of coordinates and row-major indexing.

use vstd::prelude::*;

verus! {

/// Smallest side of a grid: one interior cell between two walls.
pub const MIN_SIZE: i32 = 3;

/// Largest side of a grid: the largest whose cell count fits in an `i32`.
pub const MAX_SIZE: i32 = 46340;

/// `x` limited to the interval from `min` to `max`; the lower bound is tested first.
pub open spec fn clamp(x: int, min: int, max: int) -> int {
    if x < min {
        min
    } else if x > max {
        max
    } else {
        x
    }
}

/// The flat offset of the cell nearest to `(x, y)` on a grid of side `size`.
pub open spec fn cell_index(size: int, x: int, y: int) -> int {
    clamp(x, 0, size - 1) + clamp(y, 0, size - 1) * size
}

/// A side that a grid can have.
pub open spec fn valid_size(size: int) -> bool {
    MIN_SIZE <= size <= MAX_SIZE
}

/// Limits `x` to the interval from `min` to `max`.
pub fn constrain(x: i32, min: i32, max: i32) -> (r: i32)
    ensures
        r == clamp(x as int, min as int, max as int),
{
    if x < min {
        return min;
    } else if x > max {
        return max;
    }
    x
}

/// Every clamped offset lies on the grid.
pub proof fn lemma_cell_index_bounds(size: int, x: int, y: int)
    requires
        size >= 1,
    ensures
        0 <= cell_index(size, x, y) < size * size,
{
    let cx = clamp(x, 0, size - 1);
    let cy = clamp(y, 0, size - 1);
    assert(0 <= cy * size && cy * size <= (size - 1) * size) by (nonlinear_arith)
        requires
            0 <= cy <= size - 1,
            size >= 1,
    ;
    assert((size - 1) * size + size == size * size) by (nonlinear_arith);
}

/// Maps grid coordinates to the flat offset of a cell. Coordinates outside the grid
/// are not refused: each is clamped to the nearest row or column first.
#[allow(non_snake_case)]
pub fn IX(size: i32, x_: i32, y_: i32) -> (r: usize)
    requires
        1 <= size <= MAX_SIZE,
    ensures
        r == cell_index(size as int, x_ as int, y_ as int),
        r < size * size,
{
    let x = constrain(x_, 0, size - 1);
    let y = constrain(y_, 0, size - 1);
    proof {
        lemma_cell_index_bounds(size as int, x_ as int, y_ as int);
        assert(size * size <= MAX_SIZE * MAX_SIZE) by (nonlinear_arith)
            requires
                1 <= size <= MAX_SIZE,
        ;
        assert(0 <= y * size <= (size - 1) * size) by (nonlinear_arith)
            requires
                0 <= y <= size - 1,
                size >= 1,
        ;
    }
    (x + y * size) as usize
}

/// Whether `(i, j)` names a cell of the grid.
pub open spec fn on_grid(n: int, i: int, j: int) -> bool {
    0 <= i < n && 0 <= j < n
}

/// Whether `(i, j)` names a cell that touches no wall.
pub open spec fn interior(n: int, i: int, j: int) -> bool {
    1 <= i <= n - 2 && 1 <= j <= n - 2
}

/// The value that a field holds for the cell nearest to `(i, j)`.
pub open spec fn at<T>(x: Seq<T>, n: int, i: int, j: int) -> T {
    x[cell_index(n, i, j)]
}

/// On the grid, the offset of `(i, j)` is `i + j * n`, and column and row are read
/// back from it by remainder and quotient.
pub proof fn lemma_offset_parts(n: int, i: int, j: int)
    requires
        n >= 1,
        on_grid(n, i, j),
    ensures
        cell_index(n, i, j) == i + j * n,
        0 <= cell_index(n, i, j) < n * n,
        cell_index(n, i, j) % n == i,
        cell_index(n, i, j) / n == j,
{
    lemma_cell_index_bounds(n, i, j);
    vstd::arithmetic::div_mod::lemma_fundamental_div_mod_converse(i + j * n, n, j, i);
}

/// Every offset below `n * n` is the offset of its own column and row.
pub proof fn lemma_offset_split(n: int, k: int)
    requires
        n >= 1,
        0 <= k < n * n,
    ensures
        on_grid(n, k % n, k / n),
        cell_index(n, k % n, k / n) == k,
{
    vstd::arithmetic::div_mod::lemma_fundamental_div_mod(k, n);
    vstd::arithmetic::div_mod::lemma_mod_bound(k, n);
    let q = k / n;
    let r = k % n;
    assert(n * q == q * n) by (nonlinear_arith);
    assert(0 <= q < n) by (nonlinear_arith)
        requires
            k == q * n + r,
            0 <= r < n,
            0 <= k < n * n,
            n >= 1,
    ;
}

/// What a field holds after one cell was written.
pub proof fn lemma_at_update<T>(x: Seq<T>, n: int, i: int, j: int, v: T, a: int, b: int)
    requires
        n >= 1,
        x.len() == n * n,
        on_grid(n, i, j),
        on_grid(n, a, b),
    ensures
        at(x.update(cell_index(n, i, j), v), n, a, b) == if a == i && b == j {
            v
        } else {
            at(x, n, a, b)
        },
{
    lemma_offset_parts(n, i, j);
    lemma_offset_parts(n, a, b);
}

/// Two fields of the grid's size that agree in every cell are one field.
pub proof fn lemma_fields_equal<T>(n: int, x: Seq<T>, y: Seq<T>)
    requires
        n >= 1,
        x.len() == n * n,
        y.len() == n * n,
        forall|i: int, j: int| on_grid(n, i, j) ==> #[trigger] at(x, n, i, j) == at(y, n, i, j),
    ensures
        x == y,
{
    assert forall|k: int| 0 <= k < x.len() implies x[k] == y[k] by {
        lemma_offset_split(n, k);
        assert(at(x, n, k % n, k / n) == at(y, n, k % n, k / n));
    }
    assert(x =~= y);
}

} // verus!
