//! Boundary conditions: what the cells along the four walls hold.

use crate::grid::{
    at, cell_index, interior, lemma_at_update, lemma_cell_index_bounds, lemma_fields_equal,
    lemma_offset_parts, lemma_offset_split, on_grid, valid_size, IX,
};
use crate::number::{
    all_zero, half, lemma_zero_arithmetic, product, saturating_add, saturating_mul, sum, Real,
};
use vstd::prelude::*;

verus! {

/// How a field behaves at the walls.
#[derive(Clone, Copy, Debug)]
pub enum Boundary {
    /// A wall cell copies its interior neighbour (density, pressure, divergence).
    Reflect,
    /// As `Reflect`, but the left and right walls negate it (the x-velocity).
    MirrorX,
    /// As `Reflect`, but the top and bottom walls negate it (the y-velocity).
    MirrorY,
}

/// `v`, negated where `flip` holds.
pub open spec fn mirrored(flip: bool, v: Real) -> Real {
    if flip {
        v.negated()
    } else {
        v
    }
}

/// Whether `(i, j)` is one of the four corners.
pub open spec fn corner(n: int, i: int, j: int) -> bool {
    (i == 0 || i == n - 1) && (j == 0 || j == n - 1)
}

/// What a wall cell that is no corner holds: its interior neighbour, negated where
/// the field is mirrored at that wall.
pub open spec fn wall_cell(b: Boundary, n: int, x: Seq<Real>, i: int, j: int) -> Real {
    if j == 0 {
        mirrored(b is MirrorY, at(x, n, i, 1))
    } else if j == n - 1 {
        mirrored(b is MirrorY, at(x, n, i, n - 2))
    } else if i == 0 {
        mirrored(b is MirrorX, at(x, n, 1, j))
    } else {
        mirrored(b is MirrorX, at(x, n, n - 2, j))
    }
}

/// What a corner holds: half the sum of its neighbour along the row and its
/// neighbour along the column, both wall cells.
pub open spec fn corner_cell(b: Boundary, n: int, x: Seq<Real>, i: int, j: int) -> Real {
    let beside = if i == 0 {
        1
    } else {
        n - 2
    };
    let above = if j == 0 {
        1
    } else {
        n - 2
    };
    product(half(), sum(wall_cell(b, n, x, beside, j), wall_cell(b, n, x, i, above)))
}

/// What the cell `(i, j)` holds once the boundary is enforced on `x`.
pub open spec fn boundary_cell(b: Boundary, n: int, x: Seq<Real>, i: int, j: int) -> Real {
    if interior(n, i, j) {
        at(x, n, i, j)
    } else if corner(n, i, j) {
        corner_cell(b, n, x, i, j)
    } else {
        wall_cell(b, n, x, i, j)
    }
}

/// The field `x` with the boundary enforced: the interior as it was, the walls
/// set from the interior, the corners from the walls.
pub open spec fn enforce_boundary(b: Boundary, n: int, x: Seq<Real>) -> Seq<Real> {
    Seq::new(x.len(), |k: int| boundary_cell(b, n, x, k % n, k / n))
}

/// What the enforced field holds for a cell of the grid.
pub proof fn lemma_at_enforce_boundary(b: Boundary, n: int, x: Seq<Real>, i: int, j: int)
    requires
        n >= 1,
        x.len() == n * n,
        on_grid(n, i, j),
    ensures
        at(enforce_boundary(b, n, x), n, i, j) == boundary_cell(b, n, x, i, j),
{
    lemma_offset_parts(n, i, j);
}

/// A field that is zero everywhere stays so when the boundary is enforced.
pub proof fn lemma_boundary_keeps_zero(b: Boundary, n: int, x: Seq<Real>)
    requires
        valid_size(n),
        x.len() == n * n,
        all_zero(x),
    ensures
        enforce_boundary(b, n, x).len() == n * n,
        all_zero(enforce_boundary(b, n, x)),
{
    let y = enforce_boundary(b, n, x);
    assert forall|k: int| 0 <= k < y.len() implies (#[trigger] y[k]).is_zero() by {
        let i = k % n;
        let j = k / n;
        lemma_offset_split(n, k);
        lemma_wall_of_zero(b, n, x, i, j);
        lemma_wall_of_zero(b, n, x, 1, j);
        lemma_wall_of_zero(b, n, x, n - 2, j);
        lemma_wall_of_zero(b, n, x, i, 1);
        lemma_wall_of_zero(b, n, x, i, n - 2);
        lemma_cell_index_bounds(n, i, j);
        if corner(n, i, j) {
            let beside = if i == 0 {
                1
            } else {
                n - 2
            };
            let above = if j == 0 {
                1
            } else {
                n - 2
            };
            let w1 = wall_cell(b, n, x, beside, j);
            let w2 = wall_cell(b, n, x, i, above);
            lemma_zero_arithmetic(w1, w2);
            lemma_zero_arithmetic(half(), sum(w1, w2));
        }
    }
}

/// A wall cell of a field that is zero everywhere is zero.
proof fn lemma_wall_of_zero(b: Boundary, n: int, x: Seq<Real>, i: int, j: int)
    requires
        valid_size(n),
        x.len() == n * n,
        all_zero(x),
    ensures
        wall_cell(b, n, x, i, j).is_zero(),
{
    lemma_cell_index_bounds(n, i, 1);
    lemma_cell_index_bounds(n, i, n - 2);
    lemma_cell_index_bounds(n, 1, j);
    lemma_cell_index_bounds(n, n - 2, j);
    lemma_zero_arithmetic(at(x, n, i, 1), at(x, n, i, 1));
    lemma_zero_arithmetic(at(x, n, i, n - 2), at(x, n, i, 1));
    lemma_zero_arithmetic(at(x, n, 1, j), at(x, n, i, 1));
    lemma_zero_arithmetic(at(x, n, n - 2, j), at(x, n, i, 1));
}

/// Once the boundary is enforced on a field mirrored in x, each cell of the left
/// and of the right wall holds the negation of its interior neighbour.
pub proof fn lemma_mirror_x_antisymmetric(n: int, x: Seq<Real>, j: int)
    requires
        valid_size(n),
        x.len() == n * n,
        1 <= j <= n - 2,
    ensures
        ({
            let y = enforce_boundary(Boundary::MirrorX, n, x);
            &&& at(y, n, 0, j) == at(y, n, 1, j).negated()
            &&& at(y, n, n - 1, j) == at(y, n, n - 2, j).negated()
        }),
{
    lemma_at_enforce_boundary(Boundary::MirrorX, n, x, 0, j);
    lemma_at_enforce_boundary(Boundary::MirrorX, n, x, 1, j);
    lemma_at_enforce_boundary(Boundary::MirrorX, n, x, n - 1, j);
    lemma_at_enforce_boundary(Boundary::MirrorX, n, x, n - 2, j);
}

/// Once the boundary is enforced on a field mirrored in y, each cell of the top
/// and of the bottom wall holds the negation of its interior neighbour.
pub proof fn lemma_mirror_y_antisymmetric(n: int, x: Seq<Real>, i: int)
    requires
        valid_size(n),
        x.len() == n * n,
        1 <= i <= n - 2,
    ensures
        ({
            let y = enforce_boundary(Boundary::MirrorY, n, x);
            &&& at(y, n, i, 0) == at(y, n, i, 1).negated()
            &&& at(y, n, i, n - 1) == at(y, n, i, n - 2).negated()
        }),
{
    lemma_at_enforce_boundary(Boundary::MirrorY, n, x, i, 0);
    lemma_at_enforce_boundary(Boundary::MirrorY, n, x, i, 1);
    lemma_at_enforce_boundary(Boundary::MirrorY, n, x, i, n - 1);
    lemma_at_enforce_boundary(Boundary::MirrorY, n, x, i, n - 2);
}

/// Whether `cur` is `start` with the top and bottom walls set in the columns
/// before `i`, and the left and right walls in the rows before `j`.
pub open spec fn walls_to(
    b: Boundary,
    n: int,
    cur: Seq<Real>,
    start: Seq<Real>,
    i: int,
    j: int,
) -> bool {
    &&& cur.len() == start.len()
    &&& forall|a: int, c: int|
        on_grid(n, a, c) ==> #[trigger] at(cur, n, a, c) == if (1 <= a < i && (c == 0 || c == n
            - 1)) || (1 <= c < j && (a == 0 || a == n - 1)) {
            wall_cell(b, n, start, a, c)
        } else {
            at(start, n, a, c)
        }
}

/// Writes `v`, or its negation where `flip` holds, to the cell `(i, j)`.
fn put(size: i32, x: &mut Vec<Real>, i: i32, j: i32, flip: bool, v: Real)
    requires
        valid_size(size as int),
        old(x).len() == size * size,
        on_grid(size as int, i as int, j as int),
    ensures
        final(x).len() == old(x).len(),
        final(x)@ == old(x)@.update(
            cell_index(size as int, i as int, j as int),
            mirrored(flip, v),
        ),
{
    let k = IX(size, i, j);
    if flip {
        x[k] = v.neg();
    } else {
        x[k] = v;
    }
}

/// Enforces the boundary condition `b` on the field `x` of a grid of side `size`:
/// each wall cell takes the value of its interior neighbour, negated where the field
/// is mirrored at that wall, and each corner half the sum of its two wall neighbours.
pub fn set_bnd(b: Boundary, size: i32, x: &mut Vec<Real>)
    requires
        valid_size(size as int),
        old(x).len() == size * size,
    ensures
        final(x)@ == enforce_boundary(b, size as int, old(x)@),
        b is MirrorX ==> forall|j: int|
            1 <= j <= size - 2 ==> {
                &&& #[trigger] at(final(x)@, size as int, 0, j) == at(
                    final(x)@,
                    size as int,
                    1,
                    j,
                ).negated()
                &&& at(final(x)@, size as int, size - 1, j) == at(
                    final(x)@,
                    size as int,
                    size - 2,
                    j,
                ).negated()
            },
        b is MirrorY ==> forall|i: int|
            1 <= i <= size - 2 ==> {
                &&& #[trigger] at(final(x)@, size as int, i, 0) == at(
                    final(x)@,
                    size as int,
                    i,
                    1,
                ).negated()
                &&& at(final(x)@, size as int, i, size - 1) == at(
                    final(x)@,
                    size as int,
                    i,
                    size - 2,
                ).negated()
            },
{
    let n = size;
    let ghost start = x@;
    let flip_x = match b {
        Boundary::MirrorX => true,
        _ => false,
    };
    let flip_y = match b {
        Boundary::MirrorY => true,
        _ => false,
    };
    let mut i: i32 = 1;
    while i < n - 1
        invariant
            valid_size(n as int),
            1 <= i <= n - 1,
            start.len() == n * n,
            x.len() == n * n,
            flip_y == (b is MirrorY),
            walls_to(b, n as int, x@, start, i as int, 1),
        decreases n - i,
    {
        let ghost s0 = x@;
        let top = x[IX(n, i, 1)];
        put(n, x, i, 0, flip_y, top);
        let ghost s1 = x@;
        let bottom = x[IX(n, i, n - 2)];
        proof {
            lemma_at_update(s0, n as int, i as int, 0, mirrored(flip_y, top), i as int, n - 2);
            assert(top == at(s0, n as int, i as int, 1));
            assert(bottom == at(s0, n as int, i as int, n - 2));
            assert(top == at(start, n as int, i as int, 1));
            assert(bottom == at(start, n as int, i as int, n - 2));
        }
        put(n, x, i, n - 1, flip_y, bottom);
        proof {
            let s2 = x@;
            assert forall|a: int, c: int| on_grid(n as int, a, c) implies #[trigger] at(
                s2,
                n as int,
                a,
                c,
            ) == if (1 <= a < i + 1 && (c == 0 || c == n - 1)) || (1 <= c < 1 && (a == 0 || a == n
                - 1)) {
                wall_cell(b, n as int, start, a, c)
            } else {
                at(start, n as int, a, c)
            } by {
                lemma_at_update(s0, n as int, i as int, 0, mirrored(flip_y, top), a, c);
                lemma_at_update(s1, n as int, i as int, n - 1, mirrored(flip_y, bottom), a, c);
                assert(at(s0, n as int, a, c) == if (1 <= a < i && (c == 0 || c == n - 1)) {
                    wall_cell(b, n as int, start, a, c)
                } else {
                    at(start, n as int, a, c)
                });
            }
        }
        i = i + 1;
    }
    let mut j: i32 = 1;
    while j < n - 1
        invariant
            valid_size(n as int),
            1 <= j <= n - 1,
            start.len() == n * n,
            x.len() == n * n,
            flip_x == (b is MirrorX),
            walls_to(b, n as int, x@, start, n - 1, j as int),
        decreases n - j,
    {
        let ghost s0 = x@;
        let left = x[IX(n, 1, j)];
        put(n, x, 0, j, flip_x, left);
        let ghost s1 = x@;
        let right = x[IX(n, n - 2, j)];
        proof {
            lemma_at_update(s0, n as int, 0, j as int, mirrored(flip_x, left), n - 2, j as int);
            assert(left == at(s0, n as int, 1, j as int));
            assert(right == at(s0, n as int, n - 2, j as int));
            assert(left == at(start, n as int, 1, j as int));
            assert(right == at(start, n as int, n - 2, j as int));
        }
        put(n, x, n - 1, j, flip_x, right);
        proof {
            let s2 = x@;
            assert forall|a: int, c: int| on_grid(n as int, a, c) implies #[trigger] at(
                s2,
                n as int,
                a,
                c,
            ) == if (1 <= a < n - 1 && (c == 0 || c == n - 1)) || (1 <= c < j + 1 && (a == 0 || a
                == n - 1)) {
                wall_cell(b, n as int, start, a, c)
            } else {
                at(start, n as int, a, c)
            } by {
                lemma_at_update(s0, n as int, 0, j as int, mirrored(flip_x, left), a, c);
                lemma_at_update(s1, n as int, n - 1, j as int, mirrored(flip_x, right), a, c);
                assert(at(s0, n as int, a, c) == if (1 <= a < n - 1 && (c == 0 || c == n - 1)) || (
                1 <= c < j && (a == 0 || a == n - 1)) {
                    wall_cell(b, n as int, start, a, c)
                } else {
                    at(start, n as int, a, c)
                });
            }
        }
        j = j + 1;
    }
    proof {
        assert(corners_to(b, n as int, x@, start, 0));
    }
    set_corner(b, n, x, Ghost(start), Ghost(0), 0, 0);
    set_corner(b, n, x, Ghost(start), Ghost(1), 0, n - 1);
    set_corner(b, n, x, Ghost(start), Ghost(2), n - 1, 0);
    set_corner(b, n, x, Ghost(start), Ghost(3), n - 1, n - 1);
    proof {
        let done = x@;
        let target = enforce_boundary(b, n as int, start);
        assert forall|a: int, c: int| on_grid(n as int, a, c) implies #[trigger] at(
            done,
            n as int,
            a,
            c,
        ) == at(target, n as int, a, c) by {
            lemma_at_enforce_boundary(b, n as int, start, a, c);
        }
        lemma_fields_equal(n as int, done, target);
        assert forall|j: int| 1 <= j <= n - 2 && b is MirrorX implies {
            &&& #[trigger] at(done, n as int, 0, j) == at(done, n as int, 1, j).negated()
            &&& at(done, n as int, n - 1, j) == at(done, n as int, n - 2, j).negated()
        } by {
            lemma_mirror_x_antisymmetric(n as int, start, j);
        }
        assert forall|i: int| 1 <= i <= n - 2 && b is MirrorY implies {
            &&& #[trigger] at(done, n as int, i, 0) == at(done, n as int, i, 1).negated()
            &&& at(done, n as int, i, n - 1) == at(done, n as int, i, n - 2).negated()
        } by {
            lemma_mirror_y_antisymmetric(n as int, start, i);
        }
    }
}

/// Whether the corner `(i, j)` is among the first `k` corners in the order in which
/// they are set.
pub open spec fn corner_set(k: int, n: int, i: int, j: int) -> bool {
    ||| (k >= 1 && i == 0 && j == 0)
    ||| (k >= 2 && i == 0 && j == n - 1)
    ||| (k >= 3 && i == n - 1 && j == 0)
    ||| (k >= 4 && i == n - 1 && j == n - 1)
}

/// Whether `cur` is `start` with the boundary enforced, but for the corners after
/// the first `k`, which are as in `start`.
pub open spec fn corners_to(b: Boundary, n: int, cur: Seq<Real>, start: Seq<Real>, k: int) -> bool {
    &&& cur.len() == start.len()
    &&& forall|a: int, c: int|
        on_grid(n, a, c) ==> #[trigger] at(cur, n, a, c) == if corner(n, a, c) && !corner_set(
            k,
            n,
            a,
            c,
        ) {
            at(start, n, a, c)
        } else {
            boundary_cell(b, n, start, a, c)
        }
}

/// Sets the corner `(i, j)`, the next after the first `k`, from its two wall
/// neighbours.
fn set_corner(
    b: Boundary,
    size: i32,
    x: &mut Vec<Real>,
    Ghost(start): Ghost<Seq<Real>>,
    Ghost(k): Ghost<int>,
    i: i32,
    j: i32,
)
    requires
        valid_size(size as int),
        old(x).len() == size * size,
        corner(size as int, i as int, j as int),
        0 <= k < 4,
        corner_set(k + 1, size as int, i as int, j as int),
        !corner_set(k, size as int, i as int, j as int),
        corners_to(b, size as int, old(x)@, start, k),
    ensures
        corners_to(b, size as int, final(x)@, start, k + 1),
{
    let n = size;
    let beside: i32 = if i == 0 {
        1
    } else {
        n - 2
    };
    let above: i32 = if j == 0 {
        1
    } else {
        n - 2
    };
    let ghost s0 = x@;
    let along_row = x[IX(n, beside, j)];
    let along_column = x[IX(n, i, above)];
    let v = saturating_mul(Real::from_tenths(5), saturating_add(along_row, along_column));
    let k0 = IX(n, i, j);
    x[k0] = v;
    proof {
        assert(along_row == at(s0, n as int, beside as int, j as int));
        assert(along_column == at(s0, n as int, i as int, above as int));
        assert(v == corner_cell(b, n as int, start, i as int, j as int));
        assert forall|a: int, c: int| on_grid(n as int, a, c) implies #[trigger] at(
            x@,
            n as int,
            a,
            c,
        ) == if corner(n as int, a, c) && !corner_set(k + 1, n as int, a, c) {
            at(start, n as int, a, c)
        } else {
            boundary_cell(b, n as int, start, a, c)
        } by {
            lemma_at_update(s0, n as int, i as int, j as int, v, a, c);
            assert(at(s0, n as int, a, c) == if corner(n as int, a, c) && !corner_set(
                k,
                n as int,
                a,
                c,
            ) {
                at(start, n as int, a, c)
            } else {
                boundary_cell(b, n as int, start, a, c)
            });
        }
    }
}

} // verus!
