//! The relaxation that solves the diffusion and the pressure equations: a fixed
//! number of in-place sweeps over the interior, each followed by the boundary.

use crate::boundary::{enforce_boundary, lemma_boundary_keeps_zero, set_bnd, Boundary};
use crate::error::ConfigError;
use crate::grid::{
    at, cell_index, lemma_cell_index_bounds, valid_size, IX, MAX_SIZE, MIN_SIZE,
};
use crate::number::{
    all_zero, decimal, lemma_zero_arithmetic, product, quot, quotient, saturating_add,
    saturating_mul, sum, Real,
};
use vstd::prelude::*;

verus! {

/// The new value of the interior cell `(i, j)` in a sweep: the right-hand side
/// `x0` plus `a` times the sum of the four neighbours in `x`, divided by `c`.
pub open spec fn relax_cell(
    n: int,
    x: Seq<Real>,
    x0: Seq<Real>,
    a: Real,
    c: Real,
    i: int,
    j: int,
) -> Real {
    quot(
        sum(
            at(x0, n, i, j),
            product(
                a,
                sum(
                    sum(sum(at(x, n, i + 1, j), at(x, n, i - 1, j)), at(x, n, i, j + 1)),
                    at(x, n, i, j - 1),
                ),
            ),
        ),
        c,
    )
}

/// The field `x` after the cells of row `j` in the columns before `upto` were
/// relaxed from left to right, each reading the values written before it.
pub open spec fn sweep_row(
    n: int,
    x: Seq<Real>,
    x0: Seq<Real>,
    a: Real,
    c: Real,
    j: int,
    upto: int,
) -> Seq<Real>
    decreases upto,
{
    if upto <= 1 {
        x
    } else {
        let prev = sweep_row(n, x, x0, a, c, j, upto - 1);
        prev.update(cell_index(n, upto - 1, j), relax_cell(n, prev, x0, a, c, upto - 1, j))
    }
}

/// The field `x` after the interior rows before `upto` were relaxed from top to
/// bottom.
pub open spec fn sweep(n: int, x: Seq<Real>, x0: Seq<Real>, a: Real, c: Real, upto: int) -> Seq<
    Real,
>
    decreases upto,
{
    if upto <= 1 {
        x
    } else {
        sweep_row(n, sweep(n, x, x0, a, c, upto - 1), x0, a, c, upto - 1, n - 1)
    }
}

/// The field `x` after `iterations` sweeps over the whole interior, the boundary
/// `b` enforced after each.
pub open spec fn relaxed(
    b: Boundary,
    n: int,
    x: Seq<Real>,
    x0: Seq<Real>,
    a: Real,
    c: Real,
    iterations: int,
) -> Seq<Real>
    decreases iterations,
{
    if iterations <= 0 {
        x
    } else {
        enforce_boundary(
            b,
            n,
            sweep(n, relaxed(b, n, x, x0, a, c, iterations - 1), x0, a, c, n - 1),
        )
    }
}

/// The diffusion coefficient `dt * rate * (n - 2)^2`.
pub open spec fn diffusion_a(n: int, dt: Real, rate: Real) -> Real {
    product(product(dt, rate), decimal((n - 2) * (n - 2), 0))
}

/// The divisor `1 + 6 * a` of the diffusion equation.
pub open spec fn diffusion_c(a: Real) -> Real {
    sum(decimal(1, 0), product(decimal(6, 0), a))
}

/// The field `x` after the field `x0` was diffused into it at the given rate.
pub open spec fn diffused(
    b: Boundary,
    n: int,
    x: Seq<Real>,
    x0: Seq<Real>,
    rate: Real,
    dt: Real,
    iterations: int,
) -> Seq<Real> {
    let a = diffusion_a(n, dt, rate);
    relaxed(b, n, x, x0, a, diffusion_c(a), iterations)
}

/// A sweep over part of a row keeps the field's length.
pub proof fn lemma_sweep_row_len(
    n: int,
    x: Seq<Real>,
    x0: Seq<Real>,
    a: Real,
    c: Real,
    j: int,
    upto: int,
)
    requires
        valid_size(n),
        x.len() == n * n,
    ensures
        sweep_row(n, x, x0, a, c, j, upto).len() == n * n,
    decreases upto,
{
    if upto > 1 {
        lemma_sweep_row_len(n, x, x0, a, c, j, upto - 1);
        lemma_cell_index_bounds(n, upto - 1, j);
    }
}

/// A sweep over the first rows keeps the field's length.
pub proof fn lemma_sweep_len(n: int, x: Seq<Real>, x0: Seq<Real>, a: Real, c: Real, upto: int)
    requires
        valid_size(n),
        x.len() == n * n,
    ensures
        sweep(n, x, x0, a, c, upto).len() == n * n,
    decreases upto,
{
    if upto > 1 {
        lemma_sweep_len(n, x, x0, a, c, upto - 1);
        lemma_sweep_row_len(n, sweep(n, x, x0, a, c, upto - 1), x0, a, c, upto - 1, n - 1);
    }
}

/// Relaxation keeps the field's length.
pub proof fn lemma_relaxed_len(
    b: Boundary,
    n: int,
    x: Seq<Real>,
    x0: Seq<Real>,
    a: Real,
    c: Real,
    iterations: int,
)
    requires
        valid_size(n),
        x.len() == n * n,
    ensures
        relaxed(b, n, x, x0, a, c, iterations).len() == n * n,
    decreases iterations,
{
    if iterations > 0 {
        lemma_relaxed_len(b, n, x, x0, a, c, iterations - 1);
        lemma_sweep_len(n, relaxed(b, n, x, x0, a, c, iterations - 1), x0, a, c, n - 1);
    }
}

/// A relaxed cell of a field that is zero everywhere, with a right-hand side that
/// is zero everywhere, is zero.
pub proof fn lemma_relax_cell_of_zero(
    n: int,
    x: Seq<Real>,
    x0: Seq<Real>,
    a: Real,
    c: Real,
    i: int,
    j: int,
)
    requires
        valid_size(n),
        x.len() == n * n,
        x0.len() == n * n,
        all_zero(x),
        all_zero(x0),
        !c.is_zero(),
    ensures
        relax_cell(n, x, x0, a, c, i, j).is_zero(),
{
    lemma_cell_index_bounds(n, i, j);
    lemma_cell_index_bounds(n, i + 1, j);
    lemma_cell_index_bounds(n, i - 1, j);
    lemma_cell_index_bounds(n, i, j + 1);
    lemma_cell_index_bounds(n, i, j - 1);
    let s1 = sum(at(x, n, i + 1, j), at(x, n, i - 1, j));
    let s2 = sum(s1, at(x, n, i, j + 1));
    let s3 = sum(s2, at(x, n, i, j - 1));
    lemma_zero_arithmetic(at(x, n, i + 1, j), at(x, n, i - 1, j));
    lemma_zero_arithmetic(s1, at(x, n, i, j + 1));
    lemma_zero_arithmetic(s2, at(x, n, i, j - 1));
    lemma_zero_arithmetic(a, s3);
    lemma_zero_arithmetic(at(x0, n, i, j), product(a, s3));
    lemma_zero_arithmetic(sum(at(x0, n, i, j), product(a, s3)), c);
}

/// A sweep over part of a row keeps a field zero that is zero everywhere, where
/// the right-hand side is zero everywhere.
pub proof fn lemma_sweep_row_keeps_zero(
    n: int,
    x: Seq<Real>,
    x0: Seq<Real>,
    a: Real,
    c: Real,
    j: int,
    upto: int,
)
    requires
        valid_size(n),
        x.len() == n * n,
        x0.len() == n * n,
        all_zero(x),
        all_zero(x0),
        !c.is_zero(),
    ensures
        all_zero(sweep_row(n, x, x0, a, c, j, upto)),
    decreases upto,
{
    if upto > 1 {
        lemma_sweep_row_keeps_zero(n, x, x0, a, c, j, upto - 1);
        let prev = sweep_row(n, x, x0, a, c, j, upto - 1);
        lemma_sweep_row_len(n, x, x0, a, c, j, upto - 1);
        lemma_cell_index_bounds(n, upto - 1, j);
        lemma_relax_cell_of_zero(n, prev, x0, a, c, upto - 1, j);
    }
}

/// A sweep over the first rows keeps a field zero that is zero everywhere, where
/// the right-hand side is zero everywhere.
pub proof fn lemma_sweep_keeps_zero(
    n: int,
    x: Seq<Real>,
    x0: Seq<Real>,
    a: Real,
    c: Real,
    upto: int,
)
    requires
        valid_size(n),
        x.len() == n * n,
        x0.len() == n * n,
        all_zero(x),
        all_zero(x0),
        !c.is_zero(),
    ensures
        all_zero(sweep(n, x, x0, a, c, upto)),
    decreases upto,
{
    if upto > 1 {
        lemma_sweep_keeps_zero(n, x, x0, a, c, upto - 1);
        lemma_sweep_len(n, x, x0, a, c, upto - 1);
        lemma_sweep_row_keeps_zero(
            n,
            sweep(n, x, x0, a, c, upto - 1),
            x0,
            a,
            c,
            upto - 1,
            n - 1,
        );
    }
}

/// Relaxation keeps a field zero that is zero everywhere, where the right-hand
/// side is zero everywhere.
pub proof fn lemma_relaxed_keeps_zero(
    b: Boundary,
    n: int,
    x: Seq<Real>,
    x0: Seq<Real>,
    a: Real,
    c: Real,
    iterations: int,
)
    requires
        valid_size(n),
        x.len() == n * n,
        x0.len() == n * n,
        all_zero(x),
        all_zero(x0),
        !c.is_zero(),
    ensures
        relaxed(b, n, x, x0, a, c, iterations).len() == n * n,
        all_zero(relaxed(b, n, x, x0, a, c, iterations)),
    decreases iterations,
{
    lemma_relaxed_len(b, n, x, x0, a, c, iterations);
    if iterations > 0 {
        lemma_relaxed_keeps_zero(b, n, x, x0, a, c, iterations - 1);
        let prev = relaxed(b, n, x, x0, a, c, iterations - 1);
        lemma_sweep_keeps_zero(n, prev, x0, a, c, n - 1);
        lemma_sweep_len(n, prev, x0, a, c, n - 1);
        lemma_boundary_keeps_zero(b, n, sweep(n, prev, x0, a, c, n - 1));
    }
}

/// Relaxes every interior cell of `x` once, row by row, in place.
fn sweep_once(size: i32, x: &mut Vec<Real>, x0: &Vec<Real>, a: Real, c: Real)
    requires
        valid_size(size as int),
        old(x).len() == size * size,
        x0.len() == size * size,
        !c.is_zero(),
    ensures
        final(x).len() == size * size,
        final(x)@ == sweep(size as int, old(x)@, x0@, a, c, size - 1),
{
    let n = size;
    let ghost start = x@;
    let mut j: i32 = 1;
    while j < n - 1
        invariant
            valid_size(n as int),
            1 <= j <= n - 1,
            x.len() == n * n,
            x0.len() == n * n,
            start.len() == n * n,
            !c.is_zero(),
            x@ == sweep(n as int, start, x0@, a, c, j as int),
        decreases n - j,
    {
        let ghost row_start = x@;
        let mut i: i32 = 1;
        while i < n - 1
            invariant
                valid_size(n as int),
                1 <= j < n - 1,
                1 <= i <= n - 1,
                x.len() == n * n,
                x0.len() == n * n,
                row_start.len() == n * n,
                !c.is_zero(),
                x@ == sweep_row(n as int, row_start, x0@, a, c, j as int, i as int),
            decreases n - i,
        {
            let k = IX(n, i, j);
            let around = saturating_add(
                saturating_add(
                    saturating_add(x[IX(n, i + 1, j)], x[IX(n, i - 1, j)]),
                    x[IX(n, i, j + 1)],
                ),
                x[IX(n, i, j - 1)],
            );
            let v = quotient(saturating_add(x0[k], saturating_mul(a, around)), c);
            proof {
                assert(v == relax_cell(n as int, x@, x0@, a, c, i as int, j as int));
            }
            x[k] = v;
            i = i + 1;
        }
        j = j + 1;
    }
}

/// Relaxes `x` towards the solution of `c * x = x0 + a * (sum of the four
/// neighbours of x)`: `iterations` sweeps, the boundary `b` enforced after each.
pub fn relax(
    b: Boundary,
    size: i32,
    x: &mut Vec<Real>,
    x0: &Vec<Real>,
    a: Real,
    c: Real,
    iterations: i32,
)
    requires
        valid_size(size as int),
        old(x).len() == size * size,
        x0.len() == size * size,
        !c.is_zero(),
        iterations >= 1,
    ensures
        final(x).len() == size * size,
        final(x)@ == relaxed(b, size as int, old(x)@, x0@, a, c, iterations as int),
{
    let ghost start = x@;
    let mut k: i32 = 0;
    while k < iterations
        invariant
            valid_size(size as int),
            0 <= k <= iterations,
            x.len() == size * size,
            x0.len() == size * size,
            !c.is_zero(),
            x@ == relaxed(b, size as int, start, x0@, a, c, k as int),
        decreases iterations - k,
    {
        sweep_once(size, x, x0, a, c);
        set_bnd(b, size, x);
        k = k + 1;
    }
}

/// Solves the linear system for `x` by relaxation, if the configuration allows it:
/// with fewer than one sweep, or with a divisor `c` of zero, nothing is solved and
/// `x` stays as it is.
pub fn lin_solve(
    b: Boundary,
    size: i32,
    x: &mut Vec<Real>,
    x0: &Vec<Real>,
    a: Real,
    c: Real,
    iterations: i32,
) -> (r: Result<(), ConfigError>)
    requires
        valid_size(size as int),
        old(x).len() == size * size,
        x0.len() == size * size,
    ensures
        final(x).len() == size * size,
        iterations < 1 ==> r == Err::<(), ConfigError>(ConfigError::InvalidIterations),
        iterations >= 1 && c.is_zero() ==> r == Err::<(), ConfigError>(
            ConfigError::ZeroCoefficient,
        ),
        iterations >= 1 && !c.is_zero() ==> r is Ok,
        r is Ok ==> final(x)@ == relaxed(b, size as int, old(x)@, x0@, a, c, iterations as int),
        r is Err ==> final(x)@ == old(x)@,
{
    if iterations < 1 {
        return Err(ConfigError::InvalidIterations);
    }
    if c.mantissa() == 0 {
        return Err(ConfigError::ZeroCoefficient);
    }
    relax(b, size, x, x0, a, c, iterations);
    Ok(())
}

/// The coefficients `a` and `c` of the diffusion equation on a grid of side `size`.
pub fn diffusion_coefficients(size: i32, dt: Real, rate: Real) -> (r: (Real, Real))
    requires
        valid_size(size as int),
    ensures
        r.0 == diffusion_a(size as int, dt, rate),
        r.1 == diffusion_c(r.0),
{
    assert(0 <= (size - 2) * (size - 2) <= (MAX_SIZE - 2) * (MAX_SIZE - 2)) by (nonlinear_arith)
        requires
            MIN_SIZE <= size <= MAX_SIZE,
    ;
    let cells: i32 = (size - 2) * (size - 2);
    let a = saturating_mul(saturating_mul(dt, rate), Real::from_i32(cells));
    let c = saturating_add(Real::from_i32(1), saturating_mul(Real::from_i32(6), a));
    (a, c)
}

/// Diffuses the field `x0` into `x` over the time `dt` at the given rate, by an
/// implicit step: `x` is relaxed towards the field whose diffusion backwards in
/// time gives `x0`. Fails, and leaves `x` as it is, with fewer than one sweep or
/// where the equation's divisor is zero.
pub fn diffuse(
    b: Boundary,
    size: i32,
    x: &mut Vec<Real>,
    x0: &Vec<Real>,
    rate: Real,
    dt: Real,
    iterations: i32,
) -> (r: Result<(), ConfigError>)
    requires
        valid_size(size as int),
        old(x).len() == size * size,
        x0.len() == size * size,
    ensures
        final(x).len() == size * size,
        iterations < 1 ==> r == Err::<(), ConfigError>(ConfigError::InvalidIterations),
        iterations >= 1 && diffusion_c(diffusion_a(size as int, dt, rate)).is_zero() ==> r == Err::<
            (),
            ConfigError,
        >(ConfigError::ZeroCoefficient),
        iterations >= 1 && !diffusion_c(diffusion_a(size as int, dt, rate)).is_zero() ==> r is Ok,
        r is Ok ==> final(x)@ == diffused(
            b,
            size as int,
            old(x)@,
            x0@,
            rate,
            dt,
            iterations as int,
        ),
        r is Err ==> final(x)@ == old(x)@,
{
    let (a, c) = diffusion_coefficients(size, dt, rate);
    lin_solve(b, size, x, x0, a, c, iterations)
}

} // verus!
