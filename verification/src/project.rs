//! Projection: removes from a velocity field the part that compresses the fluid,
//! by solving for a pressure and subtracting its gradient.

use crate::boundary::{enforce_boundary, lemma_boundary_keeps_zero, set_bnd, Boundary};
use crate::error::ConfigError;
use crate::field::{
    filled_to, interior_map, lemma_filled_done, lemma_filled_next_row, lemma_filled_start,
    lemma_filled_step, lemma_interior_map_all,
};
use crate::grid::{at, interior, lemma_cell_index_bounds, lemma_offset_parts, valid_size, IX};
use crate::number::{
    all_zero, decimal, difference, half, lemma_real_parts, lemma_zero_arithmetic, one, product,
    quot, quotient, saturating_add, saturating_mul, saturating_sub, sum, Real,
};
use crate::solver::{lemma_relaxed_keeps_zero, relax, relaxed};
use vstd::prelude::*;

verus! {

/// The divergence of the velocity `(vx, vy)` in the interior cell `(i, j)`, scaled
/// as the pressure equation takes it: minus one half of the sum of the two central
/// differences, divided by the grid's side.
pub open spec fn divergence_cell(n: int, vx: Seq<Real>, vy: Seq<Real>, i: int, j: int) -> Real {
    quot(
        product(
            decimal(-5, 1),
            sum(
                difference(at(vx, n, i + 1, j), at(vx, n, i - 1, j)),
                difference(at(vy, n, i, j + 1), at(vy, n, i, j - 1)),
            ),
        ),
        decimal(n, 0),
    )
}

/// The divergence field of `(vx, vy)`, written over `scratch`.
pub open spec fn divergence(n: int, vx: Seq<Real>, vy: Seq<Real>, scratch: Seq<Real>) -> Seq<
    Real,
> {
    enforce_boundary(
        Boundary::Reflect,
        n,
        interior_map(n, scratch, |i: int, j: int| divergence_cell(n, vx, vy, i, j)),
    )
}

/// The first guess of the pressure: zero in the interior of `scratch`.
pub open spec fn cleared(n: int, scratch: Seq<Real>) -> Seq<Real> {
    enforce_boundary(
        Boundary::Reflect,
        n,
        interior_map(n, scratch, |i: int, j: int| decimal(0, 0)),
    )
}

/// The pressure that balances the divergence `div`, relaxed from the guess `p`.
pub open spec fn pressure(n: int, p: Seq<Real>, div: Seq<Real>, iterations: int) -> Seq<Real> {
    relaxed(Boundary::Reflect, n, p, div, one(), decimal(6, 0), iterations)
}

/// The interior cell `(i, j)` of a velocity component, less half the difference of
/// the pressure at `ahead` and `behind`, its neighbours along that component,
/// times the grid's side.
pub open spec fn corrected_cell(n: int, v: Real, ahead: Real, behind: Real) -> Real {
    difference(v, product(product(half(), difference(ahead, behind)), decimal(n, 0)))
}

/// The x-velocity less the pressure's gradient along x.
pub open spec fn corrected_x(n: int, vx: Seq<Real>, p: Seq<Real>) -> Seq<Real> {
    enforce_boundary(
        Boundary::MirrorX,
        n,
        interior_map(
            n,
            vx,
            |i: int, j: int|
                corrected_cell(n, at(vx, n, i, j), at(p, n, i + 1, j), at(p, n, i - 1, j)),
        ),
    )
}

/// The y-velocity less the pressure's gradient along y.
pub open spec fn corrected_y(n: int, vy: Seq<Real>, p: Seq<Real>) -> Seq<Real> {
    enforce_boundary(
        Boundary::MirrorY,
        n,
        interior_map(
            n,
            vy,
            |i: int, j: int|
                corrected_cell(n, at(vy, n, i, j), at(p, n, i, j + 1), at(p, n, i, j - 1)),
        ),
    )
}

/// The divergence of a velocity that is zero everywhere is zero everywhere,
/// whatever the scratch field held along its walls.
pub proof fn lemma_divergence_of_zero(n: int, vx: Seq<Real>, vy: Seq<Real>, scratch: Seq<Real>)
    requires
        valid_size(n),
        vx.len() == n * n,
        vy.len() == n * n,
        scratch.len() == n * n,
        all_zero(vx),
        all_zero(vy),
        all_zero(scratch),
    ensures
        divergence(n, vx, vy, scratch).len() == n * n,
        all_zero(divergence(n, vx, vy, scratch)),
{
    let f = |i: int, j: int| divergence_cell(n, vx, vy, i, j);
    assert forall|i: int, j: int| interior(n, i, j) implies (#[trigger] f(i, j)).is_zero() by {
        lemma_cell_index_bounds(n, i + 1, j);
        lemma_cell_index_bounds(n, i - 1, j);
        lemma_cell_index_bounds(n, i, j + 1);
        lemma_cell_index_bounds(n, i, j - 1);
        let across = difference(at(vx, n, i + 1, j), at(vx, n, i - 1, j));
        let along = difference(at(vy, n, i, j + 1), at(vy, n, i, j - 1));
        lemma_zero_arithmetic(at(vx, n, i + 1, j), at(vx, n, i - 1, j));
        lemma_zero_arithmetic(at(vy, n, i, j + 1), at(vy, n, i, j - 1));
        lemma_zero_arithmetic(across, along);
        lemma_zero_arithmetic(decimal(-5, 1), sum(across, along));
        lemma_real_parts(n, 0);
        lemma_zero_arithmetic(product(decimal(-5, 1), sum(across, along)), decimal(n, 0));
    }
    lemma_interior_map_all(n, scratch, f, |v: Real| v.is_zero());
    lemma_boundary_keeps_zero(Boundary::Reflect, n, interior_map(n, scratch, f));
}

/// The pressure that balances a divergence of zero, relaxed from a scratch field
/// that is zero everywhere, is zero everywhere.
pub proof fn lemma_pressure_of_zero(n: int, scratch: Seq<Real>, div: Seq<Real>, iterations: int)
    requires
        valid_size(n),
        scratch.len() == n * n,
        div.len() == n * n,
        all_zero(scratch),
        all_zero(div),
    ensures
        pressure(n, cleared(n, scratch), div, iterations).len() == n * n,
        all_zero(pressure(n, cleared(n, scratch), div, iterations)),
{
    let g = |i: int, j: int| decimal(0, 0);
    lemma_real_parts(0, 0);
    lemma_real_parts(6, 0);
    assert forall|i: int, j: int| interior(n, i, j) implies (#[trigger] g(i, j)).is_zero() by {}
    lemma_interior_map_all(n, scratch, g, |v: Real| v.is_zero());
    lemma_boundary_keeps_zero(Boundary::Reflect, n, interior_map(n, scratch, g));
    lemma_relaxed_keeps_zero(
        Boundary::Reflect,
        n,
        cleared(n, scratch),
        div,
        one(),
        decimal(6, 0),
        iterations,
    );
}

/// A velocity that is zero everywhere stays so when the gradient of a pressure
/// that is zero everywhere is subtracted from it.
pub proof fn lemma_corrected_keeps_zero(n: int, vx: Seq<Real>, vy: Seq<Real>, p: Seq<Real>)
    requires
        valid_size(n),
        vx.len() == n * n,
        vy.len() == n * n,
        p.len() == n * n,
        all_zero(vx),
        all_zero(vy),
        all_zero(p),
    ensures
        corrected_x(n, vx, p).len() == n * n,
        corrected_y(n, vy, p).len() == n * n,
        all_zero(corrected_x(n, vx, p)),
        all_zero(corrected_y(n, vy, p)),
{
    let f = |i: int, j: int|
        corrected_cell(n, at(vx, n, i, j), at(p, n, i + 1, j), at(p, n, i - 1, j));
    let g = |i: int, j: int|
        corrected_cell(n, at(vy, n, i, j), at(p, n, i, j + 1), at(p, n, i, j - 1));
    assert forall|i: int, j: int| interior(n, i, j) implies (#[trigger] f(i, j)).is_zero() by {
        lemma_cell_index_bounds(n, i, j);
        lemma_cell_index_bounds(n, i + 1, j);
        lemma_cell_index_bounds(n, i - 1, j);
        lemma_corrected_cell_of_zero(n, at(vx, n, i, j), at(p, n, i + 1, j), at(p, n, i - 1, j));
    }
    assert forall|i: int, j: int| interior(n, i, j) implies (#[trigger] g(i, j)).is_zero() by {
        lemma_cell_index_bounds(n, i, j);
        lemma_cell_index_bounds(n, i, j + 1);
        lemma_cell_index_bounds(n, i, j - 1);
        lemma_corrected_cell_of_zero(n, at(vy, n, i, j), at(p, n, i, j + 1), at(p, n, i, j - 1));
    }
    lemma_interior_map_all(n, vx, f, |v: Real| v.is_zero());
    lemma_interior_map_all(n, vy, g, |v: Real| v.is_zero());
    lemma_boundary_keeps_zero(Boundary::MirrorX, n, interior_map(n, vx, f));
    lemma_boundary_keeps_zero(Boundary::MirrorY, n, interior_map(n, vy, g));
}

/// A velocity of zero, corrected by a pressure that is zero on both sides, is zero.
proof fn lemma_corrected_cell_of_zero(n: int, v: Real, ahead: Real, behind: Real)
    requires
        v.is_zero(),
        ahead.is_zero(),
        behind.is_zero(),
    ensures
        corrected_cell(n, v, ahead, behind).is_zero(),
{
    let slope = difference(ahead, behind);
    lemma_zero_arithmetic(ahead, behind);
    lemma_zero_arithmetic(half(), slope);
    lemma_zero_arithmetic(product(half(), slope), decimal(n, 0));
    let change = product(product(half(), slope), decimal(n, 0));
    lemma_zero_arithmetic(v, change);
}

/// Writes the divergence of `(veloc_x, veloc_y)` to the interior of `div` and
/// zero to the interior of `p`.
fn measure(
    size: i32,
    veloc_x: &Vec<Real>,
    veloc_y: &Vec<Real>,
    p: &mut Vec<Real>,
    div: &mut Vec<Real>,
)
    requires
        valid_size(size as int),
        veloc_x.len() == size * size,
        veloc_y.len() == size * size,
        old(p).len() == size * size,
        old(div).len() == size * size,
    ensures
        final(p).len() == size * size,
        final(div).len() == size * size,
        final(div)@ == interior_map(
            size as int,
            old(div)@,
            |i: int, j: int| divergence_cell(size as int, veloc_x@, veloc_y@, i, j),
        ),
        final(p)@ == interior_map(size as int, old(p)@, |i: int, j: int| decimal(0, 0)),
{
    let n = size;
    let minus_half = Real::from_tenths(-5);
    let side = Real::from_i32(n);
    let zero = Real::from_i32(0);
    let ghost div_start = div@;
    let ghost p_start = p@;
    let ghost f = |i: int, j: int| divergence_cell(n as int, veloc_x@, veloc_y@, i, j);
    let ghost g = |i: int, j: int| decimal(0, 0);
    proof {
        lemma_filled_start(n as int, div_start, f);
        lemma_filled_start(n as int, p_start, g);
        lemma_real_parts(n as int, 0);
    }
    let mut j: i32 = 1;
    while j < n - 1
        invariant
            valid_size(n as int),
            1 <= j <= n - 1,
            veloc_x.len() == n * n,
            veloc_y.len() == n * n,
            p.len() == n * n,
            div.len() == n * n,
            div_start.len() == n * n,
            p_start.len() == n * n,
            minus_half == decimal(-5, 1),
            side == decimal(n as int, 0),
            !side.is_zero(),
            zero == decimal(0, 0),
            f == |i: int, j: int| divergence_cell(n as int, veloc_x@, veloc_y@, i, j),
            g == |i: int, j: int| decimal(0, 0),
            filled_to(n as int, div@, div_start, f, 1, j as int),
            filled_to(n as int, p@, p_start, g, 1, j as int),
        decreases n - j,
    {
        let mut i: i32 = 1;
        while i < n - 1
            invariant
                valid_size(n as int),
                1 <= j < n - 1,
                1 <= i <= n - 1,
                veloc_x.len() == n * n,
                veloc_y.len() == n * n,
                p.len() == n * n,
                div.len() == n * n,
                div_start.len() == n * n,
                p_start.len() == n * n,
                minus_half == decimal(-5, 1),
                side == decimal(n as int, 0),
                !side.is_zero(),
                zero == decimal(0, 0),
                f == |i: int, j: int| divergence_cell(n as int, veloc_x@, veloc_y@, i, j),
                g == |i: int, j: int| decimal(0, 0),
                filled_to(n as int, div@, div_start, f, i as int, j as int),
                filled_to(n as int, p@, p_start, g, i as int, j as int),
            decreases n - i,
        {
            let k = IX(n, i, j);
            let across = saturating_sub(veloc_x[IX(n, i + 1, j)], veloc_x[IX(n, i - 1, j)]);
            let along = saturating_sub(veloc_y[IX(n, i, j + 1)], veloc_y[IX(n, i, j - 1)]);
            let v = quotient(saturating_mul(minus_half, saturating_add(across, along)), side);
            proof {
                assert(v == f(i as int, j as int));
                assert(zero == g(i as int, j as int));
                lemma_offset_parts(n as int, i as int, j as int);
                lemma_filled_step(n as int, div@, div_start, f, i as int, j as int);
                lemma_filled_step(n as int, p@, p_start, g, i as int, j as int);
            }
            div[k] = v;
            p[k] = zero;
            i = i + 1;
        }
        proof {
            lemma_filled_next_row(n as int, div@, div_start, f, j as int);
            lemma_filled_next_row(n as int, p@, p_start, g, j as int);
        }
        j = j + 1;
    }
    proof {
        lemma_filled_done(n as int, div@, div_start, f);
        lemma_filled_done(n as int, p@, p_start, g);
    }
}

/// Subtracts the gradient of the pressure `p` from the interior of the velocity.
fn correct(size: i32, veloc_x: &mut Vec<Real>, veloc_y: &mut Vec<Real>, p: &Vec<Real>)
    requires
        valid_size(size as int),
        old(veloc_x).len() == size * size,
        old(veloc_y).len() == size * size,
        p.len() == size * size,
    ensures
        final(veloc_x).len() == size * size,
        final(veloc_y).len() == size * size,
        final(veloc_x)@ == interior_map(
            size as int,
            old(veloc_x)@,
            |i: int, j: int|
                corrected_cell(
                    size as int,
                    at(old(veloc_x)@, size as int, i, j),
                    at(p@, size as int, i + 1, j),
                    at(p@, size as int, i - 1, j),
                ),
        ),
        final(veloc_y)@ == interior_map(
            size as int,
            old(veloc_y)@,
            |i: int, j: int|
                corrected_cell(
                    size as int,
                    at(old(veloc_y)@, size as int, i, j),
                    at(p@, size as int, i, j + 1),
                    at(p@, size as int, i, j - 1),
                ),
        ),
{
    let n = size;
    let a_half = Real::from_tenths(5);
    let side = Real::from_i32(n);
    let ghost x_start = veloc_x@;
    let ghost y_start = veloc_y@;
    let ghost f = |i: int, j: int|
        corrected_cell(
            n as int,
            at(x_start, n as int, i, j),
            at(p@, n as int, i + 1, j),
            at(p@, n as int, i - 1, j),
        );
    let ghost g = |i: int, j: int|
        corrected_cell(
            n as int,
            at(y_start, n as int, i, j),
            at(p@, n as int, i, j + 1),
            at(p@, n as int, i, j - 1),
        );
    proof {
        lemma_filled_start(n as int, x_start, f);
        lemma_filled_start(n as int, y_start, g);
    }
    let mut j: i32 = 1;
    while j < n - 1
        invariant
            valid_size(n as int),
            1 <= j <= n - 1,
            veloc_x.len() == n * n,
            veloc_y.len() == n * n,
            p.len() == n * n,
            x_start.len() == n * n,
            y_start.len() == n * n,
            a_half == half(),
            side == decimal(n as int, 0),
            f == |i: int, j: int|
                corrected_cell(
                    n as int,
                    at(x_start, n as int, i, j),
                    at(p@, n as int, i + 1, j),
                    at(p@, n as int, i - 1, j),
                ),
            g == |i: int, j: int|
                corrected_cell(
                    n as int,
                    at(y_start, n as int, i, j),
                    at(p@, n as int, i, j + 1),
                    at(p@, n as int, i, j - 1),
                ),
            filled_to(n as int, veloc_x@, x_start, f, 1, j as int),
            filled_to(n as int, veloc_y@, y_start, g, 1, j as int),
        decreases n - j,
    {
        let mut i: i32 = 1;
        while i < n - 1
            invariant
                valid_size(n as int),
                1 <= j < n - 1,
                1 <= i <= n - 1,
                veloc_x.len() == n * n,
                veloc_y.len() == n * n,
                p.len() == n * n,
                x_start.len() == n * n,
                y_start.len() == n * n,
                a_half == half(),
                side == decimal(n as int, 0),
                f == |i: int, j: int|
                    corrected_cell(
                        n as int,
                        at(x_start, n as int, i, j),
                        at(p@, n as int, i + 1, j),
                        at(p@, n as int, i - 1, j),
                    ),
                g == |i: int, j: int|
                    corrected_cell(
                        n as int,
                        at(y_start, n as int, i, j),
                        at(p@, n as int, i, j + 1),
                        at(p@, n as int, i, j - 1),
                    ),
                filled_to(n as int, veloc_x@, x_start, f, i as int, j as int),
                filled_to(n as int, veloc_y@, y_start, g, i as int, j as int),
            decreases n - i,
        {
            let k = IX(n, i, j);
            let across = saturating_sub(p[IX(n, i + 1, j)], p[IX(n, i - 1, j)]);
            let along = saturating_sub(p[IX(n, i, j + 1)], p[IX(n, i, j - 1)]);
            let change_x = saturating_mul(saturating_mul(a_half, across), side);
            let change_y = saturating_mul(saturating_mul(a_half, along), side);
            let vx = saturating_sub(veloc_x[k], change_x);
            let vy = saturating_sub(veloc_y[k], change_y);
            proof {
                lemma_offset_parts(n as int, i as int, j as int);
                assert(veloc_x@[k as int] == at(veloc_x@, n as int, i as int, j as int));
                assert(veloc_y@[k as int] == at(veloc_y@, n as int, i as int, j as int));
                assert(vx == f(i as int, j as int));
                assert(vy == g(i as int, j as int));
                lemma_filled_step(n as int, veloc_x@, x_start, f, i as int, j as int);
                lemma_filled_step(n as int, veloc_y@, y_start, g, i as int, j as int);
            }
            veloc_x[k] = vx;
            veloc_y[k] = vy;
            i = i + 1;
        }
        proof {
            lemma_filled_next_row(n as int, veloc_x@, x_start, f, j as int);
            lemma_filled_next_row(n as int, veloc_y@, y_start, g, j as int);
        }
        j = j + 1;
    }
    proof {
        lemma_filled_done(n as int, veloc_x@, x_start, f);
        lemma_filled_done(n as int, veloc_y@, y_start, g);
    }
}

/// Makes the velocity `(veloc_x, veloc_y)` free of divergence, as far as
/// `iterations` sweeps of the pressure solver reach. `p` and `div` are scratch:
/// afterwards they hold the pressure and the divergence that was measured.
/// Fails, and changes nothing, with fewer than one sweep.
pub fn project(
    size: i32,
    veloc_x: &mut Vec<Real>,
    veloc_y: &mut Vec<Real>,
    p: &mut Vec<Real>,
    div: &mut Vec<Real>,
    iterations: i32,
) -> (r: Result<(), ConfigError>)
    requires
        valid_size(size as int),
        old(veloc_x).len() == size * size,
        old(veloc_y).len() == size * size,
        old(p).len() == size * size,
        old(div).len() == size * size,
    ensures
        final(veloc_x).len() == size * size,
        final(veloc_y).len() == size * size,
        final(p).len() == size * size,
        final(div).len() == size * size,
        iterations < 1 ==> r == Err::<(), ConfigError>(ConfigError::InvalidIterations),
        iterations >= 1 ==> r is Ok,
        r is Ok ==> {
            &&& final(div)@ == divergence(size as int, old(veloc_x)@, old(veloc_y)@, old(div)@)
            &&& final(p)@ == pressure(
                size as int,
                cleared(size as int, old(p)@),
                final(div)@,
                iterations as int,
            )
            &&& final(veloc_x)@ == corrected_x(size as int, old(veloc_x)@, final(p)@)
            &&& final(veloc_y)@ == corrected_y(size as int, old(veloc_y)@, final(p)@)
        },
        r is Err ==> {
            &&& final(veloc_x)@ == old(veloc_x)@
            &&& final(veloc_y)@ == old(veloc_y)@
            &&& final(p)@ == old(p)@
            &&& final(div)@ == old(div)@
        },
{
    if iterations < 1 {
        return Err(ConfigError::InvalidIterations);
    }
    measure(size, veloc_x, veloc_y, p, div);
    set_bnd(Boundary::Reflect, size, div);
    set_bnd(Boundary::Reflect, size, p);
    proof {
        lemma_real_parts(6, 0);
    }
    relax(Boundary::Reflect, size, p, div, Real::from_i32(1), Real::from_i32(6), iterations);
    correct(size, veloc_x, veloc_y, p);
    set_bnd(Boundary::MirrorX, size, veloc_x);
    set_bnd(Boundary::MirrorY, size, veloc_y);
    Ok(())
}

} // verus!
