//! Semi-Lagrangian transport: each interior cell takes the value that its field
//! held one time step upstream, sampled between the four cells around that place.

use crate::boundary::{enforce_boundary, lemma_boundary_keeps_zero, set_bnd, Boundary};
use crate::field::{
    filled_to, interior_map, lemma_filled_done, lemma_filled_next_row, lemma_filled_start,
    lemma_filled_step, lemma_interior_map_all,
};
use crate::grid::{at, interior, lemma_cell_index_bounds, lemma_offset_parts, valid_size, IX};
use crate::number::{
    all_zero, clamp_real, clamp_to, decimal, difference, floor, half, lemma_real_parts,
    lemma_zero_arithmetic, one, product, saturating_add, saturating_mul, saturating_sub, sum,
    Real,
};
use vstd::arithmetic::power::pow;
use vstd::prelude::*;

verus! {

/// The highest coordinate that is sampled on a grid of side `n`: `n - 0.5`.
pub open spec fn upper_bound(n: int) -> Real {
    decimal(10 * n - 5, 1)
}

/// Whether a coordinate lies between `0.5` and `n - 0.5`.
pub open spec fn within(n: int, x: Real) -> bool {
    !x.spec_lt(half()) && !upper_bound(n).spec_lt(x)
}

/// The coordinate from which the flow reaches `coord` in one time step, where
/// `step` is the time step in cells and `v` the velocity, limited to the sampled
/// range.
pub open spec fn traced_back(n: int, coord: int, step: Real, v: Real) -> Real {
    clamp_real(difference(decimal(coord, 0), product(step, v)), half(), upper_bound(n))
}

/// The value of `src` at the place `(x, y)`, weighted between the four cells
/// around it.
pub open spec fn bilinear(n: int, src: Seq<Real>, x: Real, y: Real) -> Real {
    let i0 = x.spec_floor();
    let j0 = y.spec_floor();
    let s1 = difference(x, decimal(i0, 0));
    let s0 = difference(one(), s1);
    let t1 = difference(y, decimal(j0, 0));
    let t0 = difference(one(), t1);
    sum(
        product(s0, sum(product(t0, at(src, n, i0, j0)), product(t1, at(src, n, i0, j0 + 1)))),
        product(
            s1,
            sum(product(t0, at(src, n, i0 + 1, j0)), product(t1, at(src, n, i0 + 1, j0 + 1))),
        ),
    )
}

/// What the interior cell `(i, j)` holds after `src` was carried along the velocity
/// `(vx, vy)` for the time `dt`.
pub open spec fn advect_cell(
    n: int,
    src: Seq<Real>,
    vx: Seq<Real>,
    vy: Seq<Real>,
    dt: Real,
    i: int,
    j: int,
) -> Real {
    let step = product(dt, decimal(n - 2, 0));
    bilinear(
        n,
        src,
        traced_back(n, i, step, at(vx, n, i, j)),
        traced_back(n, j, step, at(vy, n, i, j)),
    )
}

/// The field `d` after `src` was carried into its interior, with the boundary
/// enforced.
pub open spec fn advected(
    b: Boundary,
    n: int,
    d: Seq<Real>,
    src: Seq<Real>,
    vx: Seq<Real>,
    vy: Seq<Real>,
    dt: Real,
) -> Seq<Real> {
    enforce_boundary(
        b,
        n,
        interior_map(n, d, |i: int, j: int| advect_cell(n, src, vx, vy, dt, i, j)),
    )
}

/// A coordinate limited to the sampled range lies within it.
pub proof fn lemma_clamp_within(n: int, x: Real)
    requires
        valid_size(n),
    ensures
        within(n, clamp_real(x, half(), upper_bound(n))),
{
    lemma_real_parts(5, 1);
    lemma_real_parts(10 * n - 5, 1);
    vstd::arithmetic::power::lemma_pow1(10);
}

/// The floor of a coordinate within the sampled range is a column, or a row, of
/// the grid.
pub proof fn lemma_floor_on_grid(n: int, x: Real)
    requires
        valid_size(n),
        within(n, x),
    ensures
        0 <= x.spec_floor() <= n - 1,
{
    lemma_real_parts(5, 1);
    lemma_real_parts(10 * n - 5, 1);
    vstd::arithmetic::power::lemma_pow1(10);
    let m = x.spec_mantissa();
    let p = pow(10, x.spec_scale());
    vstd::arithmetic::power::lemma_pow_positive(10, x.spec_scale());
    assert(m * 10 >= 5 * p);
    assert((10 * n - 5) * p >= m * 10);
    assert(m >= 0) by (nonlinear_arith)
        requires
            m * 10 >= 5 * p,
            p > 0,
    ;
    assert(m <= n * p - 1) by (nonlinear_arith)
        requires
            (10 * n - 5) * p >= m * 10,
            p > 0,
    ;
    vstd::arithmetic::div_mod::lemma_div_pos_is_pos(m, p);
    vstd::arithmetic::div_mod::lemma_div_is_ordered(m, n * p - 1, p);
    assert(n * p - 1 == (n - 1) * p + (p - 1)) by (nonlinear_arith);
    vstd::arithmetic::div_mod::lemma_fundamental_div_mod_converse(n * p - 1, p, n - 1, p - 1);
}

/// Whatever the place, the sample of a field that is zero everywhere is zero.
pub proof fn lemma_bilinear_of_zero(n: int, src: Seq<Real>, x: Real, y: Real)
    requires
        valid_size(n),
        src.len() == n * n,
        all_zero(src),
    ensures
        bilinear(n, src, x, y).is_zero(),
{
    let i0 = x.spec_floor();
    let j0 = y.spec_floor();
    let s1 = difference(x, decimal(i0, 0));
    let s0 = difference(one(), s1);
    let t1 = difference(y, decimal(j0, 0));
    let t0 = difference(one(), t1);
    lemma_cell_index_bounds(n, i0, j0);
    lemma_cell_index_bounds(n, i0, j0 + 1);
    lemma_cell_index_bounds(n, i0 + 1, j0);
    lemma_cell_index_bounds(n, i0 + 1, j0 + 1);
    let a = product(t0, at(src, n, i0, j0));
    let b = product(t1, at(src, n, i0, j0 + 1));
    let c = product(t0, at(src, n, i0 + 1, j0));
    let d = product(t1, at(src, n, i0 + 1, j0 + 1));
    lemma_zero_arithmetic(t0, at(src, n, i0, j0));
    lemma_zero_arithmetic(t1, at(src, n, i0, j0 + 1));
    lemma_zero_arithmetic(t0, at(src, n, i0 + 1, j0));
    lemma_zero_arithmetic(t1, at(src, n, i0 + 1, j0 + 1));
    lemma_zero_arithmetic(a, b);
    lemma_zero_arithmetic(c, d);
    lemma_zero_arithmetic(s0, sum(a, b));
    lemma_zero_arithmetic(s1, sum(c, d));
    lemma_zero_arithmetic(product(s0, sum(a, b)), product(s1, sum(c, d)));
}

/// Whatever the velocity, a field that is zero everywhere is zero everywhere after
/// a field that is zero everywhere was carried into it.
pub proof fn lemma_advected_keeps_zero(
    b: Boundary,
    n: int,
    d: Seq<Real>,
    src: Seq<Real>,
    vx: Seq<Real>,
    vy: Seq<Real>,
    dt: Real,
)
    requires
        valid_size(n),
        d.len() == n * n,
        src.len() == n * n,
        all_zero(d),
        all_zero(src),
    ensures
        advected(b, n, d, src, vx, vy, dt).len() == n * n,
        all_zero(advected(b, n, d, src, vx, vy, dt)),
{
    let f = |i: int, j: int| advect_cell(n, src, vx, vy, dt, i, j);
    assert forall|i: int, j: int| interior(n, i, j) implies (#[trigger] f(i, j)).is_zero() by {
        let step = product(dt, decimal(n - 2, 0));
        lemma_bilinear_of_zero(
            n,
            src,
            traced_back(n, i, step, at(vx, n, i, j)),
            traced_back(n, j, step, at(vy, n, i, j)),
        );
    }
    lemma_interior_map_all(n, d, f, |v: Real| v.is_zero());
    lemma_boundary_keeps_zero(b, n, interior_map(n, d, f));
}

/// Samples the field `src` at the place `(x, y)`: the values of the four cells
/// around it, each weighted by how near the place is to it.
pub fn sample(size: i32, src: &Vec<Real>, x: Real, y: Real) -> (r: Real)
    requires
        valid_size(size as int),
        src.len() == size * size,
        within(size as int, x),
        within(size as int, y),
    ensures
        r == bilinear(size as int, src@, x, y),
{
    let n = size;
    let fx = floor(x);
    let fy = floor(y);
    proof {
        lemma_floor_on_grid(n as int, x);
        lemma_floor_on_grid(n as int, y);
        lemma_real_parts(x.spec_floor(), 0);
        lemma_real_parts(y.spec_floor(), 0);
    }
    let i0: i32 = fx.mantissa() as i32;
    let j0: i32 = fy.mantissa() as i32;
    let unit = Real::from_i32(1);
    let s1 = saturating_sub(x, fx);
    let s0 = saturating_sub(unit, s1);
    let t1 = saturating_sub(y, fy);
    let t0 = saturating_sub(unit, t1);
    let low = saturating_add(
        saturating_mul(t0, src[IX(n, i0, j0)]),
        saturating_mul(t1, src[IX(n, i0, j0 + 1)]),
    );
    let high = saturating_add(
        saturating_mul(t0, src[IX(n, i0 + 1, j0)]),
        saturating_mul(t1, src[IX(n, i0 + 1, j0 + 1)]),
    );
    saturating_add(saturating_mul(s0, low), saturating_mul(s1, high))
}

/// Carries the field `d0` along the velocity `(veloc_x, veloc_y)` for the time `dt`
/// into the interior of `d`, then enforces the boundary condition `b` on `d`.
pub fn advect(
    b: Boundary,
    size: i32,
    d: &mut Vec<Real>,
    d0: &Vec<Real>,
    veloc_x: &Vec<Real>,
    veloc_y: &Vec<Real>,
    dt: Real,
)
    requires
        valid_size(size as int),
        old(d).len() == size * size,
        d0.len() == size * size,
        veloc_x.len() == size * size,
        veloc_y.len() == size * size,
    ensures
        final(d)@ == advected(b, size as int, old(d)@, d0@, veloc_x@, veloc_y@, dt),
{
    let n = size;
    let step = saturating_mul(dt, Real::from_i32(n - 2));
    let lo = Real::from_tenths(5);
    let hi = Real::from_tenths(10 * (n as i64) - 5);
    let ghost start = d@;
    let ghost f = |i: int, j: int| advect_cell(n as int, d0@, veloc_x@, veloc_y@, dt, i, j);
    proof {
        lemma_filled_start(n as int, start, f);
    }
    let mut j: i32 = 1;
    while j < n - 1
        invariant
            valid_size(n as int),
            1 <= j <= n - 1,
            d.len() == n * n,
            start.len() == n * n,
            d0.len() == n * n,
            veloc_x.len() == n * n,
            veloc_y.len() == n * n,
            step == product(dt, decimal(n - 2, 0)),
            lo == half(),
            hi == upper_bound(n as int),
            f == |i: int, j: int| advect_cell(n as int, d0@, veloc_x@, veloc_y@, dt, i, j),
            filled_to(n as int, d@, start, f, 1, j as int),
        decreases n - j,
    {
        let mut i: i32 = 1;
        while i < n - 1
            invariant
                valid_size(n as int),
                1 <= j < n - 1,
                1 <= i <= n - 1,
                d.len() == n * n,
                start.len() == n * n,
                d0.len() == n * n,
                veloc_x.len() == n * n,
                veloc_y.len() == n * n,
                step == product(dt, decimal(n - 2, 0)),
                lo == half(),
                hi == upper_bound(n as int),
                f == |i: int, j: int| advect_cell(n as int, d0@, veloc_x@, veloc_y@, dt, i, j),
                filled_to(n as int, d@, start, f, i as int, j as int),
            decreases n - i,
        {
            let k = IX(n, i, j);
            let x = clamp_to(
                saturating_sub(Real::from_i32(i), saturating_mul(step, veloc_x[k])),
                lo,
                hi,
            );
            let y = clamp_to(
                saturating_sub(Real::from_i32(j), saturating_mul(step, veloc_y[k])),
                lo,
                hi,
            );
            proof {
                lemma_clamp_within(
                    n as int,
                    difference(decimal(i as int, 0), product(step, veloc_x@[k as int])),
                );
                lemma_clamp_within(
                    n as int,
                    difference(decimal(j as int, 0), product(step, veloc_y@[k as int])),
                );
            }
            let v = sample(n, d0, x, y);
            proof {
                assert(v == f(i as int, j as int));
                lemma_offset_parts(n as int, i as int, j as int);
                lemma_filled_step(n as int, d@, start, f, i as int, j as int);
            }
            d[k] = v;
            i = i + 1;
        }
        proof {
            lemma_filled_next_row(n as int, d@, start, f, j as int);
        }
        j = j + 1;
    }
    proof {
        lemma_filled_done(n as int, d@, start, f);
    }
    set_bnd(b, n, d);
}

} // verus!
