//! The simulation: a density and a velocity field on a square grid, and the step
//! that moves both forward in time.

use crate::advect::{advect, advected, lemma_advected_keeps_zero};
use crate::boundary::Boundary;
use crate::error::ConfigError;
use crate::grid::{cell_index, lemma_cell_index_bounds, valid_size, IX, MAX_SIZE, MIN_SIZE};
use crate::number::{all_zero, decimal, lemma_real_parts, one, saturating_add, sum, Real};
use crate::project::{
    cleared, corrected_x, corrected_y, divergence, lemma_corrected_keeps_zero,
    lemma_divergence_of_zero, lemma_pressure_of_zero, pressure, project,
};
use crate::solver::{
    diffuse, diffused, diffusion_a, diffusion_c, diffusion_coefficients,
    lemma_relaxed_keeps_zero, lemma_relaxed_len,
};
use vstd::prelude::*;

verus! {

/// What a simulation holds, as mathematical values.
pub struct FluidState {
    /// The side of the grid.
    pub size: int,
    /// The number of sweeps of each solve.
    pub iterations: int,
    /// The time step.
    pub dt: Real,
    /// The rate at which the density diffuses.
    pub diffusion: Real,
    /// The rate at which the velocity diffuses.
    pub viscosity: Real,
    /// The density of each cell, row by row.
    pub density: Seq<Real>,
    /// Scratch space of the density.
    pub density_prev: Seq<Real>,
    /// The x-velocity of each cell.
    pub vx: Seq<Real>,
    /// The y-velocity of each cell.
    pub vy: Seq<Real>,
    /// Scratch space of the x-velocity.
    pub vx_prev: Seq<Real>,
    /// Scratch space of the y-velocity.
    pub vy_prev: Seq<Real>,
}

/// Whether a state is one that a simulation can be in: a grid of a valid side, six
/// fields of its size, at least one sweep, and diffusion equations that can be
/// solved.
pub open spec fn well_formed(s: FluidState) -> bool {
    &&& valid_size(s.size)
    &&& 1 <= s.iterations
    &&& s.density.len() == s.size * s.size
    &&& s.density_prev.len() == s.size * s.size
    &&& s.vx.len() == s.size * s.size
    &&& s.vy.len() == s.size * s.size
    &&& s.vx_prev.len() == s.size * s.size
    &&& s.vy_prev.len() == s.size * s.size
    &&& !diffusion_c(diffusion_a(s.size, s.dt, s.viscosity)).is_zero()
    &&& !diffusion_c(diffusion_a(s.size, s.dt, s.diffusion)).is_zero()
}

/// A velocity `(vx, vy)` and the two scratch fields after a projection.
pub struct Projected {
    /// The corrected x-velocity.
    pub vx: Seq<Real>,
    /// The corrected y-velocity.
    pub vy: Seq<Real>,
    /// The pressure.
    pub p: Seq<Real>,
    /// The divergence that was measured.
    pub div: Seq<Real>,
}

/// The outcome of projecting the velocity `(vx, vy)` with the scratch fields `p`
/// and `div`.
pub open spec fn projected(
    n: int,
    vx: Seq<Real>,
    vy: Seq<Real>,
    p: Seq<Real>,
    div: Seq<Real>,
    iterations: int,
) -> Projected {
    let d = divergence(n, vx, vy, div);
    let q = pressure(n, cleared(n, p), d, iterations);
    Projected { vx: corrected_x(n, vx, q), vy: corrected_y(n, vy, q), p: q, div: d }
}

/// The state one time step after `s`: the velocity is diffused, projected, carried
/// along itself and projected again; then the density is diffused and carried along
/// the new velocity.
pub open spec fn step_state(s: FluidState) -> FluidState {
    let n = s.size;
    let it = s.iterations;
    let spread_x = diffused(Boundary::MirrorX, n, s.vx_prev, s.vx, s.viscosity, s.dt, it);
    let spread_y = diffused(Boundary::MirrorY, n, s.vy_prev, s.vy, s.viscosity, s.dt, it);
    let first = projected(n, spread_x, spread_y, s.vx, s.vy, it);
    let moved_x = advected(Boundary::MirrorX, n, first.p, first.vx, first.vx, first.vy, s.dt);
    let moved_y = advected(Boundary::MirrorY, n, first.div, first.vy, first.vx, first.vy, s.dt);
    let second = projected(n, moved_x, moved_y, first.vx, first.vy, it);
    let spread = diffused(Boundary::Reflect, n, s.density_prev, s.density, s.diffusion, s.dt, it);
    let moved = advected(Boundary::Reflect, n, s.density, spread, second.vx, second.vy, s.dt);
    FluidState {
        density: moved,
        density_prev: spread,
        vx: second.vx,
        vy: second.vy,
        vx_prev: second.p,
        vy_prev: second.div,
        ..s
    }
}

/// Whether every field of a state is zero everywhere.
pub open spec fn at_rest(s: FluidState) -> bool {
    &&& all_zero(s.density)
    &&& all_zero(s.density_prev)
    &&& all_zero(s.vx)
    &&& all_zero(s.vy)
    &&& all_zero(s.vx_prev)
    &&& all_zero(s.vy_prev)
}

/// One call that changes a simulation.
pub enum Call {
    /// Adds `amount` to the density of the cell nearest to `(x, y)`.
    AddDensity { x: int, y: int, amount: Real },
    /// Adds `(dx, dy)` to the velocity of the cell nearest to `(x, y)`.
    AddVelocity { x: int, y: int, dx: Real, dy: Real },
    /// Moves the simulation one time step on.
    Step,
}

/// The state after one call.
pub open spec fn after(s: FluidState, call: Call) -> FluidState {
    match call {
        Call::AddDensity { x, y, amount } => with_density(s, x, y, amount),
        Call::AddVelocity { x, y, dx, dy } => with_velocity(s, x, y, dx, dy),
        Call::Step => step_state(s),
    }
}

/// The state after a sequence of calls, made from first to last.
pub open spec fn after_all(s: FluidState, calls: Seq<Call>) -> FluidState
    decreases calls.len(),
{
    if calls.len() == 0 {
        s
    } else {
        after(after_all(s, calls.drop_last()), calls.last())
    }
}

/// The state `s` with `amount` added to the density of the cell nearest to
/// `(x, y)`.
pub open spec fn with_density(s: FluidState, x: int, y: int, amount: Real) -> FluidState {
    let k = cell_index(s.size, x, y);
    FluidState { density: s.density.update(k, sum(s.density[k], amount)), ..s }
}

/// The state `s` with `(dx, dy)` added to the velocity of the cell nearest to
/// `(x, y)`.
pub open spec fn with_velocity(s: FluidState, x: int, y: int, dx: Real, dy: Real) -> FluidState {
    let k = cell_index(s.size, x, y);
    FluidState { vx: s.vx.update(k, sum(s.vx[k], dx)), vy: s.vy.update(k, sum(s.vy[k], dy)), ..s }
}

/// The field of `cells` cells that are all the zero of scale 0.
pub open spec fn zeros(cells: int) -> Seq<Real> {
    Seq::new(cells as nat, |k: int| decimal(0, 0))
}

/// The state of a new simulation: every field zero.
pub open spec fn initial_state(
    size: int,
    diffusion: Real,
    viscosity: Real,
    dt: Real,
    iterations: int,
) -> FluidState {
    FluidState {
        size,
        iterations,
        dt,
        diffusion,
        viscosity,
        density: zeros(size * size),
        density_prev: zeros(size * size),
        vx: zeros(size * size),
        vy: zeros(size * size),
        vx_prev: zeros(size * size),
        vy_prev: zeros(size * size),
    }
}

/// Why a grid of side `size`, swept `iterations` times, with the divisors `c_visc`
/// and `c_diff` of its two diffusion equations makes no simulation, if it makes
/// none. The side is judged first, then the number of sweeps, then the divisors.
pub open spec fn config_error_of(size: int, iterations: int, c_visc: Real, c_diff: Real) -> Option<
    ConfigError,
> {
    if !valid_size(size) {
        Some(ConfigError::InvalidSize)
    } else if iterations < 1 {
        Some(ConfigError::InvalidIterations)
    } else if c_visc.is_zero() || c_diff.is_zero() {
        Some(ConfigError::ZeroCoefficient)
    } else {
        None
    }
}

/// Why the given parameters make no simulation, if they make none.
pub open spec fn config_error(
    size: int,
    diffusion: Real,
    viscosity: Real,
    dt: Real,
    iterations: int,
) -> Option<ConfigError> {
    config_error_of(
        size,
        iterations,
        diffusion_c(diffusion_a(size, dt, viscosity)),
        diffusion_c(diffusion_a(size, dt, diffusion)),
    )
}

/// The velocity as one sequence: for each cell its x- and then its y-component.
pub open spec fn interleaved(vx: Seq<Real>, vy: Seq<Real>) -> Seq<Real> {
    Seq::new(
        2 * vx.len(),
        |k: int|
            if k % 2 == 0 {
                vx[k / 2]
            } else {
                vy[k / 2]
            },
    )
}

/// A projection keeps a velocity at zero that is zero everywhere, and leaves the
/// two scratch fields zero everywhere if they were so.
pub proof fn lemma_projected_keeps_zero(
    n: int,
    vx: Seq<Real>,
    vy: Seq<Real>,
    p: Seq<Real>,
    div: Seq<Real>,
    iterations: int,
)
    requires
        valid_size(n),
        vx.len() == n * n,
        vy.len() == n * n,
        p.len() == n * n,
        div.len() == n * n,
        all_zero(vx),
        all_zero(vy),
        all_zero(p),
        all_zero(div),
    ensures
        ({
            let r = projected(n, vx, vy, p, div, iterations);
            &&& r.vx.len() == n * n
            &&& r.vy.len() == n * n
            &&& r.p.len() == n * n
            &&& r.div.len() == n * n
            &&& all_zero(r.vx)
            &&& all_zero(r.vy)
            &&& all_zero(r.p)
            &&& all_zero(r.div)
        }),
{
    lemma_divergence_of_zero(n, vx, vy, div);
    let d = divergence(n, vx, vy, div);
    lemma_pressure_of_zero(n, p, d, iterations);
    let q = pressure(n, cleared(n, p), d, iterations);
    lemma_corrected_keeps_zero(n, vx, vy, q);
}

/// A simulation in which every field is zero everywhere is in such a state again
/// after a step: with no density and no velocity anywhere, none appears.
pub proof fn lemma_step_keeps_rest(s: FluidState)
    requires
        well_formed(s),
        at_rest(s),
    ensures
        at_rest(step_state(s)),
{
    let n = s.size;
    let it = s.iterations;
    let a_visc = diffusion_a(n, s.dt, s.viscosity);
    let a_diff = diffusion_a(n, s.dt, s.diffusion);
    lemma_relaxed_keeps_zero(
        Boundary::MirrorX,
        n,
        s.vx_prev,
        s.vx,
        a_visc,
        diffusion_c(a_visc),
        it,
    );
    lemma_relaxed_keeps_zero(
        Boundary::MirrorY,
        n,
        s.vy_prev,
        s.vy,
        a_visc,
        diffusion_c(a_visc),
        it,
    );
    let spread_x = diffused(Boundary::MirrorX, n, s.vx_prev, s.vx, s.viscosity, s.dt, it);
    let spread_y = diffused(Boundary::MirrorY, n, s.vy_prev, s.vy, s.viscosity, s.dt, it);
    lemma_projected_keeps_zero(n, spread_x, spread_y, s.vx, s.vy, it);
    let first = projected(n, spread_x, spread_y, s.vx, s.vy, it);
    lemma_advected_keeps_zero(Boundary::MirrorX, n, first.p, first.vx, first.vx, first.vy, s.dt);
    lemma_advected_keeps_zero(
        Boundary::MirrorY,
        n,
        first.div,
        first.vy,
        first.vx,
        first.vy,
        s.dt,
    );
    let moved_x = advected(Boundary::MirrorX, n, first.p, first.vx, first.vx, first.vy, s.dt);
    let moved_y = advected(Boundary::MirrorY, n, first.div, first.vy, first.vx, first.vy, s.dt);
    lemma_projected_keeps_zero(n, moved_x, moved_y, first.vx, first.vy, it);
    let second = projected(n, moved_x, moved_y, first.vx, first.vy, it);
    lemma_relaxed_keeps_zero(
        Boundary::Reflect,
        n,
        s.density_prev,
        s.density,
        a_diff,
        diffusion_c(a_diff),
        it,
    );
    let spread = diffused(Boundary::Reflect, n, s.density_prev, s.density, s.diffusion, s.dt, it);
    lemma_advected_keeps_zero(
        Boundary::Reflect,
        n,
        s.density,
        spread,
        second.vx,
        second.vy,
        s.dt,
    );
}

/// A projection keeps the length of the four fields.
pub proof fn lemma_projected_len(
    n: int,
    vx: Seq<Real>,
    vy: Seq<Real>,
    p: Seq<Real>,
    div: Seq<Real>,
    iterations: int,
)
    requires
        valid_size(n),
        vx.len() == n * n,
        vy.len() == n * n,
        p.len() == n * n,
        div.len() == n * n,
    ensures
        ({
            let r = projected(n, vx, vy, p, div, iterations);
            &&& r.vx.len() == n * n
            &&& r.vy.len() == n * n
            &&& r.p.len() == n * n
            &&& r.div.len() == n * n
        }),
{
    let d = divergence(n, vx, vy, div);
    lemma_relaxed_len(Boundary::Reflect, n, cleared(n, p), d, one(), decimal(6, 0), iterations);
}

/// A step leads from a state that a simulation can be in to such a state.
pub proof fn lemma_step_keeps_well_formed(s: FluidState)
    requires
        well_formed(s),
    ensures
        well_formed(step_state(s)),
{
    let n = s.size;
    let it = s.iterations;
    let a_visc = diffusion_a(n, s.dt, s.viscosity);
    let a_diff = diffusion_a(n, s.dt, s.diffusion);
    lemma_relaxed_len(Boundary::MirrorX, n, s.vx_prev, s.vx, a_visc, diffusion_c(a_visc), it);
    lemma_relaxed_len(Boundary::MirrorY, n, s.vy_prev, s.vy, a_visc, diffusion_c(a_visc), it);
    let spread_x = diffused(Boundary::MirrorX, n, s.vx_prev, s.vx, s.viscosity, s.dt, it);
    let spread_y = diffused(Boundary::MirrorY, n, s.vy_prev, s.vy, s.viscosity, s.dt, it);
    lemma_projected_len(n, spread_x, spread_y, s.vx, s.vy, it);
    let first = projected(n, spread_x, spread_y, s.vx, s.vy, it);
    let moved_x = advected(Boundary::MirrorX, n, first.p, first.vx, first.vx, first.vy, s.dt);
    let moved_y = advected(Boundary::MirrorY, n, first.div, first.vy, first.vx, first.vy, s.dt);
    lemma_projected_len(n, moved_x, moved_y, first.vx, first.vy, it);
    lemma_relaxed_len(
        Boundary::Reflect,
        n,
        s.density_prev,
        s.density,
        a_diff,
        diffusion_c(a_diff),
        it,
    );
}

/// Every sequence of calls leads from a state that a simulation can be in to such
/// a state: no call is ever refused.
pub proof fn lemma_calls_keep_well_formed(s: FluidState, calls: Seq<Call>)
    requires
        well_formed(s),
    ensures
        well_formed(after_all(s, calls)),
    decreases calls.len(),
{
    if calls.len() > 0 {
        lemma_calls_keep_well_formed(s, calls.drop_last());
        let t = after_all(s, calls.drop_last());
        match calls.last() {
            Call::AddDensity { x, y, amount } => {
                lemma_cell_index_bounds(t.size, x, y);
            },
            Call::AddVelocity { x, y, dx, dy } => {
                lemma_cell_index_bounds(t.size, x, y);
            },
            Call::Step => {
                lemma_step_keeps_well_formed(t);
            },
        }
    }
}

/// A new simulation is at rest.
pub proof fn lemma_initial_state_at_rest(
    size: int,
    diffusion: Real,
    viscosity: Real,
    dt: Real,
    iterations: int,
)
    requires
        size * size >= 0,
    ensures
        at_rest(initial_state(size, diffusion, viscosity, dt, iterations)),
{
    lemma_real_parts(0, 0);
}

/// A new simulation can take a step, and after it every field is still zero
/// everywhere: nothing comes of nothing.
pub proof fn lemma_new_simulation_stays_at_rest(
    size: int,
    diffusion: Real,
    viscosity: Real,
    dt: Real,
    iterations: int,
)
    requires
        config_error(size, diffusion, viscosity, dt, iterations) is None,
    ensures
        well_formed(initial_state(size, diffusion, viscosity, dt, iterations)),
        at_rest(step_state(initial_state(size, diffusion, viscosity, dt, iterations))),
{
    assert(size * size >= 0) by (nonlinear_arith);
    lemma_initial_state_at_rest(size, diffusion, viscosity, dt, iterations);
    lemma_step_keeps_rest(initial_state(size, diffusion, viscosity, dt, iterations));
}

/// The fields that a simulation holds after a sequence of calls depend on nothing
/// but the state before them and the calls: from equal states, equal calls lead to
/// equal densities and equal velocities.
pub proof fn lemma_same_calls_same_fields(a: FluidState, b: FluidState, calls: Seq<Call>)
    requires
        a == b,
    ensures
        after_all(a, calls) == after_all(b, calls),
        after_all(a, calls).density == after_all(b, calls).density,
        interleaved(after_all(a, calls).vx, after_all(a, calls).vy) == interleaved(
            after_all(b, calls).vx,
            after_all(b, calls).vy,
        ),
{
}

/// A fluid simulation on a square grid.
pub struct Fluid {
    size: i32,
    iterations: i32,
    dt: Real,
    diff: Real,
    visc: Real,
    s: Vec<Real>,
    density: Vec<Real>,
    vx: Vec<Real>,
    vy: Vec<Real>,
    vx0: Vec<Real>,
    vy0: Vec<Real>,
}

/// Judges a configuration: the side of the grid, the number of sweeps, and the
/// divisors of the two diffusion equations.
pub fn validate(size: i32, iterations: i32, c_visc: Real, c_diff: Real) -> (r: Result<
    (),
    ConfigError,
>)
    ensures
        r == match config_error_of(size as int, iterations as int, c_visc, c_diff) {
            Some(e) => Err::<(), ConfigError>(e),
            None => Ok::<(), ConfigError>(()),
        },
{
    if size < MIN_SIZE || size > MAX_SIZE {
        Err(ConfigError::InvalidSize)
    } else if iterations < 1 {
        Err(ConfigError::InvalidIterations)
    } else if c_visc.mantissa() == 0 || c_diff.mantissa() == 0 {
        Err(ConfigError::ZeroCoefficient)
    } else {
        Ok(())
    }
}

/// Takes the outcome of a solve that the configuration cannot fail.
fn granted(outcome: Result<(), ConfigError>)
    requires
        outcome is Ok,
{
}

/// A field of `cells` zeros.
fn zero_field(cells: usize) -> (r: Vec<Real>)
    ensures
        r@ == zeros(cells as int),
{
    let zero = Real::from_i32(0);
    let mut r: Vec<Real> = Vec::new();
    let mut k: usize = 0;
    while k < cells
        invariant
            k <= cells,
            zero == decimal(0, 0),
            r@ == zeros(k as int),
        decreases cells - k,
    {
        r.push(zero);
        assert(r@ =~= zeros(k + 1));
        k = k + 1;
    }
    r
}

impl View for Fluid {
    type V = FluidState;

    closed spec fn view(&self) -> FluidState {
        FluidState {
            size: self.size as int,
            iterations: self.iterations as int,
            dt: self.dt,
            diffusion: self.diff,
            viscosity: self.visc,
            density: self.density@,
            density_prev: self.s@,
            vx: self.vx@,
            vy: self.vy@,
            vx_prev: self.vx0@,
            vy_prev: self.vy0@,
        }
    }
}

impl Fluid {
    /// Whether the simulation is in a state that it can be in.
    pub open spec fn wf(&self) -> bool {
        well_formed(self@)
    }

    /// Sets up a simulation on a grid of side `size`, every field zero. Fails where
    /// the side is below 3 or above `MAX_SIZE`, where `iterations` is below 1, and
    /// where one of the two diffusion equations has a divisor of zero.
    pub fn create(size: i32, diffusion: Real, viscosity: Real, dt: Real, iterations: i32) -> (r:
        Result<Fluid, ConfigError>)
        ensures
            match r {
                Ok(f) => {
                    &&& config_error(size as int, diffusion, viscosity, dt, iterations as int)
                        is None
                    &&& f.wf()
                    &&& f@ == initial_state(
                        size as int,
                        diffusion,
                        viscosity,
                        dt,
                        iterations as int,
                    )
                },
                Err(e) => config_error(size as int, diffusion, viscosity, dt, iterations as int)
                    == Some(e),
            },
    {
        if size < MIN_SIZE || size > MAX_SIZE {
            return Err(ConfigError::InvalidSize);
        }
        let (_, c_visc) = diffusion_coefficients(size, dt, viscosity);
        let (_, c_diff) = diffusion_coefficients(size, dt, diffusion);
        match validate(size, iterations, c_visc, c_diff) {
            Err(e) => {
                return Err(e);
            },
            Ok(()) => {},
        }
        assert(0 <= size * size <= MAX_SIZE * MAX_SIZE) by (nonlinear_arith)
            requires
                MIN_SIZE <= size <= MAX_SIZE,
        ;
        let cells: usize = (size * size) as usize;
        Ok(
            Fluid {
                size,
                iterations,
                dt,
                diff: diffusion,
                visc: viscosity,
                s: zero_field(cells),
                density: zero_field(cells),
                vx: zero_field(cells),
                vy: zero_field(cells),
                vx0: zero_field(cells),
                vy0: zero_field(cells),
            },
        )
    }

    /// Moves the simulation one time step on.
    pub fn step(&mut self)
        requires
            old(self).wf(),
        ensures
            final(self).wf(),
            final(self)@ == step_state(old(self)@),
            final(self)@ == after(old(self)@, Call::Step),
            at_rest(old(self)@) ==> at_rest(final(self)@),
    {
        proof {
            if at_rest(self@) {
                lemma_step_keeps_rest(self@);
            }
        }
        let n = self.size;
        let it = self.iterations;
        granted(diffuse(Boundary::MirrorX, n, &mut self.vx0, &self.vx, self.visc, self.dt, it));
        granted(diffuse(Boundary::MirrorY, n, &mut self.vy0, &self.vy, self.visc, self.dt, it));
        granted(project(n, &mut self.vx0, &mut self.vy0, &mut self.vx, &mut self.vy, it));
        advect(Boundary::MirrorX, n, &mut self.vx, &self.vx0, &self.vx0, &self.vy0, self.dt);
        advect(Boundary::MirrorY, n, &mut self.vy, &self.vy0, &self.vx0, &self.vy0, self.dt);
        granted(project(n, &mut self.vx, &mut self.vy, &mut self.vx0, &mut self.vy0, it));
        granted(diffuse(Boundary::Reflect, n, &mut self.s, &self.density, self.diff, self.dt, it));
        advect(Boundary::Reflect, n, &mut self.density, &self.s, &self.vx, &self.vy, self.dt);
    }

    /// Adds `amount`, which may be negative, to the density of the cell nearest to
    /// `(x, y)`.
    #[allow(non_snake_case)]
    pub fn addDensity(&mut self, x: i32, y: i32, amount: Real)
        requires
            old(self).wf(),
        ensures
            final(self).wf(),
            final(self)@ == with_density(old(self)@, x as int, y as int, amount),
            final(self)@ == after(
                old(self)@,
                Call::AddDensity { x: x as int, y: y as int, amount },
            ),
    {
        let index = IX(self.size, x, y);
        let v = saturating_add(self.density[index], amount);
        self.density[index] = v;
    }

    /// Adds `(amount_x, amount_y)` to the velocity of the cell nearest to `(x, y)`.
    #[allow(non_snake_case)]
    pub fn addVelocity(&mut self, x: i32, y: i32, amount_x: Real, amount_y: Real)
        requires
            old(self).wf(),
        ensures
            final(self).wf(),
            final(self)@ == with_velocity(old(self)@, x as int, y as int, amount_x, amount_y),
            final(self)@ == after(
                old(self)@,
                Call::AddVelocity { x: x as int, y: y as int, dx: amount_x, dy: amount_y },
            ),
    {
        let index = IX(self.size, x, y);
        let vx = saturating_add(self.vx[index], amount_x);
        let vy = saturating_add(self.vy[index], amount_y);
        self.vx[index] = vx;
        self.vy[index] = vy;
    }

    /// The side of the grid.
    pub fn size(&self) -> (r: i32)
        ensures
            r == self@.size,
    {
        self.size
    }

    /// The density of each cell, row by row.
    pub fn get_density(&self) -> (r: &Vec<Real>)
        ensures
            r@ == self@.density,
    {
        &self.density
    }

    /// The velocity of each cell, row by row: for each cell its x- and then its
    /// y-component.
    pub fn get_velocity(&self) -> (r: Vec<Real>)
        requires
            self.wf(),
        ensures
            r@ == interleaved(self@.vx, self@.vy),
    {
        let mut r: Vec<Real> = Vec::new();
        let cells = self.vx.len();
        let mut k: usize = 0;
        while k < cells
            invariant
                k <= cells,
                cells == self.vx.len(),
                cells == self.vy.len(),
                r@ == interleaved(self.vx@.take(k as int), self.vy@.take(k as int)),
            decreases cells - k,
        {
            r.push(self.vx[k]);
            r.push(self.vy[k]);
            assert(r@ =~= interleaved(self.vx@.take(k + 1), self.vy@.take(k + 1)));
            k = k + 1;
        }
        assert(self.vx@.take(cells as int) == self.vx@);
        assert(self.vy@.take(cells as int) == self.vy@);
        r
    }
}

} // verus!
