use rust_decimal::Decimal;
use stable_fluids::boundary::Boundary;
use stable_fluids::number::Real;
use stable_fluids::error::ConfigError;
use stable_fluids::solver::{diffuse, diffusion_coefficients, lin_solve, relax};

fn num(mantissa: i128, scale: u32) -> Real {
    Real::new(mantissa, scale).unwrap()
}

fn dec(r: &Real) -> Decimal {
    Decimal::from_i128_with_scale(r.mantissa(), r.scale())
}

fn parts(r: &Real) -> (i128, u32) {
    (r.mantissa(), r.scale())
}

fn filled(n: usize, v: Real) -> Vec<Real> {
    vec![v; n * n]
}

#[test]
fn one_sweep_relaxes_the_one_interior_cell() {
    // (1 + 0.5 * (2 + 2 + 2 + 2)) / 4 = 1.25
    let mut x = filled(3, num(2, 0));
    let mut x0 = filled(3, num(0, 0));
    x0[4] = num(1, 0);
    let r = lin_solve(Boundary::Reflect, 3, &mut x, &x0, num(5, 1), num(4, 0), 1);
    assert_eq!(r, Ok(()));
    assert_eq!(dec(&x[4]), Decimal::new(125, 2));
    for k in [1usize, 3, 5, 7] {
        assert_eq!(dec(&x[k]), Decimal::new(125, 2));
    }
    for k in [0usize, 2, 6, 8] {
        assert_eq!(dec(&x[k]), Decimal::new(125, 2));
    }
}

#[test]
fn a_second_sweep_reads_the_walls_that_the_first_one_set() {
    // first sweep: 1.25 everywhere; second: (1 + 0.5 * (4 * 1.25)) / 4 = 0.875
    let mut x = filled(3, num(2, 0));
    let mut x0 = filled(3, num(0, 0));
    x0[4] = num(1, 0);
    relax(Boundary::Reflect, 3, &mut x, &x0, num(5, 1), num(4, 0), 2);
    for k in 0..9 {
        assert_eq!(dec(&x[k]), Decimal::new(875, 3));
    }
}

#[test]
fn a_sweep_reads_the_cells_it_has_just_written() {
    // 4 by 4, a = 1, c = 2, x0 = 0, x = 0 but for the wall cell (0, 1) = 8.
    // (1,1) = (0 + 8 + 0 + 0) / 2 = 4; (2,1) reads the new (1,1): 4 / 2 = 2;
    // (1,2) reads the new (1,1): 4 / 2 = 2; (2,2) reads the new (2,1) and (1,2): 2.
    let mut x = filled(4, num(0, 0));
    x[4] = num(8, 0);
    let x0 = filled(4, num(0, 0));
    relax(Boundary::Reflect, 4, &mut x, &x0, num(1, 0), num(2, 0), 1);
    assert_eq!(dec(&x[5]), Decimal::new(4, 0));
    assert_eq!(dec(&x[6]), Decimal::new(2, 0));
    assert_eq!(dec(&x[9]), Decimal::new(2, 0));
    assert_eq!(dec(&x[10]), Decimal::new(2, 0));
    // the wall is then set from the interior
    assert_eq!(dec(&x[4]), Decimal::new(4, 0));
}

#[test]
fn the_cell_formula_agrees_with_the_decimal_crate() {
    let n = 3;
    let mut x = Vec::new();
    for k in 0..9 {
        x.push(num(17 * k + 3, 2));
    }
    let mut x0 = filled(3, num(0, 0));
    x0[4] = num(-12345, 4);
    let a = Decimal::new(64, 3);
    let c = Decimal::new(1384, 3);
    let around = dec(&x[5]) + dec(&x[3]) + dec(&x[7]) + dec(&x[1]);
    let expected = (dec(&x0[4]) + a * around) / c;
    relax(Boundary::MirrorY, n, &mut x, &x0, num(64, 3), num(1384, 3), 1);
    assert_eq!(parts(&x[4]), (expected.mantissa(), expected.scale()));
    assert_eq!(dec(&x[1]), -expected);
    assert_eq!(dec(&x[7]), -expected);
    assert_eq!(dec(&x[3]), expected);
    assert_eq!(dec(&x[5]), expected);
}

#[test]
fn lin_solve_refuses_a_divisor_of_zero() {
    let mut x = filled(3, num(2, 0));
    let x0 = filled(3, num(1, 0));
    let r = lin_solve(Boundary::Reflect, 3, &mut x, &x0, num(1, 0), num(0, 0), 4);
    assert_eq!(r, Err(ConfigError::ZeroCoefficient));
    let r = lin_solve(Boundary::Reflect, 3, &mut x, &x0, num(1, 0), num(0, 12), 4);
    assert_eq!(r, Err(ConfigError::ZeroCoefficient));
    for k in 0..9 {
        assert_eq!(parts(&x[k]), (2, 0));
    }
}

#[test]
fn lin_solve_refuses_fewer_than_one_sweep() {
    let mut x = filled(3, num(2, 0));
    let x0 = filled(3, num(1, 0));
    for it in [0, -1, i32::MIN] {
        let r = lin_solve(Boundary::Reflect, 3, &mut x, &x0, num(1, 0), num(6, 0), it);
        assert_eq!(r, Err(ConfigError::InvalidIterations));
    }
    let r = lin_solve(Boundary::Reflect, 3, &mut x, &x0, num(1, 0), num(0, 0), 0);
    assert_eq!(r, Err(ConfigError::InvalidIterations));
    for k in 0..9 {
        assert_eq!(parts(&x[k]), (2, 0));
    }
}

#[test]
fn the_diffusion_coefficients_follow_their_formulas() {
    // a = 0.1 * 0.01 * 8 * 8 = 0.064, c = 1 + 6 * 0.064 = 1.384
    let (a, c) = diffusion_coefficients(10, num(1, 1), num(1, 2));
    assert_eq!(dec(&a), Decimal::new(64, 3));
    assert_eq!(dec(&c), Decimal::new(1384, 3));
    // no diffusion: a = 0, c = 1
    let (a, c) = diffusion_coefficients(10, num(1, 1), num(0, 0));
    assert_eq!(a.mantissa(), 0);
    assert_eq!(dec(&c), Decimal::ONE);
}

#[test]
fn diffuse_solves_into_its_first_field() {
    // a = 0.5 * 1 * 1 = 0.5, c = 4: the numbers of the one-cell sweep
    let mut x = filled(3, num(2, 0));
    let mut x0 = filled(3, num(0, 0));
    x0[4] = num(1, 0);
    let r = diffuse(Boundary::Reflect, 3, &mut x, &x0, num(1, 0), num(5, 1), 1);
    assert_eq!(r, Ok(()));
    assert_eq!(dec(&x[4]), Decimal::new(125, 2));
    assert_eq!(parts(&x0[4]), (1, 0));
}

#[test]
fn diffuse_without_a_rate_copies_the_interior() {
    let mut x = filled(5, num(7, 0));
    let mut x0 = Vec::new();
    for k in 0..25 {
        x0.push(num(k, 1));
    }
    let r = diffuse(Boundary::Reflect, 5, &mut x, &x0, num(0, 0), num(1, 1), 3);
    assert_eq!(r, Ok(()));
    for j in 1..4usize {
        for i in 1..4usize {
            assert_eq!(dec(&x[i + 5 * j]), dec(&x0[i + 5 * j]));
        }
    }
}

#[test]
fn diffuse_refuses_fewer_than_one_sweep() {
    let mut x = filled(3, num(2, 0));
    let x0 = filled(3, num(1, 0));
    let r = diffuse(Boundary::Reflect, 3, &mut x, &x0, num(1, 0), num(5, 1), 0);
    assert_eq!(r, Err(ConfigError::InvalidIterations));
    for k in 0..9 {
        assert_eq!(parts(&x[k]), (2, 0));
    }
}

#[test]
fn diffusion_spreads_a_peak_and_lowers_it() {
    let n = 7;
    let mut x = filled(7, num(0, 0));
    let mut x0 = filled(7, num(0, 0));
    x0[24] = num(100, 0);
    let r = diffuse(Boundary::Reflect, n, &mut x, &x0, num(1, 2), num(1, 1), 4);
    assert_eq!(r, Ok(()));
    assert!(dec(&x[24]) < Decimal::new(100, 0));
    assert!(dec(&x[24]) > Decimal::new(50, 0));
    for k in [23usize, 25, 17, 31] {
        assert!(dec(&x[k]) > Decimal::ZERO);
        assert!(dec(&x[k]) < dec(&x[24]));
    }
}
