use rust_decimal::Decimal;
use stable_fluids::advect::{advect, sample};
use stable_fluids::boundary::Boundary;
use stable_fluids::number::Real;

fn num(mantissa: i128, scale: u32) -> Real {
    Real::new(mantissa, scale).unwrap()
}

fn dec(r: &Real) -> Decimal {
    Decimal::from_i128_with_scale(r.mantissa(), r.scale())
}

fn filled(n: usize, v: Real) -> Vec<Real> {
    vec![v; n * n]
}

/// A field of side `n` that holds `j + i / 10` in the cell `(i, j)`.
fn numbered(n: i32) -> Vec<Real> {
    let mut x = Vec::new();
    for j in 0..n {
        for i in 0..n {
            x.push(num((10 * j + i) as i128, 1));
        }
    }
    x
}

#[test]
fn sample_at_a_cell_centre_is_the_cell() {
    let src = numbered(4);
    let v = sample(4, &src, num(2, 0), num(1, 0));
    assert_eq!(dec(&v), Decimal::new(12, 1));
    let v = sample(4, &src, num(10, 1), num(200, 2));
    assert_eq!(dec(&v), Decimal::new(21, 1));
}

#[test]
fn sample_weights_the_four_cells_around_a_place() {
    // at (1.25, 1.5): 0.75 * (0.5 * 1.1 + 0.5 * 2.1) + 0.25 * (0.5 * 1.2 + 0.5 * 2.2)
    let src = numbered(4);
    let v = sample(4, &src, num(125, 2), num(15, 1));
    assert_eq!(dec(&v), Decimal::new(1625, 3));
}

#[test]
fn sample_follows_the_formula_with_uneven_weights() {
    let mut src = filled(4, num(0, 0));
    src[5] = num(3, 0);
    src[6] = num(-7, 0);
    src[9] = num(11, 1);
    src[10] = num(4, 2);
    let x = Decimal::new(1875, 3);
    let y = Decimal::new(1125, 3);
    let s1 = x - Decimal::ONE;
    let s0 = Decimal::ONE - s1;
    let t1 = y - Decimal::ONE;
    let t0 = Decimal::ONE - t1;
    let expected = s0 * (t0 * dec(&src[5]) + t1 * dec(&src[9]))
        + s1 * (t0 * dec(&src[6]) + t1 * dec(&src[10]));
    let v = sample(4, &src, num(1875, 3), num(1125, 3));
    assert_eq!((v.mantissa(), v.scale()), (expected.mantissa(), expected.scale()));
}

#[test]
fn sample_at_the_lowest_place_mixes_wall_and_interior() {
    // at (0.5, 0.5): the mean of the cells (0,0), (1,0), (0,1), (1,1)
    let src = numbered(4);
    let v = sample(4, &src, num(5, 1), num(5, 1));
    assert_eq!(dec(&v), Decimal::new(55, 2));
}

#[test]
fn sample_at_the_highest_place_stays_on_the_grid() {
    // at (3.5, 3.5) the cells one past the last column and row are the last ones
    let src = numbered(4);
    let v = sample(4, &src, num(35, 1), num(35, 1));
    assert_eq!(dec(&v), Decimal::new(33, 1));
    let v = sample(4, &src, num(35, 1), num(1, 0));
    assert_eq!(dec(&v), Decimal::new(13, 1));
}

#[test]
fn still_fluid_keeps_the_interior() {
    let n = 5;
    let d0 = numbered(n);
    let mut d = filled(5, num(9, 0));
    let still = filled(5, num(0, 0));
    advect(Boundary::Reflect, n, &mut d, &d0, &still, &still, num(1, 1));
    for j in 1..4usize {
        for i in 1..4usize {
            assert_eq!(dec(&d[i + 5 * j]), dec(&d0[i + 5 * j]));
        }
    }
    // the walls are set from the new interior, not from the source
    assert_eq!(dec(&d[2]), dec(&d0[7]));
    assert_eq!(dec(&d[10]), dec(&d0[11]));
}

#[test]
fn a_flow_of_one_cell_per_step_shifts_the_field() {
    // dt * (n - 2) = 0.25 * 4 = 1 cell per unit of velocity
    let n = 6;
    let d0 = numbered(n);
    let mut d = filled(6, num(0, 0));
    let right = filled(6, num(1, 0));
    let still = filled(6, num(0, 0));
    advect(Boundary::Reflect, n, &mut d, &d0, &right, &still, num(25, 2));
    for j in 1..5usize {
        for i in 2..5usize {
            assert_eq!(dec(&d[i + 6 * j]), dec(&d0[i - 1 + 6 * j]));
        }
        // the first column is traced back to x = 0, which is sampled at x = 0.5
        let mean = (dec(&d0[6 * j]) + dec(&d0[1 + 6 * j])) / Decimal::TWO;
        assert_eq!(dec(&d[1 + 6 * j]), mean);
    }
    let down = filled(6, num(-1, 0));
    advect(Boundary::Reflect, n, &mut d, &d0, &still, &down, num(25, 2));
    for j in 1..5usize {
        for i in 1..5usize {
            assert_eq!(dec(&d[i + 6 * j]), dec(&d0[i + 6 * (j + 1)]));
        }
    }
}

#[test]
fn half_a_cell_per_step_takes_the_mean_of_two_cells() {
    let n = 6;
    let d0 = numbered(n);
    let mut d = filled(6, num(0, 0));
    let right = filled(6, num(5, 1));
    let still = filled(6, num(0, 0));
    advect(Boundary::Reflect, n, &mut d, &d0, &right, &still, num(25, 2));
    for j in 1..5usize {
        for i in 1..5usize {
            let mean = (dec(&d0[i - 1 + 6 * j]) + dec(&d0[i + 6 * j])) / Decimal::TWO;
            assert_eq!(dec(&d[i + 6 * j]), mean);
        }
    }
}

#[test]
fn a_fast_flow_samples_at_the_edge_of_the_range() {
    let n = 4;
    let d0 = numbered(n);
    let mut d = filled(4, num(0, 0));
    let fast = filled(4, num(1000000, 0));
    let still = filled(4, num(0, 0));
    // traced back far to the left: sampled at x = 0.5
    advect(Boundary::Reflect, n, &mut d, &d0, &fast, &still, num(1, 0));
    for j in 1..3usize {
        for i in 1..3usize {
            let mean = (dec(&d0[4 * j]) + dec(&d0[1 + 4 * j])) / Decimal::TWO;
            assert_eq!(dec(&d[i + 4 * j]), mean);
        }
    }
    // traced back far to the right: sampled at x = 3.5, where only the last column counts
    let back = filled(4, num(-1000000, 0));
    advect(Boundary::Reflect, n, &mut d, &d0, &back, &still, num(1, 0));
    for j in 1..3usize {
        for i in 1..3usize {
            assert_eq!(dec(&d[i + 4 * j]), dec(&d0[3 + 4 * j]));
        }
    }
}

#[test]
fn the_boundary_mode_is_enforced_on_the_result() {
    let n = 5;
    let d0 = numbered(n);
    let still = filled(5, num(0, 0));
    let mut d = filled(5, num(0, 0));
    advect(Boundary::MirrorX, n, &mut d, &d0, &still, &still, num(1, 1));
    for j in 1..4usize {
        assert_eq!(dec(&d[5 * j]), -dec(&d[1 + 5 * j]));
        assert_eq!(dec(&d[4 + 5 * j]), -dec(&d[3 + 5 * j]));
    }
    let mut e = filled(5, num(0, 0));
    advect(Boundary::MirrorY, n, &mut e, &d0, &still, &still, num(1, 1));
    for i in 1..4usize {
        assert_eq!(dec(&e[i]), -dec(&e[i + 5]));
        assert_eq!(dec(&e[i + 20]), -dec(&e[i + 15]));
    }
}
