use rust_decimal::Decimal;
use stable_fluids::fluid::{validate, Fluid};
use stable_fluids::grid::MAX_SIZE;
use stable_fluids::number::Real;
use stable_fluids::error::ConfigError;

fn num(mantissa: i128, scale: u32) -> Real {
    Real::new(mantissa, scale).unwrap()
}

fn dec(r: &Real) -> Decimal {
    Decimal::from_i128_with_scale(r.mantissa(), r.scale())
}

fn parts(r: &Real) -> (i128, u32) {
    (r.mantissa(), r.scale())
}

fn standard(size: i32) -> Fluid {
    Fluid::create(size, num(1, 2), num(0, 0), num(1, 1), 4).unwrap()
}

fn total(field: &Vec<Real>) -> Decimal {
    let mut t = Decimal::ZERO;
    for v in field {
        t += dec(v);
    }
    t
}

#[test]
fn a_new_simulation_is_zero_everywhere() {
    let f = standard(10);
    assert_eq!(f.size(), 10);
    assert_eq!(f.get_density().len(), 100);
    for v in f.get_density() {
        assert_eq!(parts(v), (0, 0));
    }
    let velocity = f.get_velocity();
    assert_eq!(velocity.len(), 200);
    for v in &velocity {
        assert_eq!(parts(v), (0, 0));
    }
}

#[test]
fn create_refuses_a_grid_without_interior() {
    for size in [2, 1, 0, -1, i32::MIN] {
        let r = Fluid::create(size, num(1, 2), num(0, 0), num(1, 1), 4);
        assert_eq!(r.err(), Some(ConfigError::InvalidSize));
    }
}

#[test]
fn create_refuses_a_grid_that_cannot_be_indexed() {
    for size in [MAX_SIZE + 1, i32::MAX] {
        let r = Fluid::create(size, num(1, 2), num(0, 0), num(1, 1), 4);
        assert_eq!(r.err(), Some(ConfigError::InvalidSize));
    }
}

#[test]
fn create_takes_the_smallest_grid() {
    let f = Fluid::create(3, num(1, 2), num(0, 0), num(1, 1), 1).unwrap();
    assert_eq!(f.size(), 3);
    assert_eq!(f.get_density().len(), 9);
}

#[test]
fn create_refuses_fewer_than_one_sweep() {
    for it in [0, -1, i32::MIN] {
        let r = Fluid::create(10, num(1, 2), num(0, 0), num(1, 1), it);
        assert_eq!(r.err(), Some(ConfigError::InvalidIterations));
    }
}

#[test]
fn create_judges_the_size_before_the_sweeps() {
    let r = Fluid::create(2, num(1, 2), num(0, 0), num(1, 1), 0);
    assert_eq!(r.err(), Some(ConfigError::InvalidSize));
}

#[test]
fn add_density_accumulates() {
    let mut f = standard(10);
    f.addDensity(5, 5, num(15, 1));
    // a cell that held zero takes the amount digit for digit
    assert_eq!(parts(&f.get_density()[55]), (15, 1));
    f.addDensity(5, 5, num(225, 2));
    assert_eq!(dec(&f.get_density()[55]), Decimal::new(375, 2));
    f.addDensity(5, 5, num(-5, 0));
    assert_eq!(dec(&f.get_density()[55]), Decimal::new(-125, 2));
    for (k, v) in f.get_density().iter().enumerate() {
        if k != 55 {
            assert_eq!(v.mantissa(), 0);
        }
    }
}

#[test]
fn add_density_to_an_empty_cell_keeps_the_scale_of_the_amount() {
    let mut f = standard(10);
    f.addDensity(1, 1, num(1500, 3));
    f.addDensity(2, 1, num(0, 5));
    f.addDensity(3, 1, num(-7, 28));
    let d = f.get_density();
    assert_eq!(parts(&d[11]), (1500, 3));
    assert_eq!(parts(&d[12]), (0, 5));
    assert_eq!(parts(&d[13]), (-7, 28));
}

#[test]
fn add_density_clamps_its_coordinates() {
    let mut f = standard(10);
    f.addDensity(-3, 4, num(1, 0));
    f.addDensity(12, 4, num(2, 0));
    f.addDensity(4, -1, num(3, 0));
    f.addDensity(4, 10, num(4, 0));
    f.addDensity(i32::MAX, i32::MIN, num(5, 0));
    let d = f.get_density();
    assert_eq!(dec(&d[40]), Decimal::new(1, 0));
    assert_eq!(dec(&d[49]), Decimal::new(2, 0));
    assert_eq!(dec(&d[4]), Decimal::new(3, 0));
    assert_eq!(dec(&d[94]), Decimal::new(4, 0));
    assert_eq!(dec(&d[9]), Decimal::new(5, 0));
}

#[test]
fn add_velocity_accumulates_in_both_components() {
    let mut f = standard(10);
    f.addVelocity(2, 3, num(15, 1), num(-4, 0));
    f.addVelocity(2, 3, num(5, 1), num(1, 0));
    f.addVelocity(-9, 99, num(7, 0), num(8, 0));
    let v = f.get_velocity();
    assert_eq!(dec(&v[2 * 32]), Decimal::new(2, 0));
    assert_eq!(dec(&v[2 * 32 + 1]), Decimal::new(-3, 0));
    assert_eq!(dec(&v[2 * 90]), Decimal::new(7, 0));
    assert_eq!(dec(&v[2 * 90 + 1]), Decimal::new(8, 0));
    for v in f.get_density() {
        assert_eq!(v.mantissa(), 0);
    }
}

#[test]
fn the_velocity_is_read_cell_by_cell() {
    let mut f = standard(3);
    for j in 0..3 {
        for i in 0..3 {
            f.addVelocity(i, j, Real::from_i32(10 * j + i), Real::from_i32(-(10 * j + i)));
        }
    }
    let v = f.get_velocity();
    assert_eq!(v.len(), 18);
    for j in 0..3usize {
        for i in 0..3usize {
            let k = i + 3 * j;
            assert_eq!(parts(&v[2 * k]), ((10 * j + i) as i128, 0));
            assert_eq!(parts(&v[2 * k + 1]), (-((10 * j + i) as i128), 0));
        }
    }
}

#[test]
fn a_fluid_at_rest_stays_at_rest() {
    for size in [3, 4, 8] {
        let mut f = Fluid::create(size, num(1, 2), num(5, 3), num(1, 1), 4).unwrap();
        for _ in 0..3 {
            f.step();
            for v in f.get_density() {
                assert_eq!(v.mantissa(), 0);
            }
            for v in &f.get_velocity() {
                assert_eq!(v.mantissa(), 0);
            }
        }
    }
}

#[test]
fn the_same_calls_give_the_same_fields() {
    let mut a = standard(10);
    let mut b = standard(10);
    for f in [&mut a, &mut b] {
        f.addDensity(5, 5, num(100, 0));
        f.addVelocity(5, 5, num(25, 1), num(-5, 1));
        f.step();
        f.addDensity(3, 4, num(-7, 1));
        f.addVelocity(2, 2, num(1, 3), num(1, 0));
        f.step();
        f.step();
    }
    let da = a.get_density();
    let db = b.get_density();
    for k in 0..100 {
        assert_eq!(parts(&da[k]), parts(&db[k]));
    }
    let va = a.get_velocity();
    let vb = b.get_velocity();
    for k in 0..200 {
        assert_eq!(parts(&va[k]), parts(&vb[k]));
    }
    assert!(va.iter().any(|v| v.mantissa() != 0));
}

#[test]
fn a_peak_of_density_diffuses_outward() {
    let mut f = Fluid::create(10, num(1, 2), num(0, 0), num(1, 1), 4).unwrap();
    f.addDensity(5, 5, num(100, 0));
    f.step();
    let d = f.get_density();
    let centre = dec(&d[55]);
    assert!(centre < Decimal::new(100, 0));
    assert!(centre > Decimal::ZERO);
    for k in [54usize, 56, 45, 65] {
        assert!(dec(&d[k]) > Decimal::ZERO);
        assert!(dec(&d[k]) < centre);
    }
    // four sweeps reach four cells far; what lies beyond holds next to nothing
    let bound = Decimal::new(1, 3);
    for j in 0..10i32 {
        for i in 0..10i32 {
            if (i - 5).abs() > 4 || (j - 5).abs() > 4 {
                assert!(dec(&d[(i + 10 * j) as usize]).abs() <= bound);
            }
        }
    }
}

#[test]
fn the_first_sweep_gives_the_centre_its_exact_value() {
    // one sweep, no flow: the centre is 100 / 1.384, its neighbours to the right and
    // below read it in the same sweep: 0.064 * centre / 1.384
    let mut f = Fluid::create(10, num(1, 2), num(0, 0), num(1, 1), 1).unwrap();
    f.addDensity(5, 5, num(100, 0));
    f.step();
    let d = f.get_density();
    let c = Decimal::new(1384, 3);
    let a = Decimal::new(64, 3);
    let centre = Decimal::new(100, 0) / c;
    assert_eq!(dec(&d[55]), centre);
    assert_eq!(dec(&d[56]), a * centre / c);
    assert_eq!(dec(&d[65]), a * centre / c);
    assert_eq!(dec(&d[54]), Decimal::ZERO);
    assert_eq!(dec(&d[45]), Decimal::ZERO);
}

#[test]
fn without_diffusion_and_flow_a_step_keeps_the_density() {
    let mut f = Fluid::create(10, num(0, 0), num(0, 0), num(1, 1), 4).unwrap();
    f.addDensity(5, 5, num(100, 0));
    f.addDensity(2, 7, num(3125, 2));
    f.step();
    let d = f.get_density();
    assert_eq!(dec(&d[55]), Decimal::new(100, 0));
    assert_eq!(dec(&d[72]), Decimal::new(3125, 2));
    assert_eq!(total(d), Decimal::new(13125, 2));
}

#[test]
fn a_slow_flow_nearly_keeps_the_total_density() {
    let mut f = Fluid::create(12, num(0, 0), num(0, 0), num(1, 1), 8).unwrap();
    for j in 4..8 {
        for i in 4..8 {
            f.addDensity(i, j, num(10, 0));
        }
    }
    f.addVelocity(5, 5, num(1, 2), num(2, 2));
    f.addVelocity(6, 6, num(-2, 2), num(1, 2));
    let before = total(f.get_density());
    assert_eq!(before, Decimal::new(160, 0));
    f.step();
    let after = total(f.get_density());
    assert!((after - before).abs() <= Decimal::new(16, 1));
}

#[test]
fn a_flow_carries_the_density_along() {
    let mut f = Fluid::create(10, num(0, 0), num(0, 0), num(1, 1), 4).unwrap();
    f.addDensity(5, 5, num(100, 0));
    for j in 0..10 {
        for i in 0..10 {
            f.addVelocity(i, j, num(5, 1), num(0, 0));
        }
    }
    f.step();
    let d = f.get_density();
    assert!(dec(&d[55]) < Decimal::new(100, 0));
    assert!(dec(&d[56]) > Decimal::ZERO);
    assert!(dec(&d[56]) > dec(&d[54]));
}

#[test]
fn validate_judges_size_then_sweeps_then_divisors() {
    let one = num(1, 0);
    let zero = num(0, 4);
    assert_eq!(validate(10, 4, one, one), Ok(()));
    assert_eq!(validate(3, 1, one, num(-1, 28)), Ok(()));
    assert_eq!(validate(MAX_SIZE, i32::MAX, one, one), Ok(()));
    assert_eq!(validate(2, 4, one, one), Err(ConfigError::InvalidSize));
    assert_eq!(validate(MAX_SIZE + 1, 4, one, one), Err(ConfigError::InvalidSize));
    assert_eq!(validate(2, 0, zero, zero), Err(ConfigError::InvalidSize));
    assert_eq!(validate(10, 0, one, one), Err(ConfigError::InvalidIterations));
    assert_eq!(validate(10, 0, zero, zero), Err(ConfigError::InvalidIterations));
    assert_eq!(validate(10, 4, zero, one), Err(ConfigError::ZeroCoefficient));
    assert_eq!(validate(10, 4, one, zero), Err(ConfigError::ZeroCoefficient));
}
