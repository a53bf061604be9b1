use shape_raster::float::fixed_from_f32_bits;
use shape_raster::point::{NDC, UNIT};

const ONE: i64 = UNIT as i64;

fn fixed(x: f32) -> Option<i64> {
    fixed_from_f32_bits(x.to_bits())
}

fn ndc(x: f32, y: f32) -> Option<NDC> {
    NDC::from_f32_bits(x.to_bits(), y.to_bits())
}

#[test]
fn floats_on_the_grid_convert_exactly() {
    assert_eq!(fixed(0.0), Some(0));
    assert_eq!(fixed(-0.0), Some(0));
    assert_eq!(fixed(1.0), Some(ONE));
    assert_eq!(fixed(0.5), Some(ONE / 2));
    assert_eq!(fixed(0.25), Some(ONE / 4));
    assert_eq!(fixed(0.75), Some(3 * ONE / 4));
    assert_eq!(fixed(-0.5), Some(-ONE / 2));
    assert_eq!(fixed(2.0), Some(2 * ONE));
    assert_eq!(fixed(30.0), Some(30 * ONE));
    assert_eq!(fixed(-1000.0), Some(-1000 * ONE));
    assert_eq!(fixed(1.5), Some(ONE + ONE / 2));
}

#[test]
fn floats_off_the_grid_are_rounded_down() {
    // One step of the grid is two to the power -24.
    let step = 1.0f32 / 16_777_216.0;
    assert_eq!(fixed(step), Some(1));
    assert_eq!(fixed(step / 2.0), Some(0));
    assert_eq!(fixed(step * 1.5), Some(1));
    assert_eq!(fixed(-step), Some(-1));
    assert_eq!(fixed(-step / 2.0), Some(-1));
    assert_eq!(fixed(-step * 1.5), Some(-2));
    assert_eq!(fixed(f32::MIN_POSITIVE), Some(0));
    assert_eq!(fixed(-f32::MIN_POSITIVE), Some(-1));
    assert_eq!(fixed(f32::from_bits(1)), Some(0));
    assert_eq!(fixed(f32::from_bits(0x8000_0001)), Some(-1));
    assert_eq!(fixed(0.1), Some(1_677_721));
    assert_eq!(fixed(-0.1), Some(-1_677_722));
}

#[test]
fn the_floats_next_to_one() {
    assert_eq!(fixed(f32::from_bits(0x3f80_0001)), Some(ONE + 2));
    assert_eq!(fixed(f32::from_bits(0x3f7f_ffff)), Some(ONE - 1));
}

#[test]
fn floats_that_are_no_numbers_or_too_large_do_not_convert() {
    assert_eq!(fixed(f32::NAN), None);
    assert_eq!(fixed(f32::INFINITY), None);
    assert_eq!(fixed(f32::NEG_INFINITY), None);
    assert_eq!(fixed(f32::MAX), None);
    assert_eq!(fixed(f32::MIN), None);
    let limit = 549_755_813_888.0f32;
    assert_eq!(fixed(limit), None);
    assert_eq!(fixed(-limit), None);
    assert_eq!(fixed(limit / 2.0), Some(1 << 62));
    let below = f32::from_bits(limit.to_bits() - 1);
    assert_eq!(fixed(below), Some(((1i64 << 24) - 1) << 39));
    assert_eq!(fixed(-below), Some(-(((1i64 << 24) - 1) << 39)));
}

#[test]
fn conversion_agrees_with_double_precision() {
    let mut bits: u32 = 0;
    loop {
        let x = f32::from_bits(bits);
        let expected = if x.is_finite() && x.abs() < 549_755_813_888.0 {
            Some((x as f64 * 16_777_216.0).floor() as i64)
        } else {
            None
        };
        assert_eq!(fixed_from_f32_bits(bits), expected);
        match bits.checked_add(65_521) {
            Some(next) => bits = next,
            None => break,
        }
    }
}

#[test]
fn floats_of_the_unit_interval_make_points() {
    for (x, y) in [(0.0f32, 0.0f32), (1.0, 1.0), (0.0, 1.0), (0.25, 0.75), (-0.0, 0.5)] {
        let p = ndc(x, y).unwrap();
        assert_eq!(p.x() as f64, x as f64 * 16_777_216.0);
        assert_eq!(p.y() as f64, y as f64 * 16_777_216.0);
    }
    assert_eq!(ndc(0.5, 0.25), NDC::new(ONE / 2, ONE / 4));
    assert_eq!(ndc(f32::MIN_POSITIVE, 1.0), NDC::new(0, ONE));
}

#[test]
fn floats_outside_the_unit_interval_make_no_point() {
    let above = f32::from_bits(0x3f80_0001);
    let below = -f32::from_bits(1);
    assert_eq!(ndc(above, 0.5), None);
    assert_eq!(ndc(0.5, above), None);
    assert_eq!(ndc(below, 0.5), None);
    assert_eq!(ndc(0.5, below), None);
    assert_eq!(ndc(-0.25, 0.25), None);
    assert_eq!(ndc(0.25, 1.25), None);
    assert_eq!(ndc(f32::NAN, 0.5), None);
    assert_eq!(ndc(0.5, f32::NAN), None);
    assert_eq!(ndc(f32::INFINITY, 0.5), None);
    assert_eq!(ndc(0.5, f32::NEG_INFINITY), None);
    assert_eq!(ndc(f32::MAX, f32::MAX), None);
}

#[test]
fn points_are_made_of_exactly_the_floats_between_zero_and_one() {
    let mut bits: u32 = 0;
    loop {
        let x = f32::from_bits(bits);
        let inside = x >= 0.0 && x <= 1.0;
        assert_eq!(NDC::from_f32_bits(bits, 0).is_some(), inside);
        assert_eq!(NDC::from_f32_bits(0x3f80_0000, bits).is_some(), inside);
        match bits.checked_add(40_009) {
            Some(next) => bits = next,
            None => break,
        }
    }
}
