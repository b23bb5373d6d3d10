use rustysensor::em::irradiance;
use rustysensor::error::SensorError;
use rustysensor::integrate::{integrate_hemisphere, integrate_hemisphere_weighted, DEFAULT_STEP};
use rustysensor::muwave::{
    antenna_temp, beam_solid_angle, directivity, effective_area, forward_gain, hpbw, AntennaType,
};
use rustysensor::units::{FULL_SPHERE, FULL_TURN, MICRO, QUARTER_TURN};

fn sine(angle: u64) -> i32 {
    ((angle as f64 * 1e-6).sin() * 1e6).round() as i32
}

fn cosine(angle: u64) -> i32 {
    ((angle as f64 * 1e-6).cos() * 1e6).round() as i32
}

fn cells(limit: u32, step: u32) -> i128 {
    ((limit as u64 + step as u64 - 1) / step as u64) as i128
}

#[test]
fn integral_of_one_approaches_the_area_of_the_hemisphere() {
    // A quarter turn times a full turn: pi squared, in square microradians.
    let exact = std::f64::consts::PI * std::f64::consts::PI * 1e12;
    let value = integrate_hemisphere(&|_z: u32, _a: u32| 1, Some(1_000)).unwrap();
    assert_eq!(value, 1_571 * 6_284 * 1_000_000);
    let error = (value as f64 - exact) / exact;
    assert!(error >= 0.0 && error < 0.01);
    let coarse = integrate_hemisphere(&|_z: u32, _a: u32| 1, Some(100_000)).unwrap();
    assert_eq!(coarse, 16 * 63 * 10_000_000_000);
    assert!((coarse as f64 - exact) / exact > error);
}

#[test]
fn integral_of_a_constant_is_the_constant_times_the_raster_area() {
    for step in [1_000u32, 7_000, 10_000, 250_000, 1_570_796, 1_570_797, 7_000_000] {
        for c in [-3i32, 0, 1, 1_000_000] {
            let value = integrate_hemisphere(&|_z: u32, _a: u32| c, Some(step)).unwrap();
            let area = cells(QUARTER_TURN, step) * cells(FULL_TURN, step) * (step as i128).pow(2);
            assert_eq!(value, c as i128 * area);
            assert!(area >= QUARTER_TURN as i128 * FULL_TURN as i128);
            assert!(
                area <= (QUARTER_TURN as i128 + step as i128 - 1)
                    * (FULL_TURN as i128 + step as i128 - 1)
            );
        }
    }
}

#[test]
fn integral_samples_the_lower_left_corner_of_each_cell() {
    // Step of one radian: zenith 0 and 1 rad, azimuth 0 to 6 rad.
    let value = integrate_hemisphere(
        &|z: u32, a: u32| (z / 1_000_000) as i32 * 10 + (a / 1_000_000) as i32,
        Some(1_000_000),
    )
    .unwrap();
    // Row 0: 0+1+..+6 = 21; row 1: 7*10 + 21 = 91.
    assert_eq!(value, 112 * 1_000_000_000_000);
    let seen = std::cell::RefCell::new(Vec::new());
    integrate_hemisphere(
        &|z: u32, a: u32| {
            seen.borrow_mut().push((z, a));
            0
        },
        Some(3_000_000),
    )
    .unwrap();
    assert_eq!(
        *seen.borrow(),
        vec![(0, 0), (0, 3_000_000), (0, 6_000_000)]
    );
}

#[test]
fn integral_uses_the_default_step_where_none_is_given() {
    assert_eq!(DEFAULT_STEP, 10_000);
    let by_default = integrate_hemisphere(&|z: u32, _a: u32| (z / 1_000) as i32, None);
    let explicit = integrate_hemisphere(&|z: u32, _a: u32| (z / 1_000) as i32, Some(10_000));
    assert_eq!(by_default, explicit);
    assert_eq!(
        integrate_hemisphere(&|_z: u32, _a: u32| 1, None),
        Ok(158 * 629 * 100_000_000)
    );
}

#[test]
fn integral_refuses_a_step_of_zero() {
    assert_eq!(
        integrate_hemisphere(&|_z: u32, _a: u32| 1, Some(0)),
        Err(SensorError::PreconditionViolation)
    );
    assert_eq!(
        integrate_hemisphere_weighted(&|_z: u32, _a: u32| 1, &|_z: u32, _a: u32| 1, Some(0)),
        Err(SensorError::PreconditionViolation)
    );
    assert_eq!(
        beam_solid_angle(&|_z: u32, _a: u32| 1, Some(0)),
        Err(SensorError::PreconditionViolation)
    );
    assert_eq!(
        irradiance(&|_z: u32, _a: u32| 1, &sine, &cosine, Some(0)),
        Err(SensorError::PreconditionViolation)
    );
}

#[test]
fn integral_holds_the_largest_values_at_the_largest_step() {
    let value = integrate_hemisphere(&|_z: u32, _a: u32| i32::MIN, Some(u32::MAX)).unwrap();
    assert_eq!(value, i32::MIN as i128 * (u32::MAX as i128).pow(2));
    let weighted = integrate_hemisphere_weighted(
        &|_z: u32, _a: u32| i32::MIN,
        &|_z: u32, _a: u32| i32::MIN,
        Some(u32::MAX),
    )
    .unwrap();
    assert_eq!(weighted, (1i128 << 62) * (u32::MAX as i128).pow(2));
}

#[test]
fn weighted_integral_sums_the_products() {
    let step = 1_000_000;
    let f = |z: u32, a: u32| (z / step) as i32 + (a / step) as i32;
    let g = |_z: u32, a: u32| 2 - (a / step) as i32;
    let mut expected: i128 = 0;
    for i in 0..2 {
        for j in 0..7 {
            expected += ((i + j) * (2 - j)) as i128;
        }
    }
    assert_eq!(
        integrate_hemisphere_weighted(&f, &g, Some(step)),
        Ok(expected * 1_000_000_000_000)
    );
    // With a weight of one it is the plain integral.
    assert_eq!(
        integrate_hemisphere_weighted(&f, &|_z: u32, _a: u32| 1, Some(step)),
        integrate_hemisphere(&f, Some(step))
    );
}

#[test]
fn irradiance_weights_the_radiance_by_cosine_times_sine() {
    let radiance = |z: u32, a: u32| 1_000 + (z / 1_000) as i32 - (a / 10_000) as i32;
    let weight = |z: u32, _a: u32| {
        (cosine(z as u64) as i64 * sine(z as u64) as i64).div_euclid(1_000_000) as i32
    };
    for step in [10_000u32, 37_000, 500_000] {
        assert_eq!(
            irradiance(&radiance, &sine, &cosine, Some(step)),
            integrate_hemisphere_weighted(&radiance, &weight, Some(step))
        );
    }
    // The integral of cos sin over the hemisphere is pi.
    let value = irradiance(&|_z: u32, _a: u32| 1_000, &sine, &cosine, None).unwrap();
    let lambertian = value as f64 * 1e-18 / 1_000.0;
    assert!((lambertian - std::f64::consts::PI).abs() < 0.02);
}

#[test]
fn irradiance_from_given_sines_and_cosines() {
    // Step of one radian: rows at 0 and 1 rad, seven columns each.
    let radiance = |z: u32, a: u32| if z == 0 { 5 } else { 2 + (a / 1_000_000) as i32 };
    let sin = |angle: u64| if angle == 0 { 300_000 } else { -841_471 };
    let cos = |angle: u64| if angle == 0 { 900_000 } else { 540_302 };
    // Weights 0.27 and -0.454649 (rounded down); row sums 35 and 35.
    let expected = (270_000i128 * 35 + -454_649i128 * 35) * 1_000_000_000_000;
    assert_eq!(irradiance(&radiance, &sin, &cos, Some(1_000_000)), Ok(expected));
    assert_eq!((540_302i128 * -841_471).div_euclid(1_000_000), -454_649);
}

#[test]
fn irradiance_asks_at_each_cell() {
    let asked = std::cell::RefCell::new(Vec::new());
    let sin = |angle: u64| {
        asked.borrow_mut().push(angle);
        0
    };
    assert_eq!(irradiance(&|_z: u32, _a: u32| 1, &sin, &cosine, Some(3_000_000)), Ok(0));
    // One row at zenith zero, three cells in it.
    assert_eq!(*asked.borrow(), vec![0, 0, 0]);
    asked.borrow_mut().clear();
    assert_eq!(irradiance(&|_z: u32, _a: u32| 1, &sin, &cosine, Some(700_000)), Ok(0));
    let mut expected = Vec::new();
    for zenith in [0u64, 700_000, 1_400_000] {
        expected.extend(std::iter::repeat(zenith).take(9));
    }
    assert_eq!(*asked.borrow(), expected);
}

#[test]
fn irradiance_refuses_a_sum_beyond_the_machine() {
    let huge = |_angle: u64| i32::MAX;
    assert_eq!(
        irradiance(&|_z: u32, _a: u32| i32::MAX, &huge, &huge, Some(u32::MAX)),
        Err(SensorError::PreconditionViolation)
    );
    // With a sine and a cosine of at most one the largest radiance fits.
    let one = |_angle: u64| 1_000_000;
    assert_eq!(
        irradiance(&|_z: u32, _a: u32| i32::MIN, &one, &one, Some(u32::MAX)),
        Ok(i32::MIN as i128 * 1_000_000 * (u32::MAX as i128).pow(2))
    );
}

#[test]
fn beam_solid_angle_is_the_integral_of_the_pattern() {
    let pattern = |z: u32, _a: u32| (1_000_000 - z as i64 / 2) as i32;
    assert_eq!(
        beam_solid_angle(&pattern, Some(50_000)),
        integrate_hemisphere(&pattern, Some(50_000))
    );
    assert_eq!(
        beam_solid_angle(&|_z: u32, _a: u32| 1_000_000, Some(1_000_000)),
        Ok(14_000_000_000_000_000_000)
    );
}

#[test]
fn antenna_temperature_of_a_uniform_scene_is_its_temperature() {
    let pattern = |z: u32, _a: u32| (1_000_000 - z as i64 / 2) as i32;
    assert_eq!(
        antenna_temp(&|_z: u32, _a: u32| 287_150, &pattern, Some(20_000)),
        Ok(287_150)
    );
}

#[test]
fn antenna_temperature_weights_the_scene_by_the_pattern() {
    // Two rows of seven cells; the pattern sees only the first azimuth.
    let step = 1_000_000;
    let brightness = |z: u32, _a: u32| if z == 0 { 100_000 } else { 300_001 };
    let pattern = |_z: u32, a: u32| if a == 0 { 500_000 } else { 0 };
    // (100000 + 300001) / 2 = 200000.5, rounded down.
    assert_eq!(antenna_temp(&brightness, &pattern, Some(step)), Ok(200_000));
    let negative = |z: u32, _a: u32| if z == 0 { -100_000 } else { -300_001 };
    assert_eq!(antenna_temp(&negative, &pattern, Some(step)), Ok(-200_001));
}

#[test]
fn antenna_temperature_reports_a_pattern_that_is_zero() {
    assert_eq!(
        antenna_temp(&|_z: u32, _a: u32| 300_000, &|_z: u32, _a: u32| 0, Some(100_000)),
        Err(SensorError::DegenerateInput)
    );
    assert_eq!(
        antenna_temp(&|_z: u32, _a: u32| 300_000, &|_z: u32, _a: u32| -1, Some(100_000)),
        Err(SensorError::PreconditionViolation)
    );
    assert_eq!(
        antenna_temp(&|_z: u32, _a: u32| 300_000, &|_z: u32, _a: u32| 1, Some(0)),
        Err(SensorError::PreconditionViolation)
    );
    // A pattern of two everywhere covers more than the sphere.
    assert_eq!(
        antenna_temp(&|_z: u32, _a: u32| 300_000, &|_z: u32, _a: u32| 2_000_000, Some(100_000)),
        Err(SensorError::PreconditionViolation)
    );
}

#[test]
fn directivity_is_the_sphere_over_the_beam() {
    assert_eq!(directivity(FULL_SPHERE as i128), Ok(1_000_000));
    assert_eq!(directivity(FULL_SPHERE as i128 / 2), Ok(2_000_000));
    assert_eq!(directivity(1_000_000_000_000_000_000), Ok(12_566_370));
    assert_eq!(directivity(1), Ok(FULL_SPHERE as i128 * MICRO as i128));
    assert_eq!(directivity(0), Err(SensorError::DegenerateInput));
    assert_eq!(directivity(-1), Err(SensorError::PreconditionViolation));
    assert_eq!(
        directivity(FULL_SPHERE as i128 + 1),
        Err(SensorError::PreconditionViolation)
    );
}

#[test]
fn forward_gain_scales_the_directivity() {
    let isotropic = |_z: u32, _a: u32| 1_000_000;
    let bsa = beam_solid_angle(&isotropic, None).unwrap();
    let d = directivity(bsa).unwrap();
    assert_eq!(d, FULL_SPHERE as i128 * 1_000_000 / (158 * 629 * 100_000_000 * 1_000_000));
    assert_eq!(forward_gain(1_000_000, &isotropic), Ok(d));
    assert_eq!(forward_gain(500_000, &isotropic), Ok(d / 2));
    assert_eq!(forward_gain(1, &isotropic), Ok(d / 1_000_000));
}

#[test]
fn forward_gain_refuses_an_efficiency_outside_its_domain() {
    let isotropic = |_z: u32, _a: u32| 1_000_000;
    assert_eq!(forward_gain(0, &isotropic), Err(SensorError::PreconditionViolation));
    assert_eq!(
        forward_gain(1_000_001, &isotropic),
        Err(SensorError::PreconditionViolation)
    );
    assert_eq!(
        forward_gain(1_000_000, &|_z: u32, _a: u32| 0),
        Err(SensorError::DegenerateInput)
    );
}

#[test]
fn effective_area_is_the_squared_wavelength_over_the_beam() {
    let isotropic = |_z: u32, _a: u32| 1_000_000;
    let bsa = beam_solid_angle(&isotropic, None).unwrap();
    let expected = 30_000i128 * 30_000 * 1_000_000_000_000_000_000 / bsa;
    assert_eq!(effective_area(30_000, &isotropic), Ok(expected));
    // 3 cm squared over 9.94 sr is about 0.9 square centimetres.
    assert_eq!(expected, 90_559_658);
    assert_eq!(effective_area(0, &isotropic), Err(SensorError::PreconditionViolation));
    // An area below one unit rounds to nothing and is refused.
    assert_eq!(effective_area(1, &isotropic), Err(SensorError::PreconditionViolation));
    assert_eq!(effective_area(3, &isotropic), Err(SensorError::PreconditionViolation));
    assert_eq!(effective_area(4, &isotropic), Ok(1));
    assert_eq!(
        effective_area(30_000, &|_z: u32, _a: u32| 0),
        Err(SensorError::DegenerateInput)
    );
}

#[test]
fn half_power_beam_width_by_antenna() {
    assert_eq!(hpbw(3, 100, AntennaType::Monopole), Ok(0));
    assert_eq!(hpbw(3, 100, AntennaType::ShortDipole), Ok(90_000_000));
    assert_eq!(hpbw(3, 100, AntennaType::HalfWaveDipole), Ok(90_000_000));
    assert_eq!(hpbw(3, 100, AntennaType::YagiYudaSix), Ok(42_000_000));
    assert_eq!(hpbw(3, 100, AntennaType::Rectangular), Ok(1_530_000));
    assert_eq!(hpbw(3, 100, AntennaType::Parabaloid), Ok(2_160_000));
    assert_eq!(hpbw(1, 3, AntennaType::Rectangular), Ok(17_000_000));
    assert_eq!(hpbw(u32::MAX, 1, AntennaType::Parabaloid), Ok(72_000_000 * u32::MAX as u64));
    assert_eq!(
        hpbw(0, 100, AntennaType::Monopole),
        Err(SensorError::PreconditionViolation)
    );
    assert_eq!(
        hpbw(3, 0, AntennaType::Rectangular),
        Err(SensorError::PreconditionViolation)
    );
}
