use rustysensor::el_opt::{surface_temp, surface_temp_at, surface_temp_tau};
use rustysensor::error::SensorError;
use rustysensor::photographic::{contrast, img_contrast};
use rustysensor::ranged::{triangulate, trilaterate};

fn sine(angle: u64) -> i32 {
    ((angle as f64 * 1e-6).sin() * 1e6).round() as i32
}

fn cosine(angle: u64) -> i32 {
    ((angle as f64 * 1e-6).cos() * 1e6).round() as i32
}

fn logarithm(num: u64, den: u64) -> i32 {
    ((num as f64 / den as f64).ln() * 1e6).round() as i32
}

fn exponential(x: i64) -> u64 {
    ((x as f64 * 1e-6).exp() * 1e6).round() as u64
}

#[test]
fn triangulation_of_two_sights_at_an_eighth_turn() {
    // 10 * sin(pi/4) * sin(pi/4) / sin(pi/2) = 5, in millionths.
    let quarter = 785_398;
    let d = triangulate(10_000_000, quarter, quarter, &sine).unwrap();
    assert_eq!(d, 5_000_003);
    assert!((d as f64 * 1e-6 - 5.0).abs() < 1e-5);
}

#[test]
fn triangulation_from_given_sines() {
    let table = |angle: u64| match angle {
        1 => 600_000,
        2 => 800_000,
        3 => 960_000,
        _ => 0,
    };
    // 1000 * 0.6 * 0.8 / 0.96 = 500.
    assert_eq!(triangulate(1_000, 1, 2, &table), Ok(500));
    let diverging = |angle: u64| match angle {
        1 => 600_000,
        2 => 800_000,
        _ => -960_000,
    };
    assert_eq!(triangulate(1_000, 1, 2, &diverging), Ok(-500));
    assert_eq!(triangulate(1_001, 1, 2, &diverging), Ok(-501));
    // The sum of the angles is asked for as it is, beyond 32 bits too.
    let wide = |angle: u64| if angle == 2 * (u32::MAX as u64) { 1_000_000 } else { 500_000 };
    assert_eq!(triangulate(8, u32::MAX, u32::MAX, &wide), Ok(2));
}

#[test]
fn triangulation_refuses_what_has_no_triangle() {
    assert_eq!(
        triangulate(0, 785_398, 785_398, &sine),
        Err(SensorError::PreconditionViolation)
    );
    assert_eq!(
        triangulate(10, 0, 785_398, &sine),
        Err(SensorError::PreconditionViolation)
    );
    assert_eq!(
        triangulate(10, 785_398, 0, &sine),
        Err(SensorError::PreconditionViolation)
    );
    // Parallel lines of sight: the sine of the sum is zero.
    assert_eq!(
        triangulate(10, 1_570_796, 1_570_797, &sine),
        Err(SensorError::DegenerateInput)
    );
}

#[test]
fn trilateration_recovers_a_known_point() {
    // (5, 5) lies at 5 * sqrt(2) from each of the three corners; in
    // thousandths the distances are whole within rounding.
    let d = 7_071;
    let at = trilaterate(&[0, 0], d, &[10_000, 0], d, &[0, 10_000], d).unwrap();
    assert_eq!(at, (5_000, 5_000));
    // (3, 4) from three beacons at whole distances.
    let at = trilaterate(&[0, 0], 5, &[6, 0], 5, &[3, 9], 5).unwrap();
    assert_eq!(at, (3, 4));
    let at = trilaterate(&[-3, -4], 10, &[3, 12], 8, &[11, 4], 8).unwrap();
    assert_eq!(at, (3, 4));
}

#[test]
fn trilateration_follows_the_formula_where_the_circles_do_not_meet() {
    // a = 20, b = 0, c = 75, d = -20, e = 20, f = 0: x = 1500 / 400.
    let at = trilaterate(&[0, 0], 5, &[10, 0], 7, &[0, 10], 7).unwrap();
    assert_eq!(at, (3, 3));
    // x = (c e - f b) / (e a - b d) = -3.8, rounded down.
    let at = trilaterate(&[0, 0], 7, &[10, 0], 15, &[0, 10], 15).unwrap();
    assert_eq!(at, (-4, -4));
}

#[test]
fn trilateration_holds_the_largest_coordinates() {
    let at = trilaterate(
        &[i32::MIN, i32::MIN],
        u32::MAX,
        &[i32::MAX, i32::MIN],
        u32::MAX,
        &[i32::MIN, i32::MAX],
        u32::MAX,
    )
    .unwrap();
    assert_eq!(at, (-1, -1));
}

#[test]
fn trilateration_refuses_points_on_a_line() {
    assert_eq!(
        trilaterate(&[0, 0], 5, &[1, 1], 5, &[2, 2], 5),
        Err(SensorError::DegenerateInput)
    );
    assert_eq!(
        trilaterate(&[0, 0], 5, &[10, 0], 5, &[10, 0], 5),
        Err(SensorError::DegenerateInput)
    );
}

#[test]
fn trilateration_refuses_malformed_arguments() {
    assert_eq!(
        trilaterate(&[0, 0, 0], 5, &[10, 0], 5, &[0, 10], 5),
        Err(SensorError::PreconditionViolation)
    );
    assert_eq!(
        trilaterate(&[0, 0], 5, &[10], 5, &[0, 10], 5),
        Err(SensorError::PreconditionViolation)
    );
    assert_eq!(
        trilaterate(&[0, 0], 5, &[10, 0], 5, &[], 5),
        Err(SensorError::PreconditionViolation)
    );
    assert_eq!(
        trilaterate(&[0, 0], 0, &[10, 0], 5, &[0, 10], 5),
        Err(SensorError::PreconditionViolation)
    );
    assert_eq!(
        trilaterate(&[0, 0], 5, &[10, 0], 0, &[0, 10], 5),
        Err(SensorError::PreconditionViolation)
    );
    assert_eq!(
        trilaterate(&[0, 0], 5, &[10, 0], 5, &[0, 10], 0),
        Err(SensorError::PreconditionViolation)
    );
}

#[test]
fn split_window_accepts_temperatures_on_one_side_of_the_atmosphere() {
    let theta = 500_000;
    let (surface, tau) =
        surface_temp_tau(300_000, 250_000, 320_000, theta, &cosine, &logarithm, &exponential)
            .unwrap();
    // tau = cos(0.5) * ln(70 / 20).
    let expected_tau = 0.5f64.cos() * 3.5f64.ln();
    assert!((tau as f64 * 1e-6 - expected_tau).abs() < 1e-5);
    let att = (-expected_tau).exp();
    let expected = (300.0 + 320.0 * (1.0 - att)) / att;
    assert!((surface as f64 * 1e-3 - expected).abs() / expected < 1e-4);
    assert!(surface > 0);
    assert!(surface_temp_tau(300_000, 310_000, 320_000, theta, &cosine, &logarithm, &exponential)
        .is_ok());
    assert!(surface_temp_tau(330_000, 340_000, 320_000, theta, &cosine, &logarithm, &exponential)
        .is_ok());
}

#[test]
fn split_window_from_given_values() {
    // cos = 0.5, ln = 2: tau = 1; e^-1 given as 0.4.
    let result = surface_temp_tau(
        300_000,
        250_000,
        320_000,
        1_047_198,
        &|angle: u64| if angle == 1_047_198 { 500_000 } else { 0 },
        &|num: u64, den: u64| if (num, den) == (70_000, 20_000) { 2_000_000 } else { 0 },
        &|x: i64| if x == -1_000_000 { 400_000 } else { 0 },
    );
    // (300 + 320 * 0.6) / 0.4 = 1230 K.
    assert_eq!(result, Ok((1_230_000, 1_000_000)));
    // A negative product is rounded down: -0.5 * 0.000003 = -1.5 millionths.
    let result = surface_temp_tau(
        300_000,
        250_000,
        320_000,
        2_094_395,
        &|_angle: u64| -500_000,
        &|_num: u64, _den: u64| 3,
        &|x: i64| if x == 2 { 1_000_000 } else { 0 },
    );
    assert_eq!(result, Ok((300_000, -2)));
}

#[test]
fn split_window_refuses_temperatures_across_the_atmosphere() {
    let theta = 500_000;
    assert_eq!(
        surface_temp_tau(300_000, 330_000, 320_000, theta, &cosine, &logarithm, &exponential),
        Err(SensorError::PreconditionViolation)
    );
    assert_eq!(
        surface_temp_tau(330_000, 300_000, 320_000, theta, &cosine, &logarithm, &exponential),
        Err(SensorError::PreconditionViolation)
    );
    assert_eq!(
        surface_temp(300_000, 330_000, 320_000, theta, &cosine, &logarithm, &exponential),
        Err(SensorError::PreconditionViolation)
    );
}

#[test]
fn split_window_refuses_arguments_outside_their_domain() {
    let run = |b1: u32, b2: u32, a: u32, theta: u32| {
        surface_temp_tau(b1, b2, a, theta, &cosine, &logarithm, &exponential)
    };
    assert_eq!(run(300_000, 250_000, 320_000, 0), Err(SensorError::PreconditionViolation));
    assert_eq!(
        run(300_000, 250_000, 320_000, 6_283_186),
        Err(SensorError::PreconditionViolation)
    );
    assert!(run(300_000, 250_000, 320_000, 6_283_185).is_ok());
    assert_eq!(run(0, 250_000, 320_000, 500_000), Err(SensorError::PreconditionViolation));
    assert_eq!(run(300_000, 0, 320_000, 500_000), Err(SensorError::PreconditionViolation));
    assert_eq!(run(300_000, 250_000, 0, 500_000), Err(SensorError::PreconditionViolation));
    // Equal to the atmosphere on one side and above it on the other.
    assert_eq!(
        run(320_000, 330_000, 320_000, 500_000),
        Err(SensorError::PreconditionViolation)
    );
}

#[test]
fn split_window_reports_a_vanishing_logarithm_argument() {
    let run = |b1: u32, b2: u32, a: u32| {
        surface_temp_tau(b1, b2, a, 500_000, &cosine, &logarithm, &exponential)
    };
    assert_eq!(run(320_000, 250_000, 320_000), Err(SensorError::DegenerateInput));
    assert_eq!(run(320_000, 320_000, 320_000), Err(SensorError::DegenerateInput));
    assert_eq!(run(300_000, 320_000, 320_000), Err(SensorError::DegenerateInput));
    // An attenuation that rounds to nothing leaves no divisor.
    assert_eq!(
        surface_temp_tau(
            300_000,
            250_000,
            320_000,
            500_000,
            &cosine,
            &logarithm,
            &|_x: i64| 0
        ),
        Err(SensorError::DegenerateInput)
    );
}

#[test]
fn split_window_does_not_ask_before_the_arguments_are_admitted() {
    let asked = std::cell::Cell::new(0);
    let counting = |angle: u64| {
        asked.set(asked.get() + 1);
        cosine(angle)
    };
    let refused =
        surface_temp_tau(300_000, 330_000, 320_000, 500_000, &counting, &logarithm, &exponential);
    assert!(refused.is_err());
    assert_eq!(asked.get(), 0);
    let done =
        surface_temp_tau(300_000, 250_000, 320_000, 500_000, &counting, &logarithm, &exponential);
    assert!(done.is_ok());
    assert_eq!(asked.get(), 1);
}

#[test]
fn surface_temp_is_the_first_of_the_pair() {
    let theta = 700_000;
    let pair =
        surface_temp_tau(290_000, 280_000, 260_000, theta, &cosine, &logarithm, &exponential)
            .unwrap();
    assert_eq!(
        surface_temp(290_000, 280_000, 260_000, theta, &cosine, &logarithm, &exponential),
        Ok(pair.0)
    );
}

#[test]
fn surface_temperature_at_a_given_attenuation() {
    // (300 + 320 * 0.5) / 0.5 = 920 K.
    assert_eq!(surface_temp_at(300_000, 320_000, 500_000), Ok(920_000));
    // No attenuation: the brightness temperature itself.
    assert_eq!(surface_temp_at(300_000, 320_000, 1_000_000), Ok(300_000));
    // An attenuation of 1.5: (300 + 320 * -0.5) / 1.5 = 93.333 K.
    assert_eq!(surface_temp_at(300_000, 320_000, 1_500_000), Ok(93_333));
    assert_eq!(surface_temp_at(1, 0, 1_000_000), Ok(1));
    assert_eq!(surface_temp_at(300_000, 320_000, 0), Err(SensorError::DegenerateInput));
}

#[test]
fn surface_temperature_is_never_at_or_below_zero() {
    // An attenuation of two: (300 - 320) / 2 = -10 K is no temperature.
    assert_eq!(
        surface_temp_at(300_000, 320_000, 2_000_000),
        Err(SensorError::DegenerateInput)
    );
    assert_eq!(surface_temp_at(1, 3, 3_000_000), Err(SensorError::DegenerateInput));
    // A quotient of exactly zero, and one that rounds down to zero.
    assert_eq!(surface_temp_at(320_000, 320_000, 2_000_000), Err(SensorError::DegenerateInput));
    assert_eq!(surface_temp_at(1, 0, 1_000_001), Err(SensorError::DegenerateInput));
    assert_eq!(surface_temp_at(0, 0, 1_000_000), Err(SensorError::DegenerateInput));
    assert_eq!(
        surface_temp_at(u32::MAX, u32::MAX, u64::MAX),
        Err(SensorError::DegenerateInput)
    );
    // Admissible temperatures whose optical depth comes out far below zero:
    // cos(0.1) * ln(1 / 20) = -2.98, an attenuation of 19.7.
    assert_eq!(
        surface_temp_tau(300_000, 319_000, 320_000, 100_000, &cosine, &logarithm, &exponential),
        Err(SensorError::DegenerateInput)
    );
    assert_eq!(
        surface_temp_tau(
            300_000,
            319_000,
            320_000,
            100_000,
            &|_a: u64| 995_004,
            &|_n: u64, _d: u64| -2_995_732,
            &|_x: i64| 19_702_903
        ),
        Err(SensorError::DegenerateInput)
    );
    assert_eq!(
        surface_temp(300_000, 319_000, 320_000, 100_000, &cosine, &logarithm, &exponential),
        Err(SensorError::DegenerateInput)
    );
    // Whatever the evaluators hand back, a success is above zero.
    for att in [1u64, 999_999, 1_000_000, 1_000_001, 1_937_493, 1_937_494, 50_000_000] {
        let result = surface_temp_tau(
            300_000,
            250_000,
            320_000,
            500_000,
            &cosine,
            &logarithm,
            &|_x: i64| att,
        );
        match result {
            Ok((surface, _)) => assert!(surface > 0),
            Err(reason) => assert_eq!(reason, SensorError::DegenerateInput),
        }
        // 620 000 000 000 / 320 001 = 1 937 493.9: beyond it the quotient is below one.
        assert_eq!(result.is_ok(), att <= 1_937_493);
    }
}

#[test]
fn surface_temperature_of_the_forward_model() {
    // Tb1 = T t + Ta (1 - t) with T = 300 K, Ta = 280 K, t = 0.8 gives 296 K;
    // the retrieval returns T + 2 Ta (1 - t) / t = 440 K.
    assert_eq!(surface_temp_at(296_000, 280_000, 800_000), Ok(440_000));
    // At an optical depth of zero it returns T.
    assert_eq!(surface_temp_at(300_000, 280_000, 1_000_000), Ok(300_000));
}

#[test]
fn contrast_of_two_radiances() {
    assert_eq!(contrast(3, 1), Ok(500_000));
    assert_eq!(contrast(7, 7), Ok(0));
    assert_eq!(contrast(2, 1), Ok(333_333));
    assert_eq!(contrast(9, 0), Ok(1_000_000));
    assert_eq!(contrast(u32::MAX, u32::MAX - 1), Ok(0));
    assert_eq!(contrast(1, 2), Err(SensorError::PreconditionViolation));
    assert_eq!(contrast(0, 0), Err(SensorError::DegenerateInput));
}

#[test]
fn contrast_of_an_image() {
    let img = vec![vec![4, 9, 2], vec![7, 30, 5], vec![10, 6, 8]];
    assert_eq!(img_contrast(&img), contrast(30, 2));
    assert_eq!(img_contrast(&img), Ok(875_000));
    assert_eq!(img_contrast(&[vec![5]]), Ok(0));
    assert_eq!(img_contrast(&[vec![1, 2, 3, 4]]), Ok(600_000));
    assert_eq!(img_contrast(&[vec![4], vec![3], vec![2], vec![1]]), Ok(600_000));
    assert_eq!(img_contrast(&[vec![0, 0], vec![0, 0]]), Err(SensorError::DegenerateInput));
}

#[test]
fn contrast_refuses_an_image_that_is_no_rectangle() {
    assert_eq!(img_contrast(&[]), Err(SensorError::PreconditionViolation));
    assert_eq!(img_contrast(&[vec![]]), Err(SensorError::PreconditionViolation));
    assert_eq!(
        img_contrast(&[vec![1, 2], vec![3]]),
        Err(SensorError::PreconditionViolation)
    );
    assert_eq!(
        img_contrast(&[vec![1], vec![3, 4]]),
        Err(SensorError::PreconditionViolation)
    );
}
