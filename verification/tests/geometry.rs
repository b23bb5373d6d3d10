use rustysensor::error::SensorError;
use rustysensor::photographic::{find_coordinate, image_location};

#[test]
fn image_location_projects_through_the_focal_length() {
    let mut out = [0i128; 2];
    // Offsets (30, -40, 100) at focal length 50: (15, -20).
    assert_eq!(image_location(&mut out, &[10, 20, 0], &[40, -20, 100], 50), Ok(()));
    assert_eq!(out, [15, -20]);
    // Quotients are rounded down: 7 * 10 / 3 and 7 * -10 / 3.
    assert_eq!(image_location(&mut out, &[0, 0, 0], &[10, -10, 3], 7), Ok(()));
    assert_eq!(out, [23, -24]);
    // An object behind the camera.
    assert_eq!(image_location(&mut out, &[0, 0, 0], &[10, -10, -3], 7), Ok(()));
    assert_eq!(out, [-24, 23]);
    assert_eq!(
        image_location(&mut out, &[i32::MAX, 0, 0], &[i32::MIN, 0, 1], u32::MAX),
        Ok(())
    );
    assert_eq!(out, [-(u32::MAX as i128) * u32::MAX as i128, 0]);
}

#[test]
fn image_location_refuses_and_leaves_the_image_point() {
    let mut out = [7i128, 8];
    assert_eq!(
        image_location(&mut out, &[0, 0, 5], &[1, 1, 5], 50),
        Err(SensorError::DegenerateInput)
    );
    assert_eq!(out, [7, 8]);
    assert_eq!(
        image_location(&mut out, &[0, 0, 0], &[1, 1, 5], 0),
        Err(SensorError::PreconditionViolation)
    );
    assert_eq!(
        image_location(&mut out, &[0, 0], &[1, 1, 5], 50),
        Err(SensorError::PreconditionViolation)
    );
    assert_eq!(
        image_location(&mut out, &[0, 0, 0], &[1, 1, 5, 9], 50),
        Err(SensorError::PreconditionViolation)
    );
    assert_eq!(out, [7, 8]);
    let mut long = [1i128, 2, 3];
    assert_eq!(
        image_location(&mut long, &[0, 0, 0], &[1, 1, 5], 50),
        Err(SensorError::PreconditionViolation)
    );
    assert_eq!(long, [1, 2, 3]);
}

#[test]
fn find_coordinate_from_two_images() {
    let mut at = [0i128; 3];
    // b = (6, 8): base 100; parallax (9 - 4) * 6 + (7 - 2) * 8 = 70.
    assert_eq!(find_coordinate(&mut at, &[9, 7], &[4, 2], 35, &[6, 8], 1000), Ok(()));
    // 900 / 70, 700 / 70, 1000 + 3500 / 70.
    assert_eq!(at, [12, 10, 1050]);
    // A parallax against the displacement: -70.
    assert_eq!(find_coordinate(&mut at, &[4, 2], &[9, 7], 35, &[6, 8], -1000), Ok(()));
    // 400 / -70 = -5.7, 200 / -70 = -2.9, -1000 - 50.
    assert_eq!(at, [-6, -3, -1050]);
}

#[test]
fn find_coordinate_holds_the_largest_arguments() {
    let mut at = [0i128; 3];
    assert_eq!(
        find_coordinate(
            &mut at,
            &[i32::MIN, i32::MIN],
            &[i32::MIN + 1, i32::MIN],
            u32::MAX,
            &[i32::MIN, i32::MIN],
            i32::MIN
        ),
        Ok(())
    );
    let base = 2 * (1i128 << 62);
    let parallax = 1i128 << 31;
    assert_eq!(at[0], -(1i128 << 31) * base / parallax);
    assert_eq!(at[2], i32::MIN as i128 + u32::MAX as i128 * base / parallax);
}

#[test]
fn find_coordinate_refuses_and_leaves_the_position() {
    let mut at = [1i128, 2, 3];
    // The image points differ across the displacement only.
    assert_eq!(
        find_coordinate(&mut at, &[9, 7], &[5, 10], 35, &[6, 8], 1000),
        Err(SensorError::DegenerateInput)
    );
    assert_eq!(
        find_coordinate(&mut at, &[9, 7], &[9, 7], 35, &[6, 8], 1000),
        Err(SensorError::DegenerateInput)
    );
    assert_eq!(
        find_coordinate(&mut at, &[9, 7], &[4, 2], 35, &[0, 0], 1000),
        Err(SensorError::DegenerateInput)
    );
    assert_eq!(
        find_coordinate(&mut at, &[9, 7], &[4, 2], 0, &[6, 8], 1000),
        Err(SensorError::PreconditionViolation)
    );
    assert_eq!(
        find_coordinate(&mut at, &[9, 7, 1], &[4, 2], 35, &[6, 8], 1000),
        Err(SensorError::PreconditionViolation)
    );
    assert_eq!(
        find_coordinate(&mut at, &[9, 7], &[4], 35, &[6, 8], 1000),
        Err(SensorError::PreconditionViolation)
    );
    assert_eq!(
        find_coordinate(&mut at, &[9, 7], &[4, 2], 35, &[6], 1000),
        Err(SensorError::PreconditionViolation)
    );
    assert_eq!(at, [1, 2, 3]);
    let mut short = [1i128, 2];
    assert_eq!(
        find_coordinate(&mut short, &[9, 7], &[4, 2], 35, &[6, 8], 1000),
        Err(SensorError::PreconditionViolation)
    );
    assert_eq!(short, [1, 2]);
}
