use vstd::prelude::*;
use crate::error::SensorError;
use crate::units::{
    floor_div,
    floor_ratio,
    floor_ratio_of,
    lemma_floor_ratio_magnitude,
    realizes,
    times,
    MICRO,
};

verus! {

/// The contrast `(max - min) / (max + min)` of two radiances, in parts per
/// million, rounded down. The larger radiance comes first; two radiances of
/// zero have no contrast.
pub open spec fn contrast_of(rmax: int, rmin: int) -> Result<int, SensorError> {
    if rmax < rmin {
        Err(SensorError::PreconditionViolation)
    } else if rmax + rmin == 0 {
        Err(SensorError::DegenerateInput)
    } else {
        Ok((rmax - rmin) * MICRO / (rmax + rmin))
    }
}

/// The contrast `(max - min) / (max + min)` of the largest and the smallest
/// radiance, in parts per million.
pub fn contrast(rmax: u32, rmin: u32) -> (outcome: Result<i128, SensorError>)
    ensures
        realizes(outcome, contrast_of(rmax as int, rmin as int)),
{
    if rmax < rmin {
        return Err(SensorError::PreconditionViolation);
    }
    if rmax == 0 && rmin == 0 {
        return Err(SensorError::DegenerateInput);
    }
    let spread: i128 = rmax as i128 - rmin as i128;
    assert(0 <= spread * MICRO <= 0x1_0000_0000 * 1_000_000) by (nonlinear_arith)
        requires
            0 <= spread <= 0x1_0000_0000,
            MICRO == 1_000_000,
    ;
    Ok(floor_div(spread * (MICRO as i128), rmax as i128 + rmin as i128))
}

/// The pixel values of an image, row by row.
pub open spec fn pixels(img: &[Vec<u32>]) -> Seq<Seq<u32>> {
    Seq::new(img@.len(), |i: int| img@[i]@)
}

/// An image has at least one pixel and rows of one length.
pub open spec fn rectangular(img: Seq<Seq<u32>>) -> bool {
    &&& img.len() > 0
    &&& img[0].len() > 0
    &&& forall|i: int| 0 <= i < img.len() ==> (#[trigger] img[i]).len() == img[0].len()
}

/// `value` is the largest pixel of the image.
pub open spec fn is_brightest(img: Seq<Seq<u32>>, value: u32) -> bool {
    &&& exists|i: int, j: int| 0 <= i < img.len() && 0 <= j < img[i].len() && #[trigger] img[i][j] == value
    &&& forall|i: int, j: int| 0 <= i < img.len() && 0 <= j < img[i].len() ==> #[trigger] img[i][j] <= value
}

/// `value` is the smallest pixel of the image.
pub open spec fn is_darkest(img: Seq<Seq<u32>>, value: u32) -> bool {
    &&& exists|i: int, j: int| 0 <= i < img.len() && 0 <= j < img[i].len() && #[trigger] img[i][j] == value
    &&& forall|i: int, j: int| 0 <= i < img.len() && 0 <= j < img[i].len() ==> #[trigger] img[i][j] >= value
}

/// Whether every row of the image has the length of the first.
fn rows_agree(img: &[Vec<u32>]) -> (agree: bool)
    requires
        img@.len() > 0,
    ensures
        agree == (forall|i: int|
            0 <= i < pixels(img).len() ==> (#[trigger] pixels(img)[i]).len() == pixels(img)[0].len()),
{
    let width = img[0].len();
    let mut i: usize = 0;
    while i < img.len()
        invariant
            img@.len() > 0,
            width == img@[0]@.len(),
            i <= img@.len(),
            forall|k: int| 0 <= k < i ==> (#[trigger] pixels(img)[k]).len() == width,
        decreases img@.len() - i,
    {
        if img[i].len() != width {
            assert(pixels(img)[i as int].len() != pixels(img)[0].len());
            return false;
        }
        i += 1;
    }
    true
}

/// The contrast of a monochrome image, in parts per million: the contrast
/// of its largest and its smallest pixel, as [`contrast`] gives it.
///
/// The image is given row by row. It must have at least one pixel, and
/// rows of one length.
pub fn img_contrast(img: &[Vec<u32>]) -> (outcome: Result<i128, SensorError>)
    ensures
        !rectangular(pixels(img)) ==> outcome == Err::<i128, SensorError>(
            SensorError::PreconditionViolation,
        ),
        rectangular(pixels(img)) ==> exists|rmax: u32, rmin: u32|
            #![trigger contrast_of(rmax as int, rmin as int)]
            is_brightest(pixels(img), rmax) && is_darkest(pixels(img), rmin) && realizes(
                outcome,
                contrast_of(rmax as int, rmin as int),
            ),
{
    if img.len() == 0 || img[0].len() == 0 {
        return Err(SensorError::PreconditionViolation);
    }
    if !rows_agree(img) {
        return Err(SensorError::PreconditionViolation);
    }
    let ghost px = pixels(img);
    let width = img[0].len();
    let mut rmax = img[0][0];
    let mut rmin = img[0][0];
    let ghost mut at_max: (int, int) = (0, 0);
    let ghost mut at_min: (int, int) = (0, 0);
    let mut i: usize = 0;
    while i < img.len()
        invariant
            px == pixels(img),
            rectangular(px),
            width == px[0].len(),
            i <= px.len(),
            rmin <= rmax,
            0 <= at_max.0 < px.len() && 0 <= at_max.1 < width && px[at_max.0][at_max.1] == rmax,
            0 <= at_min.0 < px.len() && 0 <= at_min.1 < width && px[at_min.0][at_min.1] == rmin,
            forall|r: int, c: int| 0 <= r < i && 0 <= c < width ==> rmin <= #[trigger] px[r][c] <= rmax,
        decreases px.len() - i,
    {
        let mut j: usize = 0;
        while j < width
            invariant
                px == pixels(img),
                rectangular(px),
                width == px[0].len(),
                i < px.len(),
                j <= width,
                rmin <= rmax,
                0 <= at_max.0 < px.len() && 0 <= at_max.1 < width && px[at_max.0][at_max.1]
                    == rmax,
                0 <= at_min.0 < px.len() && 0 <= at_min.1 < width && px[at_min.0][at_min.1]
                    == rmin,
                forall|r: int, c: int|
                    0 <= r < i && 0 <= c < width ==> rmin <= #[trigger] px[r][c] <= rmax,
                forall|c: int| 0 <= c < j ==> rmin <= #[trigger] px[i as int][c] <= rmax,
            decreases width - j,
        {
            assert(px[i as int].len() == width);
            let value = img[i][j];
            assert(value == px[i as int][j as int]);
            if value > rmax {
                rmax = value;
                proof {
                    at_max = (i as int, j as int);
                }
            } else if value < rmin {
                rmin = value;
                proof {
                    at_min = (i as int, j as int);
                }
            }
            j += 1;
        }
        i += 1;
    }
    proof {
        assert(px[at_max.0].len() == width);
        assert(px[at_min.0].len() == width);
        assert forall|r: int, c: int| 0 <= r < px.len() && 0 <= c < px[r].len() implies rmin
            <= #[trigger] px[r][c] <= rmax by {
            assert(px[r].len() == width);
        }
        assert(is_brightest(px, rmax));
        assert(is_darkest(px, rmin));
    }
    let outcome = contrast(rmax, rmin);
    assert(realizes(outcome, contrast_of(rmax as int, rmin as int)));
    outcome
}

/// Where a point in space falls on the image plane of a camera: the offsets
/// of the object from the camera across the line of sight, scaled by the
/// focal length over its depth along it; each coordinate rounded down.
///
/// The image point has two coordinates, the two locations three each, and
/// the focal length is positive. An object at the depth of the camera has
/// no image.
pub open spec fn image_point(
    points: int,
    camera: Seq<i32>,
    object: Seq<i32>,
    f_len: int,
) -> Result<(int, int), SensorError> {
    if points != 2 || camera.len() != 3 || object.len() != 3 || f_len <= 0 {
        Err(SensorError::PreconditionViolation)
    } else if object[2] - camera[2] == 0 {
        Err(SensorError::DegenerateInput)
    } else {
        Ok(
            (
                floor_ratio(f_len * (object[0] - camera[0]), object[2] - camera[2]),
                floor_ratio(f_len * (object[1] - camera[1]), object[2] - camera[2]),
            ),
        )
    }
}

/// Computes where an object falls on the image of a camera and writes the
/// two image coordinates to `out_pt`. The locations are `[x, y, z]` in one
/// unit of length, with `z` along the line of sight; the image coordinates
/// are in the unit of the focal length. Where the arguments are refused
/// `out_pt` is left as it was.
pub fn image_location(
    out_pt: &mut [i128],
    camera_location: &[i32],
    object_location: &[i32],
    f_len: u32,
) -> (outcome: Result<(), SensorError>)
    ensures
        match image_point(
            old(out_pt)@.len() as int,
            camera_location@,
            object_location@,
            f_len as int,
        ) {
            Ok((u, v)) => {
                &&& outcome is Ok
                &&& final(out_pt)@.len() == 2
                &&& final(out_pt)@[0] == u
                &&& final(out_pt)@[1] == v
            },
            Err(reason) => {
                &&& outcome == Err::<(), SensorError>(reason)
                &&& final(out_pt)@ == old(out_pt)@
            },
        },
{
    if out_pt.len() != 2 || camera_location.len() != 3 || object_location.len() != 3 || f_len
        == 0 {
        return Err(SensorError::PreconditionViolation);
    }
    let ghost word = 0x1_0000_0000int;
    let x_pr: i128 = object_location[0] as i128 - camera_location[0] as i128;
    let y_pr: i128 = object_location[1] as i128 - camera_location[1] as i128;
    let z_pr: i128 = object_location[2] as i128 - camera_location[2] as i128;
    if z_pr == 0 {
        return Err(SensorError::DegenerateInput);
    }
    let u = floor_ratio_of(times(f_len as i128, x_pr, Ghost(word), Ghost(word)), z_pr);
    let v = floor_ratio_of(times(f_len as i128, y_pr, Ghost(word), Ghost(word)), z_pr);
    out_pt[0] = u;
    out_pt[1] = v;
    Ok(())
}

/// The position of a point seen in two images taken a known displacement
/// apart: with `c = (bx² + by²) / ((u1 - u2) · bx + (v1 - v2) · by)` for
/// the displacement `(bx, by)` and the image points `(u1, v1)`, `(u2, v2)`,
/// the point lies at `(c · u1, c · v1, height + focal_length · c)`; each
/// coordinate is one quotient, rounded down.
///
/// The position has three coordinates, the image points and the
/// displacement two each, and the focal length is positive. Image points
/// that do not differ along the displacement leave nothing to divide by.
pub open spec fn stereo_point(
    points: int,
    image1: Seq<i32>,
    image2: Seq<i32>,
    focal_length: int,
    displacement: Seq<i32>,
    height: int,
) -> Result<(int, int, int), SensorError> {
    if points != 3 || image1.len() != 2 || image2.len() != 2 || displacement.len() != 2
        || focal_length <= 0 {
        Err(SensorError::PreconditionViolation)
    } else {
        let bx = displacement[0] as int;
        let by = displacement[1] as int;
        let base = bx * bx + by * by;
        let parallax = (image1[0] - image2[0]) * bx + (image1[1] - image2[1]) * by;
        if parallax == 0 {
            Err(SensorError::DegenerateInput)
        } else {
            Ok(
                (
                    floor_ratio(base * image1[0], parallax),
                    floor_ratio(base * image1[1], parallax),
                    height + floor_ratio(focal_length * base, parallax),
                ),
            )
        }
    }
}

/// Computes the position of a point from its places in two images taken a
/// known displacement apart, and writes its three coordinates to
/// `real_coord`. Where the arguments are refused `real_coord` is left as it
/// was.
pub fn find_coordinate(
    real_coord: &mut [i128],
    image_coord1: &[i32],
    image_coord2: &[i32],
    focal_length: u32,
    displacement: &[i32],
    height: i32,
) -> (outcome: Result<(), SensorError>)
    ensures
        match stereo_point(
            old(real_coord)@.len() as int,
            image_coord1@,
            image_coord2@,
            focal_length as int,
            displacement@,
            height as int,
        ) {
            Ok((x, y, z)) => {
                &&& outcome is Ok
                &&& final(real_coord)@.len() == 3
                &&& final(real_coord)@[0] == x
                &&& final(real_coord)@[1] == y
                &&& final(real_coord)@[2] == z
            },
            Err(reason) => {
                &&& outcome == Err::<(), SensorError>(reason)
                &&& final(real_coord)@ == old(real_coord)@
            },
        },
{
    if real_coord.len() != 3 || image_coord1.len() != 2 || image_coord2.len() != 2
        || displacement.len() != 2 || focal_length == 0 {
        return Err(SensorError::PreconditionViolation);
    }
    let ghost word = 0x1_0000_0000int;
    let bx = displacement[0] as i128;
    let by = displacement[1] as i128;
    let u1 = image_coord1[0] as i128;
    let v1 = image_coord1[1] as i128;
    let du: i128 = u1 - image_coord2[0] as i128;
    let dv: i128 = v1 - image_coord2[1] as i128;
    let base: i128 = times(bx, bx, Ghost(word), Ghost(word)) + times(
        by,
        by,
        Ghost(word),
        Ghost(word),
    );
    let parallax: i128 = times(du, bx, Ghost(word), Ghost(word)) + times(
        dv,
        by,
        Ghost(word),
        Ghost(word),
    );
    if parallax == 0 {
        return Err(SensorError::DegenerateInput);
    }
    let x = floor_ratio_of(times(base, u1, Ghost(2 * word * word), Ghost(word)), parallax);
    let y = floor_ratio_of(times(base, v1, Ghost(2 * word * word), Ghost(word)), parallax);
    let lift = floor_ratio_of(
        times(focal_length as i128, base, Ghost(word), Ghost(2 * word * word)),
        parallax,
    );
    proof {
        lemma_floor_ratio_magnitude(focal_length * base, parallax as int);
    }
    real_coord[0] = x;
    real_coord[1] = y;
    real_coord[2] = height as i128 + lift;
    Ok(())
}

} // verus!
