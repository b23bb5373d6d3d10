use vstd::prelude::*;
use crate::error::SensorError;
use crate::units::{
    floor_div,
    fits,
    floor_ratio,
    floor_ratio_of,
    is_floor_sqrt,
    isqrt,
    lemma_floor_ratio_magnitude,
    on_every_angle,
    realizes,
    realizes_pair,
    times,
    FOUR_PI,
    MICRO,
};

verus! {

/// A known point and the measured distance from it to the point sought.
pub ghost struct Beacon {
    pub x: int,
    pub y: int,
    pub dist: int,
}

/// The coefficients of the line on which the point sought lies, given its
/// distances to two beacons: subtracting the circle around `q` from the
/// circle around `p` leaves `a * x + b * y == c`, with these `(a, b, c)`.
pub open spec fn radical_line(p: Beacon, q: Beacon) -> (int, int, int) {
    (
        2 * (q.x - p.x),
        2 * (q.y - p.y),
        p.dist * p.dist - q.dist * q.dist - p.x * p.x + q.x * q.x - p.y * p.y + q.y * q.y,
    )
}

/// The determinant of the two lines that three beacons give. It vanishes
/// exactly when the beacons lie on one line.
pub open spec fn determinant(b1: Beacon, b2: Beacon, b3: Beacon) -> int {
    let (a, b, c) = radical_line(b1, b2);
    let (d, e, f) = radical_line(b2, b3);
    e * a - b * d
}

/// The point at the measured distances from three beacons, by Cramer's rule
/// on the two lines they give: `x = (c * e - f * b) / (e * a - b * d)` and
/// `y = (c * d - a * f) / (b * d - a * e)`, each rounded down. Beacons on one
/// line determine no point.
pub open spec fn trilateration(b1: Beacon, b2: Beacon, b3: Beacon) -> Result<
    (int, int),
    SensorError,
> {
    let (a, b, c) = radical_line(b1, b2);
    let (d, e, f) = radical_line(b2, b3);
    if e * a - b * d == 0 {
        Err(SensorError::DegenerateInput)
    } else {
        Ok((floor_ratio(c * e - f * b, e * a - b * d), floor_ratio(c * d - a * f, b * d - a * e)))
    }
}

/// The beacon that a point as a slice of two coordinates and a distance
/// stand for.
pub open spec fn beacon(point: Seq<i32>, dist: u32) -> Beacon {
    Beacon { x: point[0] as int, y: point[1] as int, dist: dist as int }
}

/// Whether the arguments of [`trilaterate`] are admissible: each point has
/// two coordinates and each distance is positive.
pub open spec fn trilaterable(
    point1: Seq<i32>,
    dist1: u32,
    point2: Seq<i32>,
    dist2: u32,
    point3: Seq<i32>,
    dist3: u32,
) -> bool {
    &&& point1.len() == 2
    &&& point2.len() == 2
    &&& point3.len() == 2
    &&& dist1 > 0
    &&& dist2 > 0
    &&& dist3 > 0
}

/// The coefficients of the line that two beacons give.
fn line_between(px: i32, py: i32, pd: u32, qx: i32, qy: i32, qd: u32) -> (line: (i128, i128, i128))
    ensures
        (line.0 as int, line.1 as int, line.2 as int) == radical_line(
            Beacon { x: px as int, y: py as int, dist: pd as int },
            Beacon { x: qx as int, y: qy as int, dist: qd as int },
        ),
        -0x2_0000_0000 <= line.0 <= 0x2_0000_0000,
        -0x2_0000_0000 <= line.1 <= 0x2_0000_0000,
        -0x2_0000_0000_0000_0000 <= line.2 <= 0x2_0000_0000_0000_0000,
{
    let ghost half = 0x1_0000_0000int;
    let a: i128 = 2 * (qx as i128 - px as i128);
    let b: i128 = 2 * (qy as i128 - py as i128);
    let pd2 = times(pd as i128, pd as i128, Ghost(half), Ghost(half));
    let qd2 = times(qd as i128, qd as i128, Ghost(half), Ghost(half));
    let px2 = times(px as i128, px as i128, Ghost(half), Ghost(half));
    let qx2 = times(qx as i128, qx as i128, Ghost(half), Ghost(half));
    let py2 = times(py as i128, py as i128, Ghost(half), Ghost(half));
    let qy2 = times(qy as i128, qy as i128, Ghost(half), Ghost(half));
    proof {
        assert(pd2 >= 0 && qd2 >= 0 && px2 >= 0 && qx2 >= 0 && py2 >= 0 && qy2 >= 0)
            by (nonlinear_arith)
            requires
                pd2 == pd * pd,
                qd2 == qd * qd,
                px2 == px * px,
                qx2 == qx * qx,
                py2 == py * py,
                qy2 == qy * qy,
        ;
        assert(px2 <= 0x4000_0000_0000_0000 && qx2 <= 0x4000_0000_0000_0000 && py2
            <= 0x4000_0000_0000_0000 && qy2 <= 0x4000_0000_0000_0000) by (nonlinear_arith)
            requires
                px2 == px * px,
                qx2 == qx * qx,
                py2 == py * py,
                qy2 == qy * qy,
                -0x8000_0000 <= px <= 0x8000_0000,
                -0x8000_0000 <= qx <= 0x8000_0000,
                -0x8000_0000 <= py <= 0x8000_0000,
                -0x8000_0000 <= qy <= 0x8000_0000,
        ;
    }
    let c: i128 = pd2 - qd2 - px2 + qx2 - py2 + qy2;
    (a, b, c)
}

/// Finds the point in the plane at the measured distances from three known
/// points, by intersecting the two lines that the three circles give.
///
/// Each point is a slice of two coordinates, `[x, y]`; a slice of another
/// length, or a distance of zero, is refused. Points on one line determine
/// no position. The coordinates returned are in the unit of the arguments,
/// rounded down. Where the points are nearly on one line the result is
/// ill-conditioned: that is for the caller to judge.
pub fn trilaterate(
    point1: &[i32],
    dist1: u32,
    point2: &[i32],
    dist2: u32,
    point3: &[i32],
    dist3: u32,
) -> (outcome: Result<(i128, i128), SensorError>)
    ensures
        !trilaterable(point1@, dist1, point2@, dist2, point3@, dist3) ==> outcome == Err::<
            (i128, i128),
            SensorError,
        >(SensorError::PreconditionViolation),
        trilaterable(point1@, dist1, point2@, dist2, point3@, dist3) ==> realizes_pair(
            outcome,
            trilateration(beacon(point1@, dist1), beacon(point2@, dist2), beacon(point3@, dist3)),
        ),
{
    if point1.len() != 2 || point2.len() != 2 || point3.len() != 2 {
        return Err(SensorError::PreconditionViolation);
    }
    if dist1 == 0 || dist2 == 0 || dist3 == 0 {
        return Err(SensorError::PreconditionViolation);
    }
    let (a, b, c) = line_between(point1[0], point1[1], dist1, point2[0], point2[1], dist2);
    let (d, e, f) = line_between(point2[0], point2[1], dist2, point3[0], point3[1], dist3);
    let ghost small = 0x2_0000_0000int;
    let ghost large = 0x2_0000_0000_0000_0000int;
    let ea = times(e, a, Ghost(small), Ghost(small));
    let bd = times(b, d, Ghost(small), Ghost(small));
    let ce = times(c, e, Ghost(large), Ghost(small));
    let fb = times(f, b, Ghost(large), Ghost(small));
    let cd = times(c, d, Ghost(large), Ghost(small));
    let af = times(a, f, Ghost(small), Ghost(large));
    if ea - bd == 0 {
        return Err(SensorError::DegenerateInput);
    }
    let x = floor_ratio_of(ce - fb, ea - bd);
    let y = floor_ratio_of(cd - af, bd - ea);
    Ok((x, y))
}

/// The distance `d · sin α · sin β / sin(α + β)` from a baseline of length
/// `dist` to the point sighted from its two ends, given the three sines in
/// parts per million; rounded down. Where the sine of the sum vanishes the
/// two lines of sight never meet.
pub open spec fn triangulation(dist: int, sin1: int, sin2: int, sin_sum: int) -> Result<
    int,
    SensorError,
> {
    if sin_sum == 0 {
        Err(SensorError::DegenerateInput)
    } else {
        Ok(floor_ratio(dist * sin1 * sin2, MICRO * sin_sum))
    }
}

/// Triangulates the distance from a baseline to a point sighted from both
/// of its ends: `dist` is the length of the baseline, `angle1` and `angle2`
/// are the angles, in microradians, between the baseline and the two lines
/// of sight. The result is in the unit of `dist`.
///
/// `sine` returns the sine, in parts per million, of an angle in
/// microradians; it is asked for the two angles and their sum, in this
/// order. A baseline or an angle of zero is refused before any sine is
/// taken.
pub fn triangulate<S: Fn(u64) -> i32>(dist: u32, angle1: u32, angle2: u32, sine: &S) -> (outcome:
    Result<i128, SensorError>)
    requires
        on_every_angle(sine),
    ensures
        dist == 0 || angle1 == 0 || angle2 == 0 ==> outcome == Err::<i128, SensorError>(
            SensorError::PreconditionViolation,
        ),
        dist > 0 && angle1 > 0 && angle2 > 0 ==> exists|sin1: i32, sin2: i32, sin_sum: i32|
            #![trigger triangulation(dist as int, sin1 as int, sin2 as int, sin_sum as int)]
            {
                &&& call_ensures(sine, (angle1 as u64,), sin1)
                &&& call_ensures(sine, (angle2 as u64,), sin2)
                &&& call_ensures(sine, ((angle1 + angle2) as u64,), sin_sum)
                &&& realizes(
                    outcome,
                    triangulation(dist as int, sin1 as int, sin2 as int, sin_sum as int),
                )
            },
{
    if dist == 0 || angle1 == 0 || angle2 == 0 {
        return Err(SensorError::PreconditionViolation);
    }
    let sin1 = sine(angle1 as u64);
    let sin2 = sine(angle2 as u64);
    let sin_sum = sine(angle1 as u64 + angle2 as u64);
    let outcome = if sin_sum == 0 {
        Err(SensorError::DegenerateInput)
    } else {
        let ghost word = 0x1_0000_0000int;
        let scaled = times(dist as i128, sin1 as i128, Ghost(word), Ghost(word));
        let numerator = times(scaled, sin2 as i128, Ghost(word * word), Ghost(word));
        let denominator = times(MICRO as i128, sin_sum as i128, Ghost(word), Ghost(word));
        assert(denominator != 0) by (nonlinear_arith)
            requires
                denominator == MICRO * sin_sum,
                sin_sum != 0,
                MICRO == 1_000_000,
        ;
        Ok(floor_ratio_of(numerator, denominator))
    };
    assert(realizes(
        outcome,
        triangulation(dist as int, sin1 as int, sin2 as int, sin_sum as int),
    ));
    outcome
}

/// The point `(x, y)` lies at the beacon's distance from the beacon.
pub open spec fn at_distance(p: Beacon, x: int, y: int) -> bool {
    (x - p.x) * (x - p.x) + (y - p.y) * (y - p.y) == p.dist * p.dist
}

/// Twice the signed area of the triangle of three beacons: zero exactly when
/// they lie on one line.
pub open spec fn cross(b1: Beacon, b2: Beacon, b3: Beacon) -> int {
    (b2.x - b1.x) * (b3.y - b2.y) - (b2.y - b1.y) * (b3.x - b2.x)
}

/// Trilateration is degenerate exactly for beacons on one line, whatever the
/// distances: the determinant is four times the cross product of the sides.
pub proof fn lemma_degenerate_iff_collinear(b1: Beacon, b2: Beacon, b3: Beacon)
    ensures
        determinant(b1, b2, b3) == 4 * cross(b1, b2, b3),
        trilateration(b1, b2, b3) is Err <==> cross(b1, b2, b3) == 0,
{
    let (a, b, c) = radical_line(b1, b2);
    let (d, e, f) = radical_line(b2, b3);
    assert(e * a - b * d == 4 * ((b2.x - b1.x) * (b3.y - b2.y) - (b2.y - b1.y) * (b3.x - b2.x)))
        by (nonlinear_arith)
        requires
            a == 2 * (b2.x - b1.x),
            b == 2 * (b2.y - b1.y),
            d == 2 * (b3.x - b2.x),
            e == 2 * (b3.y - b2.y),
    ;
}

/// A point at the measured distances of two beacons lies on the line they
/// give.
proof fn lemma_on_radical_line(p: Beacon, q: Beacon, x: int, y: int)
    requires
        at_distance(p, x, y),
        at_distance(q, x, y),
    ensures
        radical_line(p, q).0 * x + radical_line(p, q).1 * y == radical_line(p, q).2,
{
    let (a, b, c) = radical_line(p, q);
    lemma_square_of_difference(x, p.x);
    lemma_square_of_difference(y, p.y);
    lemma_square_of_difference(x, q.x);
    lemma_square_of_difference(y, q.y);
    assert(a * x == 2 * (x * q.x) - 2 * (x * p.x)) by (nonlinear_arith)
        requires
            a == 2 * (q.x - p.x),
    ;
    assert(b * y == 2 * (y * q.y) - 2 * (y * p.y)) by (nonlinear_arith)
        requires
            b == 2 * (q.y - p.y),
    ;
}

/// The square of a difference, multiplied out.
proof fn lemma_square_of_difference(u: int, v: int)
    ensures
        (u - v) * (u - v) == u * u - 2 * (u * v) + v * v,
{
    assert((u - v) * (u - v) == u * u - 2 * (u * v) + v * v) by (nonlinear_arith);
}

/// Cramer's rule, multiplied out: the solution of two linear equations,
/// times the determinant, is the numerator of the rule.
proof fn lemma_cramer(a: int, b: int, c: int, d: int, e: int, f: int, x: int, y: int)
    requires
        a * x + b * y == c,
        d * x + e * y == f,
    ensures
        c * e - f * b == x * (e * a - b * d),
        c * d - a * f == y * (-(e * a - b * d)),
{
    let ax = a * x;
    let by = b * y;
    let dx = d * x;
    let ey = e * y;
    assert((ax + by) * e == ax * e + by * e) by (nonlinear_arith);
    assert((dx + ey) * b == dx * b + ey * b) by (nonlinear_arith);
    assert((ax + by) * d == ax * d + by * d) by (nonlinear_arith);
    assert(a * (dx + ey) == a * dx + a * ey) by (nonlinear_arith);
    assert(ax * e == x * (e * a)) by (nonlinear_arith)
        requires
            ax == a * x,
    ;
    assert(dx * b == x * (b * d)) by (nonlinear_arith)
        requires
            dx == d * x,
    ;
    assert(by * e == ey * b) by (nonlinear_arith)
        requires
            by == b * y,
            ey == e * y,
    ;
    assert(ax * d == a * dx) by (nonlinear_arith)
        requires
            ax == a * x,
            dx == d * x,
    ;
    assert(by * d == y * (b * d)) by (nonlinear_arith)
        requires
            by == b * y,
    ;
    assert(a * ey == y * (e * a)) by (nonlinear_arith)
        requires
            ey == e * y,
    ;
    assert(x * (e * a - b * d) == x * (e * a) - x * (b * d)) by (nonlinear_arith);
    assert(y * (-(e * a - b * d)) == y * (b * d) - y * (e * a)) by (nonlinear_arith);
}

/// A multiple of the denominator divides without remainder.
proof fn lemma_floor_ratio_of_multiple(q: int, den: int)
    requires
        den != 0,
    ensures
        floor_ratio(q * den, den) == q,
{
    if den > 0 {
        vstd::arithmetic::div_mod::lemma_div_multiples_vanish(q, den);
        assert(q * den == den * q) by (nonlinear_arith);
    } else {
        vstd::arithmetic::div_mod::lemma_div_multiples_vanish(q, -den);
        assert(-(q * den) == (-den) * q) by (nonlinear_arith);
    }
}

/// Trilateration is exact: where the three distances are those of one point
/// `(x, y)` from three beacons that do not lie on one line, trilateration
/// returns that point, with nothing lost to rounding.
pub proof fn lemma_trilateration_is_exact(b1: Beacon, b2: Beacon, b3: Beacon, x: int, y: int)
    requires
        at_distance(b1, x, y),
        at_distance(b2, x, y),
        at_distance(b3, x, y),
        cross(b1, b2, b3) != 0,
    ensures
        trilateration(b1, b2, b3) == Ok::<(int, int), SensorError>((x, y)),
{
    let (a, b, c) = radical_line(b1, b2);
    let (d, e, f) = radical_line(b2, b3);
    lemma_degenerate_iff_collinear(b1, b2, b3);
    lemma_on_radical_line(b1, b2, x, y);
    lemma_on_radical_line(b2, b3, x, y);
    let det = e * a - b * d;
    lemma_cramer(a, b, c, d, e, f, x, y);
    assert(c * e - f * b == x * det && c * d - a * f == y * (-det));
    assert(b * d - a * e == -det) by (nonlinear_arith)
        requires
            det == e * a - b * d,
    ;
    lemma_floor_ratio_of_multiple(x, det);
    lemma_floor_ratio_of_multiple(y, -det);
}

/// The simplest estimate of the bidirectional reflectance, radiance over
/// irradiance, in parts per million; rounded down.
pub open spec fn reflectance(radiance: int, irradiance: int) -> Result<int, SensorError> {
    if radiance <= 0 || irradiance <= 0 {
        Err(SensorError::PreconditionViolation)
    } else {
        Ok(radiance * MICRO / irradiance)
    }
}

/// The simplest estimate of the bidirectional reflectance: the radiance
/// that leaves a surface over the irradiance that falls on it, both in one
/// unit and positive. The result is in parts per million.
pub fn brdf_basic(radiance: u32, irradiance: u32) -> (outcome: Result<u64, SensorError>)
    ensures
        match reflectance(radiance as int, irradiance as int) {
            Ok(r) => outcome == Ok::<u64, SensorError>(r as u64) && r <= u64::MAX,
            Err(reason) => outcome == Err::<u64, SensorError>(reason),
        },
{
    if radiance == 0 || irradiance == 0 {
        return Err(SensorError::PreconditionViolation);
    }
    Ok((radiance as u64) * (MICRO as u64) / (irradiance as u64))
}

/// The bistatic scattering coefficient `4π · R · cos θ`, in parts per
/// million, from the reflectance and the cosine in parts per million;
/// rounded down.
pub open spec fn scattering(brdf: int, cosine: int) -> int {
    FOUR_PI * brdf * cosine / (MICRO * MICRO)
}

/// The bistatic scattering coefficient `4π · R · cos θ` of a surface of
/// bidirectional reflectance `brdf` (in parts per million) seen at `angle`
/// (in microradians), in parts per million. Both must be positive.
///
/// `cosine` returns the cosine, in parts per million, of an angle in
/// microradians; it is asked once the arguments have been found admissible.
pub fn bistatic_scattering_coefficient<C: Fn(u64) -> i32>(brdf: u64, angle: u32, cosine: &C) -> (outcome:
    Result<i128, SensorError>)
    requires
        on_every_angle(cosine),
    ensures
        brdf == 0 || angle == 0 ==> outcome == Err::<i128, SensorError>(
            SensorError::PreconditionViolation,
        ),
        brdf > 0 && angle > 0 ==> exists|cos: i32|
            #![trigger scattering(brdf as int, cos as int)]
            call_ensures(cosine, (angle as u64,), cos) && realizes(
                outcome,
                Ok(scattering(brdf as int, cos as int)),
            ),
{
    if brdf == 0 || angle == 0 {
        return Err(SensorError::PreconditionViolation);
    }
    let cos = cosine(angle as u64);
    let ghost word = 0x1_0000_0000int;
    let scaled = times(FOUR_PI as i128, brdf as i128, Ghost(0x100_0000), Ghost(word * word));
    let product = times(scaled, cos as i128, Ghost(0x100_0000 * (word * word)), Ghost(word));
    let outcome = Ok(floor_div(product, 1_000_000_000_000));
    assert(MICRO * MICRO == 1_000_000_000_000) by (nonlinear_arith)
        requires
            MICRO == 1_000_000,
    ;
    proof {
        lemma_floor_ratio_magnitude(product as int, 1_000_000_000_000);
    }
    assert(realizes(outcome, Ok(scattering(brdf as int, cos as int))));
    outcome
}

/// The bistatic scattering coefficient of a surface from the radiance that
/// leaves it and the irradiance that falls on it: that of the reflectance
/// that [`brdf_basic`] estimates. A reflectance that rounds to nothing is
/// refused as any other that is not positive.
pub fn bistatic_scattering_coefficient_basic<C: Fn(u64) -> i32>(
    radiance: u32,
    irradiance: u32,
    angle: u32,
    cosine: &C,
) -> (outcome: Result<i128, SensorError>)
    requires
        on_every_angle(cosine),
    ensures
        match reflectance(radiance as int, irradiance as int) {
            Ok(brdf) => {
                &&& brdf == 0 || angle == 0 ==> outcome == Err::<i128, SensorError>(
                    SensorError::PreconditionViolation,
                )
                &&& brdf > 0 && angle > 0 ==> exists|cos: i32|
                    #![trigger scattering(brdf, cos as int)]
                    call_ensures(cosine, (angle as u64,), cos) && realizes(
                        outcome,
                        Ok(scattering(brdf, cos as int)),
                    )
            },
            Err(reason) => outcome == Err::<i128, SensorError>(reason),
        },
{
    match brdf_basic(radiance, irradiance) {
        Ok(brdf) => bistatic_scattering_coefficient(brdf, angle, cosine),
        Err(reason) => Err(reason),
    }
}

/// The quotient `Gt · Pt / (4π · d²)`, in millionths, for a gain in parts
/// per million; rounded down.
pub open spec fn flux_quotient(gain: int, power: int, dist: int) -> int {
    gain * power * MICRO / (FOUR_PI * dist * dist)
}

/// The flux density `Gt · Pt / (4π · d²)` through the surface that a
/// transmitter of gain `Gt` (in parts per million) and power `Pt`
/// illuminates from the distance `d`, in millionths; rounded down. A flux
/// density is above zero: one that rounds to nothing is refused with the
/// arguments that are not positive.
pub open spec fn flux_density(gain: int, power: int, dist: int) -> Result<int, SensorError> {
    if gain <= 0 || power <= 0 || dist <= 0 || flux_quotient(gain, power, dist) <= 0 {
        Err(SensorError::PreconditionViolation)
    } else {
        Ok(flux_quotient(gain, power, dist))
    }
}

/// The flux density `Gt · Pt / (4π · d²)` at the surface in a bistatic
/// radar system, for the gain of the transmitting antenna, the power it
/// transmits and its distance to the surface, all positive. The gain is in
/// parts per million; the result is in millionths of the unit of power over
/// the square of the unit of distance.
///
/// The flux density returned is above zero. One below a millionth, which
/// rounds to nothing, is refused: choose a smaller unit of power or a larger
/// unit of distance. A gain in parts per million reaches 4294.97 in 32
/// bits; a larger one goes into the unit of power.
pub fn bistatic_flux_density(antenna_gain: u32, transmitted_power: u32, transmit_dist: u32) -> (outcome:
    Result<u64, SensorError>)
    ensures
        match flux_density(antenna_gain as int, transmitted_power as int, transmit_dist as int) {
            Ok(flux) => outcome == Ok::<u64, SensorError>(flux as u64) && 0 < flux
                < 0x2000_0000_0000_0000,
            Err(reason) => outcome == Err::<u64, SensorError>(reason),
        },
        outcome matches Ok(flux) ==> flux > 0,
{
    if antenna_gain == 0 || transmitted_power == 0 || transmit_dist == 0 {
        return Err(SensorError::PreconditionViolation);
    }
    let ghost word = 0x1_0000_0000int;
    let radiated = times(antenna_gain as i128, transmitted_power as i128, Ghost(word), Ghost(word));
    let numerator = times(radiated, MICRO as i128, Ghost(word * word), Ghost(word));
    let spread = times(FOUR_PI as i128, transmit_dist as i128, Ghost(word), Ghost(word));
    let denominator = times(spread, transmit_dist as i128, Ghost(word * word), Ghost(word));
    assert(denominator >= 12_566_371 && numerator >= 0 && numerator <= 0xffff_ffff * 0xffff_ffff
        * 1_000_000) by (nonlinear_arith)
        requires
            denominator == FOUR_PI * transmit_dist * transmit_dist,
            numerator == antenna_gain * transmitted_power * MICRO,
            FOUR_PI == 12_566_371,
            MICRO == 1_000_000,
            1 <= transmit_dist,
            0 <= antenna_gain <= 0xffff_ffff,
            0 <= transmitted_power <= 0xffff_ffff,
    ;
    let flux = floor_div(numerator, denominator);
    proof {
        vstd::arithmetic::div_mod::lemma_div_is_ordered_by_denominator(
            numerator as int,
            12_566_371,
            denominator as int,
        );
        vstd::arithmetic::div_mod::lemma_div_pos_is_pos(numerator as int, denominator as int);
    }
    if flux == 0 {
        return Err(SensorError::PreconditionViolation);
    }
    Ok(flux as u64)
}

/// The numerator of the received power: `γ · Gt · Pt · cos θ_in · A_collect
/// · A_eff`.
pub open spec fn radar_numerator(
    b_scat_coefficient: int,
    collecting_area: int,
    effective_area: int,
    antenna_gain: int,
    transmitted_power: int,
    cos_in: int,
) -> int {
    b_scat_coefficient * antenna_gain * transmitted_power * cos_in * collecting_area
        * effective_area
}

/// The denominator of the received power: `(4π)² · d_t² · d_r²`.
pub open spec fn radar_denominator(transmit_dist: int, received_dist: int) -> int {
    ((FOUR_PI * FOUR_PI) * (transmit_dist * transmit_dist)) * (received_dist * received_dist)
}

/// The power that the receiver of a bistatic radar collects, in millionths
/// of the unit of power, from the cosines of the two angles in parts per
/// million.
///
/// The chain runs from the flux density at the surface,
/// `F = Gt · Pt / (4π · d_t²)`, over the irradiance `E = F · cos θ_in` and
/// the radiance scattered toward the receiver, `L = γ · E / (4π · cos
/// θ_out)`, to the received power `L · A_collect · A_eff / d_r² · cos θ_out`.
/// The cosine of the exit angle cancels, and what is left is one quotient,
///
/// `γ · Gt · Pt · cos θ_in · A_collect · A_eff / ((4π)² · d_t² · d_r²)`,
///
/// rounded down once. The exit angle decides only whether there is a
/// result: a cosine of zero leaves the radiance nothing to divide by, and a
/// cosine below zero gives a radiance that is not positive. The stages are
/// positive or the chain is refused: for an argument or a cosine of the
/// incoming angle that is not positive, and for a power that rounds to
/// nothing. A numerator beyond the widest machine integer is refused too.
pub open spec fn radar_power(
    b_scat_coefficient: int,
    collecting_area: int,
    effective_area: int,
    antenna_gain: int,
    transmitted_power: int,
    transmit_dist: int,
    received_dist: int,
    cos_in: int,
    cos_out: int,
) -> Result<int, SensorError> {
    let numerator = radar_numerator(
        b_scat_coefficient,
        collecting_area,
        effective_area,
        antenna_gain,
        transmitted_power,
        cos_in,
    );
    let power = numerator / radar_denominator(transmit_dist, received_dist);
    if b_scat_coefficient <= 0 || collecting_area <= 0 || effective_area <= 0 || antenna_gain <= 0
        || transmitted_power <= 0 || transmit_dist <= 0 || received_dist <= 0 || cos_in <= 0 {
        Err(SensorError::PreconditionViolation)
    } else if cos_out == 0 {
        Err(SensorError::DegenerateInput)
    } else if cos_out < 0 || !fits(numerator) || power <= 0 {
        Err(SensorError::PreconditionViolation)
    } else {
        Ok(power)
    }
}

/// Whether the arguments of [`bistatic_radar_power`] are admissible: each
/// is positive.
pub open spec fn radar_ready(
    b_scat_coefficient: u32,
    collecting_area: u32,
    effective_area: u32,
    antenna_gain: u32,
    transmitted_power: u32,
    incoming_angle: u32,
    exit_angle: u32,
    transmit_dist: u32,
    received_dist: u32,
) -> bool {
    &&& b_scat_coefficient > 0
    &&& collecting_area > 0
    &&& effective_area > 0
    &&& antenna_gain > 0
    &&& transmitted_power > 0
    &&& incoming_angle > 0
    &&& exit_angle > 0
    &&& transmit_dist > 0
    &&& received_dist > 0
}

/// A product that is beyond the machine stays beyond it when multiplied by
/// a positive whole number.
proof fn lemma_beyond_stays_beyond(product: int, factor: int)
    requires
        product > i128::MAX,
        factor >= 1,
    ensures
        product * factor > i128::MAX,
{
    assert(product * factor >= product) by (nonlinear_arith)
        requires
            product > 0,
            factor >= 1,
    ;
}

/// The received power of [`radar_power`] on the values of the two cosines.
fn radar_chain(
    b_scat_coefficient: u32,
    collecting_area: u32,
    effective_area: u32,
    antenna_gain: u32,
    transmitted_power: u32,
    transmit_dist: u32,
    received_dist: u32,
    cos_in: i32,
    cos_out: i32,
) -> (outcome: Result<i128, SensorError>)
    requires
        b_scat_coefficient > 0,
        collecting_area > 0,
        effective_area > 0,
        antenna_gain > 0,
        transmitted_power > 0,
        transmit_dist > 0,
        received_dist > 0,
    ensures
        realizes(
            outcome,
            radar_power(
                b_scat_coefficient as int,
                collecting_area as int,
                effective_area as int,
                antenna_gain as int,
                transmitted_power as int,
                transmit_dist as int,
                received_dist as int,
                cos_in as int,
                cos_out as int,
            ),
        ),
        outcome matches Ok(power) ==> power > 0,
{
    if cos_in <= 0 {
        return Err(SensorError::PreconditionViolation);
    }
    if cos_out == 0 {
        return Err(SensorError::DegenerateInput);
    }
    if cos_out < 0 {
        return Err(SensorError::PreconditionViolation);
    }
    let ghost word = 0x1_0000_0000int;
    let ghost numerator = radar_numerator(
        b_scat_coefficient as int,
        collecting_area as int,
        effective_area as int,
        antenna_gain as int,
        transmitted_power as int,
        cos_in as int,
    );
    let ghost denominator = radar_denominator(transmit_dist as int, received_dist as int);
    let radiated = times(
        times(b_scat_coefficient as i128, antenna_gain as i128, Ghost(word), Ghost(word)),
        transmitted_power as i128,
        Ghost(word * word),
        Ghost(word),
    );
    assert(radiated > 0) by (nonlinear_arith)
        requires
            radiated == b_scat_coefficient * antenna_gain * transmitted_power,
            b_scat_coefficient > 0,
            antenna_gain > 0,
            transmitted_power > 0,
    ;
    let lit = match radiated.checked_mul(cos_in as i128) {
        Some(lit) => lit,
        None => {
            proof {
                lemma_beyond_stays_beyond(radiated * cos_in, collecting_area as int);
                lemma_beyond_stays_beyond(
                    radiated * cos_in * collecting_area,
                    effective_area as int,
                );
            }
            return Err(SensorError::PreconditionViolation);
        },
    };
    let gathered = match lit.checked_mul(collecting_area as i128) {
        Some(gathered) => gathered,
        None => {
            proof {
                lemma_beyond_stays_beyond(lit * collecting_area, effective_area as int);
            }
            return Err(SensorError::PreconditionViolation);
        },
    };
    let collected = match gathered.checked_mul(effective_area as i128) {
        Some(collected) => collected,
        None => {
            return Err(SensorError::PreconditionViolation);
        },
    };
    assert(collected == numerator);
    assert(collected > 0) by (nonlinear_arith)
        requires
            collected == radiated * cos_in * collecting_area * effective_area,
            radiated > 0,
            cos_in > 0,
            collecting_area > 0,
            effective_area > 0,
    ;
    let sphere = times(FOUR_PI as i128, FOUR_PI as i128, Ghost(0x100_0000), Ghost(0x100_0000));
    let near = times(transmit_dist as i128, transmit_dist as i128, Ghost(word), Ghost(word));
    let far = times(received_dist as i128, received_dist as i128, Ghost(word), Ghost(word));
    let spread = times(sphere, near, Ghost(0x1_0000_0000_0000), Ghost(word * word));
    assert(spread > 0 && far > 0) by (nonlinear_arith)
        requires
            spread == (FOUR_PI * FOUR_PI) * (transmit_dist * transmit_dist),
            far == received_dist * received_dist,
            FOUR_PI == 12_566_371,
            transmit_dist > 0,
            received_dist > 0,
    ;
    let power = match spread.checked_mul(far) {
        Some(whole) => {
            assert(whole > 0) by (nonlinear_arith)
                requires
                    whole == spread * far,
                    spread > 0,
                    far > 0,
            ;
            floor_div(collected, whole)
        },
        None => {
            proof {
                vstd::arithmetic::div_mod::lemma_basic_div(numerator, denominator);
            }
            0
        },
    };
    proof {
        vstd::arithmetic::div_mod::lemma_div_pos_is_pos(numerator, denominator);
        lemma_floor_ratio_magnitude(numerator, denominator);
    }
    if power <= 0 {
        return Err(SensorError::PreconditionViolation);
    }
    Ok(power)
}

/// The power received in a bistatic radar system, through the chain of
/// flux density, irradiance, scattered radiance and received power that
/// [`radar_power`] spells out, as one quotient.
///
/// The bistatic scattering coefficient and the gain are in parts per
/// million, the angles in microradians; the power is in a unit of the
/// caller's choice, the distances in another, and the areas in the square
/// of that. The result is in millionths of the unit of power, and is above
/// zero. Every argument must be positive. A gain in parts per million
/// reaches 4294.97 in 32 bits; a larger one goes into the unit of power.
///
/// `cosine` returns the cosine, in parts per million, of an angle in
/// microradians; it is asked for the incoming and then for the exit angle,
/// once the arguments have been found admissible. The cosine of the exit
/// angle must not be zero and must be positive; beyond that the result does
/// not depend on it.
pub fn bistatic_radar_power<C: Fn(u64) -> i32>(
    b_scat_coefficient: u32,
    collecting_area: u32,
    effective_area: u32,
    antenna_gain: u32,
    transmitted_power: u32,
    incoming_angle: u32,
    exit_angle: u32,
    transmit_dist: u32,
    received_dist: u32,
    cosine: &C,
) -> (outcome: Result<i128, SensorError>)
    requires
        on_every_angle(cosine),
    ensures
        !radar_ready(
            b_scat_coefficient,
            collecting_area,
            effective_area,
            antenna_gain,
            transmitted_power,
            incoming_angle,
            exit_angle,
            transmit_dist,
            received_dist,
        ) ==> outcome == Err::<i128, SensorError>(SensorError::PreconditionViolation),
        radar_ready(
            b_scat_coefficient,
            collecting_area,
            effective_area,
            antenna_gain,
            transmitted_power,
            incoming_angle,
            exit_angle,
            transmit_dist,
            received_dist,
        ) ==> exists|cos_in: i32, cos_out: i32|
            #![trigger call_ensures(cosine, (incoming_angle as u64,), cos_in), call_ensures(cosine, (exit_angle as u64,), cos_out)]
            {
                &&& call_ensures(cosine, (incoming_angle as u64,), cos_in)
                &&& call_ensures(cosine, (exit_angle as u64,), cos_out)
                &&& realizes(
                    outcome,
                    radar_power(
                        b_scat_coefficient as int,
                        collecting_area as int,
                        effective_area as int,
                        antenna_gain as int,
                        transmitted_power as int,
                        transmit_dist as int,
                        received_dist as int,
                        cos_in as int,
                        cos_out as int,
                    ),
                )
            },
        outcome matches Ok(power) ==> power > 0,
{
    if b_scat_coefficient == 0 || collecting_area == 0 || effective_area == 0 || antenna_gain == 0
        || transmitted_power == 0 {
        return Err(SensorError::PreconditionViolation);
    }
    if incoming_angle == 0 || exit_angle == 0 || transmit_dist == 0 || received_dist == 0 {
        return Err(SensorError::PreconditionViolation);
    }
    let cos_in = cosine(incoming_angle as u64);
    let cos_out = cosine(exit_angle as u64);
    radar_chain(
        b_scat_coefficient,
        collecting_area,
        effective_area,
        antenna_gain,
        transmitted_power,
        transmit_dist,
        received_dist,
        cos_in,
        cos_out,
    )
}

/// The received power does not depend on the exit angle: the cosine of the
/// exit angle cancels between the scattered radiance and the received
/// power, so two exit angles with cosines above zero give one result.
pub proof fn lemma_radar_power_ignores_exit_angle(
    b_scat_coefficient: int,
    collecting_area: int,
    effective_area: int,
    antenna_gain: int,
    transmitted_power: int,
    transmit_dist: int,
    received_dist: int,
    cos_in: int,
    cos_out: int,
    other_cos_out: int,
)
    requires
        cos_out > 0,
        other_cos_out > 0,
    ensures
        radar_power(
            b_scat_coefficient,
            collecting_area,
            effective_area,
            antenna_gain,
            transmitted_power,
            transmit_dist,
            received_dist,
            cos_in,
            cos_out,
        ) == radar_power(
            b_scat_coefficient,
            collecting_area,
            effective_area,
            antenna_gain,
            transmitted_power,
            transmit_dist,
            received_dist,
            cos_in,
            other_cos_out,
        ),
{
}

/// The distance that triangulation gives is above zero while the three
/// sines are: from a baseline long enough for the quotient to reach one
/// unit. Below that it rounds down to zero.
pub proof fn lemma_triangulation_is_positive(dist: int, sin1: int, sin2: int, sin_sum: int)
    requires
        dist > 0,
        sin1 > 0,
        sin2 > 0,
        sin_sum > 0,
    ensures
        triangulation(dist, sin1, sin2, sin_sum) matches Ok(d) && d >= 0 && (d > 0 <==> dist * sin1
            * sin2 >= MICRO * sin_sum),
{
    let numerator = dist * sin1 * sin2;
    let denominator = MICRO * sin_sum;
    assert(numerator > 0 && denominator > 0) by (nonlinear_arith)
        requires
            numerator == dist * sin1 * sin2,
            denominator == MICRO * sin_sum,
            dist > 0,
            sin1 > 0,
            sin2 > 0,
            sin_sum > 0,
            MICRO == 1_000_000,
    ;
    vstd::arithmetic::div_mod::lemma_div_pos_is_pos(numerator, denominator);
    if numerator >= denominator {
        vstd::arithmetic::div_mod::lemma_div_is_ordered(denominator, numerator, denominator);
        vstd::arithmetic::div_mod::lemma_div_by_self(denominator);
    } else {
        vstd::arithmetic::div_mod::lemma_basic_div(numerator, denominator);
    }
}

/// Triangulation does not depend on which end of the baseline comes first:
/// swapping the two sines leaves the distance as it is.
pub proof fn lemma_triangulation_is_symmetric(dist: int, sin1: int, sin2: int, sin_sum: int)
    ensures
        triangulation(dist, sin1, sin2, sin_sum) == triangulation(dist, sin2, sin1, sin_sum),
{
    assert(dist * sin1 * sin2 == dist * sin2 * sin1) by (nonlinear_arith);
}

/// The sum of the squares of a series of samples.
pub open spec fn sum_of_squares(series: Seq<i16>) -> int
    decreases series.len(),
{
    if series.len() == 0 {
        0
    } else {
        sum_of_squares(series.drop_last()) + series.last() * series.last()
    }
}

/// Sums the squares of a series of samples.
fn squares(series: &[i16]) -> (sum: u128)
    ensures
        sum == sum_of_squares(series@),
        sum <= series@.len() * 0x4000_0000,
{
    let mut sum: u128 = 0;
    let mut k: usize = 0;
    assert(series@.subrange(0, 0) =~= Seq::<i16>::empty());
    while k < series.len()
        invariant
            k <= series@.len(),
            sum == sum_of_squares(series@.subrange(0, k as int)),
            sum <= k * 0x4000_0000,
        decreases series@.len() - k,
    {
        let sample = series[k] as i128;
        assert(0 <= sample * sample <= 0x4000_0000) by (nonlinear_arith)
            requires
                -0x8000 <= sample <= 0x8000,
        ;
        proof {
            let next = series@.subrange(0, k + 1);
            assert(next.drop_last() =~= series@.subrange(0, k as int));
            assert(next.last() == series@[k as int]);
        }
        sum = sum + (sample * sample) as u128;
        k += 1;
    }
    assert(series@.subrange(0, k as int) =~= series@);
    sum
}

/// The signal-to-noise ratio from the root-mean-square power of a signal
/// and of the noise, in thousandths: the square root of the ratio of the
/// two mean squares. The series have one length, so the ratio of the means
/// is the ratio of the sums.
pub open spec fn rms_ratio(signal: Seq<i16>, noise: Seq<i16>) -> int {
    sum_of_squares(signal) * 1_000_000 / sum_of_squares(noise)
}

/// The signal-to-noise ratio of a sampled signal, in thousandths: the
/// square root, rounded down, of the mean square of the signal over the
/// mean square of the noise.
///
/// The two series must have one length. Noise that is zero throughout, or
/// absent, leaves nothing to divide by.
pub fn averaging_rms_snr(signal: &[i16], noise: &[i16]) -> (outcome: Result<u64, SensorError>)
    ensures
        match outcome {
            Ok(snr) => {
                &&& signal@.len() == noise@.len()
                &&& sum_of_squares(noise@) != 0
                &&& is_floor_sqrt(rms_ratio(signal@, noise@), snr as int)
            },
            Err(reason) => if signal@.len() != noise@.len() {
                reason == SensorError::PreconditionViolation
            } else {
                reason == SensorError::DegenerateInput && sum_of_squares(noise@) == 0
            },
        },
{
    if signal.len() != noise.len() {
        return Err(SensorError::PreconditionViolation);
    }
    let power = squares(signal);
    let floor = squares(noise);
    if floor == 0 {
        return Err(SensorError::DegenerateInput);
    }
    assert(power * 1_000_000 <= 0x1_0000_0000_0000_0000 * 0x4000_0000 * 1_000_000)
        by (nonlinear_arith)
        requires
            power <= signal@.len() * 0x4000_0000,
            signal@.len() <= 0x1_0000_0000_0000_0000,
    ;
    Ok(isqrt(power * 1_000_000 / floor))
}

} // verus!
