use vstd::prelude::*;
use crate::error::SensorError;
use crate::integrate::{
    accepts_hemisphere,
    integrate_hemisphere,
    integrate_hemisphere_weighted,
    is_integral,
    is_weighted_integral,
    lemma_weighted_integral_of_constant,
    single_valued,
    step_of,
    DEFAULT_STEP,
};
use crate::units::{floor_div, realizes, FULL_SPHERE, MICRO};

verus! {

/// The antennas whose beam width is tabulated.
#[derive(Clone, Copy, Debug, PartialEq, Eq, Structural)]
pub enum AntennaType {
    /// A simple monopole.
    Monopole,
    /// A short dipole.
    ShortDipole,
    /// A dipole of half the operating wavelength.
    HalfWaveDipole,
    /// A Yagi-Uda antenna with six horizontal rods.
    YagiYudaSix,
    /// A rectangular aperture.
    Rectangular,
    /// A circular paraboloid.
    Parabaloid,
}

/// The half-power beam width of an antenna, in microdegrees.
pub open spec fn beam_width(lambda: int, size: int, atype: AntennaType) -> int {
    match atype {
        AntennaType::Monopole => 0,
        AntennaType::ShortDipole => 90_000_000,
        AntennaType::HalfWaveDipole => 90_000_000,
        AntennaType::YagiYudaSix => 42_000_000,
        AntennaType::Rectangular => 51_000_000 * lambda / size,
        AntennaType::Parabaloid => 72_000_000 * lambda / size,
    }
}

/// The half-power beam width of an antenna, in microdegrees.
///
/// `lambda` is the wavelength and `size` the side of a rectangular aperture
/// or the diameter of a paraboloid, both in one unit of length. Both must
/// be positive, whatever the antenna. A monopole radiates in all
/// directions and has width zero; the dipoles have 90° and the Yagi-Uda
/// 42°; an aperture has 51° (rectangular) or 72° (paraboloid) times
/// `lambda / size`.
pub fn hpbw(lambda: u32, size: u32, atype: AntennaType) -> (outcome: Result<u64, SensorError>)
    ensures
        match outcome {
            Ok(width) => lambda > 0 && size > 0 && width == beam_width(
                lambda as int,
                size as int,
                atype,
            ),
            Err(reason) => reason == SensorError::PreconditionViolation && (lambda == 0 || size
                == 0),
        },
{
    if lambda == 0 || size == 0 {
        return Err(SensorError::PreconditionViolation);
    }
    let width: u64 = match atype {
        AntennaType::Monopole => 0,
        AntennaType::ShortDipole => 90_000_000,
        AntennaType::HalfWaveDipole => 90_000_000,
        AntennaType::YagiYudaSix => 42_000_000,
        AntennaType::Rectangular => 51_000_000 * (lambda as u64) / (size as u64),
        AntennaType::Parabaloid => 72_000_000 * (lambda as u64) / (size as u64),
    };
    Ok(width)
}

/// Whether a beam solid angle, in units of 10⁻¹⁸ sr, lies in the physical
/// domain: from nothing to the whole sphere.
pub open spec fn in_sphere(bsa: int) -> bool {
    0 <= bsa <= FULL_SPHERE
}

/// What becomes of a quantity that is inversely proportional to the beam
/// solid angle `bsa`, given its value `numerator / bsa`: refused outside the
/// sphere, degenerate at zero, and the quotient rounded down elsewhere.
pub open spec fn per_solid_angle(numerator: int, bsa: int) -> Result<int, SensorError> {
    if !in_sphere(bsa) {
        Err(SensorError::PreconditionViolation)
    } else if bsa == 0 {
        Err(SensorError::DegenerateInput)
    } else {
        Ok(numerator / bsa)
    }
}

/// Divides by a beam solid angle.
fn divide_by_solid_angle(numerator: i128, bsa: i128) -> (outcome: Result<i128, SensorError>)
    ensures
        realizes(outcome, per_solid_angle(numerator as int, bsa as int)),
{
    if bsa < 0 || bsa > FULL_SPHERE as i128 {
        Err(SensorError::PreconditionViolation)
    } else if bsa == 0 {
        Err(SensorError::DegenerateInput)
    } else {
        Ok(floor_div(numerator, bsa))
    }
}

/// The directivity `4π / Ω` of an antenna of beam solid angle `bsa`, in
/// parts per million.
pub open spec fn directivity_of(bsa: int) -> Result<int, SensorError> {
    per_solid_angle(FULL_SPHERE * MICRO, bsa)
}

/// The directivity `4π / Ω` of an antenna, in parts per million, from its
/// beam solid angle in units of 10⁻¹⁸ sr (what [`beam_solid_angle`] returns
/// for a power pattern in parts per million).
pub fn directivity(bsa: i128) -> (outcome: Result<i128, SensorError>)
    ensures
        realizes(outcome, directivity_of(bsa as int)),
        outcome matches Ok(d) ==> d >= MICRO,
{
    proof {
        if 0 < bsa <= FULL_SPHERE {
            lemma_directivity_bounds(bsa as int);
        }
    }
    assert(FULL_SPHERE * MICRO == 12_566_370_614_359_172_953_000_000) by (nonlinear_arith)
        requires
            FULL_SPHERE == 12_566_370_614_359_172_953,
            MICRO == 1_000_000,
    ;
    divide_by_solid_angle((FULL_SPHERE as i128) * (MICRO as i128), bsa)
}

/// The beam solid angle `Ω = ∫∫ P dΩ` of a power pattern, by
/// [`integrate_hemisphere`] on a raster of `step` microradians (0.01 rad
/// where none is given). For a pattern in parts per million the result is in
/// units of 10⁻¹⁸ sr.
pub fn beam_solid_angle<F: Fn(u32, u32) -> i32>(pattern: &F, step: Option<u32>) -> (outcome:
    Result<i128, SensorError>)
    requires
        accepts_hemisphere(pattern),
    ensures
        match outcome {
            Ok(bsa) => step != Some(0u32) && is_integral(pattern, step_of(step), bsa as int),
            Err(reason) => reason == SensorError::PreconditionViolation && step == Some(0u32),
        },
{
    integrate_hemisphere(pattern, step)
}

/// The antenna temperature `(1/Ω) ∫∫ Tb·P dΩ`: the brightness temperature
/// seen through the power pattern, in the unit of the brightness
/// temperature.
///
/// Both integrals are taken on the raster of `step` microradians (0.01 rad
/// where none is given); a step of zero is refused. The pattern is in parts
/// per million. Its integral, the beam solid angle, must lie in the sphere,
/// from nothing to 4π sr, or the pattern is refused, and must not vanish.
pub fn antenna_temp<T: Fn(u32, u32) -> i32, F: Fn(u32, u32) -> i32>(
    brightness: &T,
    pattern: &F,
    step: Option<u32>,
) -> (outcome: Result<i128, SensorError>)
    requires
        accepts_hemisphere(brightness),
        accepts_hemisphere(pattern),
    ensures
        step == Some(0u32) ==> outcome == Err::<i128, SensorError>(
            SensorError::PreconditionViolation,
        ),
        step != Some(0u32) ==> exists|seen: int, bsa: int|
            #![trigger per_solid_angle(seen, bsa)]
            is_weighted_integral(brightness, pattern, step_of(step), seen) && is_integral(
                pattern,
                step_of(step),
                bsa,
            ) && realizes(outcome, per_solid_angle(seen, bsa)),
{
    let bsa = match beam_solid_angle(pattern, step) {
        Ok(bsa) => bsa,
        Err(reason) => {
            return Err(reason);
        },
    };
    let seen = match integrate_hemisphere_weighted(brightness, pattern, step) {
        Ok(seen) => seen,
        Err(reason) => {
            return Err(reason);
        },
    };
    let outcome = divide_by_solid_angle(seen, bsa);
    assert(realizes(outcome, per_solid_angle(seen as int, bsa as int)));
    outcome
}

/// The forward gain `η · 4π / Ω` for an efficiency and a beam solid angle,
/// both gain and efficiency in parts per million; one quotient, rounded
/// down.
pub open spec fn gain_of(efficiency: int, bsa: int) -> Result<int, SensorError> {
    per_solid_angle(efficiency * FULL_SPHERE, bsa)
}

/// The forward gain `η · 4π / Ω` of an antenna, in parts per million, from
/// its efficiency and its power pattern, both in parts per million. The
/// beam solid angle is taken on the default raster.
///
/// The efficiency must be positive and at most one; it is tested before
/// the pattern is evaluated. The beam solid angle must lie in the sphere,
/// from nothing to 4π sr, or the pattern is refused, and must not vanish.
/// The gain returned is above zero.
pub fn forward_gain<F: Fn(u32, u32) -> i32>(efficiency: u32, pattern: &F) -> (outcome: Result<
    i128,
    SensorError,
>)
    requires
        accepts_hemisphere(pattern),
    ensures
        efficiency == 0 || efficiency > MICRO ==> outcome == Err::<i128, SensorError>(
            SensorError::PreconditionViolation,
        ),
        0 < efficiency <= MICRO ==> exists|bsa: int|
            #![trigger gain_of(efficiency as int, bsa)]
            is_integral(pattern, DEFAULT_STEP as int, bsa) && realizes(
                outcome,
                gain_of(efficiency as int, bsa),
            ),
        outcome matches Ok(gain) ==> gain > 0,
{
    if efficiency == 0 || efficiency > MICRO {
        return Err(SensorError::PreconditionViolation);
    }
    let bsa = match beam_solid_angle(pattern, None) {
        Ok(bsa) => bsa,
        Err(reason) => {
            return Err(reason);
        },
    };
    assert(FULL_SPHERE <= efficiency * FULL_SPHERE <= 1_000_000 * 12_566_370_614_359_172_953)
        by (nonlinear_arith)
        requires
            1 <= efficiency <= 1_000_000,
            FULL_SPHERE == 12_566_370_614_359_172_953,
    ;
    let outcome = divide_by_solid_angle((efficiency as i128) * (FULL_SPHERE as i128), bsa);
    proof {
        if 0 < bsa <= FULL_SPHERE {
            vstd::arithmetic::div_mod::lemma_div_is_ordered(
                bsa as int,
                efficiency * FULL_SPHERE,
                bsa as int,
            );
            vstd::arithmetic::div_mod::lemma_div_by_self(bsa as int);
        }
    }
    assert(realizes(outcome, gain_of(efficiency as int, bsa as int)));
    outcome
}

/// The effective area `λ² / Ω` for a wavelength and a beam solid angle in
/// units of 10⁻¹⁸ sr, in the square of the unit of the wavelength; rounded
/// down. An area is above zero: one that rounds to nothing is refused.
pub open spec fn area_of(wavelength: int, bsa: int) -> Result<int, SensorError> {
    match per_solid_angle(wavelength * wavelength * 1_000_000_000_000_000_000, bsa) {
        Ok(area) => if area <= 0 {
            Err(SensorError::PreconditionViolation)
        } else {
            Ok(area)
        },
        Err(reason) => Err(reason),
    }
}

/// The effective area `λ² / Ω` of an antenna from the wavelength and the
/// power pattern (in parts per million), in the square of the unit of the
/// wavelength. The beam solid angle is taken on the default raster.
///
/// The wavelength must be positive; it is tested before the pattern is
/// evaluated. The beam solid angle must lie in the sphere, from nothing to
/// 4π sr, or the pattern is refused, and must not vanish. The area
/// returned is above zero; one that rounds to nothing is refused: choose a
/// smaller unit for the wavelength.
pub fn effective_area<F: Fn(u32, u32) -> i32>(wavelength: u32, pattern: &F) -> (outcome: Result<
    i128,
    SensorError,
>)
    requires
        accepts_hemisphere(pattern),
    ensures
        wavelength == 0 ==> outcome == Err::<i128, SensorError>(
            SensorError::PreconditionViolation,
        ),
        wavelength > 0 ==> exists|bsa: int|
            #![trigger area_of(wavelength as int, bsa)]
            is_integral(pattern, DEFAULT_STEP as int, bsa) && realizes(
                outcome,
                area_of(wavelength as int, bsa),
            ),
        outcome matches Ok(area) ==> area > 0,
{
    if wavelength == 0 {
        return Err(SensorError::PreconditionViolation);
    }
    let bsa = match beam_solid_angle(pattern, None) {
        Ok(bsa) => bsa,
        Err(reason) => {
            return Err(reason);
        },
    };
    assert(0 < wavelength * wavelength <= 0xffff_ffff * 0xffff_ffff) by (nonlinear_arith)
        requires
            0 < wavelength <= 0xffff_ffff,
    ;
    let squared: i128 = (wavelength as i128) * (wavelength as i128);
    let outcome = match divide_by_solid_angle(squared * 1_000_000_000_000_000_000, bsa) {
        Ok(area) => if area <= 0 {
            Err(SensorError::PreconditionViolation)
        } else {
            Ok(area)
        },
        Err(reason) => Err(reason),
    };
    assert(realizes(outcome, area_of(wavelength as int, bsa as int)));
    outcome
}

/// A quotient of a nonnegative number by a positive one lies between zero
/// and the number.
proof fn lemma_quotient_bounds(numerator: int, denominator: int)
    requires
        numerator >= 0,
        denominator > 0,
    ensures
        0 <= numerator / denominator <= numerator,
{
    vstd::arithmetic::div_mod::lemma_div_pos_is_pos(numerator, denominator);
    vstd::arithmetic::div_mod::lemma_div_is_ordered_by_denominator(numerator, 1, denominator);
}

/// Within the sphere the directivity is at least one and at most the
/// number of units of solid angle in the sphere.
pub proof fn lemma_directivity_bounds(bsa: int)
    requires
        0 < bsa <= FULL_SPHERE,
    ensures
        directivity_of(bsa) is Ok,
        MICRO <= directivity_of(bsa)->Ok_0 <= FULL_SPHERE * MICRO,
        directivity_of(bsa)->Ok_0 == FULL_SPHERE * MICRO / bsa,
{
    let whole = FULL_SPHERE * MICRO;
    lemma_quotient_bounds(whole, bsa);
    vstd::arithmetic::div_mod::lemma_div_is_ordered(bsa * MICRO, whole, bsa);
    vstd::arithmetic::div_mod::lemma_div_multiples_vanish(MICRO as int, bsa);
    assert(bsa * MICRO <= whole) by (nonlinear_arith)
        requires
            0 < bsa <= FULL_SPHERE,
            whole == FULL_SPHERE * MICRO,
    ;
    assert(bsa * MICRO == MICRO * bsa) by (nonlinear_arith);
}

/// An antenna that looks at a scene of one brightness temperature measures
/// that temperature, whatever its power pattern: where the brightness is
/// `c` at every direction and the pattern returns one value at each, with a
/// beam solid angle in the sphere and not zero, the antenna temperature is
/// `c`, with nothing lost to rounding.
pub proof fn lemma_uniform_scene<T: Fn(u32, u32) -> i32, F: Fn(u32, u32) -> i32>(
    brightness: &T,
    pattern: &F,
    step: int,
    c: int,
    seen: int,
    bsa: int,
)
    requires
        step > 0,
        forall|zenith: u32, azimuth: u32, v: i32|
            call_ensures(brightness, (zenith, azimuth), v) ==> v == c,
        single_valued(pattern),
        is_weighted_integral(brightness, pattern, step, seen),
        is_integral(pattern, step, bsa),
        0 < bsa <= FULL_SPHERE,
    ensures
        per_solid_angle(seen, bsa) == Ok::<int, SensorError>(c),
{
    lemma_weighted_integral_of_constant(brightness, pattern, step, c, seen, bsa);
    vstd::arithmetic::div_mod::lemma_div_multiples_vanish(c, bsa);
    assert(c * bsa == bsa * c) by (nonlinear_arith);
}

} // verus!
