use vstd::prelude::*;
use crate::error::SensorError;
use crate::el_opt::tables::{Range, aster_ranges, modis_ranges, ocm_2_ranges};
use crate::units::{floor_div, on_every_angle, realizes, realizes_pair, FULL_TURN, MICRO};

pub mod tables;

verus! {

/// The instruments whose bands are tabulated.
#[derive(Clone, Copy, Debug, PartialEq, Eq, Structural)]
pub enum Instrument {
    Aster,
    Modis,
    Ocm2,
}

impl Instrument {
    /// The bands of the instrument, in the order in which they are tried.
    pub open spec fn ranges(self) -> Seq<Range> {
        match self {
            Instrument::Aster => aster_ranges(),
            Instrument::Modis => modis_ranges(),
            Instrument::Ocm2 => ocm_2_ranges(),
        }
    }

    /// The shortest wavelength the instrument is specified for, in
    /// picometres.
    pub open spec fn shortest(self) -> u64 {
        match self {
            Instrument::Aster => 520_000,
            Instrument::Modis => 405_000,
            Instrument::Ocm2 => 404_000,
        }
    }

    /// The longest wavelength the instrument is specified for, in
    /// picometres.
    pub open spec fn longest(self) -> u64 {
        match self {
            Instrument::Aster => 2_430_000,
            Instrument::Modis => 2_155_000,
            Instrument::Ocm2 => 885_000,
        }
    }

    /// Whether the wavelength lies in the interval the instrument is
    /// specified for.
    pub open spec fn supports(self, lambda: u64) -> bool {
        self.shortest() <= lambda <= self.longest()
    }

    /// The shortest wavelength the instrument is specified for, in
    /// picometres.
    pub fn min_wavelength(&self) -> (lambda: u64)
        ensures
            lambda == self.shortest(),
    {
        match self {
            Instrument::Aster => 520_000,
            Instrument::Modis => 405_000,
            Instrument::Ocm2 => 404_000,
        }
    }

    /// The longest wavelength the instrument is specified for, in
    /// picometres.
    pub fn max_wavelength(&self) -> (lambda: u64)
        ensures
            lambda == self.longest(),
    {
        match self {
            Instrument::Aster => 2_430_000,
            Instrument::Modis => 2_155_000,
            Instrument::Ocm2 => 885_000,
        }
    }
}

/// Position `k` holds the first band of `ranges` that covers the wavelength.
pub open spec fn is_first_cover(ranges: Seq<Range>, lambda: u64, k: int) -> bool {
    &&& 0 <= k < ranges.len()
    &&& ranges[k].covers(lambda)
    &&& forall|j: int| 0 <= j < k ==> !(#[trigger] ranges[j]).covers(lambda)
}

/// No band of `ranges` covers the wavelength.
pub open spec fn uncovered(ranges: Seq<Range>, lambda: u64) -> bool {
    forall|k: int| 0 <= k < ranges.len() ==> !(#[trigger] ranges[k]).covers(lambda)
}

/// What a scan of `ranges` in order yields for the wavelength: the number of
/// the first band that covers it, and nothing where no band does.
pub open spec fn scanned(ranges: Seq<Range>, lambda: u64, outcome: Result<u8, SensorError>) -> bool {
    &&& forall|k: int| #[trigger]
        is_first_cover(ranges, lambda, k) ==> outcome == Ok::<u8, SensorError>(ranges[k].index)
    &&& uncovered(ranges, lambda) ==> outcome == Err::<u8, SensorError>(SensorError::OutOfDomain)
}

/// What an instrument yields for the wavelength: outside the interval it is
/// specified for, and in the gaps between its bands, nothing; elsewhere the
/// number of its first band that covers the wavelength.
pub open spec fn classified(
    instrument: Instrument,
    lambda: u64,
    outcome: Result<u8, SensorError>,
) -> bool {
    if instrument.supports(lambda) {
        scanned(instrument.ranges(), lambda, outcome)
    } else {
        outcome == Err::<u8, SensorError>(SensorError::OutOfDomain)
    }
}

/// Scans the bands in order and returns the number of the first that covers
/// the wavelength (in picometres). Where two bands overlap or share a
/// boundary, the earlier one wins.
pub fn first_band(ranges: &[Range], lambda: u64) -> (outcome: Result<u8, SensorError>)
    ensures
        scanned(ranges@, lambda, outcome),
{
    let mut k: usize = 0;
    while k < ranges.len()
        invariant
            k <= ranges.len(),
            forall|j: int| 0 <= j < k ==> !(#[trigger] ranges@[j]).covers(lambda),
        decreases ranges.len() - k,
    {
        if ranges[k].contains(lambda) {
            assert(!uncovered(ranges@, lambda));
            return Ok(ranges[k].index);
        }
        k += 1;
    }
    Err(SensorError::OutOfDomain)
}

/// The band of `instrument` to which a wavelength in picometres belongs.
pub fn classify(instrument: Instrument, lambda: u64) -> (outcome: Result<u8, SensorError>)
    ensures
        classified(instrument, lambda, outcome),
{
    if lambda < instrument.min_wavelength() || lambda > instrument.max_wavelength() {
        return Err(SensorError::OutOfDomain);
    }
    match instrument {
        Instrument::Aster => {
            let table = tables::aster();
            first_band(table.as_slice(), lambda)
        },
        Instrument::Modis => {
            let table = tables::modis();
            first_band(table.as_slice(), lambda)
        },
        Instrument::Ocm2 => {
            let table = tables::ocm_2();
            first_band(table.as_slice(), lambda)
        },
    }
}

/// The ASTER band, from 1 to 9, of a wavelength in picometres.
pub fn aster(lambda: u64) -> (outcome: Result<u8, SensorError>)
    ensures
        classified(Instrument::Aster, lambda, outcome),
        outcome matches Ok(index) ==> 1 <= index <= 9,
{
    let outcome = classify(Instrument::Aster, lambda);
    proof {
        lemma_tables_well_formed(Instrument::Aster);
        lemma_classification_is_unique(Instrument::Aster, lambda, outcome, outcome);
    }
    outcome
}

/// The MODIS band, from 1 to 19, of a wavelength in picometres.
pub fn modis(lambda: u64) -> (outcome: Result<u8, SensorError>)
    ensures
        classified(Instrument::Modis, lambda, outcome),
        outcome matches Ok(index) ==> 1 <= index <= 19,
{
    let outcome = classify(Instrument::Modis, lambda);
    proof {
        lemma_tables_well_formed(Instrument::Modis);
        lemma_classification_is_unique(Instrument::Modis, lambda, outcome, outcome);
    }
    outcome
}

/// The OCM-2 band, from 1 to 8, of a wavelength in picometres.
pub fn ocm_2(lambda: u64) -> (outcome: Result<u8, SensorError>)
    ensures
        classified(Instrument::Ocm2, lambda, outcome),
        outcome matches Ok(index) ==> 1 <= index <= 8,
{
    let outcome = classify(Instrument::Ocm2, lambda);
    proof {
        lemma_tables_well_formed(Instrument::Ocm2);
        lemma_classification_is_unique(Instrument::Ocm2, lambda, outcome, outcome);
    }
    outcome
}

/// Every table lists well-formed bands, numbered from one in the order of
/// the table, none of them reaching beyond the longest wavelength the
/// instrument is specified for.
pub proof fn lemma_tables_well_formed(instrument: Instrument)
    ensures
        forall|k: int|
            #![trigger instrument.ranges()[k]]
            0 <= k < instrument.ranges().len() ==> {
                &&& instrument.ranges()[k].wf()
                &&& instrument.ranges()[k].index == k + 1
                &&& instrument.ranges()[k].ubound <= instrument.longest()
            },
{
}

/// Either no band among the first `n` covers the wavelength, or one of them
/// is the first to cover it.
proof fn lemma_first_cover_or_none(ranges: Seq<Range>, lambda: u64, n: int)
    requires
        0 <= n <= ranges.len(),
    ensures
        (forall|j: int| 0 <= j < n ==> !(#[trigger] ranges[j]).covers(lambda)) || (exists|k: int|
            k < n && #[trigger] is_first_cover(ranges, lambda, k)),
    decreases n,
{
    if n > 0 {
        lemma_first_cover_or_none(ranges, lambda, n - 1);
        if forall|j: int| 0 <= j < n - 1 ==> !(#[trigger] ranges[j]).covers(lambda) {
            if ranges[n - 1].covers(lambda) {
                assert(is_first_cover(ranges, lambda, n - 1));
            }
        }
    }
}

/// A wavelength has exactly one classification by a scan: the description of
/// a scan admits one outcome and no other.
pub proof fn lemma_scan_is_unique(
    ranges: Seq<Range>,
    lambda: u64,
    first: Result<u8, SensorError>,
    second: Result<u8, SensorError>,
)
    requires
        scanned(ranges, lambda, first),
        scanned(ranges, lambda, second),
    ensures
        first == second,
        match first {
            Ok(index) => exists|k: int| #[trigger]
                is_first_cover(ranges, lambda, k) && ranges[k].index == index,
            Err(reason) => reason == SensorError::OutOfDomain && uncovered(ranges, lambda),
        },
{
    lemma_first_cover_or_none(ranges, lambda, ranges.len() as int);
    if !uncovered(ranges, lambda) {
        let k = choose|k: int| k < ranges.len() && #[trigger] is_first_cover(ranges, lambda, k);
        assert(first == Ok::<u8, SensorError>(ranges[k].index));
    }
}

/// Every wavelength has exactly one classification by an instrument: a band
/// when the instrument supports the wavelength and one of its bands covers
/// it, and nothing otherwise.
pub proof fn lemma_classification_is_unique(
    instrument: Instrument,
    lambda: u64,
    first: Result<u8, SensorError>,
    second: Result<u8, SensorError>,
)
    requires
        classified(instrument, lambda, first),
        classified(instrument, lambda, second),
    ensures
        first == second,
        match first {
            Ok(index) => instrument.supports(lambda) && exists|k: int| #[trigger]
                is_first_cover(instrument.ranges(), lambda, k) && instrument.ranges()[k].index
                    == index,
            Err(reason) => reason == SensorError::OutOfDomain && (!instrument.supports(lambda)
                || uncovered(instrument.ranges(), lambda)),
        },
{
    if instrument.supports(lambda) {
        lemma_scan_is_unique(instrument.ranges(), lambda, first, second);
    }
}

/// The bands of OCM-2 are disjoint: no wavelength lies in two of them.
pub proof fn lemma_ocm_2_bands_are_disjoint(j: int, k: int, lambda: u64)
    requires
        0 <= j < k < ocm_2_ranges().len(),
    ensures
        !(ocm_2_ranges()[j].covers(lambda) && ocm_2_ranges()[k].covers(lambda)),
{
    assert(ocm_2_ranges()[j].ubound < ocm_2_ranges()[k].lbound);
}

/// Two bands of ASTER meet in at most one wavelength, a shared boundary:
/// bands 5 and 6 at 2.185 µm, bands 8 and 9 at 2.365 µm. The scan gives
/// each of the two to the lower band.
pub proof fn lemma_aster_bands_meet_only_at_boundaries(j: int, k: int, lambda: u64)
    requires
        0 <= j < k < aster_ranges().len(),
        aster_ranges()[j].covers(lambda),
        aster_ranges()[k].covers(lambda),
    ensures
        (j == 4 && k == 5 && lambda == 2_185_000) || (j == 7 && k == 8 && lambda == 2_365_000),
{
    assert(aster_ranges()[j].ubound >= aster_ranges()[k].lbound);
}

/// The pairs of MODIS bands that have a wavelength in common are 1 and 13,
/// 2 and 16, 4 and 12, 17 and 19, 18 and 19; all others are disjoint. The
/// scan gives the common wavelengths to the lower band of the pair.
pub proof fn lemma_modis_overlapping_bands(j: int, k: int, lambda: u64)
    requires
        0 <= j < k < modis_ranges().len(),
        modis_ranges()[j].covers(lambda),
        modis_ranges()[k].covers(lambda),
    ensures
        (j == 0 && k == 12) || (j == 1 && k == 15) || (j == 3 && k == 11) || (j == 16 && k == 18)
            || (j == 17 && k == 18),
{
    assert(modis_ranges()[j].ubound >= modis_ranges()[k].lbound);
    assert(modis_ranges()[k].ubound >= modis_ranges()[j].lbound);
}

/// Why two brightness temperatures, an atmospheric temperature (all in
/// millikelvin) and a viewing angle (in microradians) admit no split-window
/// retrieval, if they do not.
///
/// The angle must lie strictly between zero and a full turn, the
/// temperatures must be positive, and the two brightness temperatures must
/// lie on the same side of the atmospheric temperature. A brightness
/// temperature equal to the atmospheric one leaves the logarithm without an
/// argument.
pub open spec fn split_window_refusal(
    temp_b1: u32,
    temp_b2: u32,
    temp_a: u32,
    theta: u32,
) -> Option<SensorError> {
    if theta == 0 || theta >= FULL_TURN || temp_a == 0 || temp_b1 == 0 || temp_b2 == 0 || (temp_b2
        > temp_a) != (temp_b1 > temp_a) {
        Some(SensorError::PreconditionViolation)
    } else if temp_b1 == temp_a || temp_b2 == temp_a {
        Some(SensorError::DegenerateInput)
    } else {
        None
    }
}

/// The distance between a brightness temperature and the atmospheric one.
pub open spec fn gap(temp_b: u32, temp_a: u32) -> u64 {
    if temp_b >= temp_a {
        (temp_b - temp_a) as u64
    } else {
        (temp_a - temp_b) as u64
    }
}

/// The optical depth `τ = cos θ · ln((Tb2 - Ta) / (Tb1 - Ta))`, in millionths,
/// from the cosine in parts per million and the logarithm in millionths;
/// rounded down.
pub open spec fn optical_depth(cosine: int, logarithm: int) -> int {
    cosine * logarithm / (MICRO as int)
}

/// The quotient `(Tb1 + Ta · (1 - e^-τ)) / e^-τ`, in millikelvin, from the
/// attenuation `e^-τ` in parts per million; rounded down.
pub open spec fn surface_quotient(temp_b1: int, temp_a: int, attenuation: int) -> int {
    (temp_b1 * MICRO + temp_a * (MICRO - attenuation)) / attenuation
}

/// The surface temperature `(Tb1 + Ta · (1 - e^-τ)) / e^-τ`, in millikelvin,
/// from the attenuation `e^-τ` in parts per million; rounded down.
///
/// A surface temperature is above zero. An attenuation of zero leaves
/// nothing to divide by, and a quotient at or below zero, which an
/// attenuation above one can give, is no temperature: both are degenerate.
pub open spec fn surface_temperature(temp_b1: int, temp_a: int, attenuation: int) -> Result<
    int,
    SensorError,
> {
    if attenuation == 0 || surface_quotient(temp_b1, temp_a, attenuation) <= 0 {
        Err(SensorError::DegenerateInput)
    } else {
        Ok(surface_quotient(temp_b1, temp_a, attenuation))
    }
}

/// The surface temperature and the optical depth of a split-window
/// retrieval, from the values of the cosine, the logarithm and the
/// exponential that it asked for.
pub open spec fn split_window(
    temp_b1: int,
    temp_a: int,
    cosine: int,
    logarithm: int,
    attenuation: int,
) -> Result<(int, int), SensorError> {
    match surface_temperature(temp_b1, temp_a, attenuation) {
        Ok(surface) => Ok((surface, optical_depth(cosine, logarithm))),
        Err(reason) => Err(reason),
    }
}

/// The evaluators that a split-window retrieval needs may be called where it
/// calls them: the cosine at every angle, the logarithm at every ratio of
/// two positive numbers, the exponential everywhere.
pub open spec fn split_window_ready<C: Fn(u64) -> i32, L: Fn(u64, u64) -> i32, E: Fn(i64) -> u64>(
    cosine: &C,
    logarithm: &L,
    exponential: &E,
) -> bool {
    &&& on_every_angle(cosine)
    &&& forall|num: u64, den: u64| num > 0 && den > 0 ==> call_requires(logarithm, (num, den))
    &&& forall|x: i64| call_requires(exponential, (x,))
}

/// The distance between a brightness temperature and the atmospheric one.
fn gap_between(temp_b: u32, temp_a: u32) -> (distance: u64)
    ensures
        distance == gap(temp_b, temp_a),
{
    if temp_b >= temp_a {
        (temp_b - temp_a) as u64
    } else {
        (temp_a - temp_b) as u64
    }
}

/// Retrieves the surface temperature and the optical depth of the
/// atmosphere from two brightness temperatures measured through it, one
/// straight down and one at `theta` from the vertical, and from the
/// temperature of the atmosphere.
///
/// The optical depth is `τ = cos θ · ln((Tb2 - Ta) / (Tb1 - Ta))` and the
/// surface temperature `T = (Tb1 + Ta · (1 - e^-τ)) / e^-τ`. Temperatures are
/// in millikelvin, the angle in microradians, the optical depth in
/// millionths. The result is the pair `(T, τ)`.
///
/// `cosine` returns the cosine, in parts per million, of an angle in
/// microradians. `logarithm` returns the natural logarithm, in millionths,
/// of the ratio of its two arguments. `exponential` returns, in parts per
/// million, the exponential of its argument in millionths. They are asked,
/// in this order, for `cos θ`, for the logarithm of `|Tb2 - Ta| / |Tb1 -
/// Ta|` and for `e^-τ`, once the arguments have been found admissible.
///
/// The surface temperature returned is above zero. Where the attenuation
/// comes back as zero, or the quotient is at or below zero (an optical depth
/// below zero can take it there), the retrieval is degenerate.
pub fn surface_temp_tau<C: Fn(u64) -> i32, L: Fn(u64, u64) -> i32, E: Fn(i64) -> u64>(
    temp_b1: u32,
    temp_b2: u32,
    temp_a: u32,
    theta: u32,
    cosine: &C,
    logarithm: &L,
    exponential: &E,
) -> (outcome: Result<(i128, i128), SensorError>)
    requires
        split_window_ready(cosine, logarithm, exponential),
    ensures
        split_window_refusal(temp_b1, temp_b2, temp_a, theta) matches Some(reason) ==> outcome
            == Err::<(i128, i128), SensorError>(reason),
        split_window_refusal(temp_b1, temp_b2, temp_a, theta) is None ==> exists|
            cos: i32,
            ln: i32,
            att: u64,
        |
            #![trigger split_window(temp_b1 as int, temp_a as int, cos as int, ln as int, att as int)]
            {
                &&& call_ensures(cosine, (theta as u64,), cos)
                &&& call_ensures(logarithm, (gap(temp_b2, temp_a), gap(temp_b1, temp_a)), ln)
                &&& call_ensures(
                    exponential,
                    ((-optical_depth(cos as int, ln as int)) as i64,),
                    att,
                )
                &&& realizes_pair(
                    outcome,
                    split_window(temp_b1 as int, temp_a as int, cos as int, ln as int, att as int),
                )
            },
        outcome matches Ok(pair) ==> pair.0 > 0,
{
    if theta == 0 || theta >= FULL_TURN || temp_a == 0 || temp_b1 == 0 || temp_b2 == 0 {
        return Err(SensorError::PreconditionViolation);
    }
    if (temp_b2 > temp_a) != (temp_b1 > temp_a) {
        return Err(SensorError::PreconditionViolation);
    }
    if temp_b1 == temp_a || temp_b2 == temp_a {
        return Err(SensorError::DegenerateInput);
    }
    let cos = cosine(theta as u64);
    let ln = logarithm(gap_between(temp_b2, temp_a), gap_between(temp_b1, temp_a));
    assert(-0x4000_0000_0000_0000 <= cos * ln <= 0x4000_0000_0000_0000) by (nonlinear_arith)
        requires
            -0x8000_0000 <= cos <= 0x8000_0000,
            -0x8000_0000 <= ln <= 0x8000_0000,
    ;
    let tau: i128 = floor_div((cos as i128) * (ln as i128), MICRO as i128);
    assert(tau == optical_depth(cos as int, ln as int));
    let att = exponential((-tau) as i64);
    let outcome = match surface_temp_at(temp_b1, temp_a, att) {
        Ok(surface) => Ok((surface, tau)),
        Err(reason) => Err(reason),
    };
    assert(realizes_pair(
        outcome,
        split_window(temp_b1 as int, temp_a as int, cos as int, ln as int, att as int),
    ));
    outcome
}

/// The surface temperature `(Tb1 + Ta · (1 - e^-τ)) / e^-τ`, in millikelvin,
/// from the brightness temperature seen straight down, the temperature of
/// the atmosphere and the attenuation `e^-τ` in parts per million.
///
/// The temperature returned is above zero: an attenuation of zero, and a
/// quotient at or below zero, are degenerate.
pub fn surface_temp_at(temp_b1: u32, temp_a: u32, attenuation: u64) -> (outcome: Result<
    i128,
    SensorError,
>)
    ensures
        realizes(outcome, surface_temperature(temp_b1 as int, temp_a as int, attenuation as int)),
        outcome matches Ok(surface) ==> surface > 0,
{
    if attenuation == 0 {
        return Err(SensorError::DegenerateInput);
    }
    let rest: i128 = MICRO as i128 - attenuation as i128;
    assert(-0x1_0000_0000_0000_0000_0000_0000 <= temp_a * rest <= 0x1_0000_0000_0000_0000_0000_0000)
        by (nonlinear_arith)
        requires
            0 <= temp_a <= 0x1_0000_0000,
            -0x1_0000_0000_0000_0000 <= rest <= 0x1_0000_0000_0000_0000,
    ;
    let numerator: i128 = (temp_b1 as i128) * (MICRO as i128) + (temp_a as i128) * rest;
    let surface = floor_div(numerator, attenuation as i128);
    if surface <= 0 {
        return Err(SensorError::DegenerateInput);
    }
    Ok(surface)
}

/// Retrieves the surface temperature as [`surface_temp_tau`] does, without
/// the optical depth.
pub fn surface_temp<C: Fn(u64) -> i32, L: Fn(u64, u64) -> i32, E: Fn(i64) -> u64>(
    temp_b1: u32,
    temp_b2: u32,
    temp_a: u32,
    theta: u32,
    cosine: &C,
    logarithm: &L,
    exponential: &E,
) -> (outcome: Result<i128, SensorError>)
    requires
        split_window_ready(cosine, logarithm, exponential),
    ensures
        split_window_refusal(temp_b1, temp_b2, temp_a, theta) matches Some(reason) ==> outcome
            == Err::<i128, SensorError>(reason),
        split_window_refusal(temp_b1, temp_b2, temp_a, theta) is None ==> exists|
            cos: i32,
            ln: i32,
            att: u64,
        |
            #![trigger split_window(temp_b1 as int, temp_a as int, cos as int, ln as int, att as int)]
            {
                &&& call_ensures(cosine, (theta as u64,), cos)
                &&& call_ensures(logarithm, (gap(temp_b2, temp_a), gap(temp_b1, temp_a)), ln)
                &&& call_ensures(
                    exponential,
                    ((-optical_depth(cos as int, ln as int)) as i64,),
                    att,
                )
                &&& realizes(
                    outcome,
                    surface_temperature(temp_b1 as int, temp_a as int, att as int),
                )
            },
        outcome matches Ok(surface) ==> surface > 0,
{
    let both = surface_temp_tau(temp_b1, temp_b2, temp_a, theta, cosine, logarithm, exponential);
    proof {
        if split_window_refusal(temp_b1, temp_b2, temp_a, theta) is None {
            let (cos, ln, att) = choose|cos: i32, ln: i32, att: u64|
                #![trigger split_window(temp_b1 as int, temp_a as int, cos as int, ln as int, att as int)]
                {
                    &&& call_ensures(cosine, (theta as u64,), cos)
                    &&& call_ensures(logarithm, (gap(temp_b2, temp_a), gap(temp_b1, temp_a)), ln)
                    &&& call_ensures(
                        exponential,
                        ((-optical_depth(cos as int, ln as int)) as i64,),
                        att,
                    )
                    &&& realizes_pair(
                        both,
                        split_window(
                            temp_b1 as int,
                            temp_a as int,
                            cos as int,
                            ln as int,
                            att as int,
                        ),
                    )
                };
            assert(realizes(
                match both {
                    Ok((surface, _)) => Ok::<i128, SensorError>(surface),
                    Err(reason) => Err::<i128, SensorError>(reason),
                },
                surface_temperature(temp_b1 as int, temp_a as int, att as int),
            ));
        }
    }
    match both {
        Ok((surface, _)) => Ok(surface),
        Err(reason) => Err(reason),
    }
}

/// The retrieval succeeds wherever the atmosphere attenuates: for a positive
/// brightness temperature and an attenuation of at most one the quotient is
/// above zero, and is the surface temperature. An attenuation above one,
/// which an optical depth below zero gives, can take the quotient to zero or
/// below, where the retrieval is degenerate.
pub proof fn lemma_surface_temperature_where_attenuated(
    temp_b1: int,
    temp_a: int,
    attenuation: int,
)
    requires
        temp_b1 > 0,
        temp_a >= 0,
        0 < attenuation <= MICRO,
    ensures
        surface_temperature(temp_b1, temp_a, attenuation) == Ok::<int, SensorError>(
            surface_quotient(temp_b1, temp_a, attenuation),
        ),
        surface_quotient(temp_b1, temp_a, attenuation) > 0,
{
    let numerator = temp_b1 * MICRO + temp_a * (MICRO - attenuation);
    assert(numerator >= attenuation) by (nonlinear_arith)
        requires
            numerator == temp_b1 * MICRO + temp_a * (MICRO - attenuation),
            temp_b1 >= 1,
            temp_a >= 0,
            0 < attenuation <= MICRO,
    ;
    vstd::arithmetic::div_mod::lemma_div_is_ordered(attenuation, numerator, attenuation);
    vstd::arithmetic::div_mod::lemma_div_by_self(attenuation);
}

/// A surface temperature is above zero: the retrieval returns nothing else.
pub proof fn lemma_surface_temperature_is_positive(temp_b1: int, temp_a: int, attenuation: int)
    ensures
        surface_temperature(temp_b1, temp_a, attenuation) matches Ok(surface) ==> surface > 0,
        forall|cosine: int, logarithm: int|
            #[trigger] split_window(temp_b1, temp_a, cosine, logarithm, attenuation) matches Ok(
                pair,
            ) ==> pair.0 > 0,
{
}

/// What the retrieval makes of a brightness temperature that the forward
/// model `Tb1 = T · e^-τ + Ta · (1 - e^-τ)` produced from a surface
/// temperature `T`: its quotient is `T` plus `2 · Ta · (1 - e^-τ) / e^-τ`,
/// rounded down. It recovers `T` itself where the attenuation is one, that
/// is at an optical depth of zero.
pub proof fn lemma_surface_temperature_of_forward_model(
    surface: int,
    temp_b1: int,
    temp_a: int,
    attenuation: int,
)
    requires
        attenuation > 0,
        temp_b1 * MICRO == surface * attenuation + temp_a * (MICRO - attenuation),
    ensures
        surface_quotient(temp_b1, temp_a, attenuation) == surface + 2 * temp_a * (MICRO
            - attenuation) / attenuation,
        attenuation == MICRO && surface > 0 ==> surface_temperature(temp_b1, temp_a, attenuation)
            == Ok::<int, SensorError>(surface),
{
    let excess = 2 * temp_a * (MICRO - attenuation);
    let numerator = temp_b1 * MICRO + temp_a * (MICRO - attenuation);
    assert(numerator == excess + surface * attenuation) by (nonlinear_arith)
        requires
            numerator == temp_b1 * MICRO + temp_a * (MICRO - attenuation),
            temp_b1 * MICRO == surface * attenuation + temp_a * (MICRO - attenuation),
            excess == 2 * temp_a * (MICRO - attenuation),
    ;
    vstd::arithmetic::div_mod::lemma_hoist_over_denominator(excess, surface, attenuation as nat);
    if attenuation == MICRO {
        assert(excess == 0) by (nonlinear_arith)
            requires
                excess == 2 * temp_a * (MICRO - attenuation),
                attenuation == MICRO,
        ;
    }
}

} // verus!
