use vstd::prelude::*;
use crate::error::SensorError;
use crate::integrate::{
    accepts_hemisphere,
    columns,
    grid_product,
    grid_total,
    lemma_cells_bounds,
    lemma_grid_product_bound,
    lemma_raster_area,
    raster_shaped,
    raster_total,
    rows,
    samples,
    step_of,
    weighed_cell,
    DEFAULT_STEP,
};
use crate::units::{fits, floor_div, on_every_angle, realizes, FULL_TURN, MICRO, QUARTER_TURN};

verus! {

/// The speed of light in vacuum, in metres per second.
pub const C: u32 = 299_792_458;

/// The weight `cos θ · sin θ` of the radiance that arrives at the zenith
/// angle `θ`, in parts per million, from the sine and the cosine in parts
/// per million; rounded down.
pub open spec fn lambert_weight(sine: int, cosine: int) -> int {
    cosine * sine / (MICRO as int)
}

/// `weight` is a weight of a cell in row `i` of the raster: the weight that
/// a sine and a cosine of the zenith angle `i * step`, as the evaluators may
/// return them, give.
pub open spec fn weighed_at<S: Fn(u64) -> i32, K: Fn(u64) -> i32>(
    sine: &S,
    cosine: &K,
    step: int,
    i: int,
    weight: int,
) -> bool {
    exists|sin: i32, cos: i32|
        #![trigger lambert_weight(sin as int, cos as int)]
        {
            &&& call_ensures(sine, ((i * step) as u64,), sin)
            &&& call_ensures(cosine, ((i * step) as u64,), cos)
            &&& weight == lambert_weight(sin as int, cos as int)
        }
}

/// `weights` holds a weight for each cell of the raster of `step`.
pub open spec fn weighs<S: Fn(u64) -> i32, K: Fn(u64) -> i32>(
    sine: &S,
    cosine: &K,
    step: int,
    weights: Seq<Seq<int>>,
) -> bool {
    &&& raster_shaped(weights, step)
    &&& forall|i: int, j: int|
        0 <= i < rows(step) && 0 <= j < columns(step) ==> weighed_at(
            sine,
            cosine,
            step,
            i,
            #[trigger] weights[i][j],
        )
}

/// The irradiance that a grid of radiances and the weights of its cells
/// give on the raster of `step`: each radiance times `cos θ · sin θ` of its
/// zenith angle times the area `step²` of its cell, summed. A sum beyond
/// the widest machine integer, which no sine and cosine of magnitude at
/// most one give, is refused.
pub open spec fn irradiance_of(step: int, weights: Seq<Seq<int>>, grid: Seq<Seq<int>>) -> Result<
    int,
    SensorError,
> {
    if fits(step * step * grid_total(grid_product(grid, weights))) {
        Ok(step * step * grid_total(grid_product(grid, weights)))
    } else {
        Err(SensorError::PreconditionViolation)
    }
}

/// The irradiance that a radiance pattern gives on a surface (or, for the
/// outgoing radiance, the radiant exitance): the integral over the
/// hemisphere of the radiance weighted by `cos θ · sin θ` of the zenith
/// angle, by a left Riemann sum on a raster of `step` microradians (0.01 rad
/// where none is given).
///
/// `radiance` takes a zenith and an azimuth in microradians. `sine` and
/// `cosine` return the sine and the cosine, in parts per million, of an
/// angle in microradians. At the lower-left corner of each cell of the
/// raster, row by row, the radiance is taken, then the sine and the cosine
/// of the zenith. The result is in the unit of the radiance times 10⁻¹⁸ sr.
///
/// A step of zero is refused, and so is a sum beyond the widest machine
/// integer.
pub fn irradiance<F: Fn(u32, u32) -> i32, S: Fn(u64) -> i32, K: Fn(u64) -> i32>(
    radiance: &F,
    sine: &S,
    cosine: &K,
    step: Option<u32>,
) -> (outcome: Result<i128, SensorError>)
    requires
        accepts_hemisphere(radiance),
        on_every_angle(sine),
        on_every_angle(cosine),
    ensures
        step == Some(0u32) ==> outcome == Err::<i128, SensorError>(
            SensorError::PreconditionViolation,
        ),
        step != Some(0u32) ==> exists|weights: Seq<Seq<int>>, grid: Seq<Seq<int>>|
            #![trigger irradiance_of(step_of(step), weights, grid)]
            {
                &&& weighs(sine, cosine, step_of(step), weights)
                &&& samples(radiance, step_of(step), grid)
                &&& realizes(outcome, irradiance_of(step_of(step), weights, grid))
            },
{
    let s: u32 = match step {
        Some(s) => s,
        None => DEFAULT_STEP,
    };
    if s == 0 {
        return Err(SensorError::PreconditionViolation);
    }
    let lambert = |zenith: u32, azimuth: u32| -> (weight: i64)
        ensures
            exists|sin: i32, cos: i32|
                #![trigger lambert_weight(sin as int, cos as int)]
                {
                    &&& call_ensures(sine, (zenith as u64,), sin)
                    &&& call_ensures(cosine, (zenith as u64,), cos)
                    &&& weight == lambert_weight(sin as int, cos as int)
                },
            -0x800_0000_0000 <= weight <= 0x800_0000_0000,
        {
            let sin = sine(zenith as u64);
            let cos = cosine(zenith as u64);
            assert(-0x4000_0000_0000_0000 <= cos * sin <= 0x4000_0000_0000_0000)
                by (nonlinear_arith)
                requires
                    -0x8000_0000 <= cos <= 0x8000_0000,
                    -0x8000_0000 <= sin <= 0x8000_0000,
            ;
            let weight = floor_div((cos as i128) * (sin as i128), MICRO as i128);
            assert(weight == lambert_weight(sin as int, cos as int));
            weight as i64
        };
    let (sum, Ghost(grid), Ghost(weights)) = raster_total(
        radiance,
        &lambert,
        s,
        Ghost(0x800_0000_0000),
    );
    proof {
        lemma_cells_bounds(QUARTER_TURN as int, s as int);
        assert forall|i: int, j: int|
            0 <= i < rows(s as int) && 0 <= j < columns(s as int) implies weighed_at(
            sine,
            cosine,
            s as int,
            i,
            #[trigger] weights[i][j],
        ) by {
            assert(weighed_cell(&lambert, s as int, i, j, weights[i][j]));
            assert(0 <= i * s < QUARTER_TURN);
        }
        assert(weighs(sine, cosine, s as int, weights));
        assert(0 < s * s <= 0xffff_ffff * 0xffff_ffff) by (nonlinear_arith)
            requires
                0 < s <= 0xffff_ffff,
        ;
    }
    let cell: i128 = (s as i128) * (s as i128);
    let outcome = match cell.checked_mul(sum) {
        Some(value) => Ok(value),
        None => Err(SensorError::PreconditionViolation),
    };
    assert(step_of(step) == s as int);
    assert(realizes(outcome, irradiance_of(step_of(step), weights, grid)));
    outcome
}

/// With a sine and a cosine of magnitude at most one the irradiance is never
/// refused for its size: weights of magnitude at most one, on any grid of
/// samples, give a sum that fits.
pub proof fn lemma_irradiance_fits(step: int, weights: Seq<Seq<int>>, grid: Seq<Seq<int>>)
    requires
        0 < step <= u32::MAX,
        raster_shaped(weights, step),
        raster_shaped(grid, step),
        forall|i: int, j: int|
            0 <= i < rows(step) && 0 <= j < columns(step) ==> -MICRO <= #[trigger] weights[i][j]
                <= MICRO,
        forall|i: int, j: int|
            0 <= i < rows(step) && 0 <= j < columns(step) ==> i32::MIN <= #[trigger] grid[i][j]
                <= i32::MAX,
    ensures
        irradiance_of(step, weights, grid) == Ok::<int, SensorError>(
            step * step * grid_total(grid_product(grid, weights)),
        ),
{
    let n = rows(step);
    let m = columns(step);
    let bound = 0x8000_0000int;
    let limit = MICRO as int;
    lemma_raster_area(step);
    lemma_grid_product_bound(grid, weights, m, bound, limit);
    let sum = grid_total(grid_product(grid, weights));
    let area = n * m * step * step;
    assert(0 <= area <= 4_296_538_091 * 4_301_250_480) by (nonlinear_arith)
        requires
            0 <= area <= (1_570_797 + step - 1) * (6_283_186 + step - 1),
            0 < step <= 4_294_967_295,
    ;
    assert(-(area * (bound * limit)) <= step * step * sum <= area * (bound * limit))
        by (nonlinear_arith)
        requires
            area == n * m * step * step,
            -(n * (m * (bound * limit))) <= sum <= n * (m * (bound * limit)),
            step > 0,
    ;
    assert(area * (bound * limit) <= 4_296_538_091 * 4_301_250_480 * (0x8000_0000 * 1_000_000))
        by (nonlinear_arith)
        requires
            0 <= area <= 4_296_538_091 * 4_301_250_480,
            limit == 1_000_000,
            bound == 0x8000_0000,
    ;
}

} // verus!
