use vstd::prelude::*;
use crate::error::SensorError;
use crate::units::{QUARTER_TURN, FULL_TURN};

verus! {

/// The step of the raster where none is given: 0.01 rad.
pub const DEFAULT_STEP: u32 = 10_000;

/// The step that an optional argument stands for.
pub open spec fn step_of(step: Option<u32>) -> int {
    match step {
        Some(s) => s as int,
        None => DEFAULT_STEP as int,
    }
}

/// How many multiples of `step`, counted from zero, lie below `limit`.
pub open spec fn cells(limit: int, step: int) -> int {
    (limit + step - 1) / step
}

/// The number of zenith angles of the raster: the multiples of `step` below
/// a quarter turn.
pub open spec fn rows(step: int) -> int {
    cells(QUARTER_TURN as int, step)
}

/// The number of azimuth angles of the raster: the multiples of `step` below
/// a full turn.
pub open spec fn columns(step: int) -> int {
    cells(FULL_TURN as int, step)
}

/// The sum of the terms of a sequence.
pub open spec fn total(values: Seq<int>) -> int
    decreases values.len(),
{
    if values.len() == 0 {
        0
    } else {
        total(values.drop_last()) + values.last()
    }
}

/// The sum of all entries of a grid, given row by row.
pub open spec fn grid_total(grid: Seq<Seq<int>>) -> int
    decreases grid.len(),
{
    if grid.len() == 0 {
        0
    } else {
        grid_total(grid.drop_last()) + total(grid.last())
    }
}

/// The term-wise products of two sequences of the same length.
pub open spec fn row_product(left: Seq<int>, right: Seq<int>) -> Seq<int> {
    Seq::new(left.len(), |j: int| left[j] * right[j])
}

/// The entry-wise products of two grids of the same shape.
pub open spec fn grid_product(left: Seq<Seq<int>>, right: Seq<Seq<int>>) -> Seq<Seq<int>> {
    Seq::new(left.len(), |i: int| row_product(left[i], right[i]))
}

/// `grid` has the shape of the raster of `step`: a row for each zenith
/// angle, and in each row an entry for each azimuth angle.
pub open spec fn raster_shaped(grid: Seq<Seq<int>>, step: int) -> bool {
    &&& grid.len() == rows(step)
    &&& forall|i: int| 0 <= i < grid.len() ==> (#[trigger] grid[i]).len() == columns(step)
}

/// `value` is what `f` may return at the lower-left corner of cell
/// `(i, j)` of the raster.
pub open spec fn sampled_at<F: Fn(u32, u32) -> i32>(
    f: &F,
    step: int,
    i: int,
    j: int,
    value: int,
) -> bool {
    &&& i32::MIN <= value <= i32::MAX
    &&& call_ensures(f, ((i * step) as u32, (j * step) as u32), value as i32)
}

/// `grid` holds, for each cell of the raster of `step`, a value of `f` at the
/// lower-left corner of the cell: entry `(i, j)` is a value at zenith
/// `i * step` and azimuth `j * step`.
pub open spec fn samples<F: Fn(u32, u32) -> i32>(f: &F, step: int, grid: Seq<Seq<int>>) -> bool {
    &&& raster_shaped(grid, step)
    &&& forall|i: int, j: int|
        0 <= i < rows(step) && 0 <= j < columns(step) ==> sampled_at(f, step, i, j, #[trigger] grid[i][j])
}

/// `value` is the left Riemann sum of `f` over the hemisphere (zenith below
/// a quarter turn, azimuth below a full turn) on the raster of `step`: each
/// cell contributes the value at its lower-left corner times `step²`.
pub open spec fn is_integral<F: Fn(u32, u32) -> i32>(f: &F, step: int, value: int) -> bool {
    exists|grid: Seq<Seq<int>>| #[trigger]
        samples(f, step, grid) && value == step * step * grid_total(grid)
}

/// `value` is the left Riemann sum of the product of `f` and `g` over the
/// hemisphere on the raster of `step`.
pub open spec fn is_weighted_integral<F: Fn(u32, u32) -> i32, G: Fn(u32, u32) -> i32>(
    f: &F,
    g: &G,
    step: int,
    value: int,
) -> bool {
    exists|left: Seq<Seq<int>>, right: Seq<Seq<int>>| #[trigger]
        samples(f, step, left) && #[trigger] samples(g, step, right) && value == step * step
            * grid_total(grid_product(left, right))
}

/// `f` may be called at every direction of the hemisphere.
pub open spec fn accepts_hemisphere<F: Fn(u32, u32) -> i32>(f: &F) -> bool {
    forall|zenith: u32, azimuth: u32|
        zenith < QUARTER_TURN && azimuth < FULL_TURN ==> call_requires(f, (zenith, azimuth))
}

/// The multiples of `step` below `limit` are those with a factor below
/// `cells(limit, step)`.
pub proof fn lemma_cells_bounds(limit: int, step: int)
    requires
        step > 0,
        limit > 0,
    ensures
        cells(limit, step) >= 1,
        (cells(limit, step) - 1) * step < limit <= cells(limit, step) * step,
        forall|i: int| 0 <= i < cells(limit, step) ==> 0 <= #[trigger] (i * step) < limit,
{
    let n = cells(limit, step);
    let x = limit + step - 1;
    vstd::arithmetic::div_mod::lemma_fundamental_div_mod(x, step);
    vstd::arithmetic::div_mod::lemma_mod_bound(x, step);
    assert(x == step * n + x % step);
    assert((n - 1) * step < limit <= n * step) by (nonlinear_arith)
        requires
            x == step * n + x % step,
            0 <= x % step < step,
            x == limit + step - 1,
    ;
    assert(n >= 1) by (nonlinear_arith)
        requires
            limit <= n * step,
            limit > 0,
            step > 0,
    ;
    assert forall|i: int| 0 <= i < n implies 0 <= #[trigger] (i * step) < limit by {
        assert(0 <= i * step <= (n - 1) * step) by (nonlinear_arith)
            requires
                0 <= i <= n - 1,
                step > 0,
        ;
    }
}

/// Appending a term adds it to the sum.
proof fn lemma_total_push(values: Seq<int>, value: int)
    ensures
        total(values.push(value)) == total(values) + value,
{
    assert(values.push(value).drop_last() =~= values);
}

/// Appending a row adds its sum to the sum of the grid.
proof fn lemma_grid_total_push(grid: Seq<Seq<int>>, row: Seq<int>)
    ensures
        grid_total(grid.push(row)) == grid_total(grid) + total(row),
{
    assert(grid.push(row).drop_last() =~= grid);
}

/// A sum of `n` terms of magnitude at most `bound` has magnitude at most
/// `n * bound`.
pub(crate) proof fn lemma_total_bound(values: Seq<int>, bound: int)
    requires
        bound >= 0,
        forall|j: int| 0 <= j < values.len() ==> -bound <= #[trigger] values[j] <= bound,
    ensures
        -(values.len() * bound) <= total(values) <= values.len() * bound,
    decreases values.len(),
{
    if values.len() > 0 {
        lemma_total_bound(values.drop_last(), bound);
        assert(-bound <= values.last() <= bound);
        assert(values.len() * bound == (values.len() - 1) * bound + bound) by (nonlinear_arith);
    }
}

/// The raster covers the hemisphere and overshoots it by less than one step
/// on each axis, so the area it sums over exceeds that of the hemisphere by
/// less than `(QUARTER_TURN + FULL_TURN) * step + step * step`.
pub proof fn lemma_raster_area(step: int)
    requires
        step > 0,
    ensures
        rows(step) >= 1,
        columns(step) >= 1,
        QUARTER_TURN * FULL_TURN <= rows(step) * columns(step) * step * step,
        rows(step) * columns(step) * step * step <= (QUARTER_TURN + step - 1) * (FULL_TURN + step
            - 1),
{
    let n = rows(step);
    let m = columns(step);
    lemma_cells_bounds(QUARTER_TURN as int, step);
    lemma_cells_bounds(FULL_TURN as int, step);
    let height = n * step;
    let width = m * step;
    assert(QUARTER_TURN <= height <= QUARTER_TURN + step - 1) by (nonlinear_arith)
        requires
            (n - 1) * step < QUARTER_TURN <= n * step,
            height == n * step,
    ;
    assert(FULL_TURN <= width <= FULL_TURN + step - 1) by (nonlinear_arith)
        requires
            (m - 1) * step < FULL_TURN <= m * step,
            width == m * step,
    ;
    assert(n * m * step * step == height * width) by (nonlinear_arith)
        requires
            height == n * step,
            width == m * step,
    ;
    assert(QUARTER_TURN * FULL_TURN <= height * width) by (nonlinear_arith)
        requires
            0 <= QUARTER_TURN <= height,
            0 <= FULL_TURN <= width,
    ;
    assert(height * width <= (QUARTER_TURN + step - 1) * (FULL_TURN + step - 1))
        by (nonlinear_arith)
        requires
            0 <= height <= QUARTER_TURN + step - 1,
            0 <= width <= FULL_TURN + step - 1,
    ;
}

/// A sequence of `m` terms that all equal `c` sums to `m * c`.
proof fn lemma_total_of_constant(values: Seq<int>, c: int)
    requires
        forall|j: int| 0 <= j < values.len() ==> #[trigger] values[j] == c,
    ensures
        total(values) == values.len() * c,
    decreases values.len(),
{
    if values.len() > 0 {
        lemma_total_of_constant(values.drop_last(), c);
        assert(values.last() == c);
        assert(values.len() * c == (values.len() - 1) * c + c) by (nonlinear_arith);
    } else {
        assert(values.len() * c == 0) by (nonlinear_arith)
            requires
                values.len() == 0,
        ;
    }
}

/// A grid of `n` rows of `m` entries that all equal `c` sums to `n * m * c`.
proof fn lemma_grid_total_of_constant(grid: Seq<Seq<int>>, m: int, c: int)
    requires
        m >= 0,
        forall|i: int| 0 <= i < grid.len() ==> (#[trigger] grid[i]).len() == m,
        forall|i: int, j: int| 0 <= i < grid.len() && 0 <= j < m ==> #[trigger] grid[i][j] == c,
    ensures
        grid_total(grid) == grid.len() * m * c,
    decreases grid.len(),
{
    if grid.len() > 0 {
        lemma_grid_total_of_constant(grid.drop_last(), m, c);
        let row = grid.last();
        assert(row == grid[grid.len() - 1]);
        assert forall|j: int| 0 <= j < row.len() implies #[trigger] row[j] == c by {
            assert(row[j] == grid[grid.len() - 1][j]);
        }
        lemma_total_of_constant(row, c);
        let rest = grid.len() - 1;
        assert(grid.drop_last().len() == rest);
        assert(row.len() == m);
        assert(grid_total(grid) == rest * m * c + m * c);
        assert(grid.len() * m * c == rest * m * c + m * c) by (nonlinear_arith)
            requires
                grid.len() == rest + 1,
        ;
    } else {
        assert(grid.len() * m * c == 0) by (nonlinear_arith)
            requires
                grid.len() == 0,
        ;
    }
}

/// The integral of a constant converges to the constant times the area of
/// the hemisphere in the angles, a quarter turn by a full turn, as the step
/// shrinks.
///
/// Where `f` returns `c` at every direction, its integral on the raster of
/// `step` is `c` times the area that the raster covers. For `c >= 0` that
/// lies between `c * QUARTER_TURN * FULL_TURN` and `c * (QUARTER_TURN +
/// step - 1) * (FULL_TURN + step - 1)`: the excess of the left-corner rule
/// is of the order of the step.
pub proof fn lemma_integral_of_constant<F: Fn(u32, u32) -> i32>(
    f: &F,
    step: int,
    c: int,
    value: int,
)
    requires
        step > 0,
        forall|zenith: u32, azimuth: u32, v: i32|
            call_ensures(f, (zenith, azimuth), v) ==> v == c,
        is_integral(f, step, value),
    ensures
        value == c * (rows(step) * columns(step) * step * step),
        c >= 0 ==> c * (QUARTER_TURN * FULL_TURN) <= value <= c * ((QUARTER_TURN + step - 1) * (
            FULL_TURN + step - 1)),
{
    let grid = choose|grid: Seq<Seq<int>>| #[trigger]
        samples(f, step, grid) && value == step * step * grid_total(grid);
    let n = rows(step);
    let m = columns(step);
    lemma_raster_area(step);
    assert forall|i: int, j: int| 0 <= i < grid.len() && 0 <= j < m implies #[trigger] grid[i][j]
        == c by {
        assert(sampled_at(f, step, i, j, grid[i][j]));
    }
    lemma_grid_total_of_constant(grid, m, c);
    let area = n * m * step * step;
    assert(step * step * (n * m * c) == c * area) by (nonlinear_arith)
        requires
            area == n * m * step * step,
    ;
    if c >= 0 {
        assert(c * (QUARTER_TURN * FULL_TURN) <= c * area <= c * ((QUARTER_TURN + step - 1) * (
            FULL_TURN + step - 1))) by (nonlinear_arith)
            requires
                c >= 0,
                QUARTER_TURN * FULL_TURN <= area <= (QUARTER_TURN + step - 1) * (FULL_TURN + step
                    - 1),
        ;
    }
}

/// The products of a constant sequence with another sum to the constant
/// times the sum of the other.
proof fn lemma_total_of_scaled(left: Seq<int>, right: Seq<int>, c: int)
    requires
        left.len() == right.len(),
        forall|j: int| 0 <= j < left.len() ==> #[trigger] left[j] == c,
    ensures
        total(row_product(left, right)) == c * total(right),
    decreases left.len(),
{
    let products = row_product(left, right);
    if left.len() > 0 {
        lemma_total_of_scaled(left.drop_last(), right.drop_last(), c);
        assert(products.drop_last() =~= row_product(left.drop_last(), right.drop_last()));
        assert(products.last() == left.last() * right.last());
        assert(left.last() == c);
        assert(c * (total(right.drop_last()) + right.last()) == c * total(right.drop_last()) + c
            * right.last()) by (nonlinear_arith);
    } else {
        assert(c * total(right) == 0) by (nonlinear_arith)
            requires
                total(right) == 0,
        ;
    }
}

/// The products of a constant grid with another sum to the constant times
/// the sum of the other.
proof fn lemma_grid_total_of_scaled(left: Seq<Seq<int>>, right: Seq<Seq<int>>, c: int)
    requires
        left.len() == right.len(),
        forall|i: int| 0 <= i < left.len() ==> (#[trigger] left[i]).len() == right[i].len(),
        forall|i: int, j: int|
            0 <= i < left.len() && 0 <= j < left[i].len() ==> #[trigger] left[i][j] == c,
    ensures
        grid_total(grid_product(left, right)) == c * grid_total(right),
    decreases left.len(),
{
    let products = grid_product(left, right);
    if left.len() > 0 {
        lemma_grid_total_of_scaled(left.drop_last(), right.drop_last(), c);
        assert(products.drop_last() =~= grid_product(left.drop_last(), right.drop_last()));
        let last = left.len() - 1;
        assert(products.last() == row_product(left[last], right[last]));
        assert forall|j: int| 0 <= j < left[last].len() implies #[trigger] left[last][j] == c by {}
        lemma_total_of_scaled(left[last], right[last], c);
        assert(right.last() == right[last]);
        assert(c * (grid_total(right.drop_last()) + total(right[last])) == c * grid_total(
            right.drop_last(),
        ) + c * total(right[last])) by (nonlinear_arith);
    } else {
        assert(c * grid_total(right) == 0) by (nonlinear_arith)
            requires
                grid_total(right) == 0,
        ;
    }
}

/// `f` returns one value at each direction: whatever it may return at a
/// direction, it may return nothing else there.
pub open spec fn single_valued<F: Fn(u32, u32) -> i32>(f: &F) -> bool {
    forall|zenith: u32, azimuth: u32, v: i32, w: i32|
        call_ensures(f, (zenith, azimuth), v) && call_ensures(f, (zenith, azimuth), w) ==> v == w
}

/// Weighting by a constant scales the integral: where `f` returns `c` at
/// every direction and `g` returns one value at each, the integral of their
/// product is `c` times the integral of `g`.
pub proof fn lemma_weighted_integral_of_constant<F: Fn(u32, u32) -> i32, G: Fn(u32, u32) -> i32>(
    f: &F,
    g: &G,
    step: int,
    c: int,
    weighted: int,
    plain: int,
)
    requires
        step > 0,
        forall|zenith: u32, azimuth: u32, v: i32|
            call_ensures(f, (zenith, azimuth), v) ==> v == c,
        single_valued(g),
        is_weighted_integral(f, g, step, weighted),
        is_integral(g, step, plain),
    ensures
        weighted == c * plain,
{
    let (left, right) = choose|left: Seq<Seq<int>>, right: Seq<Seq<int>>| #[trigger]
        samples(f, step, left) && #[trigger] samples(g, step, right) && weighted == step * step
            * grid_total(grid_product(left, right));
    let grid = choose|grid: Seq<Seq<int>>| #[trigger]
        samples(g, step, grid) && plain == step * step * grid_total(grid);
    assert forall|i: int, j: int| 0 <= i < left.len() && 0 <= j < left[i].len() implies #[trigger] left[i][j]
        == c by {
        assert(sampled_at(f, step, i, j, left[i][j]));
    }
    assert forall|i: int| 0 <= i < right.len() implies #[trigger] right[i] =~= grid[i] by {
        assert forall|j: int| 0 <= j < right[i].len() implies right[i][j] == grid[i][j] by {
            assert(sampled_at(g, step, i, j, right[i][j]));
            assert(sampled_at(g, step, i, j, grid[i][j]));
        }
    }
    assert(right =~= grid);
    lemma_grid_total_of_scaled(left, right, c);
    let sum = grid_total(right);
    assert(step * step * (c * sum) == c * (step * step * sum)) by (nonlinear_arith);
}

/// `g` may be called at every direction of the hemisphere and returns
/// weights of magnitude at most `bound`.
pub(crate) open spec fn weighs_hemisphere<G: Fn(u32, u32) -> i64>(g: &G, bound: int) -> bool {
    &&& forall|zenith: u32, azimuth: u32|
        zenith < QUARTER_TURN && azimuth < FULL_TURN ==> call_requires(g, (zenith, azimuth))
    &&& forall|zenith: u32, azimuth: u32, weight: i64|
        call_ensures(g, (zenith, azimuth), weight) ==> -bound <= weight <= bound
}

/// `weight` is what `g` may return at the lower-left corner of cell `(i, j)`
/// of the raster.
pub(crate) open spec fn weighed_cell<G: Fn(u32, u32) -> i64>(
    g: &G,
    step: int,
    i: int,
    j: int,
    weight: int,
) -> bool {
    &&& i64::MIN <= weight <= i64::MAX
    &&& call_ensures(g, ((i * step) as u32, (j * step) as u32), weight as i64)
}

/// Sums the products of the values of `f` and the weights of `g` along one
/// row of the raster: at the given zenith and at every azimuth of the
/// raster.
fn row_total<F: Fn(u32, u32) -> i32, G: Fn(u32, u32) -> i64>(
    f: &F,
    g: &G,
    i: Ghost<int>,
    zenith: u32,
    step: u32,
    Ghost(bound): Ghost<int>,
) -> (out: (i128, Ghost<Seq<int>>, Ghost<Seq<int>>))
    requires
        accepts_hemisphere(f),
        weighs_hemisphere(g, bound),
        0 <= bound <= 0x800_0000_0000,
        step > 0,
        zenith < QUARTER_TURN,
        zenith == i@ * step,
    ensures
        out.0 == total(row_product(out.1@, out.2@)),
        out.1@.len() == columns(step as int),
        out.2@.len() == columns(step as int),
        forall|j: int|
            0 <= j < columns(step as int) ==> sampled_at(f, step as int, i@, j, #[trigger] out.1@[j]),
        forall|j: int|
            0 <= j < columns(step as int) ==> weighed_cell(g, step as int, i@, j, #[trigger] out.2@[j]),
        -(columns(step as int) * (0x8000_0000 * bound)) <= out.0 <= columns(step as int) * (
            0x8000_0000 * bound),
{
    let ghost m = columns(step as int);
    let ghost cell = 0x8000_0000 * bound;
    let mut sum: i128 = 0;
    let mut azimuth: u64 = 0;
    let ghost mut j: int = 0;
    let ghost mut left: Seq<int> = Seq::empty();
    let ghost mut right: Seq<int> = Seq::empty();
    proof {
        lemma_cells_bounds(FULL_TURN as int, step as int);
        assert(m <= FULL_TURN) by (nonlinear_arith)
            requires
                (m - 1) * step < FULL_TURN,
                step >= 1,
        ;
        assert(row_product(left, right) =~= Seq::<int>::empty());
        assert(0 <= cell <= 0x8000_0000 * 0x800_0000_0000) by (nonlinear_arith)
            requires
                cell == 0x8000_0000 * bound,
                0 <= bound <= 0x800_0000_0000,
        ;
    }
    while azimuth < FULL_TURN as u64
        invariant
            accepts_hemisphere(f),
            weighs_hemisphere(g, bound),
            step > 0,
            zenith < QUARTER_TURN,
            zenith == i@ * step,
            m == columns(step as int),
            cell == 0x8000_0000 * bound,
            0 <= bound <= 0x800_0000_0000,
            0 <= cell <= 0x8000_0000 * 0x800_0000_0000,
            (m - 1) * step < FULL_TURN <= m * step,
            0 <= j <= m,
            azimuth == j * step,
            left.len() == j,
            right.len() == j,
            sum == total(row_product(left, right)),
            -(j * cell) <= sum <= j * cell,
            m <= FULL_TURN,
            forall|k: int| 0 <= k < j ==> sampled_at(f, step as int, i@, k, #[trigger] left[k]),
            forall|k: int| 0 <= k < j ==> weighed_cell(g, step as int, i@, k, #[trigger] right[k]),
        decreases m - j,
    {
        proof {
            assert(j < m) by (nonlinear_arith)
                requires
                    j * step < FULL_TURN <= m * step,
                    step > 0,
            ;
        }
        let value = f(zenith, azimuth as u32);
        let weight = g(zenith, azimuth as u32);
        proof {
            assert(-cell <= value * weight <= cell) by (nonlinear_arith)
                requires
                    -0x8000_0000 <= value <= 0x8000_0000,
                    -bound <= weight <= bound,
                    cell == 0x8000_0000 * bound,
            ;
            lemma_total_push(row_product(left, right), value * weight);
            assert(row_product(left.push(value as int), right.push(weight as int))
                =~= row_product(left, right).push(value * weight));
            assert((j + 1) * step == j * step + step) by (nonlinear_arith);
            assert((j + 1) * cell == j * cell + cell) by (nonlinear_arith);
            assert(j * cell <= 6_283_186 * (0x8000_0000 * 0x800_0000_0000)) by (nonlinear_arith)
                requires
                    0 <= j <= 6_283_186,
                    0 <= cell <= 0x8000_0000 * 0x800_0000_0000,
            ;
            left = left.push(value as int);
            right = right.push(weight as int);
            j = j + 1;
        }
        sum = sum + (value as i128) * (weight as i128);
        azimuth = azimuth + step as u64;
    }
    proof {
        assert(j == m) by (nonlinear_arith)
            requires
                (m - 1) * step < FULL_TURN <= j * step,
                j <= m,
                step > 0,
        ;
    }
    (sum, Ghost(left), Ghost(right))
}

/// Sums the products of the values of `f` and the weights of `g` over the
/// raster of `step`, row by row; the area of the cells is left out.
pub(crate) fn raster_total<F: Fn(u32, u32) -> i32, G: Fn(u32, u32) -> i64>(
    f: &F,
    g: &G,
    step: u32,
    Ghost(bound): Ghost<int>,
) -> (out: (i128, Ghost<Seq<Seq<int>>>, Ghost<Seq<Seq<int>>>))
    requires
        accepts_hemisphere(f),
        weighs_hemisphere(g, bound),
        0 <= bound <= 0x800_0000_0000,
        step > 0,
    ensures
        out.0 == grid_total(grid_product(out.1@, out.2@)),
        samples(f, step as int, out.1@),
        raster_shaped(out.2@, step as int),
        forall|i: int, j: int|
            0 <= i < rows(step as int) && 0 <= j < columns(step as int) ==> weighed_cell(
                g,
                step as int,
                i,
                j,
                #[trigger] out.2@[i][j],
            ),
        -(rows(step as int) * (columns(step as int) * (0x8000_0000 * bound))) <= out.0 <= rows(
            step as int,
        ) * (columns(step as int) * (0x8000_0000 * bound)),
{
    let ghost n = rows(step as int);
    let ghost m = columns(step as int);
    let ghost cell = 0x8000_0000 * bound;
    let mut sum: i128 = 0;
    let mut zenith: u64 = 0;
    let ghost mut i: int = 0;
    let ghost mut left: Seq<Seq<int>> = Seq::empty();
    let ghost mut right: Seq<Seq<int>> = Seq::empty();
    proof {
        lemma_cells_bounds(QUARTER_TURN as int, step as int);
        lemma_cells_bounds(FULL_TURN as int, step as int);
        assert(n <= QUARTER_TURN && m <= FULL_TURN) by (nonlinear_arith)
            requires
                (n - 1) * step < QUARTER_TURN,
                (m - 1) * step < FULL_TURN,
                step >= 1,
        ;
        assert(grid_product(left, right) =~= Seq::<Seq<int>>::empty());
        assert(0 <= m * cell <= 6_283_186 * (0x8000_0000 * 0x800_0000_0000)) by (nonlinear_arith)
            requires
                cell == 0x8000_0000 * bound,
                0 <= bound <= 0x800_0000_0000,
                0 <= m <= 6_283_186,
        ;
    }
    while zenith < QUARTER_TURN as u64
        invariant
            accepts_hemisphere(f),
            weighs_hemisphere(g, bound),
            0 <= bound <= 0x800_0000_0000,
            step > 0,
            n == rows(step as int),
            m == columns(step as int),
            cell == 0x8000_0000 * bound,
            0 <= m * cell <= 6_283_186 * (0x8000_0000 * 0x800_0000_0000),
            (n - 1) * step < QUARTER_TURN <= n * step,
            1 <= n <= QUARTER_TURN,
            1 <= m <= FULL_TURN,
            0 <= i <= n,
            zenith == i * step,
            left.len() == i,
            right.len() == i,
            forall|r: int| 0 <= r < i ==> (#[trigger] left[r]).len() == m,
            forall|r: int| 0 <= r < i ==> (#[trigger] right[r]).len() == m,
            forall|r: int, j: int|
                0 <= r < i && 0 <= j < m ==> sampled_at(f, step as int, r, j, #[trigger] left[r][j]),
            forall|r: int, j: int|
                0 <= r < i && 0 <= j < m ==> weighed_cell(
                    g,
                    step as int,
                    r,
                    j,
                    #[trigger] right[r][j],
                ),
            sum == grid_total(grid_product(left, right)),
            -(i * (m * cell)) <= sum <= i * (m * cell),
        decreases n - i,
    {
        proof {
            assert(i < n) by (nonlinear_arith)
                requires
                    i * step < QUARTER_TURN <= n * step,
                    step > 0,
            ;
        }
        let (row, Ghost(values), Ghost(weights)) = row_total(
            f,
            g,
            Ghost(i),
            zenith as u32,
            step,
            Ghost(bound),
        );
        proof {
            let products = row_product(values, weights);
            lemma_grid_total_push(grid_product(left, right), products);
            assert(grid_product(left.push(values), right.push(weights)) =~= grid_product(
                left,
                right,
            ).push(products));
            assert((i + 1) * step == i * step + step) by (nonlinear_arith);
            assert((i + 1) * (m * cell) == i * (m * cell) + m * cell) by (nonlinear_arith);
            assert(i * (m * cell) <= 1_570_797 * (6_283_186 * (0x8000_0000 * 0x800_0000_0000)))
                by (nonlinear_arith)
                requires
                    0 <= i <= 1_570_797,
                    0 <= m * cell <= 6_283_186 * (0x8000_0000 * 0x800_0000_0000),
            ;
            left = left.push(values);
            right = right.push(weights);
            i = i + 1;
        }
        sum = sum + row;
        zenith = zenith + step as u64;
    }
    proof {
        assert(i == n) by (nonlinear_arith)
            requires
                (n - 1) * step < QUARTER_TURN <= i * step,
                i <= n,
                step > 0,
        ;
    }
    (sum, Ghost(left), Ghost(right))
}

/// Integrates `f` over the hemisphere by a left Riemann sum on a raster of
/// `step` microradians (0.01 rad where none is given).
///
/// `f` takes a zenith and an azimuth in microradians. It is evaluated at
/// the lower-left corner of each cell: at the zenith angles `0, step,
/// 2 * step, ...` below a quarter turn and, for each, at the azimuth angles
/// `0, step, 2 * step, ...` below a full turn, row by row. Each value is
/// weighted by the area `step²` of its cell, so the result is in units of
/// the values of `f` times µrad². A step of zero is refused.
pub fn integrate_hemisphere<F: Fn(u32, u32) -> i32>(f: &F, step: Option<u32>) -> (outcome: Result<
    i128,
    SensorError,
>)
    requires
        accepts_hemisphere(f),
    ensures
        match outcome {
            Ok(value) => step != Some(0u32) && is_integral(f, step_of(step), value as int),
            Err(reason) => reason == SensorError::PreconditionViolation && step == Some(0u32),
        },
{
    let s: u32 = match step {
        Some(s) => s,
        None => DEFAULT_STEP,
    };
    if s == 0 {
        return Err(SensorError::PreconditionViolation);
    }
    let one = |zenith: u32, azimuth: u32| -> (unit: i32)
        ensures
            unit == 1,
        { 1i32 };
    let wide = |zenith: u32, azimuth: u32| -> (weight: i64)
        requires
            zenith < QUARTER_TURN && azimuth < FULL_TURN,
        ensures
            exists|value: i32| #[trigger]
                call_ensures(f, (zenith, azimuth), value) && weight == value,
        { f(zenith, azimuth) as i64 };
    let (sum, Ghost(ones), Ghost(grid)) = raster_total(&one, &wide, s, Ghost(0x8000_0000));
    proof {
        assert forall|i: int, j: int|
            0 <= i < rows(s as int) && 0 <= j < columns(s as int) implies sampled_at(
            f,
            s as int,
            i,
            j,
            #[trigger] grid[i][j],
        ) by {
            assert(weighed_cell(&wide, s as int, i, j, grid[i][j]));
        }
        assert(samples(f, s as int, grid));
        assert forall|i: int, j: int| 0 <= i < ones.len() && 0 <= j < ones[i].len() implies #[trigger] ones[i][j]
            == 1 by {
            assert(sampled_at(&one, s as int, i, j, ones[i][j]));
        }
        lemma_grid_total_of_scaled(ones, grid, 1);
        lemma_scaled_total_fits(sum as int, s as int, 0x4000_0000_0000_0000);
    }
    let cell: i128 = (s as i128) * (s as i128);
    Ok(cell * sum)
}

/// Integrates the product of `f` and `g` over the hemisphere by a left
/// Riemann sum on a raster of `step` microradians (0.01 rad where none is
/// given): the sum, over the cells of the raster that
/// [`integrate_hemisphere`] walks, of the two values at the lower-left
/// corner times `step²`. A step of zero is refused.
pub fn integrate_hemisphere_weighted<F: Fn(u32, u32) -> i32, G: Fn(u32, u32) -> i32>(
    f: &F,
    g: &G,
    step: Option<u32>,
) -> (outcome: Result<i128, SensorError>)
    requires
        accepts_hemisphere(f),
        accepts_hemisphere(g),
    ensures
        match outcome {
            Ok(value) => step != Some(0u32) && is_weighted_integral(
                f,
                g,
                step_of(step),
                value as int,
            ),
            Err(reason) => reason == SensorError::PreconditionViolation && step == Some(0u32),
        },
{
    let s: u32 = match step {
        Some(s) => s,
        None => DEFAULT_STEP,
    };
    if s == 0 {
        return Err(SensorError::PreconditionViolation);
    }
    let wide = |zenith: u32, azimuth: u32| -> (weight: i64)
        requires
            zenith < QUARTER_TURN && azimuth < FULL_TURN,
        ensures
            exists|value: i32| #[trigger]
                call_ensures(g, (zenith, azimuth), value) && weight == value,
        { g(zenith, azimuth) as i64 };
    let (sum, Ghost(left), Ghost(right)) = raster_total(f, &wide, s, Ghost(0x8000_0000));
    proof {
        assert forall|i: int, j: int|
            0 <= i < rows(s as int) && 0 <= j < columns(s as int) implies sampled_at(
            g,
            s as int,
            i,
            j,
            #[trigger] right[i][j],
        ) by {
            assert(weighed_cell(&wide, s as int, i, j, right[i][j]));
        }
        assert(samples(g, s as int, right));
        lemma_scaled_total_fits(sum as int, s as int, 0x4000_0000_0000_0000);
    }
    let cell: i128 = (s as i128) * (s as i128);
    Ok(cell * sum)
}

/// A pattern with one value at each direction has one integral on a
/// raster: two values that both are its integral are the same. So are the
/// integral on the default raster and the integral where no step is given.
pub proof fn lemma_integral_is_unique<F: Fn(u32, u32) -> i32>(
    f: &F,
    step: int,
    first: int,
    second: int,
)
    requires
        single_valued(f),
        is_integral(f, step, first),
        is_integral(f, step, second),
    ensures
        first == second,
        step_of(None) == DEFAULT_STEP,
{
    let g1 = choose|grid: Seq<Seq<int>>| #[trigger]
        samples(f, step, grid) && first == step * step * grid_total(grid);
    let g2 = choose|grid: Seq<Seq<int>>| #[trigger]
        samples(f, step, grid) && second == step * step * grid_total(grid);
    lemma_samples_are_unique(f, step, g1, g2);
}

/// A pair of patterns with one value each at each direction has one
/// weighted integral on a raster.
pub proof fn lemma_weighted_integral_is_unique<F: Fn(u32, u32) -> i32, G: Fn(u32, u32) -> i32>(
    f: &F,
    g: &G,
    step: int,
    first: int,
    second: int,
)
    requires
        single_valued(f),
        single_valued(g),
        is_weighted_integral(f, g, step, first),
        is_weighted_integral(f, g, step, second),
    ensures
        first == second,
{
    let (l1, r1) = choose|left: Seq<Seq<int>>, right: Seq<Seq<int>>| #[trigger]
        samples(f, step, left) && #[trigger] samples(g, step, right) && first == step * step
            * grid_total(grid_product(left, right));
    let (l2, r2) = choose|left: Seq<Seq<int>>, right: Seq<Seq<int>>| #[trigger]
        samples(f, step, left) && #[trigger] samples(g, step, right) && second == step * step
            * grid_total(grid_product(left, right));
    lemma_samples_are_unique(f, step, l1, l2);
    lemma_samples_are_unique(g, step, r1, r2);
}

/// A pattern with one value at each direction has one grid of samples.
proof fn lemma_samples_are_unique<F: Fn(u32, u32) -> i32>(
    f: &F,
    step: int,
    first: Seq<Seq<int>>,
    second: Seq<Seq<int>>,
)
    requires
        single_valued(f),
        samples(f, step, first),
        samples(f, step, second),
    ensures
        first == second,
{
    assert forall|i: int| 0 <= i < first.len() implies #[trigger] first[i] =~= second[i] by {
        assert forall|j: int| 0 <= j < first[i].len() implies first[i][j] == second[i][j] by {
            assert(sampled_at(f, step, i, j, first[i][j]));
            assert(sampled_at(f, step, i, j, second[i][j]));
        }
    }
    assert(first =~= second);
}

/// The magnitude of the sum of the entry-wise products of two grids of `n`
/// rows of `m` entries, of magnitudes at most `lb` and `rb`, is at most
/// `n * (m * (lb * rb))`.
pub(crate) proof fn lemma_grid_product_bound(
    left: Seq<Seq<int>>,
    right: Seq<Seq<int>>,
    m: int,
    lb: int,
    rb: int,
)
    requires
        left.len() == right.len(),
        m >= 0,
        lb >= 0,
        rb >= 0,
        forall|i: int| 0 <= i < left.len() ==> (#[trigger] left[i]).len() == m,
        forall|i: int| 0 <= i < right.len() ==> (#[trigger] right[i]).len() == m,
        forall|i: int, j: int|
            0 <= i < left.len() && 0 <= j < m ==> -lb <= #[trigger] left[i][j] <= lb,
        forall|i: int, j: int|
            0 <= i < right.len() && 0 <= j < m ==> -rb <= #[trigger] right[i][j] <= rb,
    ensures
        -(left.len() * (m * (lb * rb))) <= grid_total(grid_product(left, right)) <= left.len() * (m
            * (lb * rb)),
    decreases left.len(),
{
    let n = left.len() as int;
    let products = grid_product(left, right);
    let unit = m * (lb * rb);
    if n > 0 {
        lemma_grid_product_bound(left.drop_last(), right.drop_last(), m, lb, rb);
        assert(products.drop_last() =~= grid_product(left.drop_last(), right.drop_last()));
        let row = products.last();
        assert(row == row_product(left[n - 1], right[n - 1]));
        assert forall|j: int| 0 <= j < row.len() implies -(lb * rb) <= #[trigger] row[j] <= lb
            * rb by {
            let x = left[n - 1][j];
            let y = right[n - 1][j];
            assert(-(lb * rb) <= x * y <= lb * rb) by (nonlinear_arith)
                requires
                    -lb <= x <= lb,
                    -rb <= y <= rb,
            ;
        }
        assert(lb * rb >= 0) by (nonlinear_arith)
            requires
                lb >= 0,
                rb >= 0,
        ;
        lemma_total_bound(row, lb * rb);
        assert(row.len() == m);
        assert(n * unit == (n - 1) * unit + unit) by (nonlinear_arith);
    } else {
        assert(n * unit == 0) by (nonlinear_arith)
            requires
                n == 0,
        ;
    }
}

/// A sum over the raster whose terms have magnitude at most `bound`, scaled
/// by the area of a cell, has magnitude at most `bound` times the area that
/// the raster covers.
proof fn lemma_scaled_total_fits(sum: int, step: int, bound: int)
    requires
        0 < step <= u32::MAX,
        0 <= bound <= 0x4000_0000_0000_0000,
        -(rows(step) * (columns(step) * bound)) <= sum <= rows(step) * (columns(step) * bound),
    ensures
        i128::MIN < step * step * sum < i128::MAX,
        0 < step * step <= u32::MAX * u32::MAX,
{
    assert(0 < step * step <= u32::MAX * u32::MAX) by (nonlinear_arith)
        requires
            0 < step <= u32::MAX,
    ;
    let n = rows(step);
    let m = columns(step);
    lemma_raster_area(step);
    let area = n * m * step * step;
    assert(0 <= area <= 4_296_538_091 * 4_301_250_480) by (nonlinear_arith)
        requires
            0 <= area <= (1_570_797 + step - 1) * (6_283_186 + step - 1),
            0 < step <= 4_294_967_295,
    ;
    assert(-(area * bound) <= step * step * sum <= area * bound) by (nonlinear_arith)
        requires
            area == n * m * step * step,
            -(n * (m * bound)) <= sum <= n * (m * bound),
            step > 0,
    ;
    assert(area * bound <= 4_296_538_091 * 4_301_250_480 * 0x4000_0000_0000_0000)
        by (nonlinear_arith)
        requires
            0 <= area <= 4_296_538_091 * 4_301_250_480,
            0 <= bound <= 0x4000_0000_0000_0000,
    ;
}

} // verus!
