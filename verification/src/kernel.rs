//! The hazard kernel that all engines share.
//!
//! The hazard of a cell at a step is the susceptibility of the cell times the
//! trigger factor of the worst rolling window that ends at the step. Windows are
//! taken on running sums of the depths of the cell, so that a window of `m` steps
//! costs one subtraction.

use vstd::prelude::*;
use vstd::slice::slice_subrange;

use crate::accuracy::{huge, lemma_scales, rounds_closely, rounds_to};
use crate::arithmetic::{adds_up, deterministic, multiplies, rounds_properly, sums, Arithmetic};
use crate::binary64::{absolute, lemma_small_numbers, lemma_unit_number, zero, Binary64};
use crate::forcing::{depths_until, Forcing};
use crate::series::{all_numbers, bulk, drift, lemma_part_of, lemma_sum_near, total};
use crate::threshold::{
    duration_of, intensity_of, lemma_worst_of_windows, lemma_worst_window_nonnegative, lemma_worst_window_unique,
    window_exceedance, window_exceedances, worst, worst_window_of, IdThreshold,
};
use crate::trigger::{lemma_factor_unique, lemma_factor_within_unit, TriggerModel};

verus! {

/// `row` holds the running sums of depths, from zero.
pub open spec fn accumulates<A: Arithmetic>(depths: Seq<Binary64>, row: Seq<Binary64>) -> bool {
    &&& row.len() == depths.len() + 1
    &&& row[0] == zero()
    &&& forall|t: int| 0 <= t < depths.len() ==> sums::<A>(row[t], #[trigger] depths[t], row[t + 1])
}

/// The running sums that windows of at most `window` steps reach back to.
pub open spec fn recent(row: Seq<Binary64>, window: nat) -> Seq<Binary64> {
    if row.len() - 1 <= window {
        row
    } else {
        row.skip(row.len() - 1 - window)
    }
}

/// The parameters of a susceptibility × trigger engine.
#[derive(Debug, Clone, Copy, PartialEq, Eq, Structural)]
pub struct Kernel {
    pub threshold: IdThreshold,
    pub trigger: TriggerModel,
    /// The longest rolling window, in steps.
    pub max_window_steps: usize,
    /// The length of a step, in hours.
    pub dt_hours: Binary64,
}

impl Kernel {
    /// `f` is the trigger factor of running sums.
    pub open spec fn fires<A: Arithmetic>(self, row: Seq<Binary64>, f: Binary64) -> bool {
        exists|e: Binary64, m: int| #[trigger]
            worst_window_of::<A>(self.threshold, self.dt_hours, recent(row, self.max_window_steps as nat), e, m)
                && self.trigger.maps::<A>(e, f)
    }

    /// `f` is the trigger factor of the depths up to a step.
    pub open spec fn factor_of<A: Arithmetic>(self, depths: Seq<Binary64>, f: Binary64) -> bool {
        exists|row: Seq<Binary64>| #[trigger] accumulates::<A>(depths, row) && self.fires::<A>(row, f)
    }

    /// `p` is the hazard of a cell with a susceptibility and the depths up to a
    /// step.
    pub open spec fn hazard_of<A: Arithmetic>(self, susceptibility: Binary64, depths: Seq<Binary64>, p: Binary64) -> bool {
        exists|f: Binary64| #[trigger] self.factor_of::<A>(depths, f) && multiplies::<A>(susceptibility, f, p)
    }

    /// The worst window that ends at a step: its exceedance and its length.
    pub fn dominant_window<A: Arithmetic>(&self, row: &[Binary64], step: usize) -> (r: (Binary64, usize))
        requires
            step + 1 < row@.len(),
            self.max_window_steps > 0,
        ensures
            worst_window_of::<A>(
                self.threshold,
                self.dt_hours,
                recent(row@.take(step + 2), self.max_window_steps as nat),
                r.0,
                r.1 as int,
            ),
            1 <= r.1 <= step + 1,
    {
        let n: usize = row.len();
        assert(step + 2 <= n);
        let reach: usize = if self.max_window_steps <= step {
            self.max_window_steps
        } else {
            step + 1
        };
        let part: &[Binary64] = slice_subrange(row, step + 1 - reach, step + 2);
        assert(part@ == recent(row@.take(step + 2), self.max_window_steps as nat));
        self.threshold.worst_window::<A>(self.dt_hours, part)
    }

    /// The trigger factor at a step of a row of running sums.
    pub fn factor_at<A: Arithmetic>(&self, row: &[Binary64], step: usize) -> (r: Binary64)
        requires
            step + 1 < row@.len(),
            self.max_window_steps > 0,
        ensures
            self.fires::<A>(row@.take(step + 2), r),
    {
        let (e, _m): (Binary64, usize) = self.dominant_window::<A>(row, step);
        self.trigger.factor::<A>(e)
    }
}

/// A part of running sums from the start is the running sums of that part.
pub proof fn lemma_accumulates_prefix<A: Arithmetic>(depths: Seq<Binary64>, row: Seq<Binary64>, k: int)
    requires
        accumulates::<A>(depths, row),
        0 <= k <= depths.len(),
    ensures
        accumulates::<A>(depths.take(k), row.take(k + 1)),
{
    assert forall|t: int| 0 <= t < k implies sums::<A>(
        row.take(k + 1)[t],
        #[trigger] depths.take(k)[t],
        row.take(k + 1)[t + 1],
    ) by {
        assert(sums::<A>(row[t], depths[t], row[t + 1]));
    }
}

/// One more depth adds a running sum.
pub proof fn lemma_accumulates_push<A: Arithmetic>(
    depths: Seq<Binary64>,
    row: Seq<Binary64>,
    depth: Binary64,
    sum: Binary64,
)
    requires
        accumulates::<A>(depths, row),
        sums::<A>(row.last(), depth, sum),
    ensures
        accumulates::<A>(depths.push(depth), row.push(sum)),
{
    let (d, r) = (depths.push(depth), row.push(sum));
    assert forall|t: int| 0 <= t < d.len() implies sums::<A>(r[t], #[trigger] d[t], r[t + 1]) by {
        if t < depths.len() {
            assert(sums::<A>(row[t], depths[t], row[t + 1]));
        }
    }
}

/// Running sums are determined by the depths.
pub proof fn lemma_accumulates_unique<A: Arithmetic>(
    depths: Seq<Binary64>,
    row: Seq<Binary64>,
    other: Seq<Binary64>,
    k: int,
)
    requires
        deterministic::<A>(),
        accumulates::<A>(depths, row),
        accumulates::<A>(depths, other),
        0 <= k <= depths.len(),
    ensures
        row.take(k + 1) == other.take(k + 1),
        k == depths.len() ==> row == other,
    decreases k,
{
    if k > 0 {
        lemma_accumulates_unique::<A>(depths, row, other, k - 1);
        assert(row.take(k)[k - 1] == other.take(k)[k - 1]);
        assert(sums::<A>(row[k - 1], depths[k - 1], row[k - 1 + 1]));
        assert(sums::<A>(other[k - 1], depths[k - 1], other[k - 1 + 1]));
        assert(row.take(k + 1) == row.take(k).push(row[k]));
        assert(other.take(k + 1) == other.take(k).push(other[k]));
    } else {
        assert(row.take(1) == seq![zero()]);
        assert(other.take(1) == seq![zero()]);
    }
    if k == depths.len() {
        assert(row.take(k + 1) == row);
        assert(other.take(k + 1) == other);
    }
}

/// The trigger factor is determined by the parameters and the depths.
pub proof fn lemma_factor_of_unique<A: Arithmetic>(kernel: Kernel, depths: Seq<Binary64>, f: Binary64, g: Binary64)
    requires
        deterministic::<A>(),
        kernel.factor_of::<A>(depths, f),
        kernel.factor_of::<A>(depths, g),
    ensures
        f == g,
{
    let row = choose|row: Seq<Binary64>| #[trigger] accumulates::<A>(depths, row) && kernel.fires::<A>(row, f);
    let other = choose|row: Seq<Binary64>| #[trigger] accumulates::<A>(depths, row) && kernel.fires::<A>(row, g);
    lemma_accumulates_unique::<A>(depths, row, other, depths.len() as int);
    let part = recent(row, kernel.max_window_steps as nat);
    let (e, m) = choose|e: Binary64, m: int| #[trigger]
        worst_window_of::<A>(kernel.threshold, kernel.dt_hours, part, e, m) && kernel.trigger.maps::<A>(e, f);
    let (h, n) = choose|e: Binary64, m: int| #[trigger]
        worst_window_of::<A>(kernel.threshold, kernel.dt_hours, part, e, m) && kernel.trigger.maps::<A>(e, g);
    lemma_worst_window_unique::<A>(kernel.threshold, kernel.dt_hours, part, e, m, h, n);
    lemma_factor_unique::<A>(kernel.trigger, e, f, g);
}

/// The hazard is determined by the parameters, the susceptibility and the depths.
pub proof fn lemma_hazard_of_unique<A: Arithmetic>(
    kernel: Kernel,
    susceptibility: Binary64,
    depths: Seq<Binary64>,
    p: Binary64,
    q: Binary64,
)
    requires
        deterministic::<A>(),
        kernel.hazard_of::<A>(susceptibility, depths, p),
        kernel.hazard_of::<A>(susceptibility, depths, q),
    ensures
        p == q,
{
    let f = choose|f: Binary64| #[trigger]
        kernel.factor_of::<A>(depths, f) && multiplies::<A>(susceptibility, f, p);
    let g = choose|g: Binary64| #[trigger]
        kernel.factor_of::<A>(depths, g) && multiplies::<A>(susceptibility, g, q);
    lemma_factor_of_unique::<A>(kernel, depths, f, g);
}

/// `rows` holds the running sums of all cells of a forcing.
pub open spec fn accumulates_all<F: Forcing, A: Arithmetic>(forcing: &F, rows: Seq<Vec<Binary64>>) -> bool {
    &&& rows.len() == forcing.grid().cells()
    &&& forall|c: int|
        0 <= c < rows.len() ==> accumulates::<A>(depths_until(forcing, c, forcing.steps() - 1), (#[trigger] rows[c])@)
}

/// The running sums of a cell of a forcing.
pub fn accumulate_cell<F: Forcing, A: Arithmetic>(forcing: &F, cell: usize) -> (r: Vec<Binary64>)
    requires
        cell < forcing.grid().cells(),
    ensures
        accumulates::<A>(depths_until(forcing, cell as int, forcing.steps() - 1), r@),
{
    let n_steps: usize = forcing.n_steps();
    let ghost depths = depths_until(forcing, cell as int, forcing.steps() - 1);
    let mut row: Vec<Binary64> = Vec::new();
    row.push(zero());
    let mut t: usize = 0;
    while t < n_steps
        invariant
            t <= n_steps,
            n_steps == forcing.steps(),
            cell < forcing.grid().cells(),
            depths == depths_until(forcing, cell as int, forcing.steps() - 1),
            accumulates::<A>(depths.take(t as int), row@),
        decreases n_steps - t,
    {
        let depth: Binary64 = forcing.depth_mm(cell, t);
        let sum: Binary64 = A::plus(row[t], depth);
        proof {
            assert(sums::<A>(row@.last(), depth, sum));
            lemma_accumulates_push::<A>(depths.take(t as int), row@, depth, sum);
            assert(depths.take(t + 1) == depths.take(t as int).push(depth));
        }
        row.push(sum);
        t = t + 1;
    }
    assert(depths.take(n_steps as int) == depths);
    row
}

/// The running sums of all cells of a forcing.
pub fn accumulate_all<F: Forcing, A: Arithmetic>(forcing: &F) -> (r: Vec<Vec<Binary64>>)
    requires
        forcing.grid().fits(),
    ensures
        accumulates_all::<F, A>(forcing, r@),
{
    let n: usize = forcing.dims().len();
    let mut rows: Vec<Vec<Binary64>> = Vec::new();
    let mut c: usize = 0;
    while c < n
        invariant
            c <= n,
            n == forcing.grid().cells(),
            rows@.len() == c,
            forall|k: int|
                0 <= k < c ==> accumulates::<A>(
                    depths_until(forcing, k, forcing.steps() - 1),
                    (#[trigger] rows@[k])@,
                ),
        decreases n - c,
    {
        rows.push(accumulate_cell::<F, A>(forcing, c));
        c = c + 1;
    }
    rows
}

/// The running sums of a cell up to a step are those of its depths up to it.
pub proof fn lemma_row_until<F: Forcing, A: Arithmetic>(forcing: &F, cell: int, row: Seq<Binary64>, step: int)
    requires
        accumulates::<A>(depths_until(forcing, cell, forcing.steps() - 1), row),
        0 <= step < forcing.steps(),
    ensures
        accumulates::<A>(depths_until(forcing, cell, step), row.take(step + 2)),
{
    let all = depths_until(forcing, cell, forcing.steps() - 1);
    lemma_accumulates_prefix::<A>(all, row, step + 1);
    assert(all.take(step + 1) == depths_until(forcing, cell, step));
}

/// A hazard is a probability, and never above the susceptibility of its cell nor
/// above its trigger factor: heavy rain on stable ground stays capped by the
/// terrain.
pub proof fn lemma_hazard_within_unit<A: Arithmetic>(
    kernel: Kernel,
    susceptibility: Binary64,
    depths: Seq<Binary64>,
    p: Binary64,
)
    requires
        rounds_properly::<A>(),
        kernel.trigger.k.positive_finite(),
        susceptibility.unit(),
        kernel.hazard_of::<A>(susceptibility, depths, p),
    ensures
        p.unit(),
        p.at_most(susceptibility),
        exists|f: Binary64| #[trigger] kernel.factor_of::<A>(depths, f) && f.unit() && p.at_most(f),
{
    let f = choose|f: Binary64| #[trigger] kernel.factor_of::<A>(depths, f) && multiplies::<A>(susceptibility, f, p);
    lemma_kernel_factor_within_unit::<A>(kernel, depths, f);
}

/// Every trigger factor of the kernel lies within `[0, 1]`.
pub proof fn lemma_kernel_factor_within_unit<A: Arithmetic>(kernel: Kernel, depths: Seq<Binary64>, f: Binary64)
    requires
        rounds_properly::<A>(),
        kernel.trigger.k.positive_finite(),
        kernel.factor_of::<A>(depths, f),
    ensures
        f.unit(),
{
    let row = choose|row: Seq<Binary64>| #[trigger] accumulates::<A>(depths, row) && kernel.fires::<A>(row, f);
    let (e, m) = choose|e: Binary64, m: int| #[trigger]
        worst_window_of::<A>(kernel.threshold, kernel.dt_hours, recent(row, kernel.max_window_steps as nat), e, m)
            && kernel.trigger.maps::<A>(e, f);
    lemma_worst_window_nonnegative::<A>(
        kernel.threshold,
        kernel.dt_hours,
        recent(row, kernel.max_window_steps as nat),
        e,
        m,
    );
    lemma_factor_within_unit::<A>(kernel.trigger, e, f);
}

/// Of two cells with the same rain the more susceptible one has no lower hazard.
pub proof fn lemma_hazard_grows_with_susceptibility<A: Arithmetic>(
    kernel: Kernel,
    low: Binary64,
    high: Binary64,
    depths: Seq<Binary64>,
    p: Binary64,
    q: Binary64,
)
    requires
        deterministic::<A>(),
        rounds_properly::<A>(),
        kernel.trigger.k.positive_finite(),
        low.unit(),
        high.unit(),
        low.at_most(high),
        kernel.hazard_of::<A>(low, depths, p),
        kernel.hazard_of::<A>(high, depths, q),
    ensures
        p.at_most(q),
{
    let f = choose|f: Binary64| #[trigger] kernel.factor_of::<A>(depths, f) && multiplies::<A>(low, f, p);
    let g = choose|g: Binary64| #[trigger] kernel.factor_of::<A>(depths, g) && multiplies::<A>(high, g, q);
    lemma_factor_of_unique::<A>(kernel, depths, f, g);
    lemma_kernel_factor_within_unit::<A>(kernel, depths, f);
}

/// A running sum adds up the depths before it.
proof fn lemma_row_adds_up<A: Arithmetic>(depths: Seq<Binary64>, row: Seq<Binary64>, t: int)
    requires
        accumulates::<A>(depths, row),
        0 <= t <= depths.len(),
    ensures
        adds_up::<A>(zero(), depths.take(t), row[t]),
    decreases t,
{
    if t > 0 {
        lemma_row_adds_up::<A>(depths, row, t - 1);
        assert(sums::<A>(row[t - 1], depths[t - 1], row[t - 1 + 1]));
        assert(depths.take(t).drop_last() == depths.take(t - 1));
        assert(depths.take(t).last() == depths[t - 1]);
    }
}

/// A part of depths has no larger bulk.
proof fn lemma_bulk_of_prefix(depths: Seq<Binary64>, t: int)
    requires
        0 <= t <= depths.len(),
    ensures
        0real <= bulk(depths.take(t)) <= bulk(depths),
    decreases depths.len(),
{
    crate::series::lemma_total_within_bulk(depths.take(t));
    if t == depths.len() {
        assert(depths.take(t) == depths);
    } else {
        lemma_bulk_of_prefix(depths.drop_last(), t);
        assert(depths.drop_last().take(t) == depths.take(t));
    }
}

/// What a running sum grew by is the depth that fell: the sum of the depths of the
/// steps between, within rounding.
pub proof fn lemma_row_grows_by_depth<F: Forcing, A: Arithmetic>(
    forcing: &F,
    cell: usize,
    row: Vec<Binary64>,
    from: int,
    to: int,
)
    requires
        rounds_closely::<A>(),
        cell < forcing.grid().cells(),
        0 <= from <= to <= forcing.steps(),
        forcing.steps() <= 0x100_0000_0000,
        all_numbers(depths_until(forcing, cell as int, forcing.steps() - 1)),
        2real * bulk(depths_until(forcing, cell as int, forcing.steps() - 1)) + 1real <= huge(),
        call_ensures(accumulate_cell::<F, A>, (forcing, cell), row),
    ensures
        row@.len() == forcing.steps() + 1,
        row@[from].finite(),
        row@[to].finite(),
        ({
            let depths = depths_until(forcing, cell as int, forcing.steps() - 1);
            absolute((row@[to].number() - row@[from].number()) - total(depths.subrange(from, to))) <= drift(
                to as real,
                bulk(depths),
            ) + drift(from as real, bulk(depths))
        }),
{
    lemma_row_between::<A>(depths_until(forcing, cell as int, forcing.steps() - 1), row@, from, to);
}

proof fn lemma_row_between<A: Arithmetic>(depths: Seq<Binary64>, row: Seq<Binary64>, from: int, to: int)
    requires
        rounds_closely::<A>(),
        accumulates::<A>(depths, row),
        0 <= from <= to <= depths.len(),
        depths.len() <= 0x100_0000_0000,
        all_numbers(depths),
        2real * bulk(depths) + 1real <= huge(),
    ensures
        row[from].finite(),
        row[to].finite(),
        absolute((row[to].number() - row[from].number()) - total(depths.subrange(from, to))) <= drift(
            to as real,
            bulk(depths),
        ) + drift(from as real, bulk(depths)),
{
    lemma_row_near::<A>(depths, row, from);
    lemma_row_near::<A>(depths, row, to);
    lemma_total_of_range(depths, from, to);
}

/// Sums over neighbouring ranges add up.
proof fn lemma_total_of_range(depths: Seq<Binary64>, from: int, to: int)
    requires
        0 <= from <= to <= depths.len(),
    ensures
        total(depths.take(to)) == total(depths.take(from)) + total(depths.subrange(from, to)),
    decreases to - from,
{
    if from == to {
        assert(depths.subrange(from, to).len() == 0);
    } else {
        lemma_total_of_range(depths, from, to - 1);
        assert(depths.take(to).drop_last() == depths.take(to - 1));
        assert(depths.subrange(from, to).drop_last() == depths.subrange(from, to - 1));
    }
}

proof fn lemma_row_near<A: Arithmetic>(depths: Seq<Binary64>, row: Seq<Binary64>, t: int)
    requires
        rounds_closely::<A>(),
        accumulates::<A>(depths, row),
        0 <= t <= depths.len(),
        depths.len() <= 0x100_0000_0000,
        all_numbers(depths),
        2real * bulk(depths) + 1real <= huge(),
    ensures
        row[t].finite(),
        absolute(row[t].number() - total(depths.take(t))) <= drift(t as real, bulk(depths)),
{
    lemma_small_numbers();
    lemma_row_adds_up::<A>(depths, row, t);
    lemma_bulk_of_prefix(depths, t);
    assert forall|i: int| 0 <= i < t implies (#[trigger] depths.take(t)[i]).finite() by {
        assert(depths[i].finite());
    }
    lemma_sum_near::<A>(zero(), depths.take(t), row[t], bulk(depths));
}

/// The worst of recent windows is no better than any of them.
proof fn lemma_recent_is_worst<A: Arithmetic>(kernel: Kernel, row: Seq<Binary64>, e: Binary64, m: int, n: int, x: Binary64)
    requires
        deterministic::<A>(),
        worst_window_of::<A>(kernel.threshold, kernel.dt_hours, recent(row, kernel.max_window_steps as nat), e, m),
        1 <= n <= kernel.max_window_steps,
        n < row.len(),
        window_exceedance::<A>(kernel.threshold, kernel.dt_hours, row, n, x),
    ensures
        !e.less(x),
{
    let part = recent(row, kernel.max_window_steps as nat);
    assert(part.last() == row.last() && part[part.len() - 1 - n] == row[row.len() - 1 - n]);
    let (d, i) = choose|d: Binary64, i: Binary64| #[trigger]
        duration_of::<A>(n, kernel.dt_hours, d) && #[trigger] intensity_of::<A>(
            row[row.len() - 1 - n],
            row.last(),
            d,
            i,
        ) && kernel.threshold.exceeds::<A>(i, d, x);
    lemma_worst_of_windows::<A>(kernel.threshold, kernel.dt_hours, part, e, m, n, d, i, x);
}

/// The worst of recent windows is one of them.
proof fn lemma_recent_is_reached<A: Arithmetic>(kernel: Kernel, row: Seq<Binary64>, e: Binary64, m: int)
    requires
        kernel.max_window_steps > 0,
        row.len() > 1,
        worst_window_of::<A>(kernel.threshold, kernel.dt_hours, recent(row, kernel.max_window_steps as nat), e, m),
        zero().less(e),
    ensures
        1 <= m <= kernel.max_window_steps,
        m < row.len(),
        window_exceedance::<A>(kernel.threshold, kernel.dt_hours, row, m, e),
{
    let part = recent(row, kernel.max_window_steps as nat);
    let es = choose|es: Seq<Binary64>| #[trigger]
        window_exceedances::<A>(kernel.threshold, kernel.dt_hours, part, es) && worst(es, e, m);
    assert(window_exceedance::<A>(kernel.threshold, kernel.dt_hours, part, m - 1 + 1, es[m - 1]));
    assert(part.last() == row.last() && part[part.len() - 1 - m] == row[row.len() - 1 - m]);
}

/// Whether running sums grow by the depths of their steps, within rounding.
pub open spec fn holds_depths(depths: Seq<Binary64>, row: Seq<Binary64>) -> bool {
    &&& row.len() == depths.len() + 1
    &&& forall|a: int, b: int|
        0 <= a <= b <= depths.len() ==> absolute(
            ((#[trigger] row[b]).number() - (#[trigger] row[a]).number()) - total(depths.subrange(a, b)),
        ) <= drift(b as real, bulk(depths)) + drift(a as real, bulk(depths))
}

/// Whether an exceedance is not below zero, no window of at most the longest
/// length that ends at the last running sum has a higher one, and one of them has
/// it where it lies above zero.
pub open spec fn is_worst<A: Arithmetic>(kernel: Kernel, row: Seq<Binary64>, e: Binary64) -> bool {
    &&& zero().at_most(e)
    &&& forall|m: int, x: Binary64|
        1 <= m <= kernel.max_window_steps && m < row.len() && #[trigger] window_exceedance::<A>(
            kernel.threshold,
            kernel.dt_hours,
            row,
            m,
            x,
        ) ==> !e.less(x)
    &&& zero().less(e) ==> exists|m: int|
        1 <= m <= kernel.max_window_steps && m < row.len() && #[trigger] window_exceedance::<A>(
            kernel.threshold,
            kernel.dt_hours,
            row,
            m,
            e,
        )
}

proof fn lemma_row_holds_depths<A: Arithmetic>(depths: Seq<Binary64>, row: Seq<Binary64>)
    requires
        rounds_closely::<A>(),
        accumulates::<A>(depths, row),
        depths.len() <= 0x100_0000_0000,
        all_numbers(depths),
        2real * bulk(depths) + 1real <= huge(),
    ensures
        holds_depths(depths, row),
{
    assert forall|a: int, b: int| 0 <= a <= b <= depths.len() implies absolute(
        ((#[trigger] row[b]).number() - (#[trigger] row[a]).number()) - total(depths.subrange(a, b)),
    ) <= drift(b as real, bulk(depths)) + drift(a as real, bulk(depths)) by {
        lemma_row_between::<A>(depths, row, a, b);
    }
}

proof fn lemma_recent_worst<A: Arithmetic>(kernel: Kernel, row: Seq<Binary64>, e: Binary64, m: int)
    requires
        deterministic::<A>(),
        kernel.max_window_steps > 0,
        row.len() > 1,
        worst_window_of::<A>(kernel.threshold, kernel.dt_hours, recent(row, kernel.max_window_steps as nat), e, m),
    ensures
        is_worst::<A>(kernel, row, e),
{
    lemma_worst_window_nonnegative::<A>(
        kernel.threshold,
        kernel.dt_hours,
        recent(row, kernel.max_window_steps as nat),
        e,
        m,
    );
    assert forall|n: int, x: Binary64|
        1 <= n <= kernel.max_window_steps && n < row.len() && #[trigger] window_exceedance::<A>(
            kernel.threshold,
            kernel.dt_hours,
            row,
            n,
            x,
        ) implies !e.less(x) by {
        lemma_recent_is_worst::<A>(kernel, row, e, m, n, x);
    }
    if zero().less(e) {
        lemma_recent_is_reached::<A>(kernel, row, e, m);
    }
}

/// The hazard of a cell: the susceptibility times the trigger factor of the worst
/// window. Of what is returned, the first are running sums that hold the depths up
/// to the step, so that a window holds the depths of its own steps and of no
/// others; the second is the exceedance of the worst window; the third its factor,
/// with which the susceptibility multiplies to the hazard, within a neighbouring
/// value.
pub proof fn lemma_hazard_is_of_worst_window<A: Arithmetic>(
    kernel: Kernel,
    susceptibility: Binary64,
    depths: Seq<Binary64>,
    p: Binary64,
) -> (r: (Seq<Binary64>, Binary64, Binary64))
    requires
        deterministic::<A>(),
        rounds_properly::<A>(),
        rounds_closely::<A>(),
        kernel.trigger.k.positive_finite(),
        kernel.max_window_steps > 0,
        susceptibility.unit(),
        0 < depths.len() <= 0x100_0000_0000,
        all_numbers(depths),
        2real * bulk(depths) + 1real <= huge(),
        kernel.hazard_of::<A>(susceptibility, depths, p),
    ensures
        holds_depths(depths, r.0),
        is_worst::<A>(kernel, r.0, r.1),
        kernel.trigger.maps::<A>(r.1, r.2),
        r.2.unit(),
        rounds_to(susceptibility.number() * r.2.number(), p),
{
    let f = choose|f: Binary64| #[trigger] kernel.factor_of::<A>(depths, f) && multiplies::<A>(susceptibility, f, p);
    let (row, e) = lemma_factor_is_of_worst_window::<A>(kernel, depths, f);
    lemma_kernel_factor_within_unit::<A>(kernel, depths, f);
    lemma_scales();
    lemma_unit_number(susceptibility);
    lemma_unit_number(f);
    lemma_part_of(susceptibility.number(), f.number());
    (row, e, f)
}

/// The trigger factor of depths is that of their worst window, see
/// [`lemma_hazard_is_of_worst_window`].
pub proof fn lemma_factor_is_of_worst_window<A: Arithmetic>(kernel: Kernel, depths: Seq<Binary64>, f: Binary64) -> (r: (
    Seq<Binary64>,
    Binary64,
))
    requires
        deterministic::<A>(),
        rounds_closely::<A>(),
        kernel.max_window_steps > 0,
        0 < depths.len() <= 0x100_0000_0000,
        all_numbers(depths),
        2real * bulk(depths) + 1real <= huge(),
        kernel.factor_of::<A>(depths, f),
    ensures
        holds_depths(depths, r.0),
        is_worst::<A>(kernel, r.0, r.1),
        kernel.trigger.maps::<A>(r.1, f),
{
    let row = choose|row: Seq<Binary64>| #[trigger] accumulates::<A>(depths, row) && kernel.fires::<A>(row, f);
    let part = recent(row, kernel.max_window_steps as nat);
    let (e, m) = choose|e: Binary64, m: int| #[trigger]
        worst_window_of::<A>(kernel.threshold, kernel.dt_hours, part, e, m) && kernel.trigger.maps::<A>(e, f);
    lemma_row_holds_depths::<A>(depths, row);
    lemma_recent_worst::<A>(kernel, row, e, m);
    (row, e)
}

} // verus!
