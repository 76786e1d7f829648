//! Flood hazard from a discharge hydrograph.
//!
//! A rainfall–runoff engine routes precipitation through a catchment into a
//! discharge hydrograph; this module turns that hydrograph into a time-varying
//! flood hazard.
//!
//! Landslide nowcasting accumulates water input over rolling windows, because
//! what matters is how much rain fell over how long. A flood is different: the
//! routing has already integrated the rainfall, so the trigger is simply whether
//! the discharge exceeds a flood threshold `Q_c`. There is no duration power law
//! and each step is independent:
//!
//! ```text
//! hazard(cell, t) = flood_susceptibility(cell) × trigger_factor(Q(t) / Q_c)
//! ```

use std::marker::PhantomData;

use vstd::arithmetic::power2::pow2;
use vstd::prelude::*;

use crate::accuracy::{
    exponential_is_accurate, grain, is_whole, lemma_scales, logarithm_is_accurate, natural_logarithm, rounds_closely,
    rounds_to, rounds_to_whole, speck, tiny, ulp,
};
use crate::arithmetic::{
    counts, deterministic, divides, keeps_sides, multiplies, rounds, rounds_properly, shows_rounded, Arithmetic,
};
use crate::binary64::{
    absolute, lemma_rank_orders_numbers, lemma_small_numbers, lemma_unit_number, lemma_whole_part, one, zero, Binary64,
};
use crate::error::{Error as CoreError, Reason};
use crate::explain::{comparable, Driver};
use crate::forcing::{hours_per_day, lemma_hours_per_day, Forcing};
use crate::grid::{copy_values, GridDims, SusceptibilityMap};
use crate::hazard::{bad_alert_level, validate_alert_level, Alert, HazardField};
use crate::nowcast::{alerts_of, collect_alerts};
use crate::ranking::{order_by, ranks};
use crate::series::{lemma_part_of, lemma_parts_of_product, lemma_quotient_bound, lemma_quotient_of};
use crate::text::{append_decimal, decimal};
use crate::trigger::{
    lemma_factor_unique, lemma_factor_within_unit, lemma_signal_returns_to_level, regular, TriggerModel,
};

verus! {

/// Errors from building a flood provider.
#[derive(Debug)]
#[allow(inconsistent_fields)]
pub enum Error {
    /// An error of the nowcast itself.
    Core(CoreError),
    /// The rainfall–runoff engine failed (parameters or forcing).
    Rainflow(String),
    /// A discharge or threshold value was not finite or not positive.
    Invalid { name: &'static str, reason: Reason },
}

impl Error {
    /// `text` is the message of the error.
    pub open spec fn says<A: Arithmetic>(self, text: Seq<char>) -> bool {
        match self {
            Error::Core(e) => e.says::<A>(text),
            Error::Rainflow(reason) => text == "rainflow engine: "@ + reason@,
            Error::Invalid { name, reason } => exists|t: Seq<char>| #[trigger]
                reason.says::<A>(t) && text == "invalid value for `"@ + name@ + "`: "@ + t,
        }
    }

    /// The message of the error.
    pub fn message<A: Arithmetic>(&self) -> (r: String)
        ensures
            self.says::<A>(r@),
    {
        let mut r: String = String::new();
        match self {
            Error::Core(e) => {
                return e.message::<A>();
            },
            Error::Rainflow(reason) => {
                r.append("rainflow engine: ");
                r.append(reason.as_str());
                assert(r@ == "rainflow engine: "@ + reason@);
            },
            Error::Invalid { name, reason } => {
                let t: String = reason.wording::<A>();
                r.append("invalid value for `");
                r.append(name);
                r.append("`: ");
                r.append(t.as_str());
                assert(r@ == "invalid value for `"@ + name@ + "`: "@ + t@);
            },
        }
        r
    }
}

/// Whether all discharges are finite and not below zero.
pub open spec fn discharges_accepted(discharge: Seq<Binary64>) -> bool {
    forall|i: int| 0 <= i < discharge.len() ==> (#[trigger] discharge[i]).nonnegative_finite()
}

/// The error for a value that is not finite and above zero.
pub open spec fn not_positive(name: &'static str, value: Binary64) -> Error {
    Error::Invalid { name, reason: Reason::Value { before: "must be finite and > 0, got ", value, after: "" } }
}

/// The error for discharges that are not accepted.
pub open spec fn bad_discharges() -> Error {
    Error::Invalid { name: "discharge", reason: Reason::Text("values must be finite and non-negative") }
}

fn check_discharges(discharge: &[Binary64]) -> (r: Result<(), Error>)
    ensures
        match r {
            Ok(_) => discharges_accepted(discharge@),
            Err(e) => !discharges_accepted(discharge@) && e == bad_discharges(),
        },
{
    let mut i: usize = 0;
    while i < discharge.len()
        invariant
            i <= discharge@.len(),
            forall|k: int| 0 <= k < i ==> (#[trigger] discharge@[k]).nonnegative_finite(),
        decreases discharge@.len() - i,
    {
        if !discharge[i].is_nonnegative_finite() {
            assert(!discharge@[i as int].nonnegative_finite());
            return Err(
                Error::Invalid { name: "discharge", reason: Reason::Text("values must be finite and non-negative") },
            );
        }
        i = i + 1;
    }
    Ok(())
}

/// A catchment discharge hydrograph exposed as a [`Forcing`].
///
/// Discharge is lumped (one value per step for the whole catchment), so every
/// cell sees the same depth: the spatial pattern of a flood lives in the
/// susceptibility map, not in the forcing.
#[derive(Debug)]
pub struct RainflowForcing {
    dims: GridDims,
    dt_hours: Binary64,
    discharge_mm_day: Vec<Binary64>,
    /// The depth of water over each step.
    depths_mm: Vec<Binary64>,
}

/// `depths` are the depths of water over the steps of a discharge series: the
/// rate (mm/day) times the length of a step in days.
pub open spec fn depths_of_discharge<A: Arithmetic>(
    discharge: Seq<Binary64>,
    dt_hours: Binary64,
    depths: Seq<Binary64>,
) -> bool {
    exists|days: Binary64| #[trigger]
        divides::<A>(dt_hours, hours_per_day(), days) && scaled_by::<A>(discharge, days, depths)
}

/// `r` holds values multiplied by a factor.
pub open spec fn scaled_by<A: Arithmetic>(values: Seq<Binary64>, factor: Binary64, r: Seq<Binary64>) -> bool {
    &&& r.len() == values.len()
    &&& forall|i: int| 0 <= i < r.len() ==> multiplies::<A>(values[i], factor, #[trigger] r[i])
}

fn scale<A: Arithmetic>(values: &[Binary64], factor: Binary64) -> (r: Vec<Binary64>)
    ensures
        scaled_by::<A>(values@, factor, r@),
{
    let mut r: Vec<Binary64> = Vec::new();
    let mut i: usize = 0;
    while i < values.len()
        invariant
            i <= values@.len(),
            r@.len() == i,
            forall|k: int| 0 <= k < i ==> multiplies::<A>(values@[k], factor, #[trigger] r@[k]),
        decreases values@.len() - i,
    {
        r.push(A::times(values[i], factor));
        i = i + 1;
    }
    r
}

impl RainflowForcing {
    #[verifier::type_invariant]
    spec fn aligned(self) -> bool {
        self.depths_mm@.len() == self.discharge_mm_day@.len()
    }

    /// The routed discharge series.
    pub closed spec fn series(&self) -> Seq<Binary64> {
        self.discharge_mm_day@
    }

    /// The depth of water over each step.
    pub closed spec fn depths(&self) -> Seq<Binary64> {
        self.depths_mm@
    }

    /// Wraps a discharge series (mm/day) over a grid. The step length must be
    /// finite and above zero, the discharges finite and not below zero.
    pub fn new<A: Arithmetic>(dims: GridDims, dt_days: Binary64, discharge_mm_day: Vec<Binary64>) -> (r: Result<
        RainflowForcing,
        Error,
    >)
        ensures
            match r {
                Ok(f) => {
                    &&& dt_days.positive_finite()
                    &&& discharges_accepted(discharge_mm_day@)
                    &&& f.grid() == dims
                    &&& multiplies::<A>(dt_days, hours_per_day(), f.hours())
                    &&& f.series() == discharge_mm_day@
                    &&& f.steps() == discharge_mm_day@.len()
                    &&& depths_of_discharge::<A>(discharge_mm_day@, f.hours(), f.depths())
                },
                Err(e) => if !dt_days.positive_finite() {
                    e == not_positive("dt_days", dt_days)
                } else {
                    !discharges_accepted(discharge_mm_day@) && e == bad_discharges()
                },
            },
    {
        if !dt_days.is_positive_finite() {
            return Err(
                Error::Invalid {
                    name: "dt_days",
                    reason: Reason::Value { before: "must be finite and > 0, got ", value: dt_days, after: "" },
                },
            );
        }
        match check_discharges(discharge_mm_day.as_slice()) {
            Ok(_) => {},
            Err(e) => {
                return Err(e);
            },
        }
        let dt_hours: Binary64 = A::times(dt_days, hours_per_day());
        let days: Binary64 = A::over(dt_hours, hours_per_day());
        assert(multiplies::<A>(dt_days, hours_per_day(), dt_hours));
        assert(divides::<A>(dt_hours, hours_per_day(), days));
        let depths_mm: Vec<Binary64> = scale::<A>(discharge_mm_day.as_slice(), days);
        Ok(RainflowForcing { dims, dt_hours, discharge_mm_day, depths_mm })
    }

    /// The routed discharge series (mm/day).
    pub fn discharge(&self) -> (r: &[Binary64])
        ensures
            r@ == self.series(),
    {
        self.discharge_mm_day.as_slice()
    }
}

impl Clone for RainflowForcing {
    fn clone(&self) -> (r: RainflowForcing)
        ensures
            r.grid() == self.grid(),
            r.hours() == self.hours(),
            r.steps() == self.steps(),
            r.series() == self.series(),
            r.depths() == self.depths(),
    {
        proof {
            use_type_invariant(self);
        }
        RainflowForcing {
            dims: self.dims,
            dt_hours: self.dt_hours,
            discharge_mm_day: copy_values(self.discharge_mm_day.as_slice()),
            depths_mm: copy_values(self.depths_mm.as_slice()),
        }
    }
}

impl Forcing for RainflowForcing {
    closed spec fn grid(&self) -> GridDims {
        self.dims
    }

    closed spec fn steps(&self) -> nat {
        self.discharge_mm_day@.len()
    }

    closed spec fn hours(&self) -> Binary64 {
        self.dt_hours
    }

    open spec fn depth(&self, cell: int, step: int) -> Binary64 {
        self.depths()[step]
    }

    fn dims(&self) -> (r: GridDims) {
        self.dims
    }

    fn n_steps(&self) -> (r: usize) {
        self.discharge_mm_day.len()
    }

    fn dt_hours(&self) -> (r: Binary64) {
        self.dt_hours
    }

    fn depth_mm(&self, cell: usize, step: usize) -> (r: Binary64) {
        proof {
            use_type_invariant(self);
        }
        self.depths_mm[step]
    }
}

/// A flood threshold `Q_c` (mm/day): discharge at or above it is a flood.
#[derive(Debug, Clone, Copy, PartialEq, Eq, Structural)]
pub struct FloodThreshold {
    pub q_crit: Binary64,
}

/// The finite values of a series, in order.
pub open spec fn finite_values(series: Seq<Binary64>) -> Seq<Binary64> {
    series.filter(|x: Binary64| x.finite())
}

/// The positions of values among the numbers of the format.
pub open spec fn positions(values: Seq<Binary64>) -> Seq<i64> {
    values.map_values(|x: Binary64| x.rank() as i64)
}

/// `index` is the index of a quantile of `n` ascending values: the product of
/// the last index and the share, rounded, and never past the last index.
pub open spec fn quantile_index<A: Arithmetic>(n: int, p: Binary64, index: int) -> bool {
    exists|last: Binary64, at: Binary64, whole: Binary64|
        {
            &&& #[trigger] counts::<A>(n - 1, last)
            &&& #[trigger] multiplies::<A>(last, p, at)
            &&& #[trigger] rounds::<A>(at, whole)
            &&& index == if whole.integer_part() < n {
                whole.integer_part() as int
            } else {
                n - 1
            }
        }
}

/// `q` is a quantile of the finite values of a series.
pub open spec fn quantile_of<A: Arithmetic>(series: Seq<Binary64>, p: Binary64, q: Binary64) -> bool {
    let values = finite_values(series);
    exists|order: Seq<usize>, index: int| #[trigger]
        ranks(positions(values), order) && #[trigger] quantile_index::<A>(values.len() as int, p, index) && q
            == values[order[index] as int]
}

fn keep_finite(series: &[Binary64]) -> (r: Vec<Binary64>)
    ensures
        r@ == finite_values(series@),
{
    let ghost finite = |x: Binary64| x.finite();
    let mut r: Vec<Binary64> = Vec::new();
    let mut i: usize = 0;
    assert(series@.take(0).filter(finite) == Seq::<Binary64>::empty()) by {
        reveal(Seq::filter);
    }
    while i < series.len()
        invariant
            i <= series@.len(),
            finite == (|x: Binary64| x.finite()),
            r@ == series@.take(i as int).filter(finite),
        decreases series@.len() - i,
    {
        if series[i].is_finite() {
            r.push(series[i]);
        }
        proof {
            assert(series@.take(i + 1).drop_last() == series@.take(i as int));
            assert(series@.take(i + 1).last() == series@[i as int]);
            reveal(Seq::filter);
        }
        i = i + 1;
    }
    assert(series@.take(series@.len() as int) == series@);
    r
}

impl FloodThreshold {
    /// `r` is the ratio of a discharge to the threshold.
    pub open spec fn exceeds<A: Arithmetic>(self, q: Binary64, r: Binary64) -> bool {
        divides::<A>(q, self.q_crit, r)
    }

    /// Builds a threshold, which must be finite and above zero.
    pub fn new(q_crit: Binary64) -> (r: Result<FloodThreshold, Error>)
        ensures
            match r {
                Ok(t) => q_crit.positive_finite() && t.q_crit == q_crit,
                Err(e) => !q_crit.positive_finite() && e == not_positive("q_crit", q_crit),
            },
    {
        if !q_crit.is_positive_finite() {
            return Err(
                Error::Invalid {
                    name: "q_crit",
                    reason: Reason::Value { before: "must be finite and > 0, got ", value: q_crit, after: "" },
                },
            );
        }
        Ok(FloodThreshold { q_crit })
    }

    /// Threshold as the `p`-quantile of a discharge series (`p` in `(0, 1)`),
    /// such as `p = 0.95` for a high-flow level. Non-finite values are ignored.
    pub fn quantile<A: Arithmetic>(series: &[Binary64], p: Binary64) -> (r: Result<FloodThreshold, Error>)
        ensures
            match r {
                Ok(t) => {
                    &&& zero().less(p) && p.less(one())
                    &&& finite_values(series@).len() > 0
                    &&& quantile_of::<A>(series@, p, t.q_crit)
                    &&& t.q_crit.positive_finite()
                },
                Err(e) => if !(zero().less(p) && p.less(one())) {
                    e == (Error::Invalid {
                        name: "p",
                        reason: Reason::Value { before: "quantile must be in (0, 1), got ", value: p, after: "" },
                    })
                } else if finite_values(series@).len() == 0 {
                    e == (Error::Invalid { name: "series", reason: Reason::Text("no finite discharge values") })
                } else {
                    exists|q: Binary64| #[trigger]
                        quantile_of::<A>(series@, p, q) && !q.positive_finite() && e == not_positive("q_crit", q)
                },
            },
    {
        if !(zero().below(p) && p.below(one())) {
            return Err(
                Error::Invalid {
                    name: "p",
                    reason: Reason::Value { before: "quantile must be in (0, 1), got ", value: p, after: "" },
                },
            );
        }
        let values: Vec<Binary64> = keep_finite(series);
        if values.len() == 0 {
            return Err(Error::Invalid { name: "series", reason: Reason::Text("no finite discharge values") });
        }
        let n: usize = values.len();
        let mut keys: Vec<i64> = Vec::new();
        let mut i: usize = 0;
        while i < n
            invariant
                i <= n,
                n == values@.len(),
                keys@.len() == i,
                forall|k: int| 0 <= k < i ==> #[trigger] keys@[k] == values@[k].rank(),
            decreases n - i,
        {
            keys.push(values[i].position());
            i = i + 1;
        }
        assert(keys@ == positions(values@));
        let order: Vec<usize> = order_by(keys.as_slice());
        let last: Binary64 = A::of_count((n - 1) as u64);
        let at: Binary64 = A::times(last, p);
        let whole: Binary64 = A::nearest(at);
        let found: u64 = whole.to_count();
        let index: usize = if found < n as u64 {
            found as usize
        } else {
            n - 1
        };
        let q: Binary64 = values[order[index]];
        proof {
            assert(counts::<A>(n - 1, last));
            assert(multiplies::<A>(last, p, at));
            assert(rounds::<A>(at, whole));
            assert(quantile_index::<A>(n as int, p, index as int));
            assert(quantile_of::<A>(series@, p, q));
        }
        FloodThreshold::new(q)
    }

    /// Exceedance ratio `E = Q / Q_c` (`E >= 1` is a flood).
    pub fn exceedance<A: Arithmetic>(&self, q: Binary64) -> (r: Binary64)
        ensures
            self.exceeds::<A>(q, r),
    {
        A::over(q, self.q_crit)
    }
}

/// Flood nowcast: `flood_susceptibility × trigger(Q / Q_c)` per step.
pub struct FloodNowcast<A: Arithmetic> {
    susceptibility: SusceptibilityMap,
    discharge_mm_day: Vec<Binary64>,
    threshold: FloodThreshold,
    trigger: TriggerModel,
    arithmetic: PhantomData<A>,
}

impl<A: Arithmetic> FloodNowcast<A> {
    /// The exposure map.
    pub closed spec fn map(&self) -> SusceptibilityMap {
        self.susceptibility
    }

    /// The discharge series.
    pub closed spec fn series(&self) -> Seq<Binary64> {
        self.discharge_mm_day@
    }

    /// The flood threshold.
    pub closed spec fn limit(&self) -> FloodThreshold {
        self.threshold
    }

    /// The trigger model.
    pub closed spec fn logistic(&self) -> TriggerModel {
        self.trigger
    }

    /// The discharges are finite and not below zero, the map is a proper one.
    pub open spec fn wf(&self) -> bool {
        self.map().wf() && discharges_accepted(self.series())
    }

    /// `f` is the trigger factor of a step.
    pub open spec fn fires(&self, step: int, f: Binary64) -> bool {
        exists|e: Binary64| #[trigger]
            self.limit().exceeds::<A>(self.series()[step], e) && self.logistic().maps::<A>(e, f)
    }

    /// `values` is the flood-hazard field of a step.
    pub open spec fn nowcasts(&self, step: int, values: Seq<Binary64>) -> bool {
        exists|f: Binary64| #[trigger] self.fires(step, f) && scaled_by::<A>(self.map()@, f, values)
    }

    /// `fields` are the flood-hazard fields of all steps.
    pub open spec fn runs(&self, fields: Seq<Seq<Binary64>>) -> bool {
        &&& fields.len() == self.series().len()
        &&& forall|t: int| 0 <= t < fields.len() ==> self.nowcasts(t, #[trigger] fields[t])
    }

    /// Builds a flood nowcast from a discharge series (mm/day) and an exposure
    /// map. The discharges must be finite and not below zero.
    pub fn new(
        susceptibility: SusceptibilityMap,
        discharge_mm_day: Vec<Binary64>,
        threshold: FloodThreshold,
        trigger: TriggerModel,
    ) -> (r: Result<FloodNowcast<A>, Error>)
        requires
            susceptibility.wf(),
        ensures
            match r {
                Ok(n) => {
                    &&& discharges_accepted(discharge_mm_day@)
                    &&& n.wf()
                    &&& n.map() == susceptibility
                    &&& n.series() == discharge_mm_day@
                    &&& n.limit() == threshold
                    &&& n.logistic() == trigger
                },
                Err(e) => !discharges_accepted(discharge_mm_day@) && e == bad_discharges(),
            },
    {
        match check_discharges(discharge_mm_day.as_slice()) {
            Ok(_) => Ok(
                FloodNowcast { susceptibility, discharge_mm_day, threshold, trigger, arithmetic: PhantomData },
            ),
            Err(e) => Err(e),
        }
    }

    /// Takes the hydrograph from a [`RainflowForcing`].
    pub fn from_rainflow(
        susceptibility: SusceptibilityMap,
        forcing: &RainflowForcing,
        threshold: FloodThreshold,
        trigger: TriggerModel,
    ) -> (r: Result<FloodNowcast<A>, Error>)
        requires
            susceptibility.wf(),
        ensures
            match r {
                Ok(n) => {
                    &&& discharges_accepted(forcing.series())
                    &&& n.wf()
                    &&& n.map() == susceptibility
                    &&& n.series() == forcing.series()
                    &&& n.limit() == threshold
                    &&& n.logistic() == trigger
                },
                Err(e) => !discharges_accepted(forcing.series()) && e == bad_discharges(),
            },
    {
        FloodNowcast::new(susceptibility, copy_values(forcing.discharge()), threshold, trigger)
    }

    /// Number of time steps.
    pub fn n_steps(&self) -> (r: usize)
        ensures
            r == self.series().len(),
    {
        self.discharge_mm_day.len()
    }

    /// The error for a step out of range.
    pub open spec fn no_step(&self, step: usize) -> Error {
        Error::Core(CoreError::OutOfRange { name: "step", index: step, len: self.series().len() as usize })
    }

    /// The error for a cell out of range.
    pub open spec fn no_cell(&self, cell: usize) -> Error {
        Error::Core(CoreError::OutOfRange { name: "cell", index: cell, len: self.map()@.len() as usize })
    }

    fn check_step(&self, step: usize) -> (r: Result<(), Error>)
        ensures
            match r {
                Ok(_) => step < self.series().len(),
                Err(e) => step >= self.series().len() && e == self.no_step(step),
            },
    {
        let n_steps: usize = self.n_steps();
        if step >= n_steps {
            return Err(Error::Core(CoreError::OutOfRange { name: "step", index: step, len: n_steps }));
        }
        Ok(())
    }

    fn check_cell(&self, cell: usize) -> (r: Result<(), Error>)
        requires
            self.wf(),
        ensures
            match r {
                Ok(_) => cell < self.map()@.len(),
                Err(e) => cell >= self.map()@.len() && e == self.no_cell(cell),
            },
    {
        let n_cells: usize = self.susceptibility.dims().len();
        if cell >= n_cells {
            return Err(Error::Core(CoreError::OutOfRange { name: "cell", index: cell, len: n_cells }));
        }
        Ok(())
    }

    fn field(&self, step: usize) -> (r: HazardField)
        requires
            self.wf(),
            step < self.series().len(),
        ensures
            r.wf(),
            r.at_step() == step,
            r.grid() == self.map().grid(),
            self.nowcasts(step as int, r@),
    {
        let e: Binary64 = self.threshold.exceedance::<A>(self.discharge_mm_day[step]);
        let factor: Binary64 = self.trigger.factor::<A>(e);
        let values: Vec<Binary64> = scale::<A>(self.susceptibility.values(), factor);
        assert(self.limit().exceeds::<A>(self.series()[step as int], e));
        assert(self.fires(step as int, factor));
        HazardField::of_values(step, self.susceptibility.dims(), values)
    }

    /// Flood-hazard field for one step. Fails if `step` is out of range.
    pub fn hazard_at(&self, step: usize) -> (r: Result<HazardField, Error>)
        requires
            self.wf(),
        ensures
            match r {
                Ok(f) => {
                    &&& step < self.series().len()
                    &&& f.wf()
                    &&& f.at_step() == step
                    &&& f.grid() == self.map().grid()
                    &&& self.nowcasts(step as int, f@)
                },
                Err(e) => step >= self.series().len() && e == self.no_step(step),
            },
    {
        match self.check_step(step) {
            Ok(_) => Ok(self.field(step)),
            Err(e) => Err(e),
        }
    }

    /// Flood-hazard field for every step.
    pub fn run(&self) -> (r: Vec<HazardField>)
        requires
            self.wf(),
        ensures
            r@.len() == self.series().len(),
            forall|t: int|
                0 <= t < r@.len() ==> (#[trigger] r@[t]).wf() && r@[t].at_step() == t && r@[t].grid()
                    == self.map().grid() && self.nowcasts(t, r@[t]@),
    {
        let n_steps: usize = self.n_steps();
        let mut r: Vec<HazardField> = Vec::new();
        let mut t: usize = 0;
        while t < n_steps
            invariant
                t <= n_steps,
                n_steps == self.series().len(),
                self.wf(),
                r@.len() == t,
                forall|k: int|
                    0 <= k < t ==> (#[trigger] r@[k]).wf() && r@[k].at_step() == k && r@[k].grid() == self.map().grid()
                        && self.nowcasts(k, r@[k]@),
            decreases n_steps - t,
        {
            r.push(self.field(t));
            t = t + 1;
        }
        r
    }

    /// An [`Alert`] for every step whose peak flood hazard reaches `level`.
    ///
    /// The level must be a probability in `[0, 1]`, which is not checked here: with
    /// a NaN no hazard would ever reach it. [`checked_alerts`] refuses any other
    /// level.
    ///
    /// [`checked_alerts`]: FloodNowcast::checked_alerts
    pub fn alerts(&self, level: Binary64) -> (r: Vec<Alert>)
        requires
            self.wf(),
            level.unit(),
        ensures
            exists|fields: Seq<Seq<Binary64>>| #[trigger]
                self.runs(fields) && alerts_of::<A>(self.map().grid(), fields, level, r@),
    {
        let fields: Vec<HazardField> = self.run();
        let alerts: Vec<Alert> = collect_alerts::<A>(self.susceptibility.dims(), &fields, level);
        proof {
            let all = fields@.map_values(|f: HazardField| f@);
            assert forall|t: int| 0 <= t < all.len() implies self.nowcasts(t, #[trigger] all[t]) by {
                assert(self.nowcasts(t, fields@[t]@));
            }
            assert(self.runs(all));
            assert(alerts_of::<A>(self.map().grid(), all, level, alerts@));
        }
        alerts
    }

    /// An [`Alert`] for every step whose peak flood hazard reaches `level`. Fails
    /// if `level` is not a probability in `[0, 1]`.
    pub fn checked_alerts(&self, level: Binary64) -> (r: Result<Vec<Alert>, Error>)
        requires
            self.wf(),
        ensures
            match r {
                Ok(alerts) => level.unit() && exists|fields: Seq<Seq<Binary64>>| #[trigger]
                    self.runs(fields) && alerts_of::<A>(self.map().grid(), fields, level, alerts@),
                Err(e) => !level.unit() && e == Error::Core(bad_alert_level(level)),
            },
    {
        match validate_alert_level(level) {
            Ok(_) => Ok(self.alerts(level)),
            Err(e) => Err(Error::Core(e)),
        }
    }

    /// What an explanation says of a cell and a step.
    pub open spec fn attributes(&self, cell: int, step: int, x: FloodExplanation) -> bool {
        &&& x.cell == cell
        &&& x.step == step
        &&& x.susceptibility == self.map()@[cell]
        &&& x.discharge_mm_day == self.series()[step]
        &&& x.q_crit == self.limit().q_crit
        &&& self.limit().exceeds::<A>(x.discharge_mm_day, x.exceedance)
        &&& self.logistic().maps::<A>(x.exceedance, x.trigger_factor)
        &&& multiplies::<A>(x.susceptibility, x.trigger_factor, x.hazard)
        &&& x.driver.limits::<A>(x.susceptibility, x.trigger_factor, comparable())
    }

    /// Exact attribution of the flood hazard at `cell` / `step`. Floods carry no
    /// I–D window: the trigger is discharge over threshold, `Q / Q_c`. Fails if
    /// `cell` or `step` is out of range.
    pub fn explain(&self, cell: usize, step: usize) -> (r: Result<FloodExplanation, Error>)
        requires
            self.wf(),
        ensures
            match r {
                Ok(x) => cell < self.map()@.len() && step < self.series().len() && self.attributes(
                    cell as int,
                    step as int,
                    x,
                ),
                Err(e) => if cell >= self.map()@.len() {
                    e == self.no_cell(cell)
                } else {
                    step >= self.series().len() && e == self.no_step(step)
                },
            },
    {
        match self.check_cell(cell) {
            Ok(_) => {},
            Err(e) => {
                return Err(e);
            },
        }
        match self.check_step(step) {
            Ok(_) => {},
            Err(e) => {
                return Err(e);
            },
        }
        let q: Binary64 = self.discharge_mm_day[step];
        let exceedance: Binary64 = self.threshold.exceedance::<A>(q);
        let trigger_factor: Binary64 = self.trigger.factor::<A>(exceedance);
        let susceptibility: Binary64 = self.susceptibility.get(cell);
        let hazard: Binary64 = A::times(susceptibility, trigger_factor);
        assert(multiplies::<A>(susceptibility, trigger_factor, hazard));
        Ok(
            FloodExplanation {
                cell,
                step,
                hazard,
                susceptibility,
                trigger_factor,
                discharge_mm_day: q,
                q_crit: self.threshold.q_crit,
                exceedance,
                driver: Driver::classify::<A>(susceptibility, trigger_factor, comparable()),
            },
        )
    }

    /// `r` is the discharge that lifts a cell to an alert level.
    pub open spec fn lifts(&self, cell: int, alert_level: Binary64, r: Option<Binary64>) -> bool {
        exists|needed: Binary64| #[trigger]
            divides::<A>(alert_level, self.map()@[cell], needed) && match r {
                None => !(zero().at_most(needed) && needed.less(one())),
                Some(q) => zero().at_most(needed) && needed.less(one()) && exists|e: Binary64| #[trigger]
                    self.logistic().inverts::<A>(needed, e) && multiplies::<A>(e, self.limit().q_crit, q),
            }
    }

    /// Counterfactual: the discharge (mm/day) that would lift `cell`'s flood
    /// hazard to `alert_level`. `Ok(None)` if the cell's exposure alone cannot
    /// reach it. Fails if `cell` is out of range.
    pub fn discharge_to_alert(&self, cell: usize, alert_level: Binary64) -> (r: Result<Option<Binary64>, Error>)
        requires
            self.wf(),
        ensures
            match r {
                Ok(q) => cell < self.map()@.len() && self.lifts(cell as int, alert_level, q),
                Err(e) => cell >= self.map()@.len() && e == self.no_cell(cell),
            },
    {
        match self.check_cell(cell) {
            Ok(_) => {},
            Err(e) => {
                return Err(e);
            },
        }
        let needed: Binary64 = A::over(alert_level, self.susceptibility.get(cell));
        assert(divides::<A>(alert_level, self.map()@[cell as int], needed));
        if !(zero().not_above(needed) && needed.below(one())) {
            return Ok(None);
        }
        let e: Binary64 = self.trigger.exceedance_for_factor::<A>(needed);
        assert(self.logistic().inverts::<A>(needed, e));
        Ok(Some(A::times(e, self.threshold.q_crit)))
    }
}

impl<A: Arithmetic> Clone for FloodNowcast<A> {
    fn clone(&self) -> (r: FloodNowcast<A>)
        ensures
            r.map().grid() == self.map().grid(),
            r.map()@ == self.map()@,
            r.series() == self.series(),
            r.limit() == self.limit(),
            r.logistic() == self.logistic(),
    {
        FloodNowcast {
            susceptibility: self.susceptibility.clone(),
            discharge_mm_day: copy_values(self.discharge_mm_day.as_slice()),
            threshold: self.threshold,
            trigger: self.trigger,
            arithmetic: PhantomData,
        }
    }
}

/// Exact decomposition of the flood hazard at a cell and a step into its drivers.
#[derive(Debug, Clone, Copy, PartialEq, Eq, Structural)]
pub struct FloodExplanation {
    pub cell: usize,
    pub step: usize,
    pub hazard: Binary64,
    /// Flood exposure at the cell (the "terrain" factor).
    pub susceptibility: Binary64,
    /// Discharge trigger factor in `[0, 1]` (the "hydrology" factor).
    pub trigger_factor: Binary64,
    pub discharge_mm_day: Binary64,
    pub q_crit: Binary64,
    /// Exceedance ratio `Q / Q_c`.
    pub exceedance: Binary64,
    pub driver: Driver,
}

/// The driver of a flood in words.
pub open spec fn flood_words(driver: Driver) -> Seq<char> {
    match driver {
        Driver::TriggerLimited => "limitado por el caudal (crecida insuficiente)"@,
        Driver::TerrainLimited => "limitado por la exposición (zona poco inundable)"@,
        Driver::Balanced => "exposición y caudal comparables"@,
    }
}

fn flood_phrase(driver: Driver) -> (r: &'static str)
    ensures
        r@ == flood_words(driver),
{
    match driver {
        Driver::TriggerLimited => "limitado por el caudal (crecida insuficiente)",
        Driver::TerrainLimited => "limitado por la exposición (zona poco inundable)",
        Driver::Balanced => "exposición y caudal comparables",
    }
}

impl FloodExplanation {
    /// `text` is the account of the explanation.
    pub open spec fn recounts<A: Arithmetic>(self, text: Seq<char>) -> bool {
        exists|
            hazard: Seq<char>,
            susceptibility: Seq<char>,
            factor: Seq<char>,
            discharge: Seq<char>,
            critical: Seq<char>,
            exceedance: Seq<char>,
        |
            {
                &&& #[trigger] shows_rounded::<A>(self.hazard, 2, hazard)
                &&& #[trigger] shows_rounded::<A>(self.susceptibility, 2, susceptibility)
                &&& #[trigger] shows_rounded::<A>(self.trigger_factor, 2, factor)
                &&& #[trigger] shows_rounded::<A>(self.discharge_mm_day, 1, discharge)
                &&& #[trigger] shows_rounded::<A>(self.q_crit, 1, critical)
                &&& #[trigger] shows_rounded::<A>(self.exceedance, 2, exceedance)
                &&& text == "celda "@ + decimal(self.cell as nat) + " paso "@ + decimal(self.step as nat) + ": peligro "@
                    + hazard + " = exposición "@ + susceptibility + " × caudal "@ + factor + "; Q="@ + discharge
                    + " mm/día vs Q_c="@ + critical + " (E="@ + exceedance + "); "@ + flood_words(self.driver)
            }
    }

    /// One-line account of why the flood hazard is what it is.
    pub fn summary<A: Arithmetic>(&self) -> (r: String)
        ensures
            self.recounts::<A>(r@),
    {
        let hazard: String = A::show_rounded(self.hazard, 2);
        let susceptibility: String = A::show_rounded(self.susceptibility, 2);
        let factor: String = A::show_rounded(self.trigger_factor, 2);
        let discharge: String = A::show_rounded(self.discharge_mm_day, 1);
        let critical: String = A::show_rounded(self.q_crit, 1);
        let exceedance: String = A::show_rounded(self.exceedance, 2);
        let mut r: String = String::new();
        r.append("celda ");
        append_decimal(&mut r, self.cell);
        r.append(" paso ");
        append_decimal(&mut r, self.step);
        r.append(": peligro ");
        r.append(hazard.as_str());
        r.append(" = exposición ");
        r.append(susceptibility.as_str());
        r.append(" × caudal ");
        r.append(factor.as_str());
        r.append("; Q=");
        r.append(discharge.as_str());
        r.append(" mm/día vs Q_c=");
        r.append(critical.as_str());
        r.append(" (E=");
        r.append(exceedance.as_str());
        r.append("); ");
        r.append(flood_phrase(self.driver));
        proof {
            assert(shows_rounded::<A>(self.hazard, 2, hazard@));
            assert(shows_rounded::<A>(self.susceptibility, 2, susceptibility@));
            assert(shows_rounded::<A>(self.trigger_factor, 2, factor@));
            assert(shows_rounded::<A>(self.discharge_mm_day, 1, discharge@));
            assert(shows_rounded::<A>(self.q_crit, 1, critical@));
            assert(shows_rounded::<A>(self.exceedance, 2, exceedance@));
            assert(r@ == "celda "@ + decimal(self.cell as nat) + " paso "@ + decimal(self.step as nat) + ": peligro "@
                + hazard@ + " = exposición "@ + susceptibility@ + " × caudal "@ + factor@ + "; Q="@ + discharge@
                + " mm/día vs Q_c="@ + critical@ + " (E="@ + exceedance@ + "); "@ + flood_words(self.driver));
        }
        r
    }
}

/// The flood hazard of a step depends on the discharge of that step alone: two
/// nowcasts that share map, threshold, trigger and the discharge of their steps
/// give the same field there.
pub proof fn lemma_flood_steps_are_independent<A: Arithmetic>(
    a: &FloodNowcast<A>,
    b: &FloodNowcast<A>,
    s: int,
    t: int,
    p: Seq<Binary64>,
    q: Seq<Binary64>,
)
    requires
        deterministic::<A>(),
        a.map()@ == b.map()@,
        a.limit() == b.limit(),
        a.logistic() == b.logistic(),
        a.series()[s] == b.series()[t],
        a.nowcasts(s, p),
        b.nowcasts(t, q),
    ensures
        p == q,
{
    let f = choose|f: Binary64| #[trigger] a.fires(s, f) && scaled_by::<A>(a.map()@, f, p);
    let g = choose|g: Binary64| #[trigger] b.fires(t, g) && scaled_by::<A>(b.map()@, g, q);
    lemma_fires_unique(a, b, s, t, f, g);
    assert forall|c: int| 0 <= c < p.len() implies p[c] == q[c] by {
        assert(multiplies::<A>(a.map()@[c], f, p[c]));
        assert(multiplies::<A>(b.map()@[c], g, q[c]));
    }
}

proof fn lemma_fires_unique<A: Arithmetic>(
    a: &FloodNowcast<A>,
    b: &FloodNowcast<A>,
    s: int,
    t: int,
    f: Binary64,
    g: Binary64,
)
    requires
        deterministic::<A>(),
        a.limit() == b.limit(),
        a.logistic() == b.logistic(),
        a.series()[s] == b.series()[t],
        a.fires(s, f),
        b.fires(t, g),
    ensures
        f == g,
{
    let e = choose|e: Binary64| #[trigger] a.limit().exceeds::<A>(a.series()[s], e) && a.logistic().maps::<A>(e, f);
    let d = choose|d: Binary64| #[trigger] b.limit().exceeds::<A>(b.series()[t], d) && b.logistic().maps::<A>(d, g);
    assert(divides::<A>(a.series()[s], a.limit().q_crit, e));
    assert(divides::<A>(a.series()[s], a.limit().q_crit, d));
    lemma_factor_unique::<A>(a.logistic(), e, f, g);
}

/// A flood attribution is exact: the hazard that it reports for a cell and a step
/// is the one of the flood-hazard field.
pub proof fn lemma_flood_explanation_is_exact<A: Arithmetic>(
    engine: &FloodNowcast<A>,
    cell: int,
    step: int,
    x: FloodExplanation,
    values: Seq<Binary64>,
)
    requires
        deterministic::<A>(),
        0 <= cell < values.len(),
        engine.attributes(cell, step, x),
        engine.nowcasts(step, values),
    ensures
        x.hazard == values[cell],
{
    let f = choose|f: Binary64| #[trigger] engine.fires(step, f) && scaled_by::<A>(engine.map()@, f, values);
    assert(engine.limit().exceeds::<A>(engine.series()[step], x.exceedance));
    assert(engine.fires(step, x.trigger_factor));
    lemma_fires_unique(engine, engine, step, step, f, x.trigger_factor);
    assert(multiplies::<A>(engine.map()@[cell], f, values[cell]));
}

/// A flood hazard is a probability, and never above the exposure of its cell.
pub proof fn lemma_flood_hazard_within_unit<A: Arithmetic>(
    engine: &FloodNowcast<A>,
    step: int,
    values: Seq<Binary64>,
    cell: int,
)
    requires
        rounds_properly::<A>(),
        engine.wf(),
        engine.logistic().k.positive_finite(),
        engine.limit().q_crit.positive_finite(),
        0 <= step < engine.series().len(),
        engine.nowcasts(step, values),
        0 <= cell < values.len(),
    ensures
        values[cell].unit(),
        values[cell].at_most(engine.map()@[cell]),
{
    let f = choose|f: Binary64| #[trigger] engine.fires(step, f) && scaled_by::<A>(engine.map()@, f, values);
    let e = choose|e: Binary64| #[trigger]
        engine.limit().exceeds::<A>(engine.series()[step], e) && engine.logistic().maps::<A>(e, f);
    assert(engine.series()[step].nonnegative_finite());
    assert(divides::<A>(engine.series()[step], engine.limit().q_crit, e));
    lemma_factor_within_unit::<A>(engine.logistic(), e, f);
    assert(multiplies::<A>(engine.map()@[cell], f, values[cell]));
}

/// A flood counterfactual exists exactly where the exposure allows for it: a level
/// at or above the exposure of a cell is out of reach, any lower one within.
pub proof fn lemma_flood_counterfactual_is_capped_by_exposure<A: Arithmetic>(
    engine: &FloodNowcast<A>,
    cell: int,
    alert_level: Binary64,
    r: Option<Binary64>,
)
    requires
        keeps_sides::<A>(),
        engine.wf(),
        0 <= cell < engine.map()@.len(),
        alert_level.positive_finite(),
        engine.lifts(cell, alert_level, r),
    ensures
        engine.map()@[cell].at_most(alert_level) ==> r is None,
        alert_level.less(engine.map()@[cell]) ==> r is Some,
{
    let s = engine.map()@[cell];
    assert(s.unit());
    assert(s.positive_finite() || s.same_number(zero()));
}

/// A flood counterfactual leads back to the level: the hazard of the discharge
/// that lifts a cell to a level is the level within `2^-32`. From half of the
/// exposure on, the discharge lies above zero. The level must not be below
/// `2^-499`, and the steepness and the threshold must be regular.
pub proof fn lemma_flood_counterfactual_returns_to_level<A: Arithmetic>(
    engine: &FloodNowcast<A>,
    ln: spec_fn(real) -> real,
    cell: int,
    alert_level: Binary64,
    discharge: Binary64,
    exceedance: Binary64,
    factor: Binary64,
    hazard: Binary64,
)
    requires
        rounds_properly::<A>(),
        keeps_sides::<A>(),
        rounds_closely::<A>(),
        natural_logarithm(ln),
        logarithm_is_accurate::<A>(ln),
        exponential_is_accurate::<A>(ln),
        engine.logistic().regular(),
        engine.wf(),
        0 <= cell < engine.map()@.len(),
        alert_level.unit(),
        alert_level.less(engine.map()@[cell]),
        alert_level.number() >= 2real * grain(),
        regular(engine.limit().q_crit),
        engine.lifts(cell, alert_level, Some(discharge)),
        engine.limit().exceeds::<A>(discharge, exceedance),
        engine.logistic().maps::<A>(exceedance, factor),
        multiplies::<A>(engine.map()@[cell], factor, hazard),
    ensures
        discharge.finite(),
        hazard.finite(),
        absolute(hazard.number() - alert_level.number()) <= speck(),
        engine.map()@[cell].number() <= 2real * alert_level.number() ==> zero().less(discharge),
{
    let s = engine.map()@[cell];
    let q_crit = engine.limit().q_crit;
    let needed = choose|needed: Binary64| #[trigger]
        divides::<A>(alert_level, s, needed) && zero().at_most(needed) && needed.less(one()) && exists|e: Binary64|
            #[trigger] engine.logistic().inverts::<A>(needed, e) && multiplies::<A>(e, q_crit, discharge);
    let e = choose|e: Binary64| #[trigger]
        engine.logistic().inverts::<A>(needed, e) && multiplies::<A>(e, q_crit, discharge);
    assert(s.unit());
    lemma_signal_returns_to_level::<A>(
        engine.logistic(),
        ln,
        s,
        alert_level,
        needed,
        e,
        q_crit,
        discharge,
        exceedance,
        factor,
        hazard,
    );
}

/// The exceedance of a discharge is its multiple of the threshold, within a
/// neighbouring value.
pub proof fn lemma_exceedance_is_multiple_of_threshold<A: Arithmetic>(threshold: FloodThreshold, q: Binary64, r: Binary64)
    requires
        rounds_closely::<A>(),
        threshold.q_crit.positive_finite(),
        q.finite(),
        absolute(q.number()) <= threshold.q_crit.number() * (pow2(500) as real),
        call_ensures(FloodThreshold::exceedance::<A>, (&threshold, q), r),
    ensures
        rounds_to(q.number() / threshold.q_crit.number(), r),
{
    lemma_small_numbers();
    lemma_scales();
    lemma_rank_orders_numbers(zero(), threshold.q_crit);
    let (x, y) = (q.number(), threshold.q_crit.number());
    lemma_quotient_of(x, y);
    lemma_quotient_bound(x, y, x / y, pow2(500) as real);
}

/// The flood hazard of a cell is its exposure times the trigger factor of the
/// multiple of the threshold that the discharge of the step reaches, each within a
/// neighbouring value. Of what is returned, the first is that multiple, the second
/// its factor.
pub proof fn lemma_flood_hazard_is_exposure_times_factor<A: Arithmetic>(
    nowcast: &FloodNowcast<A>,
    step: usize,
    field: HazardField,
    cell: int,
) -> (r: (Binary64, Binary64))
    requires
        rounds_closely::<A>(),
        rounds_properly::<A>(),
        nowcast.wf(),
        nowcast.limit().q_crit.positive_finite(),
        nowcast.logistic().k.positive_finite(),
        0 <= cell < nowcast.map()@.len(),
        step < nowcast.series().len(),
        nowcast.series()[step as int].number() <= nowcast.limit().q_crit.number() * (pow2(500) as real),
        call_ensures(FloodNowcast::<A>::hazard_at, (nowcast, step), Ok::<HazardField, Error>(field)),
    ensures
        rounds_to(nowcast.series()[step as int].number() / nowcast.limit().q_crit.number(), r.0),
        nowcast.logistic().maps::<A>(r.0, r.1),
        r.1.unit(),
        rounds_to(nowcast.map()@[cell].number() * r.1.number(), field@[cell]),
{
    let f = choose|f: Binary64| #[trigger] nowcast.fires(step as int, f) && scaled_by::<A>(nowcast.map()@, f, field@);
    let q = nowcast.series()[step as int];
    let e = choose|e: Binary64| #[trigger] nowcast.limit().exceeds::<A>(q, e) && nowcast.logistic().maps::<A>(e, f);
    lemma_small_numbers();
    lemma_scales();
    assert(q.nonnegative_finite());
    lemma_rank_orders_numbers(q, zero());
    lemma_rank_orders_numbers(zero(), nowcast.limit().q_crit);
    let (x, y) = (q.number(), nowcast.limit().q_crit.number());
    lemma_quotient_of(x, y);
    lemma_quotient_bound(x, y, x / y, pow2(500) as real);
    assert(rounds_to(x / y, e));
    lemma_factor_within_unit::<A>(nowcast.logistic(), e, f);
    lemma_unit_number(f);
    assert(nowcast.map()@[cell].unit());
    lemma_unit_number(nowcast.map()@[cell]);
    lemma_part_of(nowcast.map()@[cell].number(), f.number());
    assert(multiplies::<A>(nowcast.map()@[cell], f, field@[cell]));
    (e, f)
}

/// A discharge series gives at each step the depth of its rate over the length of
/// a step, within rounding, the same at every cell.
pub proof fn lemma_depth_is_rate_times_days<A: Arithmetic>(
    dims: GridDims,
    dt_days: Binary64,
    discharge: Vec<Binary64>,
    forcing: RainflowForcing,
    cell: int,
    step: int,
)
    requires
        rounds_closely::<A>(),
        0 <= step < discharge@.len(),
        grain() <= dt_days.number() <= pow2(500) as real,
        discharge@[step].number() <= pow2(500) as real,
        call_ensures(
            RainflowForcing::new::<A>,
            (dims, dt_days, discharge),
            Ok::<RainflowForcing, Error>(forcing),
        ),
    ensures
        rounds_to(24real * dt_days.number(), forcing.hours()),
        ({
            let depth = forcing.depth(cell, step);
            let exact = discharge@[step].number() * dt_days.number();
            depth.finite() && absolute(depth.number() - exact) <= ulp(5real * exact) + tiny()
        }),
{
    let hours = forcing.hours();
    let days = choose|days: Binary64| #[trigger]
        divides::<A>(hours, hours_per_day(), days) && scaled_by::<A>(discharge@, days, forcing.depths());
    lemma_small_numbers();
    lemma_scales();
    lemma_hours_per_day();
    let rate = discharge@[step];
    assert(rate.nonnegative_finite());
    lemma_rank_orders_numbers(rate, zero());
    let (q, d, y) = (rate.number(), dt_days.number(), days.number());
    let size = pow2(500) as real;
    assert(d * 24real == 24real * d);
    assert(rounds_to(24real * d, hours));
    assert(rounds_to(hours.number() / 24real, days));
    let part = 3real / 0x10_0000_0000_0000real;
    assert(part * d == ulp(3real * d)) by (nonlinear_arith)
        requires
            part == 3real / 0x10_0000_0000_0000real,
    ;
    assert(absolute(y - d) <= ulp(3real * d));
    assert(0real * q == 0real);
    lemma_parts_of_product(q, q, 0real, d, y, part);
    let exact = q * d;
    assert((2real * 0real + part) * exact == ulp(3real * exact)) by (nonlinear_arith)
        requires
            part == 3real / 0x10_0000_0000_0000real,
    ;
    assert(0real <= exact && exact <= size * size) by (nonlinear_arith)
        requires
            exact == q * d,
            0real <= q <= size,
            0real <= d <= size,
    ;
    assert(multiplies::<A>(rate, days, forcing.depths()[step]));
    assert(rounds_to(q * y, forcing.depths()[step]));
}

/// Whether an order lists indices once each, and values in it ascend.
pub open spec fn ascends(values: Seq<Binary64>, order: Seq<usize>) -> bool {
    &&& order.len() == values.len()
    &&& forall|i: int| 0 <= i < order.len() ==> (#[trigger] order[i]) < values.len()
    &&& forall|i: int, j: int|
        0 <= i < j < order.len() ==> #[trigger] order[i] != #[trigger] order[j] && values[order[i] as int].number()
            <= values[order[j] as int].number()
}

/// A quantile threshold is a value of the series: the one at the place in the
/// ascending order of the finite values that is nearest to the share of the last
/// place. Of what is returned, the first is the order, the second the place.
pub proof fn lemma_quantile_is_value_at_place<A: Arithmetic>(
    series: &[Binary64],
    p: Binary64,
    threshold: FloodThreshold,
) -> (r: (Seq<usize>, int))
    requires
        rounds_closely::<A>(),
        rounds_to_whole::<A>(),
        finite_values(series@).len() <= 0x100_0000_0000,
        call_ensures(FloodThreshold::quantile::<A>, (series, p), Ok::<FloodThreshold, Error>(threshold)),
    ensures
        ascends(finite_values(series@), r.0),
        0 <= r.1 < finite_values(series@).len(),
        threshold.q_crit == finite_values(series@)[r.0[r.1] as int],
        absolute(r.1 as real - ((finite_values(series@).len() - 1) as real) * p.number()) <= 1real / 2real + ulp(
            finite_values(series@).len() as real,
        ),
{
    let values = finite_values(series@);
    let n = values.len() as int;
    let (order, index) = choose|order: Seq<usize>, index: int| #[trigger]
        ranks(positions(values), order) && #[trigger] quantile_index::<A>(n, p, index) && threshold.q_crit
            == values[order[index] as int];
    let (last, at, whole) = choose|last: Binary64, at: Binary64, whole: Binary64|
        {
            &&& #[trigger] counts::<A>(n - 1, last)
            &&& #[trigger] multiplies::<A>(last, p, at)
            &&& #[trigger] rounds::<A>(at, whole)
            &&& index == if whole.integer_part() < n {
                whole.integer_part() as int
            } else {
                n - 1
            }
        };
    lemma_small_numbers();
    lemma_scales();
    lemma_rank_orders_numbers(zero(), p);
    lemma_rank_orders_numbers(p, one());
    let l = (n - 1) as real;
    lemma_part_of(l, p.number());
    let exact = l * p.number();
    assert(rounds_to(exact, at));
    assert(rounds::<A>(at, whole));
    let k = choose|k: int| #[trigger] is_whole(whole.number(), k);
    assert(absolute(whole.number() - exact) <= 1real / 2real + ulp(l) + tiny());
    assert(k as real <= l + 3real / 4real);
    assert(k as real >= -(3real / 4real));
    assert(0 <= k <= n - 1);
    lemma_whole_part(whole);
    assert(whole.integer_part() == k);
    let keys = positions(values);
    assert forall|i: int, j: int| 0 <= i < j < order.len() implies #[trigger] order[i] != #[trigger] order[j]
        && values[order[i] as int].number() <= values[order[j] as int].number() by {
        assert(crate::ranking::comes_before(keys, order[i] as int, order[j] as int));
        lemma_rank_orders_numbers(values[order[j] as int], values[order[i] as int]);
    }
    (order, index)
}

/// The values that a quantile is taken of are the finite ones of the series.
pub proof fn lemma_finite_values_are_all(series: Seq<Binary64>, x: Binary64)
    ensures
        finite_values(series).contains(x) <==> series.contains(x) && x.finite(),
    decreases series.len(),
{
    reveal(Seq::filter);
    let finite = |x: Binary64| x.finite();
    if series.len() > 0 {
        let rest = series.drop_last();
        lemma_finite_values_are_all(rest, x);
        assert(series == rest.push(series.last()));
        vstd::seq_lib::lemma_seq_contains_after_push(rest, series.last(), x);
        vstd::seq_lib::lemma_seq_contains_after_push(rest.filter(finite), series.last(), x);
    }
}

} // verus!
