//! What the verbs of the command line compute: the run report, the stream of a
//! gauge, the backtest with its sweep, and the calibration.

use vstd::prelude::*;

use crate::arithmetic::{
    deterministic, multiplies, reads, rounds_aside, rounds_properly, shows_rounded, sums, Arithmetic,
};
use crate::backtest::{alerted_months, lemma_monthly_totals, monthly_contingency, scores_months};
use crate::binary64::{half, one, zero, Binary64, INFINITE};
use crate::calendar::{csv_month_keys, month_of_dated_line, MonthKey};
use crate::calibrate::{all_finite, first_infinite, fits, unfit, Calibrator};
use crate::columns::{column_of, csv_pairs, pair_cells, pair_of, paired, unpaired_line};
use crate::contingency::{score, Contingency};
use crate::error::{Error, Reason};
use crate::forcing::{bad_depths, bad_step_length, depths_accepted, depths_until, Forcing, UniformRain};
use crate::grid::{copy_values, first_outside_unit, GridDims, SusceptibilityMap};
use crate::hazard::{alerts_at, bad_alert_level, bad_hazard, peak, Alert, HazardField};
use crate::inputs::{gauge_depths, make_nowcast, EngineArgs};
use crate::kernel::{accumulates, lemma_accumulates_unique, recent, Kernel};
use crate::live::{hazard_refused, live_field, step_accepted, step_refused, LiveNowcast};
use crate::nowcast::{no_window, Nowcast};
use crate::raster::billionth;
use crate::reliability::{
    improbable_prediction, no_predictions, not_a_number, reliability, reliability_of, unaligned_predictions, Reliability,
};
use crate::text::{characters, lines, split, split_on, views};
use crate::threshold::{lemma_worst_window_unique, worst_window_of};
use crate::trigger::lemma_half_on_the_curve;
use crate::usage::Usage;

verus! {

/// The exit code of a verb: two where it raised an alert, zero where it ran
/// quietly, one where it failed.
pub fn exit_code(alerted: Option<bool>) -> (r: u8)
    ensures
        r == (match alerted {
            Some(true) => 2u8,
            Some(false) => 0,
            None => 1,
        }),
{
    match alerted {
        Some(true) => 2,
        Some(false) => 0,
        None => 1,
    }
}

/// `text` is a score with two decimals, or a dash where there is none.
pub open spec fn shows_score<A: Arithmetic>(x: Option<Binary64>, text: Seq<char>) -> bool {
    match x {
        Some(v) => shows_rounded::<A>(v, 2, text),
        None => text == " -  "@,
    }
}

/// A score with two decimals, or a dash where there is none.
pub fn fmt<A: Arithmetic>(x: Option<Binary64>) -> (r: String)
    ensures
        shows_score::<A>(x, r@),
{
    match x {
        Some(v) => {
            let text: String = A::show_rounded(v, 2);
            assert(shows_rounded::<A>(v, 2, text@));
            text
        },
        None => " -  ".to_owned(),
    }
}

/// `values` are raw indices mapped through a calibrator.
pub open spec fn calibrated<A: Arithmetic>(cal: Calibrator, raw: Seq<Binary64>, values: Seq<Binary64>) -> bool {
    &&& values.len() == raw.len()
    &&& forall|i: int| 0 <= i < values.len() ==> cal.gives::<A>(raw[i], #[trigger] values[i])
}

/// The error of mapping raw indices through a calibrator: an index that is not
/// finite, or an outcome that is no probability.
pub open spec fn calibration_refused<A: Arithmetic>(cal: Calibrator, raw: Seq<Binary64>, e: Error) -> bool {
    ||| exists|i: int| #[trigger]
        first_infinite(raw, i) && e == (Error::InvalidParameter {
            name: "scores",
            reason: Reason::Value { before: "must all be finite, got ", value: raw[i], after: "" },
        })
    ||| all_finite(raw) && exists|values: Seq<Binary64>, cell: int| #[trigger]
        calibrated::<A>(cal, raw, values) && #[trigger] first_outside_unit(values, cell) && e == bad_hazard(
            cell,
            values[cell],
        )
}

/// Maps a hazard field through a fitted calibrator (index → probability).
pub fn calibrate_field<A: Arithmetic>(field: &HazardField, cal: &Calibrator) -> (r: Result<HazardField, Error>)
    requires
        field.wf(),
        cal.usable(),
    ensures
        match r {
            Ok(f) => {
                &&& all_finite(field@)
                &&& f.wf()
                &&& f.at_step() == field.at_step()
                &&& f.grid() == field.grid()
                &&& calibrated::<A>(*cal, field@, f@)
                &&& forall|c: int| 0 <= c < f@.len() ==> (#[trigger] f@[c]).unit()
            },
            Err(e) => calibration_refused::<A>(*cal, field@, e),
        },
{
    match cal.calibrate::<A>(field.probability()) {
        Ok(values) => {
            assert(calibrated::<A>(*cal, field@, values@));
            HazardField::new(field.step_index(), field.dims(), values)
        },
        Err(e) => Err(e),
    }
}

/// What a run says of a step.
#[derive(Debug, Clone, Copy, PartialEq, Eq, Structural)]
pub struct StepReport {
    pub step: usize,
    /// The alert of the step, where it raised one.
    pub alert: Option<Alert>,
    /// Peak hazard of the step.
    pub max_probability: Binary64,
}

/// What a run says of all steps.
#[derive(Debug)]
pub struct RunReport {
    pub steps: Vec<StepReport>,
    /// Number of steps that raised an alert.
    pub n_alerts: usize,
}

/// The steps that raised an alert.
pub open spec fn raised(steps: Seq<StepReport>) -> Seq<StepReport> {
    steps.filter(|s: StepReport| s.alert is Some)
}

/// `report` says what a field gives at an alert level.
pub open spec fn reports<A: Arithmetic>(field: HazardField, level: Binary64, report: StepReport) -> bool {
    &&& report.step == field.at_step()
    &&& report.max_probability == peak(field@)
    &&& alerts_at::<A>(field.at_step(), field.grid(), field@, level, report.alert)
}

/// Reports a run: peak hazard and alert of every step. Fails where rasters are to
/// be written but nothing is georeferenced, or where there is a step and the alert
/// level is no probability.
pub fn report_run<A: Arithmetic>(
    fields: &[HazardField],
    alert_level: Binary64,
    writes_rasters: bool,
    georeferenced: bool,
) -> (r: Result<RunReport, Usage>)
    requires
        forall|i: int| 0 <= i < fields@.len() ==> (#[trigger] fields@[i]).wf(),
    ensures
        match r {
            Ok(report) => {
                &&& writes_rasters ==> georeferenced
                &&& fields@.len() > 0 ==> alert_level.unit()
                &&& report.steps@.len() == fields@.len()
                &&& forall|i: int|
                    0 <= i < fields@.len() ==> reports::<A>(fields@[i], alert_level, #[trigger] report.steps@[i])
                &&& report.n_alerts == raised(report.steps@).len()
            },
            Err(e) => if writes_rasters && !georeferenced {
                e == Usage::NoGeoreference
            } else {
                fields@.len() > 0 && !alert_level.unit() && e == Usage::Core(bad_alert_level(alert_level))
            },
        },
{
    if writes_rasters && !georeferenced {
        return Err(Usage::NoGeoreference);
    }
    let ghost p = |s: StepReport| s.alert is Some;
    let mut steps: Vec<StepReport> = Vec::new();
    let mut n_alerts: usize = 0;
    let mut i: usize = 0;
    assert(steps@.filter(p).len() == 0) by {
        reveal(Seq::filter);
    }
    while i < fields.len()
        invariant
            i <= fields@.len(),
            writes_rasters ==> georeferenced,
            i > 0 ==> alert_level.unit(),
            forall|k: int| 0 <= k < fields@.len() ==> (#[trigger] fields@[k]).wf(),
            p == (|s: StepReport| s.alert is Some),
            steps@.len() == i,
            forall|k: int| 0 <= k < i ==> reports::<A>(fields@[k], alert_level, #[trigger] steps@[k]),
            n_alerts == steps@.filter(p).len(),
            n_alerts <= i,
        decreases fields@.len() - i,
    {
        assert(fields@[i as int].wf());
        let alert: Option<Alert> = match fields[i].alert::<A>(alert_level) {
            Ok(a) => a,
            Err(e) => {
                return Err(Usage::Core(e));
            },
        };
        if alert.is_some() {
            n_alerts = n_alerts + 1;
        }
        let report = StepReport { step: fields[i].step_index(), alert, max_probability: fields[i].max_probability() };
        proof {
            let next = steps@.push(report);
            assert(next.drop_last() == steps@);
            reveal(Seq::filter);
        }
        steps.push(report);
        i = i + 1;
    }
    Ok(RunReport { steps, n_alerts })
}

/// What a stream says of a step.
#[derive(Debug, Clone, Copy, PartialEq, Eq, Structural)]
pub struct WatchStep {
    pub step: usize,
    pub rain_mm: Binary64,
    pub max_probability: Binary64,
    /// The alert of the step, where it raised one.
    pub alert: Option<Alert>,
}

/// A gauge that is streamed through the real-time engine, one row per step.
pub struct Watch<A: Arithmetic> {
    engine: LiveNowcast<A>,
    depths: Vec<Binary64>,
    alert_level: Binary64,
    calibrator: Option<Calibrator>,
    n_alerts: usize,
}

/// One gauge broadcast over a grid.
pub open spec fn broadcast_over(cells: nat, depth: Binary64) -> Seq<Binary64> {
    Seq::new(cells, |c: int| depth)
}

/// `shown` are hazards as a stream shows them: mapped through the calibrator,
/// where there is one.
pub open spec fn shown_as<A: Arithmetic>(cal: Option<Calibrator>, raw: Seq<Binary64>, shown: Seq<Binary64>) -> bool {
    match cal {
        Some(c) => calibrated::<A>(c, raw, shown),
        None => shown == raw,
    }
}

impl<A: Arithmetic> Watch<A> {
    /// The susceptibility map of the stream.
    pub closed spec fn map(&self) -> SusceptibilityMap {
        self.engine.map()
    }

    /// The parameters of the engine.
    pub closed spec fn parameters(&self) -> Kernel {
        self.engine.parameters()
    }

    /// The rows of the gauge.
    pub closed spec fn series(&self) -> Seq<Binary64> {
        self.depths@
    }

    /// The alert level.
    pub closed spec fn level(&self) -> Binary64 {
        self.alert_level
    }

    /// The calibrator.
    pub closed spec fn mapping(&self) -> Option<Calibrator> {
        self.calibrator
    }

    /// The steps that the engine has ingested.
    pub closed spec fn ingested(&self) -> Seq<Seq<Binary64>> {
        self.engine.ingested()
    }

    /// The number of alerts so far.
    pub closed spec fn alerts_so_far(&self) -> nat {
        self.n_alerts as nat
    }

    /// The engine has ingested rows of the gauge, and no more alerts were raised
    /// than rows.
    pub closed spec fn wf(&self) -> bool {
        &&& self.engine.wf()
        &&& self.engine.map().wf()
        &&& self.engine.ingested().len() <= self.depths@.len()
        &&& self.n_alerts <= self.engine.ingested().len()
        &&& self.calibrator is Some ==> self.calibrator->0.usable()
    }

    /// Starts a stream. Fails where a parameter of the engine is not admissible.
    pub fn new(
        susc: SusceptibilityMap,
        depths: Vec<Binary64>,
        engine: &EngineArgs,
        dt_hours: Binary64,
        alert_level: Binary64,
        calibrator: Option<Calibrator>,
    ) -> (r: Result<Watch<A>, Error>)
        requires
            susc.wf(),
            calibrator is Some ==> calibrator->0.usable(),
        ensures
            match r {
                Ok(w) => {
                    &&& engine.refused() is None
                    &&& engine.max_window > 0
                    &&& dt_hours.positive_finite()
                    &&& w.wf()
                    &&& w.map() == susc
                    &&& w.parameters() == engine.kernel(dt_hours)
                    &&& w.series() == depths@
                    &&& w.level() == alert_level
                    &&& w.mapping() == calibrator
                    &&& w.ingested() == Seq::<Seq<Binary64>>::empty()
                    &&& w.alerts_so_far() == 0
                },
                Err(e) => if engine.refused() is Some {
                    Some(e) == engine.refused()
                } else if engine.max_window == 0 {
                    e == no_window()
                } else {
                    !dt_hours.positive_finite() && e == (Error::InvalidParameter {
                        name: "dt_hours",
                        reason: Reason::Value { before: "must be finite and > 0, got ", value: dt_hours, after: "" },
                    })
                },
            },
    {
        match engine.models() {
            Ok((threshold, trigger)) => match LiveNowcast::new(susc, threshold, trigger, engine.max_window, dt_hours) {
                Ok(live) => Ok(Watch { engine: live, depths, alert_level, calibrator, n_alerts: 0 }),
                Err(e) => Err(e),
            },
            Err(e) => Err(e),
        }
    }

    /// The next row of the gauge, broadcast over the grid.
    pub open spec fn next_row(&self) -> Seq<Binary64> {
        broadcast_over(self.map()@.len(), self.series()[self.ingested().len() as int])
    }

    /// `s` is what the stream says of the next row.
    pub open spec fn watches(&self, s: WatchStep) -> bool {
        let t = self.ingested().len() as int;
        let row = self.next_row();
        &&& s.step == t
        &&& s.rain_mm == self.series()[t]
        &&& exists|raw: Seq<Binary64>, shown: Seq<Binary64>|
            {
                &&& #[trigger] live_field::<A>(self.map()@, self.parameters(), self.ingested().push(row), raw)
                &&& #[trigger] shown_as::<A>(self.mapping(), raw, shown)
                &&& s.max_probability == peak(shown)
                &&& alerts_at::<A>(s.step, self.map().grid(), shown, self.level(), s.alert)
            }
    }

    /// `e` is why the stream stops at the next row: the engine refuses the row or
    /// its hazard, the calibrator refuses the hazard, or the alert level is no
    /// probability.
    pub open spec fn stops(&self, e: Error) -> bool {
        let t = self.ingested().len() as int;
        let row = self.next_row();
        let dims = self.map().grid();
        if !step_accepted(dims, row) {
            step_refused(dims, t, row, e)
        } else {
            ||| hazard_refused::<A>(self.map()@, self.parameters(), self.ingested().push(row), e)
            ||| self.mapping() is Some && exists|raw: Seq<Binary64>| #[trigger]
                live_field::<A>(self.map()@, self.parameters(), self.ingested().push(row), raw)
                    && calibration_refused::<A>(self.mapping()->0, raw, e)
            ||| !self.level().unit() && e == bad_alert_level(self.level())
        }
    }

    /// Streams the next row of the gauge: what it gives, or `None` behind the last
    /// row.
    pub fn next(&mut self) -> (r: Result<Option<WatchStep>, Error>)
        requires
            old(self).wf(),
        ensures
            final(self).wf(),
            final(self).map() == old(self).map(),
            final(self).parameters() == old(self).parameters(),
            final(self).series() == old(self).series(),
            final(self).level() == old(self).level(),
            final(self).mapping() == old(self).mapping(),
            match r {
                Ok(Some(s)) => {
                    &&& old(self).ingested().len() < old(self).series().len()
                    &&& old(self).level().unit()
                    &&& old(self).watches(s)
                    &&& final(self).ingested() == old(self).ingested().push(old(self).next_row())
                    &&& final(self).alerts_so_far() == old(self).alerts_so_far() + if s.alert is Some {
                        1nat
                    } else {
                        0nat
                    }
                },
                Ok(None) => {
                    &&& old(self).ingested().len() == old(self).series().len()
                    &&& final(self).ingested() == old(self).ingested()
                    &&& final(self).alerts_so_far() == old(self).alerts_so_far()
                },
                Err(e) => {
                    &&& old(self).ingested().len() < old(self).series().len()
                    &&& old(self).stops(e)
                    &&& final(self).ingested() == if step_accepted(old(self).map().grid(), old(self).next_row()) {
                        old(self).ingested().push(old(self).next_row())
                    } else {
                        old(self).ingested()
                    }
                    &&& final(self).alerts_so_far() == old(self).alerts_so_far()
                },
            },
    {
        let t: usize = self.engine.step_index();
        if t >= self.depths.len() {
            return Ok(None);
        }
        let total: usize = self.depths.len();
        let rain: Binary64 = self.depths[t];
        let dims: GridDims = self.engine.dims();
        let n: usize = dims.len();
        let mut row: Vec<Binary64> = Vec::new();
        let mut c: usize = 0;
        while c < n
            invariant
                c <= n,
                row@.len() == c,
                forall|k: int| 0 <= k < c ==> #[trigger] row@[k] == rain,
            decreases n - c,
        {
            row.push(rain);
            c = c + 1;
        }
        let ghost was = *self;
        assert(row@ == was.next_row());
        let mut field: HazardField = match self.engine.push(row.as_slice()) {
            Ok(f) => f,
            Err(e) => {
                assert(was.stops(e));
                return Err(e);
            },
        };
        let ghost raw = field@;
        let ghost after = was.ingested().push(row@);
        assert(live_field::<A>(was.map()@, was.parameters(), after, raw));
        if let Some(cal) = &self.calibrator {
            field = match calibrate_field::<A>(&field, cal) {
                Ok(f) => f,
                Err(e) => {
                    assert(calibration_refused::<A>(was.mapping()->0, raw, e));
                    assert(was.stops(e));
                    return Err(e);
                },
            };
        }
        assert(shown_as::<A>(was.mapping(), raw, field@));
        let alert: Option<Alert> = match field.alert::<A>(self.alert_level) {
            Ok(a) => a,
            Err(e) => {
                assert(was.stops(e));
                return Err(e);
            },
        };
        if alert.is_some() {
            self.n_alerts = self.n_alerts + 1;
        }
        let s = WatchStep { step: t, rain_mm: rain, max_probability: field.max_probability(), alert };
        assert(was.watches(s));
        Ok(Some(s))
    }

    /// Number of alerts so far.
    pub fn n_alerts(&self) -> (r: usize)
        ensures
            r == self.alerts_so_far(),
    {
        self.n_alerts
    }
}

/// The depths of a dated gauge file and the month of each of them. Fails where the
/// column holds no number, or where dates and depths do not come in pairs.
pub fn gauge_series<A: Arithmetic>(file: &str, text: &str, column: usize) -> (r: Result<
    (Vec<Binary64>, Vec<MonthKey>),
    Usage,
>)
    ensures
        exists|depths: Seq<Binary64>| #[trigger]
            column_of::<A>(text@, column as int, depths) && ({
                let months = lines(text@).filter_map(|line: Seq<char>| month_of_dated_line(line));
                match r {
                    Ok((d, m)) => d@ == depths && m@ == months && depths.len() > 0 && months.len() == depths.len(),
                    Err(Usage::NoValues { column: c, file: f }) => depths.len() == 0 && c == column && f@ == file@,
                    Err(e) => depths.len() > 0 && months.len() != depths.len() && e == (Usage::Undated {
                        dated: months.len() as usize,
                        depths: depths.len() as usize,
                        column,
                    }),
                }
            }),
{
    let depths: Vec<Binary64> = match gauge_depths::<A>(file, text, column) {
        Ok(d) => d,
        Err(u) => {
            return Err(u);
        },
    };
    let months: Vec<MonthKey> = csv_month_keys(text);
    assert(column_of::<A>(text@, column as int, depths@));
    if months.len() != depths.len() {
        return Err(Usage::Undated { dated: months.len(), depths: depths.len(), column });
    }
    Ok((depths, months))
}

/// `days` tells for each step of a gauge whether its trigger factor alone reaches
/// an alert level.
pub open spec fn alarms<A: Arithmetic>(kernel: Kernel, depths: Seq<Binary64>, level: Binary64, days: Seq<bool>) -> bool {
    &&& days.len() == depths.len()
    &&& forall|t: int| 0 <= t < days.len() ==> alarmed::<A>(kernel, depths.take(t + 1), level, #[trigger] days[t])
}

/// `day` tells whether the hazard of the last of some depths reaches a level, on
/// ground that is as susceptible as can be.
pub open spec fn alarmed<A: Arithmetic>(kernel: Kernel, depths: Seq<Binary64>, level: Binary64, day: bool) -> bool {
    exists|p: Binary64| #[trigger]
        kernel.hazard_of::<A>(one(), depths, p) && day == level.at_most(zero().larger(p))
}

/// A level of one half is the curve: a step whose worst window lies on or above
/// the curve is alarmed at that level.
pub proof fn lemma_curve_raises_the_alarm<A: Arithmetic>(
    kernel: Kernel,
    depths: Seq<Binary64>,
    row: Seq<Binary64>,
    exceedance: Binary64,
    m: int,
    day: bool,
)
    requires
        deterministic::<A>(),
        rounds_properly::<A>(),
        rounds_aside::<A>(),
        kernel.trigger.k.positive_finite(),
        accumulates::<A>(depths, row),
        worst_window_of::<A>(
            kernel.threshold,
            kernel.dt_hours,
            recent(row, kernel.max_window_steps as nat),
            exceedance,
            m,
        ),
        one().at_most(exceedance),
        alarmed::<A>(kernel, depths, half(), day),
    ensures
        day,
{
    let window = recent(row, kernel.max_window_steps as nat);
    let p = choose|p: Binary64| #[trigger]
        kernel.hazard_of::<A>(one(), depths, p) && day == half().at_most(zero().larger(p));
    let f = choose|f: Binary64| #[trigger] kernel.factor_of::<A>(depths, f) && multiplies::<A>(one(), f, p);
    let other = choose|other: Seq<Binary64>| #[trigger] accumulates::<A>(depths, other) && kernel.fires::<A>(other, f);
    lemma_accumulates_unique::<A>(depths, row, other, depths.len() as int);
    let (e, n) = choose|e: Binary64, n: int| #[trigger]
        worst_window_of::<A>(kernel.threshold, kernel.dt_hours, window, e, n) && kernel.trigger.maps::<A>(e, f);
    lemma_worst_window_unique::<A>(kernel.threshold, kernel.dt_hours, window, exceedance, m, e, n);
    lemma_half_on_the_curve::<A>(kernel.trigger, e, f);
}

/// Why a gauge cannot be run: its step length, its depths, or a parameter of the
/// engine.
pub open spec fn gauge_refused(depths: Seq<Binary64>, dt_hours: Binary64, engine: EngineArgs) -> Option<Error> {
    if !dt_hours.positive_finite() {
        Some(bad_step_length(dt_hours))
    } else if !depths_accepted(depths) {
        Some(bad_depths())
    } else if engine.refused() is Some {
        engine.refused()
    } else if engine.max_window == 0 {
        Some(no_window())
    } else {
        None
    }
}

/// The steps of a gauge whose hazard reaches an alert level. A single cell with a
/// susceptibility of one reduces the hazard to the trigger factor, so this tests
/// timing alone.
pub fn alert_days<A: Arithmetic>(
    depths: &[Binary64],
    dt_hours: Binary64,
    engine: &EngineArgs,
    alert_level: Binary64,
) -> (r: Result<Vec<bool>, Error>)
    ensures
        match r {
            Ok(days) => gauge_refused(depths@, dt_hours, *engine) is None && alarms::<A>(
                engine.kernel(dt_hours),
                depths@,
                alert_level,
                days@,
            ),
            Err(e) => gauge_refused(depths@, dt_hours, *engine) == Some(e),
        },
{
    let dims: GridDims = GridDims::new(1, 1);
    let forcing: UniformRain = match UniformRain::new(dims, dt_hours, copy_values(depths)) {
        Ok(f) => f,
        Err(e) => {
            return Err(e);
        },
    };
    let susc: SusceptibilityMap = match SusceptibilityMap::uniform(dims, one()) {
        Ok(m) => m,
        Err(e) => {
            return Err(e);
        },
    };
    let nowcast: Nowcast<UniformRain, A> = match make_nowcast::<UniformRain, A>(susc, forcing, engine) {
        Ok(n) => n,
        Err(e) => {
            return Err(e);
        },
    };
    let fields: Vec<HazardField> = nowcast.run();
    let mut days: Vec<bool> = Vec::new();
    let mut t: usize = 0;
    while t < fields.len()
        invariant
            t <= fields@.len(),
            fields@.len() == depths@.len(),
            nowcast.map()@.len() == 1,
            nowcast.map()@[0] == one(),
            nowcast.source()@ == depths@,
            nowcast.parameters() == engine.kernel(dt_hours),
            forall|k: int| 0 <= k < fields@.len() ==> nowcast.nowcasts(k, (#[trigger] fields@[k])@),
            days@.len() == t,
            forall|k: int|
                0 <= k < t ==> alarmed::<A>(
                    engine.kernel(dt_hours),
                    depths@.take(k + 1),
                    alert_level,
                    #[trigger] days@[k],
                ),
        decreases fields@.len() - t,
    {
        let top: Binary64 = fields[t].max_probability();
        let day: bool = alert_level.not_above(top);
        proof {
            let values = fields@[t as int]@;
            assert(nowcast.nowcasts(t as int, values));
            assert(depths_until(&nowcast.source(), 0, t as int) =~= depths@.take(t + 1));
            assert(nowcast.parameters().hazard_of::<A>(one(), depths@.take(t + 1), values[0]));
            assert(values.drop_last() == Seq::<Binary64>::empty());
            assert(values.last() == values[0]);
            assert(peak(values.drop_last()) == zero());
            assert(peak(values) == zero().larger(values[0]));
            assert(alarmed::<A>(engine.kernel(dt_hours), depths@.take(t + 1), alert_level, day));
        }
        days.push(day);
        t = t + 1;
    }
    Ok(days)
}

/// Why a gauge cannot be backtested: it cannot be run, or its dates are not as
/// many as its depths.
pub open spec fn backtest_refused(
    depths: Seq<Binary64>,
    day_month: Seq<MonthKey>,
    dt_hours: Binary64,
    engine: EngineArgs,
) -> Option<Error> {
    if gauge_refused(depths, dt_hours, engine) is Some {
        gauge_refused(depths, dt_hours, engine)
    } else if day_month.len() != depths.len() {
        Some(
            Error::InvalidParameter {
                name: "alert_days",
                reason: Reason::Counts {
                    before: "",
                    first: day_month.len() as usize,
                    between: " day_month entries but ",
                    second: depths.len() as usize,
                    after: " alert_days",
                },
            },
        )
    } else {
        None
    }
}

/// `table` scores the alarms of a dated gauge against an inventory.
pub open spec fn backtested<A: Arithmetic>(
    depths: Seq<Binary64>,
    day_month: Seq<MonthKey>,
    events: Seq<MonthKey>,
    dt_hours: Binary64,
    engine: EngineArgs,
    alert_level: Binary64,
    tol_months: u32,
    table: Contingency,
) -> bool {
    exists|days: Seq<bool>| #[trigger]
        alarms::<A>(engine.kernel(dt_hours), depths, alert_level, days) && scores_months(
            day_month.to_set(),
            alerted_months(day_month, days),
            events.to_set(),
            tol_months as nat,
            table,
        )
}

/// Backtests the trigger of a dated gauge against an inventory of event months.
pub fn backtest<A: Arithmetic>(
    depths: &[Binary64],
    day_month: &[MonthKey],
    events: &[MonthKey],
    dt_hours: Binary64,
    engine: &EngineArgs,
    alert_level: Binary64,
    tol_months: u32,
) -> (r: Result<Contingency, Error>)
    ensures
        match r {
            Ok(table) => backtest_refused(depths@, day_month@, dt_hours, *engine) is None && backtested::<A>(
                depths@,
                day_month@,
                events@,
                dt_hours,
                *engine,
                alert_level,
                tol_months,
                table,
            ),
            Err(e) => backtest_refused(depths@, day_month@, dt_hours, *engine) == Some(e),
        },
{
    let days: Vec<bool> = match alert_days::<A>(depths, dt_hours, engine, alert_level) {
        Ok(d) => d,
        Err(e) => {
            return Err(e);
        },
    };
    monthly_contingency(day_month, days.as_slice(), events, tol_months)
}

/// Minus one, `-1`.
#[verifier::allow_in_spec]
pub fn minus_one() -> Binary64
    returns
        (Binary64 { bits: 0xBFF0_0000_0000_0000 }),
{
    Binary64 { bits: 0xBFF0_0000_0000_0000 }
}

/// The parts of a sweep, as they are called.
pub open spec fn sweep_part(i: int) -> &'static str {
    if i == 0 {
        "MIN"
    } else if i == 1 {
        "MAX"
    } else {
        "STEP"
    }
}

/// `values` are the numbers of the first parts of a text.
pub open spec fn sweep_numbers<A: Arithmetic>(parts: Seq<Seq<char>>, values: Seq<Binary64>) -> bool {
    forall|i: int| 0 <= i < values.len() ==> reads::<A>(parts[i], Some(#[trigger] values[i]))
}

fn sweep_number<A: Arithmetic>(text: &Vec<char>, part: &'static str) -> (r: Result<Binary64, Usage>)
    ensures
        match r {
            Ok(v) => reads::<A>(text@, Some(v)),
            Err(e) => reads::<A>(text@, None) && e == (Usage::SweepNumber { part }),
        },
{
    let value: Option<Binary64> = A::parse(text.as_slice());
    assert(reads::<A>(text@, value));
    match value {
        Some(v) => Ok(v),
        None => Err(Usage::SweepNumber { part }),
    }
}

/// Reads a sweep `MIN:MAX:STEP`, which must go upwards by a step above zero.
pub fn parse_sweep<A: Arithmetic>(spec_text: &str) -> (r: Result<(Binary64, Binary64, Binary64), Usage>)
    ensures
        ({
            let parts = split(spec_text@, ':');
            match r {
                Ok((lo, hi, step)) => {
                    &&& parts.len() == 3
                    &&& sweep_numbers::<A>(parts, seq![lo, hi, step])
                    &&& !step.at_most(zero()) && !hi.less(lo)
                },
                Err(e) => if parts.len() != 3 {
                    e == Usage::SweepForm
                } else {
                    exists|values: Seq<Binary64>| #[trigger]
                        sweep_numbers::<A>(parts, values) && values.len() <= 3 && if values.len() < 3 {
                            reads::<A>(parts[values.len() as int], None) && e == (Usage::SweepNumber {
                                part: sweep_part(values.len() as int),
                            })
                        } else {
                            (values[2].at_most(zero()) || values[1].less(values[0])) && e == Usage::SweepRange
                        }
                },
            }
        }),
{
    let parts: Vec<Vec<char>> = split_on(characters(spec_text).as_slice(), ':');
    let ghost all = split(spec_text@, ':');
    assert(parts@.len() == views(parts@).len());
    if parts.len() != 3 {
        return Err(Usage::SweepForm);
    }
    assert(all[0] == parts@[0]@ && all[1] == parts@[1]@ && all[2] == parts@[2]@);
    let lo: Binary64 = match sweep_number::<A>(&parts[0], "MIN") {
        Ok(v) => v,
        Err(e) => {
            assert(sweep_numbers::<A>(all, Seq::empty()));
            return Err(e);
        },
    };
    let hi: Binary64 = match sweep_number::<A>(&parts[1], "MAX") {
        Ok(v) => v,
        Err(e) => {
            assert(sweep_numbers::<A>(all, seq![lo]));
            return Err(e);
        },
    };
    let step: Binary64 = match sweep_number::<A>(&parts[2], "STEP") {
        Ok(v) => v,
        Err(e) => {
            assert(sweep_numbers::<A>(all, seq![lo, hi]));
            return Err(e);
        },
    };
    assert(sweep_numbers::<A>(all, seq![lo, hi, step]));
    if step.not_above(zero()) || hi.below(lo) {
        return Err(Usage::SweepRange);
    }
    Ok((lo, hi, step))
}

/// A sweep over intercepts: the one that is next, and the best one so far.
///
/// The caller scores each intercept that [`pending`](Sweep::pending) gives and
/// hands the score to [`record`](Sweep::record), until none is pending.
pub struct Sweep {
    at: Binary64,
    hi: Binary64,
    step: Binary64,
    best: (Binary64, Binary64),
    records: Ghost<Seq<(Binary64, Binary64)>>,
}

/// The best of some scored intercepts: the first one with the highest score, and
/// no intercept where none scored above minus one.
pub open spec fn best_of(records: Seq<(Binary64, Binary64)>) -> (Binary64, Binary64)
    decreases records.len(),
{
    if records.len() == 0 {
        (not_a_number(), minus_one())
    } else {
        let before = best_of(records.drop_last());
        if before.1.less(records.last().1) {
            records.last()
        } else {
            before
        }
    }
}

/// The score that counts: zero where there is none.
pub open spec fn counted_score(csi: Option<Binary64>) -> Binary64 {
    match csi {
        Some(v) => v,
        None => zero(),
    }
}

/// Whether an intercept does not pass the end of a sweep by more than a billionth.
pub open spec fn within_end<A: Arithmetic>(intercept: Binary64, end: Binary64, within: bool) -> bool {
    exists|limit: Binary64| #[trigger] sums::<A>(end, billionth(), limit) && within == intercept.at_most(limit)
}

/// One intercept of a sweep: its contingency table and its critical success index.
#[derive(Debug, Clone, Copy, PartialEq, Eq, Structural)]
pub struct SweepRow {
    pub intercept: Binary64,
    pub table: Contingency,
    pub csi: Option<Binary64>,
}

impl SweepRow {
    /// The row scores the backtest at its intercept.
    pub open spec fn scores<A: Arithmetic>(
        self,
        depths: Seq<Binary64>,
        day_month: Seq<MonthKey>,
        events: Seq<MonthKey>,
        dt_hours: Binary64,
        engine: EngineArgs,
        alert_level: Binary64,
        tol_months: u32,
    ) -> bool {
        &&& backtest_refused(depths, day_month, dt_hours, engine.at_intercept(self.intercept)) is None
        &&& backtested::<A>(
            depths,
            day_month,
            events,
            dt_hours,
            engine.at_intercept(self.intercept),
            alert_level,
            tol_months,
            self.table,
        )
        &&& score::<A>(
            self.table.hits as int,
            self.table.hits + self.table.misses + self.table.false_alarms,
            self.csi,
        )
    }
}

impl Sweep {
    /// The next intercept.
    pub closed spec fn intercept(&self) -> Binary64 {
        self.at
    }

    /// The last intercept to go to.
    pub closed spec fn end(&self) -> Binary64 {
        self.hi
    }

    /// The distance between two intercepts.
    pub closed spec fn stride(&self) -> Binary64 {
        self.step
    }

    /// The scored intercepts.
    pub closed spec fn scored(&self) -> Seq<(Binary64, Binary64)> {
        self.records@
    }

    /// The best intercept is that of the scored ones.
    pub closed spec fn wf(&self) -> bool {
        self.best == best_of(self.records@)
    }

    /// Starts a sweep.
    pub fn new(lo: Binary64, hi: Binary64, step: Binary64) -> (r: Sweep)
        ensures
            r.wf(),
            r.intercept() == lo,
            r.end() == hi,
            r.stride() == step,
            r.scored() == Seq::<(Binary64, Binary64)>::empty(),
    {
        Sweep { at: lo, hi, step, best: (not_a_number(), minus_one()), records: Ghost(Seq::empty()) }
    }

    /// The next intercept, where it does not pass the end by more than a
    /// billionth.
    pub fn pending<A: Arithmetic>(&self) -> (r: Option<Binary64>)
        ensures
            within_end::<A>(self.intercept(), self.end(), r is Some),
            r is Some ==> r == Some(self.intercept()),
    {
        let limit: Binary64 = A::plus(self.hi, billionth());
        assert(sums::<A>(self.end(), billionth(), limit));
        if self.at.not_above(limit) {
            Some(self.at)
        } else {
            None
        }
    }

    /// Records the score of the next intercept and moves on.
    pub fn record<A: Arithmetic>(&mut self, csi: Option<Binary64>)
        requires
            old(self).wf(),
        ensures
            final(self).wf(),
            final(self).end() == old(self).end(),
            final(self).stride() == old(self).stride(),
            final(self).scored() == old(self).scored().push((old(self).intercept(), counted_score(csi))),
            sums::<A>(old(self).intercept(), old(self).stride(), final(self).intercept()),
    {
        let score: Binary64 = match csi {
            Some(v) => v,
            None => zero(),
        };
        let entry: (Binary64, Binary64) = (self.at, score);
        let ghost before = self.records@;
        if self.best.1.below(score) {
            self.best = entry;
        }
        self.records = Ghost(before.push(entry));
        assert(before.push(entry).drop_last() == before);
        let next: Binary64 = A::plus(self.at, self.step);
        assert(sums::<A>(self.at, self.step, next));
        self.at = next;
    }

    /// Scores the next intercept: backtests it, records its critical success index
    /// and moves on. `None` behind the end.
    pub fn advance<A: Arithmetic>(
        &mut self,
        depths: &[Binary64],
        day_month: &[MonthKey],
        events: &[MonthKey],
        dt_hours: Binary64,
        engine: &EngineArgs,
        alert_level: Binary64,
        tol_months: u32,
    ) -> (r: Result<Option<SweepRow>, Error>)
        requires
            old(self).wf(),
            2 * day_month@.len() <= u64::MAX,
        ensures
            final(self).wf(),
            final(self).end() == old(self).end(),
            final(self).stride() == old(self).stride(),
            within_end::<A>(old(self).intercept(), old(self).end(), !(r matches Ok(None))),
            match r {
                Ok(Some(row)) => {
                    &&& row.intercept == old(self).intercept()
                    &&& row.scores::<A>(depths@, day_month@, events@, dt_hours, *engine, alert_level, tol_months)
                    &&& final(self).scored() == old(self).scored().push((row.intercept, counted_score(row.csi)))
                    &&& sums::<A>(old(self).intercept(), old(self).stride(), final(self).intercept())
                },
                Ok(None) => *final(self) == *old(self),
                Err(e) => *final(self) == *old(self) && backtest_refused(
                    depths@,
                    day_month@,
                    dt_hours,
                    engine.at_intercept(old(self).intercept()),
                ) == Some(e),
            },
    {
        let intercept: Binary64 = match self.pending::<A>() {
            Some(v) => v,
            None => {
                return Ok(None);
            },
        };
        let at: EngineArgs = engine.with_intercept(intercept);
        match backtest::<A>(depths, day_month, events, dt_hours, &at, alert_level, tol_months) {
            Ok(table) => {
                proof {
                    lemma_backtest_counts::<A>(
                        depths@,
                        day_month@,
                        events@,
                        dt_hours,
                        at,
                        alert_level,
                        tol_months,
                        table,
                    );
                }
                let csi: Option<Binary64> = table.csi::<A>();
                self.record::<A>(csi);
                Ok(Some(SweepRow { intercept, table, csi }))
            },
            Err(e) => Err(e),
        }
    }

    /// The best intercept so far and its score.
    pub fn best(&self) -> (r: (Binary64, Binary64))
        requires
            self.wf(),
        ensures
            r == best_of(self.scored()),
    {
        self.best
    }
}

/// A backtest counts every month of a gauge at most twice.
proof fn lemma_backtest_counts<A: Arithmetic>(
    depths: Seq<Binary64>,
    day_month: Seq<MonthKey>,
    events: Seq<MonthKey>,
    dt_hours: Binary64,
    engine: EngineArgs,
    alert_level: Binary64,
    tol_months: u32,
    table: Contingency,
)
    requires
        backtested::<A>(depths, day_month, events, dt_hours, engine, alert_level, tol_months, table),
    ensures
        table.hits + table.misses + table.false_alarms + table.correct_negatives <= 2 * day_month.len(),
{
    let days = choose|days: Seq<bool>| #[trigger]
        alarms::<A>(engine.kernel(dt_hours), depths, alert_level, days) && scores_months(
            day_month.to_set(),
            alerted_months(day_month, days),
            events.to_set(),
            tol_months as nat,
            table,
        );
    vstd::seq_lib::seq_to_set_is_finite(day_month);
    vstd::seq_lib::seq_to_set_is_finite(events);
    day_month.lemma_cardinality_of_set();
    lemma_monthly_totals(
        day_month.to_set(),
        alerted_months(day_month, days),
        events.to_set(),
        tol_months as nat,
        table,
    );
}

/// The scored intercepts of rows.
pub open spec fn scored_rows(rows: Seq<SweepRow>) -> Seq<(Binary64, Binary64)> {
    rows.map_values(|row: SweepRow| (row.intercept, counted_score(row.csi)))
}

/// The intercepts of rows start at one value and follow each other at a stride,
/// none beyond the end; `next` follows the last one.
pub open spec fn steps_through<A: Arithmetic>(
    lo: Binary64,
    hi: Binary64,
    stride: Binary64,
    rows: Seq<SweepRow>,
    next: Binary64,
) -> bool {
    &&& forall|i: int| 0 <= i < rows.len() ==> within_end::<A>((#[trigger] rows[i]).intercept, hi, true)
    &&& rows.len() == 0 ==> next == lo
    &&& rows.len() > 0 ==> rows[0].intercept == lo && sums::<A>(rows.last().intercept, stride, next)
    &&& forall|i: int|
        0 < i < rows.len() ==> sums::<A>(rows[i - 1].intercept, stride, (#[trigger] rows[i]).intercept)
}

/// Every row scores the backtest at its intercept.
pub open spec fn all_scored<A: Arithmetic>(
    rows: Seq<SweepRow>,
    depths: Seq<Binary64>,
    day_month: Seq<MonthKey>,
    events: Seq<MonthKey>,
    dt_hours: Binary64,
    engine: EngineArgs,
    alert_level: Binary64,
    tol_months: u32,
) -> bool {
    forall|i: int|
        0 <= i < rows.len() ==> (#[trigger] rows[i]).scores::<A>(
            depths,
            day_month,
            events,
            dt_hours,
            engine,
            alert_level,
            tol_months,
        )
}

/// All intercepts of a sweep with their tables, and the best of them.
#[derive(Debug)]
pub struct Swept {
    pub rows: Vec<SweepRow>,
    /// The intercept with the highest critical success index, and the index.
    pub best: (Binary64, Binary64),
}

/// Sweeps the intercept of the curve from `lo` to `hi` and backtests each value.
///
/// `Ok(None)` where a stride does not move an intercept on, so that the sweep
/// would never end. Fails at the first intercept that cannot be backtested.
pub fn sweep<A: Arithmetic>(
    depths: &[Binary64],
    day_month: &[MonthKey],
    events: &[MonthKey],
    dt_hours: Binary64,
    engine: &EngineArgs,
    alert_level: Binary64,
    tol_months: u32,
    lo: Binary64,
    hi: Binary64,
    stride: Binary64,
) -> (r: Result<Option<Swept>, Error>)
    requires
        2 * day_month@.len() <= u64::MAX,
    ensures
        match r {
            Ok(Some(s)) => {
                &&& exists|next: Binary64| #[trigger]
                    steps_through::<A>(lo, hi, stride, s.rows@, next) && within_end::<A>(next, hi, false)
                &&& all_scored::<A>(s.rows@, depths@, day_month@, events@, dt_hours, *engine, alert_level, tol_months)
                &&& s.best == best_of(scored_rows(s.rows@))
            },
            Ok(None) => exists|rows: Seq<SweepRow>, next: Binary64| #[trigger]
                steps_through::<A>(lo, hi, stride, rows, next) && rows.len() > 0 && !rows.last().intercept.less(next)
                    && all_scored::<A>(rows, depths@, day_month@, events@, dt_hours, *engine, alert_level, tol_months),
            Err(e) => exists|rows: Seq<SweepRow>, next: Binary64| #[trigger]
                steps_through::<A>(lo, hi, stride, rows, next) && within_end::<A>(next, hi, true) && backtest_refused(
                    depths@,
                    day_month@,
                    dt_hours,
                    engine.at_intercept(next),
                ) == Some(e) && all_scored::<A>(
                    rows,
                    depths@,
                    day_month@,
                    events@,
                    dt_hours,
                    *engine,
                    alert_level,
                    tol_months,
                ),
        },
{
    let mut state: Sweep = Sweep::new(lo, hi, stride);
    let mut rows: Vec<SweepRow> = Vec::new();
    assert(scored_rows(rows@) == state.scored());
    loop
        invariant
            2 * day_month@.len() <= u64::MAX,
            state.wf(),
            state.end() == hi,
            state.stride() == stride,
            state.scored() == scored_rows(rows@),
            steps_through::<A>(lo, hi, stride, rows@, state.intercept()),
            all_scored::<A>(rows@, depths@, day_month@, events@, dt_hours, *engine, alert_level, tol_months),
        decreases INFINITE - state.intercept().rank(),
    {
        let ghost before = rows@;
        let ghost at = state.intercept();
        match state.advance::<A>(depths, day_month, events, dt_hours, engine, alert_level, tol_months) {
            Ok(Some(row)) => {
                rows.push(row);
                proof {
                    assert(scored_rows(rows@) == scored_rows(before).push((row.intercept, counted_score(row.csi))));
                    assert forall|i: int| 0 < i < rows@.len() implies sums::<A>(
                        rows@[i - 1].intercept,
                        stride,
                        (#[trigger] rows@[i]).intercept,
                    ) by {
                        if i < before.len() {
                            assert(rows@[i] == before[i] && rows@[i - 1] == before[i - 1]);
                        } else {
                            assert(rows@[i - 1] == before.last());
                        }
                    }
                    assert(steps_through::<A>(lo, hi, stride, rows@, state.intercept()));
                }
                if !row.intercept.below(state.at) {
                    return Ok(None);
                }
            },
            Ok(None) => {
                let best: (Binary64, Binary64) = state.best();
                return Ok(Some(Swept { rows, best }));
            },
            Err(e) => {
                return Err(e);
            },
        }
    }
}

/// The best intercept of a sweep is the first one with the highest score: no
/// scored intercept beats it, and where it is a scored one, every earlier one has
/// a lower score or none that compares.
pub proof fn lemma_best_is_highest(records: Seq<(Binary64, Binary64)>)
    ensures
        forall|i: int| 0 <= i < records.len() ==> !best_of(records).1.less((#[trigger] records[i]).1),
        best_of(records) == (not_a_number(), minus_one()) || exists|k: int|
            0 <= k < records.len() && #[trigger] records[k] == best_of(records) && forall|i: int|
                0 <= i < k ==> !(best_of(records).1.at_most((#[trigger] records[i]).1)),
        !best_of(records).1.nan(),
    decreases records.len(),
{
    if records.len() > 0 {
        let rest = records.drop_last();
        lemma_best_is_highest(rest);
        let before = best_of(rest);
        let last = records.last();
        if before.1.less(last.1) {
            assert(records[records.len() - 1] == best_of(records));
            assert forall|i: int| 0 <= i < records.len() - 1 implies !(best_of(records).1.at_most(
                (#[trigger] records[i]).1,
            )) && !best_of(records).1.less(records[i].1) by {
                assert(rest[i] == records[i]);
                assert(!before.1.less(rest[i].1));
            }
        } else {
            assert forall|i: int| 0 <= i < records.len() implies !best_of(records).1.less((#[trigger] records[i]).1) by {
                if i < rest.len() {
                    assert(rest[i] == records[i]);
                }
            }
            if before != (not_a_number(), minus_one()) {
                let k = choose|k: int|
                    0 <= k < rest.len() && #[trigger] rest[k] == best_of(rest) && forall|i: int|
                        0 <= i < k ==> !(best_of(rest).1.at_most((#[trigger] rest[i]).1));
                assert(records[k] == best_of(records));
                assert forall|i: int| 0 <= i < k implies !(best_of(records).1.at_most((#[trigger] records[i]).1)) by {
                    assert(rest[i] == records[i]);
                }
            }
        }
    }
}

/// A fitted calibrator with the reliability of the raw and the calibrated index.
#[derive(Debug)]
pub struct Calibration {
    pub calibrator: Calibrator,
    pub n_pairs: usize,
    pub before: Reliability,
    pub after: Reliability,
}

/// The scores of pairs.
pub open spec fn scores_of(pairs: Seq<(Binary64, Binary64)>) -> Seq<Binary64> {
    pairs.map_values(|p: (Binary64, Binary64)| p.0)
}

/// The outcomes of pairs: zero is no event, anything else is one.
pub open spec fn outcomes_of(pairs: Seq<(Binary64, Binary64)>) -> Seq<bool> {
    pairs.map_values(|p: (Binary64, Binary64)| !p.1.same_number(zero()))
}

/// `pairs` are the aligned pairs of two columns of a text.
pub open spec fn pairs_of<A: Arithmetic>(
    text: Seq<char>,
    score_col: usize,
    outcome_col: usize,
    pairs: Seq<(Binary64, Binary64)>,
) -> bool {
    exists|cells: Seq<(Option<Binary64>, Option<Binary64>)>|
        {
            &&& #[trigger] pair_cells::<A>(text, score_col as int, outcome_col as int, cells)
            &&& cells.len() == lines(text).len()
            &&& forall|i: int| 0 <= i < cells.len() ==> paired(#[trigger] cells[i])
            &&& pairs == cells.filter_map(|c: (Option<Binary64>, Option<Binary64>)| pair_of(c))
        }
}

/// `e` is the error of the first line of which only one of two columns holds a
/// number.
pub open spec fn misaligned<A: Arithmetic>(text: Seq<char>, score_col: usize, outcome_col: usize, e: Error) -> bool {
    exists|cells: Seq<(Option<Binary64>, Option<Binary64>)>|
        {
            &&& #[trigger] pair_cells::<A>(text, score_col as int, outcome_col as int, cells)
            &&& cells.len() > 0
            &&& forall|i: int| 0 <= i < cells.len() - 1 ==> paired(#[trigger] cells[i])
            &&& !paired(cells.last())
            &&& e == unpaired_line(cells.len() as int, score_col, outcome_col, cells.last())
        }
}

/// `e` is the error of scoring predictions.
pub open spec fn unreliable(preds: Seq<Binary64>, outcomes: Seq<bool>, bins: usize, e: Error) -> bool {
    ||| unaligned_predictions(preds, outcomes, e)
    ||| no_predictions(preds, outcomes, e)
    ||| preds.len() == outcomes.len() && preds.len() > 0 && bins == 0 && e == (Error::InvalidParameter {
        name: "n_bins",
        reason: Reason::Text("must be >= 1"),
    })
    ||| bins > 0 && improbable_prediction(preds, outcomes, e)
}

/// A calibration of pairs: the fitted map, and the reliability of the scores and
/// of what the map makes of them.
pub open spec fn calibrates<A: Arithmetic>(pairs: Seq<(Binary64, Binary64)>, bins: usize, c: Calibration) -> bool {
    &&& c.n_pairs == pairs.len()
    &&& fits::<A>(scores_of(pairs), outcomes_of(pairs), c.calibrator.xs@, c.calibrator.ys@)
    &&& reliability_of::<A>(scores_of(pairs), outcomes_of(pairs), bins as int, c.before)
    &&& exists|after: Seq<Binary64>| #[trigger]
        calibrated::<A>(c.calibrator, scores_of(pairs), after) && reliability_of::<A>(
            after,
            outcomes_of(pairs),
            bins as int,
            c.after,
        )
}

/// `e` is why pairs cannot be calibrated: they cannot be fitted, a score is no
/// probability, the fitted map has no numbers at its ends, or what it gives is no
/// probability.
pub open spec fn uncalibrated<A: Arithmetic>(pairs: Seq<(Binary64, Binary64)>, bins: usize, e: Error) -> bool {
    let scores = scores_of(pairs);
    let outcomes = outcomes_of(pairs);
    ||| unfit(scores, outcomes) == Some(e)
    ||| unfit(scores, outcomes) is None && unreliable(scores, outcomes, bins, e)
    ||| unfit(scores, outcomes) is None && e == unusable_map() && exists|c: Calibrator| #[trigger]
        fits::<A>(scores, outcomes, c.xs@, c.ys@) && !c.usable()
    ||| unfit(scores, outcomes) is None && exists|c: Calibrator, after: Seq<Binary64>|
        fits::<A>(scores, outcomes, c.xs@, c.ys@) && #[trigger] calibrated::<A>(c, scores, after) && unreliable(
            after,
            outcomes,
            bins,
            e,
        )
}

/// The error for a fitted map without numbers at its ends.
pub open spec fn unusable_map() -> Error {
    Error::InvalidParameter {
        name: "calibrator",
        reason: Reason::Text("scores and probabilities must be finite"),
    }
}

/// Calibrates aligned pairs of scores and outcomes.
pub fn calibrate_pairs<A: Arithmetic>(pairs: &[(Binary64, Binary64)], bins: usize) -> (r: Result<Calibration, Error>)
    ensures
        match r {
            Ok(c) => calibrates::<A>(pairs@, bins, c),
            Err(e) => uncalibrated::<A>(pairs@, bins, e),
        },
{
    let mut scores: Vec<Binary64> = Vec::new();
    let mut outcomes: Vec<bool> = Vec::new();
    let mut i: usize = 0;
    while i < pairs.len()
        invariant
            i <= pairs@.len(),
            scores@.len() == i,
            outcomes@.len() == i,
            forall|k: int| 0 <= k < i ==> #[trigger] scores@[k] == pairs@[k].0,
            forall|k: int| 0 <= k < i ==> #[trigger] outcomes@[k] == !pairs@[k].1.same_number(zero()),
        decreases pairs@.len() - i,
    {
        let (score, outcome): (Binary64, Binary64) = pairs[i];
        scores.push(score);
        outcomes.push(!outcome.same(zero()));
        i = i + 1;
    }
    assert(scores@ == scores_of(pairs@));
    assert(outcomes@ == outcomes_of(pairs@));
    let calibrator: Calibrator = match Calibrator::fit_isotonic::<A>(scores.as_slice(), outcomes.as_slice()) {
        Ok(c) => c,
        Err(e) => {
            return Err(e);
        },
    };
    let before: Reliability = match reliability::<A>(scores.as_slice(), outcomes.as_slice(), bins) {
        Ok(b) => b,
        Err(e) => {
            assert(unreliable(scores@, outcomes@, bins, e));
            return Err(e);
        },
    };
    assert(fits::<A>(scores@, outcomes@, calibrator.xs@, calibrator.ys@));
    let last: usize = calibrator.xs.len() - 1;
    if calibrator.xs[0].is_nan() || calibrator.xs[last].is_nan() {
        return Err(
            Error::InvalidParameter {
                name: "calibrator",
                reason: Reason::Text("scores and probabilities must be finite"),
            },
        );
    }
    let mapped: Vec<Binary64> = match calibrator.calibrate::<A>(scores.as_slice()) {
        Ok(m) => m,
        Err(e) => {
            return Err(e);
        },
    };
    assert(calibrated::<A>(calibrator, scores@, mapped@));
    let after: Reliability = match reliability::<A>(mapped.as_slice(), outcomes.as_slice(), bins) {
        Ok(a) => a,
        Err(e) => {
            assert(unreliable(mapped@, outcomes@, bins, e));
            return Err(e);
        },
    };
    let c = Calibration { calibrator, n_pairs: scores.len(), before, after };
    assert(calibrated::<A>(c.calibrator, scores_of(pairs@), mapped@));
    assert(reliability_of::<A>(mapped@, outcomes_of(pairs@), bins as int, c.after));
    Ok(c)
}

/// Fits an isotonic calibrator on the score and outcome columns of a file, and
/// reports the reliability before and after. The columns are read row by row: a
/// line with only one of the two numbers is refused.
pub fn calibration<A: Arithmetic>(
    file: &str,
    text: &str,
    score_col: usize,
    outcome_col: usize,
    bins: usize,
) -> (r: Result<Calibration, Usage>)
    ensures
        match r {
            Ok(c) => exists|pairs: Seq<(Binary64, Binary64)>| #[trigger]
                pairs_of::<A>(text@, score_col, outcome_col, pairs) && pairs.len() > 0 && calibrates::<A>(pairs, bins, c),
            Err(Usage::NoValues { column, file: f }) => pairs_of::<A>(
                text@,
                score_col,
                outcome_col,
                Seq::<(Binary64, Binary64)>::empty(),
            ) && column == score_col && f@ == file@,
            Err(Usage::Core(e)) => misaligned::<A>(text@, score_col, outcome_col, e) || exists|
                pairs: Seq<(Binary64, Binary64)>,
            | #[trigger]
                pairs_of::<A>(text@, score_col, outcome_col, pairs) && pairs.len() > 0 && uncalibrated::<A>(
                    pairs,
                    bins,
                    e,
                ),
            Err(_) => false,
        },
{
    let pairs: Vec<(Binary64, Binary64)> = match csv_pairs::<A>(text, score_col, outcome_col) {
        Ok(p) => p,
        Err(e) => {
            assert(misaligned::<A>(text@, score_col, outcome_col, e));
            return Err(Usage::Core(e));
        },
    };
    assert(pairs_of::<A>(text@, score_col, outcome_col, pairs@));
    if pairs.len() == 0 {
        assert(pairs@ == Seq::<(Binary64, Binary64)>::empty());
        return Err(Usage::NoValues { column: score_col, file: file.to_owned() });
    }
    match calibrate_pairs::<A>(pairs.as_slice(), bins) {
        Ok(c) => Ok(c),
        Err(e) => Err(Usage::Core(e)),
    }
}

} // verus!
