//! The nowcast engine: combines static susceptibility with a dynamic trigger to
//! produce a time-varying hazard-probability field and threshold alerts.
//!
//! For each time step `t` and cell `c`:
//!
//! 1. Over rolling windows of `m = 1..=max_window_steps` ending at `t`,
//!    accumulate the water-input depth, form the mean intensity
//!    `I = depth / (m · dt)` and duration `D = m · dt`, and evaluate the I–D
//!    exceedance. Take the worst (largest) exceedance over all window lengths.
//! 2. Map that exceedance to a trigger factor `T ∈ [0, 1]`.
//! 3. Modulate susceptibility: `P(c, t) = susceptibility(c) · T`.
//!
//! The running sums of all cells are computed once, when the engine is built;
//! they are its dominant memory footprint.

use std::marker::PhantomData;

use vstd::prelude::*;

use crate::accuracy::{
    exponential_is_accurate, grain, lemma_scales, logarithm_is_accurate, natural_logarithm, rounds_closely, speck,
};
use crate::arithmetic::{deterministic, divides, keeps_sides, multiplies, rounds_properly, Arithmetic};
use crate::binary64::{absolute, lemma_rank_orders_numbers, lemma_small_numbers, one, zero, Binary64};
use crate::error::{Error, Reason};
use crate::explain::Explanation;
use crate::forcing::{depths_until, Forcing};
use crate::grid::{GridDims, SusceptibilityMap};
use crate::hazard::{alerts_at, bad_alert_level, validate_alert_level, Alert, HazardField};
use crate::kernel::{
    accumulate_all, accumulates, accumulates_all, lemma_accumulates_unique, lemma_factor_of_unique, lemma_hazard_of_unique, lemma_row_until,
    recent, Kernel,
};
use crate::threshold::{
    duration, duration_of, intensity, intensity_of, lemma_critical_unique, lemma_worst_window_unique, worst_window_of,
    IdThreshold,
};
use crate::trigger::{lemma_factor_unique, lemma_signal_returns_to_level, regular, TriggerModel};

verus! {

/// The combined susceptibility × trigger nowcast engine.
pub struct Nowcast<F: Forcing, A: Arithmetic> {
    susceptibility: SusceptibilityMap,
    forcing: F,
    kernel: Kernel,
    /// Per cell: the running sums of the depths.
    rows: Vec<Vec<Binary64>>,
    arithmetic: PhantomData<A>,
}

/// The error for a grid that differs from the susceptibility grid.
pub open spec fn grids_differ(susc: GridDims, forc: GridDims) -> Error {
    Error::GridMismatch { susc_cols: susc.ncols, susc_rows: susc.nrows, forc_cols: forc.ncols, forc_rows: forc.nrows }
}

/// The error for a window of no step.
pub open spec fn no_window() -> Error {
    Error::InvalidParameter { name: "max_window_steps", reason: Reason::Text("must be >= 1") }
}

/// `values` is the hazard field of a step.
pub open spec fn field_at<F: Forcing, A: Arithmetic>(
    susceptibility: Seq<Binary64>,
    forcing: &F,
    kernel: Kernel,
    step: int,
    values: Seq<Binary64>,
) -> bool {
    &&& values.len() == susceptibility.len()
    &&& forall|c: int|
        0 <= c < values.len() ==> kernel.hazard_of::<A>(
            susceptibility[c],
            depths_until(forcing, c, step),
            #[trigger] values[c],
        )
}

/// `alerts` lists the alerts that fields raise, in order.
pub open spec fn alerts_of<A: Arithmetic>(
    dims: GridDims,
    fields: Seq<Seq<Binary64>>,
    level: Binary64,
    alerts: Seq<Alert>,
) -> bool {
    exists|raised: Seq<Option<Alert>>| #[trigger]
        raises_alerts::<A>(dims, fields, level, raised) && alerts == raised.filter_map(|a: Option<Alert>| a)
}

/// `raised` holds the alert of each field.
pub open spec fn raises_alerts<A: Arithmetic>(
    dims: GridDims,
    fields: Seq<Seq<Binary64>>,
    level: Binary64,
    raised: Seq<Option<Alert>>,
) -> bool {
    &&& raised.len() == fields.len()
    &&& forall|t: int|
        0 <= t < raised.len() ==> alerts_at::<A>(t as usize, dims, fields[t], level, #[trigger] raised[t])
}

/// The alerts of a list of fields, in order.
pub fn collect_alerts<A: Arithmetic>(dims: GridDims, fields: &Vec<HazardField>, level: Binary64) -> (r: Vec<Alert>)
    requires
        forall|t: int|
            0 <= t < fields@.len() ==> (#[trigger] fields@[t]).wf() && fields@[t].grid() == dims && fields@[t].at_step()
                == t,
    ensures
        alerts_of::<A>(dims, fields@.map_values(|f: HazardField| f@), level, r@),
{
    let ghost all = fields@.map_values(|f: HazardField| f@);
    let ghost id = |a: Option<Alert>| a;
    let ghost mut raised: Seq<Option<Alert>> = Seq::empty();
    let mut r: Vec<Alert> = Vec::new();
    let mut t: usize = 0;
    assert(raised.filter_map(id) == Seq::<Alert>::empty()) by {
        reveal(Seq::filter_map);
    }
    while t < fields.len()
        invariant
            t <= fields@.len(),
            forall|k: int|
                0 <= k < fields@.len() ==> (#[trigger] fields@[k]).wf() && fields@[k].grid() == dims
                    && fields@[k].at_step() == k,
            all == fields@.map_values(|f: HazardField| f@),
            id == (|a: Option<Alert>| a),
            raised.len() == t,
            forall|k: int| 0 <= k < t ==> alerts_at::<A>(k as usize, dims, all[k], level, #[trigger] raised[k]),
            r@ == raised.filter_map(id),
        decreases fields@.len() - t,
    {
        assert(fields@[t as int].wf());
        let found: Option<Alert> = fields[t].raised::<A>(level);
        if let Some(a) = found {
            r.push(a);
        }
        proof {
            assert(all[t as int] == fields@[t as int]@);
            let next = raised.push(found);
            next.lemma_filter_map_take_succ(id, t as int);
            assert(next.take(t as int) == raised);
            assert(next.take(t + 1) == next);
            raised = next;
        }
        t = t + 1;
    }
    assert(raises_alerts::<A>(dims, all, level, raised));
    r
}

impl<F: Forcing, A: Arithmetic> Nowcast<F, A> {
    /// The susceptibility map of the engine.
    pub closed spec fn map(&self) -> SusceptibilityMap {
        self.susceptibility
    }

    /// The forcing of the engine.
    pub closed spec fn source(&self) -> F {
        self.forcing
    }

    /// The parameters of the engine.
    pub closed spec fn parameters(&self) -> Kernel {
        self.kernel
    }

    /// The running sums belong to the forcing, which covers the map.
    pub closed spec fn wf(&self) -> bool {
        &&& self.susceptibility.wf()
        &&& self.forcing.grid() == self.susceptibility.grid()
        &&& self.kernel.max_window_steps > 0
        &&& self.kernel.dt_hours == self.forcing.hours()
        &&& accumulates_all::<F, A>(&self.forcing, self.rows@)
    }

    /// `values` is the hazard field of a step.
    pub open spec fn nowcasts(&self, step: int, values: Seq<Binary64>) -> bool {
        field_at::<F, A>(self.map()@, &self.source(), self.parameters(), step, values)
    }

    /// `fields` are the hazard fields of all steps.
    pub open spec fn runs(&self, fields: Seq<Seq<Binary64>>) -> bool {
        &&& fields.len() == self.source().steps()
        &&& forall|t: int| 0 <= t < fields.len() ==> self.nowcasts(t, #[trigger] fields[t])
    }

    /// Builds a nowcast. The forcing grid must match the susceptibility grid.
    ///
    /// `max_window_steps` bounds the longest rolling I–D window considered.
    pub fn new(
        susceptibility: SusceptibilityMap,
        forcing: F,
        threshold: IdThreshold,
        trigger: TriggerModel,
        max_window_steps: usize,
    ) -> (r: Result<Nowcast<F, A>, Error>)
        requires
            susceptibility.wf(),
        ensures
            match r {
                Ok(n) => {
                    &&& susceptibility.grid() == forcing.grid()
                    &&& max_window_steps > 0
                    &&& n.wf()
                    &&& n.map() == susceptibility
                    &&& n.source() == forcing
                    &&& n.parameters() == (Kernel { threshold, trigger, max_window_steps, dt_hours: forcing.hours() })
                },
                Err(e) => if susceptibility.grid() != forcing.grid() {
                    e == grids_differ(susceptibility.grid(), forcing.grid())
                } else {
                    max_window_steps == 0 && e == no_window()
                },
            },
    {
        let sd: GridDims = susceptibility.dims();
        let fd: GridDims = forcing.dims();
        if sd != fd {
            return Err(
                Error::GridMismatch {
                    susc_cols: sd.ncols,
                    susc_rows: sd.nrows,
                    forc_cols: fd.ncols,
                    forc_rows: fd.nrows,
                },
            );
        }
        if max_window_steps == 0 {
            return Err(Error::InvalidParameter { name: "max_window_steps", reason: Reason::Text("must be >= 1") });
        }
        let rows: Vec<Vec<Binary64>> = accumulate_all::<F, A>(&forcing);
        let dt_hours: Binary64 = forcing.dt_hours();
        let kernel = Kernel { threshold, trigger, max_window_steps, dt_hours };
        Ok(Nowcast { susceptibility, forcing, kernel, rows, arithmetic: PhantomData })
    }

    /// What an explanation says of a cell and a step: the depths of the cell, the
    /// window that drove the trigger, and the two factors of the hazard.
    pub open spec fn attributes(&self, cell: int, step: int, x: Explanation) -> bool {
        let kernel = self.parameters();
        &&& x.cell == cell
        &&& x.step == step
        &&& x.susceptibility == self.map()@[cell]
        &&& x.decomposes::<A>()
        &&& kernel.trigger.maps::<A>(x.exceedance, x.trigger_factor)
        &&& kernel.threshold.critical::<A>(x.critical_duration_h, x.critical_intensity_mm_h)
        &&& exists|row: Seq<Binary64>, m: int|
            {
                &&& #[trigger] accumulates::<A>(depths_until(&self.source(), cell, step), row)
                &&& #[trigger] worst_window_of::<A>(
                    kernel.threshold,
                    kernel.dt_hours,
                    recent(row, kernel.max_window_steps as nat),
                    x.exceedance,
                    m,
                )
                &&& duration_of::<A>(m, kernel.dt_hours, x.critical_duration_h)
                &&& intensity_of::<A>(
                    row[row.len() - 1 - m],
                    row.last(),
                    x.critical_duration_h,
                    x.mean_intensity_mm_h,
                )
            }
    }

    /// Exact attribution of the hazard at `cell` / `step`: its two factors and the
    /// intensity–duration window driving the trigger. Fails if `cell` or `step` is
    /// out of range.
    pub fn explain(&self, cell: usize, step: usize) -> (r: Result<Explanation, Error>)
        requires
            self.wf(),
        ensures
            match r {
                Ok(x) => cell < self.map()@.len() && step < self.source().steps() && self.attributes(
                    cell as int,
                    step as int,
                    x,
                ),
                Err(e) => if cell >= self.map()@.len() {
                    e == (Error::OutOfRange { name: "cell", index: cell, len: self.map()@.len() as usize })
                } else {
                    step >= self.source().steps() && e == (Error::OutOfRange {
                        name: "step",
                        index: step,
                        len: self.source().steps() as usize,
                    })
                },
            },
    {
        let n_cells: usize = self.susceptibility.dims().len();
        if cell >= n_cells {
            return Err(Error::OutOfRange { name: "cell", index: cell, len: n_cells });
        }
        let n_steps: usize = self.forcing.n_steps();
        if step >= n_steps {
            return Err(Error::OutOfRange { name: "step", index: step, len: n_steps });
        }
        let row: &[Binary64] = self.rows[cell].as_slice();
        let total: usize = row.len();
        proof {
            assert(accumulates::<A>(
                depths_until(&self.forcing, cell as int, self.forcing.steps() - 1),
                self.rows@[cell as int]@,
            ));
            lemma_row_until::<F, A>(&self.forcing, cell as int, row@, step as int);
            assert(step + 2 <= total);
        }
        let (e, m): (Binary64, usize) = self.kernel.dominant_window::<A>(row, step);
        let duration_h: Binary64 = duration::<A>(m, self.kernel.dt_hours);
        let mean_intensity: Binary64 = intensity::<A>(row[step + 1 - m], row[step + 1], duration_h);
        let x: Explanation = Explanation::new::<A>(
            cell,
            step,
            self.susceptibility.get(cell),
            self.kernel.trigger.factor::<A>(e),
            duration_h,
            mean_intensity,
            self.kernel.threshold.critical_intensity::<A>(duration_h),
            e,
        );
        proof {
            let part = row@.take(step + 2);
            assert(part.last() == row@[step + 1]);
            assert(part[part.len() - 1 - m] == row@[step + 1 - m]);
            assert(accumulates::<A>(depths_until(&self.source(), cell as int, step as int), part));
            assert(worst_window_of::<A>(
                self.parameters().threshold,
                self.parameters().dt_hours,
                recent(part, self.parameters().max_window_steps as nat),
                x.exceedance,
                m as int,
            ));
            assert(duration_of::<A>(m as int, self.parameters().dt_hours, x.critical_duration_h));
            assert(intensity_of::<A>(
                part[part.len() - 1 - m],
                part.last(),
                x.critical_duration_h,
                x.mean_intensity_mm_h,
            ));
            assert(self.attributes(cell as int, step as int, x));
        }
        Ok(x)
    }

    /// `r` is the mean intensity that lifts a cell to an alert level.
    pub open spec fn lifts(&self, cell: int, alert_level: Binary64, duration_h: Binary64, r: Option<Binary64>) -> bool {
        exists|needed: Binary64| #[trigger]
            divides::<A>(alert_level, self.map()@[cell], needed) && match r {
                None => !(zero().at_most(needed) && needed.less(one())),
                Some(i) => zero().at_most(needed) && needed.less(one()) && exists|e: Binary64, crit: Binary64| #[trigger]
                    self.parameters().trigger.inverts::<A>(needed, e)
                        && #[trigger] self.parameters().threshold.critical::<A>(duration_h, crit) && multiplies::<A>(
                        e,
                        crit,
                        i,
                    ),
            }
    }

    /// Counterfactual: the mean rainfall intensity (mm/h) sustained over
    /// `duration_h` that would lift `cell`'s hazard to `alert_level`. `Ok(None)`
    /// if the cell's susceptibility alone cannot reach the level. Fails if `cell`
    /// is out of range or `duration_h` is not finite and above zero.
    pub fn intensity_to_alert(&self, cell: usize, alert_level: Binary64, duration_h: Binary64) -> (r: Result<
        Option<Binary64>,
        Error,
    >)
        requires
            self.wf(),
        ensures
            match r {
                Ok(i) => cell < self.map()@.len() && duration_h.positive_finite() && self.lifts(
                    cell as int,
                    alert_level,
                    duration_h,
                    i,
                ),
                Err(e) => if cell >= self.map()@.len() {
                    e == (Error::OutOfRange { name: "cell", index: cell, len: self.map()@.len() as usize })
                } else {
                    !duration_h.positive_finite() && e == (Error::InvalidParameter {
                        name: "duration_h",
                        reason: Reason::Value { before: "must be finite and > 0, got ", value: duration_h, after: "" },
                    })
                },
            },
    {
        let n_cells: usize = self.susceptibility.dims().len();
        if cell >= n_cells {
            return Err(Error::OutOfRange { name: "cell", index: cell, len: n_cells });
        }
        if !duration_h.is_positive_finite() {
            return Err(
                Error::InvalidParameter {
                    name: "duration_h",
                    reason: Reason::Value { before: "must be finite and > 0, got ", value: duration_h, after: "" },
                },
            );
        }
        let needed: Binary64 = A::over(alert_level, self.susceptibility.get(cell));
        assert(divides::<A>(alert_level, self.map()@[cell as int], needed));
        if !(zero().not_above(needed) && needed.below(one())) {
            return Ok(None);
        }
        let e: Binary64 = self.kernel.trigger.exceedance_for_factor::<A>(needed);
        let i: Binary64 = self.kernel.threshold.intensity_for_exceedance::<A>(e, duration_h);
        assert(self.parameters().trigger.inverts::<A>(needed, e));
        Ok(Some(i))
    }

    /// The hazard field of a step.
    fn field(&self, step: usize) -> (r: HazardField)
        requires
            self.wf(),
            step < self.source().steps(),
        ensures
            r.wf(),
            r.at_step() == step,
            r.grid() == self.map().grid(),
            self.nowcasts(step as int, r@),
    {
        let dims: GridDims = self.susceptibility.dims();
        let n: usize = dims.len();
        let mut values: Vec<Binary64> = Vec::new();
        let mut c: usize = 0;
        while c < n
            invariant
                c <= n,
                n == self.map()@.len(),
                self.wf(),
                step < self.source().steps(),
                values@.len() == c,
                forall|k: int|
                    0 <= k < c ==> self.parameters().hazard_of::<A>(
                        self.map()@[k],
                        depths_until(&self.source(), k, step as int),
                        #[trigger] values@[k],
                    ),
            decreases n - c,
        {
            let row: &[Binary64] = self.rows[c].as_slice();
            proof {
                assert(accumulates::<A>(
                    depths_until(&self.forcing, c as int, self.forcing.steps() - 1),
                    self.rows@[c as int]@,
                ));
                lemma_row_until::<F, A>(&self.forcing, c as int, row@, step as int);
            }
            let factor: Binary64 = self.kernel.factor_at::<A>(row, step);
            let p: Binary64 = A::times(self.susceptibility.get(c), factor);
            proof {
                assert(accumulates::<A>(depths_until(&self.source(), c as int, step as int), row@.take(step + 2)));
                assert(self.parameters().factor_of::<A>(depths_until(&self.source(), c as int, step as int), factor));
                assert(multiplies::<A>(self.map()@[c as int], factor, p));
            }
            values.push(p);
            c = c + 1;
        }
        HazardField::of_values(step, dims, values)
    }

    /// Computes the hazard field for a single time step. Fails if `step` is out of
    /// range.
    pub fn hazard_at(&self, step: usize) -> (r: Result<HazardField, Error>)
        requires
            self.wf(),
        ensures
            match r {
                Ok(f) => {
                    &&& step < self.source().steps()
                    &&& f.wf()
                    &&& f.at_step() == step
                    &&& f.grid() == self.map().grid()
                    &&& self.nowcasts(step as int, f@)
                },
                Err(e) => step >= self.source().steps() && e == (Error::OutOfRange {
                    name: "step",
                    index: step,
                    len: self.source().steps() as usize,
                }),
            },
    {
        let n_steps: usize = self.forcing.n_steps();
        if step >= n_steps {
            return Err(Error::OutOfRange { name: "step", index: step, len: n_steps });
        }
        Ok(self.field(step))
    }

    /// Runs the full nowcast, returning one [`HazardField`] per time step.
    pub fn run(&self) -> (r: Vec<HazardField>)
        requires
            self.wf(),
        ensures
            r@.len() == self.source().steps(),
            forall|t: int|
                0 <= t < r@.len() ==> (#[trigger] r@[t]).wf() && r@[t].at_step() == t && r@[t].grid()
                    == self.map().grid() && self.nowcasts(t, r@[t]@),
    {
        let n_steps: usize = self.forcing.n_steps();
        let mut r: Vec<HazardField> = Vec::new();
        let mut t: usize = 0;
        while t < n_steps
            invariant
                t <= n_steps,
                n_steps == self.source().steps(),
                self.wf(),
                r@.len() == t,
                forall|k: int|
                    0 <= k < t ==> (#[trigger] r@[k]).wf() && r@[k].at_step() == k && r@[k].grid() == self.map().grid()
                        && self.nowcasts(k, r@[k]@),
            decreases n_steps - t,
        {
            r.push(self.field(t));
            t = t + 1;
        }
        r
    }

    /// Runs the nowcast and emits an [`Alert`] for every step whose hazard reaches
    /// `level`. Fails if `level` is not a probability in `[0, 1]`.
    pub fn alerts(&self, level: Binary64) -> (r: Result<Vec<Alert>, Error>)
        requires
            self.wf(),
        ensures
            match r {
                Ok(alerts) => level.unit() && exists|fields: Seq<Seq<Binary64>>| #[trigger]
                    self.runs(fields) && alerts_of::<A>(self.map().grid(), fields, level, alerts@),
                Err(e) => !level.unit() && e == bad_alert_level(level),
            },
    {
        match validate_alert_level(level) {
            Ok(_) => {},
            Err(e) => {
                return Err(e);
            },
        }
        let fields: Vec<HazardField> = self.run();
        let alerts: Vec<Alert> = collect_alerts::<A>(self.susceptibility.dims(), &fields, level);
        proof {
            let all = fields@.map_values(|f: HazardField| f@);
            assert(all.len() == self.source().steps());
            assert forall|t: int| 0 <= t < all.len() implies self.nowcasts(t, #[trigger] all[t]) by {
                assert(self.nowcasts(t, fields@[t]@));
            }
            assert(self.runs(all));
            assert(alerts_of::<A>(self.map().grid(), all, level, alerts@));
        }
        Ok(alerts)
    }
}

/// The hazard field of a step is determined by the engine: computing one step
/// gives what a full run gives for it.
pub proof fn lemma_field_is_determined<F: Forcing, A: Arithmetic>(
    susceptibility: Seq<Binary64>,
    forcing: &F,
    kernel: Kernel,
    step: int,
    p: Seq<Binary64>,
    q: Seq<Binary64>,
)
    requires
        deterministic::<A>(),
        field_at::<F, A>(susceptibility, forcing, kernel, step, p),
        field_at::<F, A>(susceptibility, forcing, kernel, step, q),
    ensures
        p == q,
{
    assert forall|c: int| 0 <= c < p.len() implies p[c] == q[c] by {
        assert(kernel.hazard_of::<A>(susceptibility[c], depths_until(forcing, c, step), p[c]));
        assert(kernel.hazard_of::<A>(susceptibility[c], depths_until(forcing, c, step), q[c]));
        lemma_hazard_of_unique::<A>(kernel, susceptibility[c], depths_until(forcing, c, step), p[c], q[c]);
    }
}

/// An attribution is exact: the hazard that an explanation reports for a cell and
/// a step is the one of the hazard field.
pub proof fn lemma_explanation_is_exact<F: Forcing, A: Arithmetic>(
    engine: &Nowcast<F, A>,
    cell: int,
    step: int,
    x: Explanation,
    values: Seq<Binary64>,
)
    requires
        deterministic::<A>(),
        0 <= cell < values.len(),
        engine.attributes(cell, step, x),
        engine.nowcasts(step, values),
    ensures
        x.hazard == values[cell],
{
    let kernel = engine.parameters();
    let depths = depths_until(&engine.source(), cell, step);
    assert(kernel.hazard_of::<A>(engine.map()@[cell], depths, values[cell]));
    let f = choose|f: Binary64| #[trigger]
        kernel.factor_of::<A>(depths, f) && multiplies::<A>(engine.map()@[cell], f, values[cell]);
    let (row, m) = choose|row: Seq<Binary64>, m: int|
        {
            &&& #[trigger] accumulates::<A>(depths, row)
            &&& #[trigger] worst_window_of::<A>(
                kernel.threshold,
                kernel.dt_hours,
                recent(row, kernel.max_window_steps as nat),
                x.exceedance,
                m,
            )
            &&& duration_of::<A>(m, kernel.dt_hours, x.critical_duration_h)
            &&& intensity_of::<A>(row[row.len() - 1 - m], row.last(), x.critical_duration_h, x.mean_intensity_mm_h)
        };
    assert(kernel.fires::<A>(row, x.trigger_factor));
    assert(kernel.factor_of::<A>(depths, x.trigger_factor));
    lemma_factor_of_unique::<A>(kernel, depths, f, x.trigger_factor);
}

/// A counterfactual exists exactly where the terrain allows for it: a level at or
/// above the susceptibility of a cell is out of reach, any lower one within.
pub proof fn lemma_counterfactual_is_capped_by_terrain<F: Forcing, A: Arithmetic>(
    engine: &Nowcast<F, A>,
    cell: int,
    alert_level: Binary64,
    duration_h: Binary64,
    r: Option<Binary64>,
)
    requires
        keeps_sides::<A>(),
        engine.map().wf(),
        0 <= cell < engine.map()@.len(),
        alert_level.positive_finite(),
        engine.lifts(cell, alert_level, duration_h, r),
    ensures
        engine.map()@[cell].at_most(alert_level) ==> r is None,
        alert_level.less(engine.map()@[cell]) ==> r is Some,
{
    let s = engine.map()@[cell];
    assert(s.unit());
    assert(s.positive_finite() || s.same_number(zero()));
}

/// A counterfactual leads back to the level: the hazard of the intensity that
/// lifts a cell to a level, sustained over the duration, is the level within
/// `2^-32`. From half of the susceptibility on, the intensity lies above zero. The
/// level must not be below `2^-499`, and the steepness and the critical intensity
/// at the duration must be regular.
pub proof fn lemma_counterfactual_returns_to_level<F: Forcing, A: Arithmetic>(
    engine: &Nowcast<F, A>,
    ln: spec_fn(real) -> real,
    cell: int,
    alert_level: Binary64,
    duration_h: Binary64,
    critical: Binary64,
    intensity: Binary64,
    exceedance: Binary64,
    factor: Binary64,
    hazard: Binary64,
)
    requires
        deterministic::<A>(),
        rounds_properly::<A>(),
        keeps_sides::<A>(),
        rounds_closely::<A>(),
        natural_logarithm(ln),
        logarithm_is_accurate::<A>(ln),
        exponential_is_accurate::<A>(ln),
        engine.parameters().trigger.regular(),
        engine.map().wf(),
        0 <= cell < engine.map()@.len(),
        alert_level.unit(),
        alert_level.less(engine.map()@[cell]),
        alert_level.number() >= 2real * grain(),
        engine.parameters().threshold.critical::<A>(duration_h, critical),
        regular(critical),
        engine.lifts(cell, alert_level, duration_h, Some(intensity)),
        engine.parameters().threshold.exceeds::<A>(intensity, duration_h, exceedance),
        engine.parameters().trigger.maps::<A>(exceedance, factor),
        multiplies::<A>(engine.map()@[cell], factor, hazard),
    ensures
        intensity.finite(),
        hazard.finite(),
        absolute(hazard.number() - alert_level.number()) <= speck(),
        engine.map()@[cell].number() <= 2real * alert_level.number() ==> zero().less(intensity),
{
    let (threshold, trigger) = (engine.parameters().threshold, engine.parameters().trigger);
    let s = engine.map()@[cell];
    let needed = choose|needed: Binary64| #[trigger]
        divides::<A>(alert_level, s, needed) && zero().at_most(needed) && needed.less(one()) && exists|
            e: Binary64,
            crit: Binary64,
        | #[trigger]
            trigger.inverts::<A>(needed, e) && #[trigger] threshold.critical::<A>(duration_h, crit) && multiplies::<A>(
                e,
                crit,
                intensity,
            );
    let (e, crit) = choose|e: Binary64, crit: Binary64| #[trigger]
        trigger.inverts::<A>(needed, e) && #[trigger] threshold.critical::<A>(duration_h, crit) && multiplies::<A>(
            e,
            crit,
            intensity,
        );
    let other = choose|other: Binary64| #[trigger]
        threshold.critical::<A>(duration_h, other) && if other.at_most(zero()) {
            exceedance == zero()
        } else {
            divides::<A>(intensity, other, exceedance)
        };
    lemma_critical_unique::<A>(threshold, duration_h, critical, crit);
    lemma_critical_unique::<A>(threshold, duration_h, critical, other);
    assert(s.unit());
    lemma_scales();
    lemma_small_numbers();
    lemma_rank_orders_numbers(zero(), critical);
    lemma_signal_returns_to_level::<A>(
        trigger,
        ln,
        s,
        alert_level,
        needed,
        e,
        critical,
        intensity,
        exceedance,
        factor,
        hazard,
    );
}

/// An attribution is determined by the engine: asking again for a cell and a step
/// gives the same explanation, whatever has been computed in between.
pub proof fn lemma_explanation_is_determined<F: Forcing, A: Arithmetic>(
    engine: &Nowcast<F, A>,
    cell: int,
    step: int,
    x: Explanation,
    y: Explanation,
)
    requires
        deterministic::<A>(),
        0 <= step,
        engine.attributes(cell, step, x),
        engine.attributes(cell, step, y),
    ensures
        x == y,
{
    let kernel = engine.parameters();
    let depths = depths_until(&engine.source(), cell, step);
    let window = kernel.max_window_steps as nat;
    let (row, m) = choose|row: Seq<Binary64>, m: int|
        {
            &&& #[trigger] accumulates::<A>(depths, row)
            &&& #[trigger] worst_window_of::<A>(
                kernel.threshold,
                kernel.dt_hours,
                recent(row, window),
                x.exceedance,
                m,
            )
            &&& duration_of::<A>(m, kernel.dt_hours, x.critical_duration_h)
            &&& intensity_of::<A>(row[row.len() - 1 - m], row.last(), x.critical_duration_h, x.mean_intensity_mm_h)
        };
    let (other, n) = choose|row: Seq<Binary64>, m: int|
        {
            &&& #[trigger] accumulates::<A>(depths, row)
            &&& #[trigger] worst_window_of::<A>(
                kernel.threshold,
                kernel.dt_hours,
                recent(row, window),
                y.exceedance,
                m,
            )
            &&& duration_of::<A>(m, kernel.dt_hours, y.critical_duration_h)
            &&& intensity_of::<A>(row[row.len() - 1 - m], row.last(), y.critical_duration_h, y.mean_intensity_mm_h)
        };
    lemma_accumulates_unique::<A>(depths, row, other, depths.len() as int);
    lemma_worst_window_unique::<A>(
        kernel.threshold,
        kernel.dt_hours,
        recent(row, window),
        x.exceedance,
        m,
        y.exceedance,
        n,
    );
    lemma_factor_unique::<A>(kernel.trigger, x.exceedance, x.trigger_factor, y.trigger_factor);
    lemma_critical_unique::<A>(
        kernel.threshold,
        x.critical_duration_h,
        x.critical_intensity_mm_h,
        y.critical_intensity_mm_h,
    );
}

} // verus!
