//! Composable triggers: several dynamic signals (rainfall, ground deformation, …)
//! in one hazard.
//!
//! A [`Trigger`] is anything that yields a factor in `[0, 1]` per cell and step,
//! and a [`MultiNowcast`] fuses several of them before modulating susceptibility:
//!
//! ```text
//!     hazard(cell, t) = susceptibility(cell) × combine(trigger_1, …, trigger_k)
//! ```

use std::marker::PhantomData;

use vstd::arithmetic::power2::pow2;
use vstd::prelude::*;

use crate::accuracy::{
    lemma_scales, leaves_neutral, orders_products, orders_sums, rounds_closely, rounds_to, tiny, ulp,
};
use crate::arithmetic::{
    deterministic, differs, divides, multiplies, multiplies_up, product, rounds_properly, sums, Arithmetic,
};
use crate::binary64::{absolute, lemma_rank_orders_numbers, lemma_small_numbers, lemma_unit_number, one, zero, Binary64};
use crate::error::{Error, Reason};
use crate::forcing::{depths_until, Forcing};
use crate::grid::{GridDims, SusceptibilityMap};
use crate::hazard::{
    bad_alert_level, lemma_peak, peak, peak_of, validate_alert_level, wrong_length, Alert, HazardField,
};
use crate::kernel::{accumulate_all, accumulates, accumulates_all, lemma_row_until, Kernel};
use crate::nowcast::{alerts_of, collect_alerts, grids_differ, no_window};
use crate::series;
use crate::threshold::IdThreshold;
use crate::trigger::TriggerModel;

verus! {

/// A dynamic trigger: a factor in `[0, 1]` per cell and step.
pub trait Trigger {
    /// The grid of the trigger; not known unless the trigger says so.
    open spec fn grid(&self) -> GridDims {
        arbitrary()
    }

    /// The number of time steps; not known unless the trigger says so.
    open spec fn steps(&self) -> nat {
        arbitrary()
    }

    /// `r` is a factor that the trigger may give at a cell and a step; any factor
    /// unless the trigger says more.
    open spec fn yields(&self, cell: int, step: int, r: Binary64) -> bool {
        true
    }

    /// Spatial grid the trigger is defined on.
    fn dims(&self) -> (r: GridDims)
        ensures
            r == self.grid(),
    ;

    /// Number of time steps.
    fn n_steps(&self) -> (r: usize)
        ensures
            r == self.steps(),
    ;

    /// Trigger factor at `cell` / `step`, in `[0, 1]`.
    fn factor(&self, cell: usize, step: usize) -> (r: Binary64)
        requires
            cell < self.grid().cells(),
            step < self.steps(),
        ensures
            self.yields(cell as int, step as int, r),
    ;
}

/// Rainfall intensity–duration trigger: the rolling-window worst exceedance of
/// the threshold, mapped through a [`TriggerModel`].
pub struct IdTrigger<F: Forcing, A: Arithmetic> {
    forcing: F,
    kernel: Kernel,
    /// Per cell: the running sums of the depths.
    rows: Vec<Vec<Binary64>>,
    arithmetic: PhantomData<A>,
}

impl<F: Forcing, A: Arithmetic> IdTrigger<F, A> {
    #[verifier::type_invariant]
    spec fn accumulated(self) -> bool {
        self.kernel.max_window_steps > 0 && accumulates_all::<F, A>(&self.forcing, self.rows@)
    }

    /// The forcing of the trigger.
    pub closed spec fn source(&self) -> F {
        self.forcing
    }

    /// The parameters of the trigger.
    pub closed spec fn parameters(&self) -> Kernel {
        self.kernel
    }

    /// Builds a trigger on a forcing.
    pub fn new(forcing: F, threshold: IdThreshold, model: TriggerModel, max_window_steps: usize) -> (r: Result<
        IdTrigger<F, A>,
        Error,
    >)
        requires
            forcing.grid().fits(),
        ensures
            match r {
                Ok(t) => {
                    &&& max_window_steps > 0
                    &&& t.source() == forcing
                    &&& t.parameters() == (Kernel {
                        threshold,
                        trigger: model,
                        max_window_steps,
                        dt_hours: forcing.hours(),
                    })
                },
                Err(e) => max_window_steps == 0 && e == no_window(),
            },
    {
        if max_window_steps == 0 {
            return Err(Error::InvalidParameter { name: "max_window_steps", reason: Reason::Text("must be >= 1") });
        }
        let rows: Vec<Vec<Binary64>> = accumulate_all::<F, A>(&forcing);
        let dt_hours: Binary64 = forcing.dt_hours();
        let kernel = Kernel { threshold, trigger: model, max_window_steps, dt_hours };
        Ok(IdTrigger { forcing, kernel, rows, arithmetic: PhantomData })
    }
}

impl<F: Forcing, A: Arithmetic> Trigger for IdTrigger<F, A> {
    open spec fn grid(&self) -> GridDims {
        self.source().grid()
    }

    open spec fn steps(&self) -> nat {
        self.source().steps()
    }

    open spec fn yields(&self, cell: int, step: int, r: Binary64) -> bool {
        self.parameters().factor_of::<A>(depths_until(&self.source(), cell, step), r)
    }

    fn dims(&self) -> (r: GridDims) {
        self.forcing.dims()
    }

    fn n_steps(&self) -> (r: usize) {
        self.forcing.n_steps()
    }

    fn factor(&self, cell: usize, step: usize) -> (r: Binary64) {
        proof {
            use_type_invariant(self);
            assert(accumulates::<A>(
                depths_until(&self.forcing, cell as int, self.forcing.steps() - 1),
                self.rows@[cell as int]@,
            ));
            lemma_row_until::<F, A>(&self.forcing, cell as int, self.rows@[cell as int]@, step as int);
        }
        self.kernel.factor_at::<A>(self.rows[cell].as_slice(), step)
    }
}

/// Spatially variable intensity–duration thresholds: one [`IdThreshold`] per
/// cell, row-major, sharing the rolling-window kernel of [`IdTrigger`].
pub struct IdMapTrigger<F: Forcing, A: Arithmetic> {
    forcing: F,
    thresholds: Vec<IdThreshold>,
    model: TriggerModel,
    max_window_steps: usize,
    dt_hours: Binary64,
    rows: Vec<Vec<Binary64>>,
    arithmetic: PhantomData<A>,
}

impl<F: Forcing, A: Arithmetic> IdMapTrigger<F, A> {
    #[verifier::type_invariant]
    spec fn accumulated(self) -> bool {
        &&& self.max_window_steps > 0
        &&& self.thresholds@.len() == self.forcing.grid().cells()
        &&& accumulates_all::<F, A>(&self.forcing, self.rows@)
    }

    /// The forcing of the trigger.
    pub closed spec fn source(&self) -> F {
        self.forcing
    }

    /// The parameters of the trigger at a cell.
    pub closed spec fn parameters_at(&self, cell: int) -> Kernel {
        Kernel {
            threshold: self.thresholds@[cell],
            trigger: self.model,
            max_window_steps: self.max_window_steps,
            dt_hours: self.dt_hours,
        }
    }

    /// Builds a trigger on a forcing and one threshold per cell.
    pub fn new(forcing: F, thresholds: Vec<IdThreshold>, model: TriggerModel, max_window_steps: usize) -> (r: Result<
        IdMapTrigger<F, A>,
        Error,
    >)
        requires
            forcing.grid().fits(),
        ensures
            match r {
                Ok(t) => {
                    &&& max_window_steps > 0
                    &&& thresholds@.len() == forcing.grid().cells()
                    &&& t.source() == forcing
                    &&& forall|c: int|
                        0 <= c < thresholds@.len() ==> #[trigger] t.parameters_at(c) == (Kernel {
                            threshold: thresholds@[c],
                            trigger: model,
                            max_window_steps,
                            dt_hours: forcing.hours(),
                        })
                },
                Err(e) => if max_window_steps == 0 {
                    e == no_window()
                } else {
                    thresholds@.len() != forcing.grid().cells() && e == wrong_length(forcing.grid(), thresholds@.len())
                },
            },
    {
        if max_window_steps == 0 {
            return Err(Error::InvalidParameter { name: "max_window_steps", reason: Reason::Text("must be >= 1") });
        }
        let dims: GridDims = forcing.dims();
        let n: usize = dims.len();
        if thresholds.len() != n {
            return Err(
                Error::GridSizeMismatch {
                    expected: n,
                    got: thresholds.len(),
                    ncols: dims.ncols,
                    nrows: dims.nrows,
                },
            );
        }
        let rows: Vec<Vec<Binary64>> = accumulate_all::<F, A>(&forcing);
        let dt_hours: Binary64 = forcing.dt_hours();
        Ok(IdMapTrigger { forcing, thresholds, model, max_window_steps, dt_hours, rows, arithmetic: PhantomData })
    }
}

impl<F: Forcing, A: Arithmetic> Trigger for IdMapTrigger<F, A> {
    open spec fn grid(&self) -> GridDims {
        self.source().grid()
    }

    open spec fn steps(&self) -> nat {
        self.source().steps()
    }

    open spec fn yields(&self, cell: int, step: int, r: Binary64) -> bool {
        self.parameters_at(cell).factor_of::<A>(depths_until(&self.source(), cell, step), r)
    }

    fn dims(&self) -> (r: GridDims) {
        self.forcing.dims()
    }

    fn n_steps(&self) -> (r: usize) {
        self.forcing.n_steps()
    }

    fn factor(&self, cell: usize, step: usize) -> (r: Binary64) {
        proof {
            use_type_invariant(self);
            assert(accumulates::<A>(
                depths_until(&self.forcing, cell as int, self.forcing.steps() - 1),
                self.rows@[cell as int]@,
            ));
            lemma_row_until::<F, A>(&self.forcing, cell as int, self.rows@[cell as int]@, step as int);
        }
        let kernel = Kernel {
            threshold: self.thresholds[cell],
            trigger: self.model,
            max_window_steps: self.max_window_steps,
            dt_hours: self.dt_hours,
        };
        kernel.factor_at::<A>(self.rows[cell].as_slice(), step)
    }
}

/// `v` is the antecedent precipitation index of the depths that fell before a
/// step: each step keeps a share of the index and adds its depth.
pub open spec fn antecedent<A: Arithmetic>(decay: Binary64, depths: Seq<Binary64>, v: Binary64) -> bool
    decreases depths.len(),
{
    if depths.len() == 0 {
        v == zero()
    } else {
        exists|before: Binary64, kept: Binary64| #[trigger]
            multiplies::<A>(decay, before, kept) && #[trigger] sums::<A>(kept, depths.last(), v) && antecedent::<A>(
                decay,
                depths.drop_last(),
                before,
            )
    }
}

/// Antecedent-wetness trigger: an exponentially decayed antecedent precipitation
/// index per cell, mapped through a [`TriggerModel`] against a critical wetness.
///
/// The index at a step summarises the water that fell before it, deliberately
/// excluding the step itself, so that it never counts the burst that an I–D
/// trigger scores.
pub struct AntecedentTrigger<F: Forcing, A: Arithmetic> {
    forcing: F,
    decay: Binary64,
    crit_mm: Binary64,
    model: TriggerModel,
    /// Per cell: the index at each step.
    api: Vec<Vec<Binary64>>,
    arithmetic: PhantomData<A>,
}

/// `row` holds the index of a cell at each step.
pub open spec fn antecedents<F: Forcing, A: Arithmetic>(
    forcing: &F,
    decay: Binary64,
    cell: int,
    row: Seq<Binary64>,
) -> bool {
    &&& row.len() == forcing.steps()
    &&& forall|t: int|
        0 <= t < row.len() ==> antecedent::<A>(decay, depths_until(forcing, cell, t - 1), #[trigger] row[t])
}

fn compute_antecedents<F: Forcing, A: Arithmetic>(forcing: &F, decay: Binary64, cell: usize) -> (r: Vec<Binary64>)
    requires
        cell < forcing.grid().cells(),
    ensures
        antecedents::<F, A>(forcing, decay, cell as int, r@),
{
    let n_steps: usize = forcing.n_steps();
    let mut row: Vec<Binary64> = Vec::new();
    let mut state: Binary64 = zero();
    let mut t: usize = 0;
    while t < n_steps
        invariant
            t <= n_steps,
            n_steps == forcing.steps(),
            cell < forcing.grid().cells(),
            row@.len() == t,
            forall|k: int|
                0 <= k < t ==> antecedent::<A>(decay, depths_until(forcing, cell as int, k - 1), #[trigger] row@[k]),
            antecedent::<A>(decay, depths_until(forcing, cell as int, t - 1), state),
        decreases n_steps - t,
    {
        row.push(state);
        let kept: Binary64 = A::times(decay, state);
        let depth: Binary64 = forcing.depth_mm(cell, t);
        let next: Binary64 = A::plus(kept, depth);
        proof {
            let depths = depths_until(forcing, cell as int, t as int);
            assert(multiplies::<A>(decay, state, kept));
            assert(sums::<A>(kept, depths.last(), next));
            assert(depths.drop_last() == depths_until(forcing, cell as int, t - 1));
        }
        state = next;
        t = t + 1;
    }
    row
}

impl<F: Forcing, A: Arithmetic> AntecedentTrigger<F, A> {
    #[verifier::type_invariant]
    spec fn accumulated(self) -> bool {
        &&& self.api@.len() == self.forcing.grid().cells()
        &&& forall|c: int|
            0 <= c < self.api@.len() ==> antecedents::<F, A>(&self.forcing, self.decay, c, (#[trigger] self.api@[c])@)
    }

    /// The forcing of the trigger.
    pub closed spec fn source(&self) -> F {
        self.forcing
    }

    /// The per-step retention.
    pub closed spec fn retention(&self) -> Binary64 {
        self.decay
    }

    /// The antecedent depth at which the factor is one half.
    pub closed spec fn critical_depth(&self) -> Binary64 {
        self.crit_mm
    }

    /// The trigger model.
    pub closed spec fn logistic(&self) -> TriggerModel {
        self.model
    }

    /// Builds a trigger. `decay` is the per-step retention in `(0, 1)`; `crit_mm`
    /// the antecedent depth (mm) at which the factor reaches one half.
    pub fn new(forcing: F, decay: Binary64, crit_mm: Binary64, model: TriggerModel) -> (r: Result<
        AntecedentTrigger<F, A>,
        Error,
    >)
        requires
            forcing.grid().fits(),
        ensures
            match r {
                Ok(t) => {
                    &&& zero().less(decay)
                    &&& decay.less(one())
                    &&& crit_mm.positive_finite()
                    &&& t.source() == forcing
                    &&& t.retention() == decay
                    &&& t.critical_depth() == crit_mm
                    &&& t.logistic() == model
                },
                Err(e) => if !(zero().less(decay) && decay.less(one())) {
                    e == (Error::InvalidParameter {
                        name: "decay",
                        reason: Reason::Value {
                            before: "per-step retention must be within (0, 1), got ",
                            value: decay,
                            after: "",
                        },
                    })
                } else {
                    !crit_mm.positive_finite() && e == (Error::InvalidParameter {
                        name: "crit_mm",
                        reason: Reason::Value {
                            before: "critical antecedent depth must be finite and > 0, got ",
                            value: crit_mm,
                            after: "",
                        },
                    })
                },
            },
    {
        if !(zero().below(decay) && decay.below(one())) {
            return Err(
                Error::InvalidParameter {
                    name: "decay",
                    reason: Reason::Value {
                        before: "per-step retention must be within (0, 1), got ",
                        value: decay,
                        after: "",
                    },
                },
            );
        }
        if !crit_mm.is_positive_finite() {
            return Err(
                Error::InvalidParameter {
                    name: "crit_mm",
                    reason: Reason::Value {
                        before: "critical antecedent depth must be finite and > 0, got ",
                        value: crit_mm,
                        after: "",
                    },
                },
            );
        }
        let n: usize = forcing.dims().len();
        let mut api: Vec<Vec<Binary64>> = Vec::new();
        let mut c: usize = 0;
        while c < n
            invariant
                c <= n,
                n == forcing.grid().cells(),
                api@.len() == c,
                forall|k: int| 0 <= k < c ==> antecedents::<F, A>(&forcing, decay, k, (#[trigger] api@[k])@),
            decreases n - c,
        {
            api.push(compute_antecedents::<F, A>(&forcing, decay, c));
            c = c + 1;
        }
        Ok(AntecedentTrigger { forcing, decay, crit_mm, model, api, arithmetic: PhantomData })
    }

    /// The antecedent precipitation index (mm) at a cell and a step.
    pub fn api(&self, cell: usize, step: usize) -> (r: Binary64)
        requires
            cell < self.source().grid().cells(),
            step < self.source().steps(),
        ensures
            antecedent::<A>(self.retention(), depths_until(&self.source(), cell as int, step - 1), r),
    {
        proof {
            use_type_invariant(self);
            assert(antecedents::<F, A>(&self.forcing, self.decay, cell as int, self.api@[cell as int]@));
        }
        self.api[cell][step]
    }
}

impl<F: Forcing, A: Arithmetic> Trigger for AntecedentTrigger<F, A> {
    open spec fn grid(&self) -> GridDims {
        self.source().grid()
    }

    open spec fn steps(&self) -> nat {
        self.source().steps()
    }

    open spec fn yields(&self, cell: int, step: int, r: Binary64) -> bool {
        exists|api: Binary64, e: Binary64| #[trigger]
            antecedent::<A>(self.retention(), depths_until(&self.source(), cell, step - 1), api) && #[trigger] divides::<
                A,
            >(api, self.critical_depth(), e) && self.logistic().maps::<A>(e, r)
    }

    fn dims(&self) -> (r: GridDims) {
        self.forcing.dims()
    }

    fn n_steps(&self) -> (r: usize) {
        self.forcing.n_steps()
    }

    fn factor(&self, cell: usize, step: usize) -> (r: Binary64) {
        let api: Binary64 = self.api(cell, step);
        let e: Binary64 = A::over(api, self.crit_mm);
        assert(divides::<A>(api, self.critical_depth(), e));
        self.model.factor::<A>(e)
    }
}

/// Duration-independent threshold trigger: `factor = model(value / crit)`, where
/// `value` is the forcing's per-cell per-step scalar. For a deformation rate,
/// routed discharge, or any signal already expressed as a rate.
pub struct ThresholdTrigger<F: Forcing, A: Arithmetic> {
    forcing: F,
    crit: Binary64,
    model: TriggerModel,
    arithmetic: PhantomData<A>,
}

impl<F: Forcing, A: Arithmetic> ThresholdTrigger<F, A> {
    /// The forcing of the trigger.
    pub closed spec fn source(&self) -> F {
        self.forcing
    }

    /// The value at which the factor is one half.
    pub closed spec fn critical_value(&self) -> Binary64 {
        self.crit
    }

    /// The trigger model.
    pub closed spec fn logistic(&self) -> TriggerModel {
        self.model
    }

    /// Builds a trigger; the threshold must be above zero.
    pub fn new(forcing: F, crit: Binary64, model: TriggerModel) -> (r: Result<ThresholdTrigger<F, A>, Error>)
        ensures
            match r {
                Ok(t) => crit.positive_finite() && t.source() == forcing && t.critical_value() == crit && t.logistic()
                    == model,
                Err(e) => !crit.positive_finite() && e == (Error::InvalidParameter {
                    name: "crit",
                    reason: Reason::Value {
                        before: "threshold must be finite and > 0, got ",
                        value: crit,
                        after: "",
                    },
                }),
            },
    {
        if !crit.is_positive_finite() {
            return Err(
                Error::InvalidParameter {
                    name: "crit",
                    reason: Reason::Value {
                        before: "threshold must be finite and > 0, got ",
                        value: crit,
                        after: "",
                    },
                },
            );
        }
        Ok(ThresholdTrigger { forcing, crit, model, arithmetic: PhantomData })
    }
}

impl<F: Forcing, A: Arithmetic> Trigger for ThresholdTrigger<F, A> {
    open spec fn grid(&self) -> GridDims {
        self.source().grid()
    }

    open spec fn steps(&self) -> nat {
        self.source().steps()
    }

    open spec fn yields(&self, cell: int, step: int, r: Binary64) -> bool {
        exists|e: Binary64| #[trigger]
            divides::<A>(self.source().depth(cell, step), self.critical_value(), e) && self.logistic().maps::<A>(e, r)
    }

    fn dims(&self) -> (r: GridDims) {
        self.forcing.dims()
    }

    fn n_steps(&self) -> (r: usize) {
        self.forcing.n_steps()
    }

    fn factor(&self, cell: usize, step: usize) -> (r: Binary64) {
        let e: Binary64 = A::over(self.forcing.depth_mm(cell, step), self.crit);
        assert(divides::<A>(self.source().depth(cell as int, step as int), self.critical_value(), e));
        self.model.factor::<A>(e)
    }
}

/// How to fuse several trigger factors into one.
#[derive(Debug, Clone, Copy, PartialEq, Eq, Structural)]
pub enum Combine {
    /// The strongest trigger wins (`max`).
    Max,
    /// Independent triggers, any may fire: `1 − ∏(1 − fᵢ)`.
    NoisyOr,
    /// All must concur: `∏ fᵢ`.
    Product,
}

/// `rests` holds what each factor leaves to one.
pub open spec fn complements<A: Arithmetic>(factors: Seq<Binary64>, rests: Seq<Binary64>) -> bool {
    &&& rests.len() == factors.len()
    &&& forall|i: int| 0 <= i < rests.len() ==> differs::<A>(one(), factors[i], #[trigger] rests[i])
}

impl Combine {
    /// `r` is the fusion of factors.
    pub open spec fn fuses<A: Arithmetic>(self, factors: Seq<Binary64>, r: Binary64) -> bool {
        match self {
            Combine::Max => r == peak(factors),
            Combine::NoisyOr => exists|rests: Seq<Binary64>, quiet: Binary64| #[trigger]
                complements::<A>(factors, rests) && #[trigger] multiplies_up::<A>(one(), rests, quiet) && differs::<A>(
                    one(),
                    quiet,
                    r,
                ),
            Combine::Product => multiplies_up::<A>(one(), factors, r),
        }
    }

    /// Fuses factors.
    pub fn apply<A: Arithmetic>(&self, factors: &[Binary64]) -> (r: Binary64)
        ensures
            self.fuses::<A>(factors@, r),
    {
        match self {
            Combine::Max => peak_of(factors),
            Combine::NoisyOr => {
                let mut rests: Vec<Binary64> = Vec::new();
                let mut i: usize = 0;
                while i < factors.len()
                    invariant
                        i <= factors@.len(),
                        rests@.len() == i,
                        forall|k: int| 0 <= k < i ==> differs::<A>(one(), factors@[k], #[trigger] rests@[k]),
                    decreases factors@.len() - i,
                {
                    rests.push(A::minus(one(), factors[i]));
                    i = i + 1;
                }
                let quiet: Binary64 = product::<A>(rests.as_slice());
                assert(complements::<A>(factors@, rests@));
                A::minus(one(), quiet)
            },
            Combine::Product => product::<A>(factors),
        }
    }
}

/// A fused factor held within `[0, 1]`; a NaN counts as zero.
pub open spec fn held(combined: Binary64) -> Binary64 {
    if combined.nan() {
        zero()
    } else {
        combined.clamped(zero(), one())
    }
}

fn hold(combined: Binary64) -> (r: Binary64)
    ensures
        r == held(combined),
{
    if combined.is_nan() {
        zero()
    } else {
        combined.clamp(zero(), one())
    }
}

/// A held factor lies within `[0, 1]`, whatever a trigger gave; one that lies
/// there already stays.
pub proof fn lemma_held_within_unit(combined: Binary64)
    ensures
        held(combined).unit(),
        combined.unit() ==> held(combined) == combined,
{
}

/// `factors` are the factors of triggers at a cell and a step, in order.
pub open spec fn factors_of(triggers: Seq<Box<dyn Trigger>>, cell: int, step: int, factors: Seq<Binary64>) -> bool {
    &&& factors.len() == triggers.len()
    &&& forall|i: int| 0 <= i < factors.len() ==> triggers[i].yields(cell, step, #[trigger] factors[i])
}

/// `p` is the hazard of a cell with a susceptibility under fused triggers.
pub open spec fn fused_hazard<A: Arithmetic>(
    triggers: Seq<Box<dyn Trigger>>,
    combine: Combine,
    susceptibility: Binary64,
    cell: int,
    step: int,
    p: Binary64,
) -> bool {
    exists|factors: Seq<Binary64>, combined: Binary64| #[trigger]
        factors_of(triggers, cell, step, factors) && #[trigger] combine.fuses::<A>(factors, combined) && multiplies::<A>(
            susceptibility,
            held(combined),
            p,
        )
}

/// A nowcast driven by several composable [`Trigger`]s.
pub struct MultiNowcast<A: Arithmetic> {
    susceptibility: SusceptibilityMap,
    triggers: Vec<Box<dyn Trigger>>,
    combine: Combine,
    n_steps: usize,
    arithmetic: PhantomData<A>,
}

/// Whether a trigger covers a grid and a number of steps.
pub open spec fn covers(triggers: Seq<Box<dyn Trigger>>, i: int, dims: GridDims, steps: nat) -> bool {
    triggers[i].grid() == dims && triggers[i].steps() == steps
}

/// The error for a trigger that does not cover the grid or the steps of the first
/// one.
pub open spec fn uncovered(triggers: Seq<Box<dyn Trigger>>, i: int, dims: GridDims, steps: nat) -> Error {
    if triggers[i].grid() != dims {
        grids_differ(dims, triggers[i].grid())
    } else {
        Error::InvalidParameter {
            name: "n_steps",
            reason: Reason::Counts {
                before: "triggers disagree: ",
                first: triggers[i].steps() as usize,
                between: " vs ",
                second: steps as usize,
                after: "",
            },
        }
    }
}

/// The first trigger that does not cover the grid or the steps.
pub open spec fn first_uncovered(triggers: Seq<Box<dyn Trigger>>, dims: GridDims, steps: nat, i: int) -> bool {
    &&& 0 <= i < triggers.len()
    &&& !covers(triggers, i, dims, steps)
    &&& forall|k: int| 0 <= k < i ==> #[trigger] covers(triggers, k, dims, steps)
}

impl<A: Arithmetic> MultiNowcast<A> {
    /// The susceptibility map of the engine.
    pub closed spec fn map(&self) -> SusceptibilityMap {
        self.susceptibility
    }

    /// The triggers of the engine.
    pub closed spec fn sources(&self) -> Seq<Box<dyn Trigger>> {
        self.triggers@
    }

    /// How the engine fuses its triggers.
    pub closed spec fn rule(&self) -> Combine {
        self.combine
    }

    /// The number of steps of the engine.
    pub closed spec fn steps(&self) -> nat {
        self.n_steps as nat
    }

    /// Every trigger covers the map and the steps.
    pub closed spec fn wf(&self) -> bool {
        &&& self.susceptibility.wf()
        &&& forall|i: int|
            0 <= i < self.triggers@.len() ==> #[trigger] covers(
                self.triggers@, i,
                self.susceptibility.grid(),
                self.n_steps as nat,
            )
    }

    /// `values` is the hazard field of a step.
    pub open spec fn nowcasts(&self, step: int, values: Seq<Binary64>) -> bool {
        &&& values.len() == self.map()@.len()
        &&& forall|c: int|
            0 <= c < values.len() ==> fused_hazard::<A>(
                self.sources(),
                self.rule(),
                self.map()@[c],
                c,
                step,
                #[trigger] values[c],
            )
    }

    /// `fields` are the hazard fields of all steps.
    pub open spec fn runs(&self, fields: Seq<Seq<Binary64>>) -> bool {
        &&& fields.len() == self.steps()
        &&& forall|t: int| 0 <= t < fields.len() ==> self.nowcasts(t, #[trigger] fields[t])
    }

    /// Builds an engine from a susceptibility map and one or more triggers, all on
    /// the same grid and step count.
    pub fn new(susceptibility: SusceptibilityMap, triggers: Vec<Box<dyn Trigger>>, combine: Combine) -> (r: Result<
        MultiNowcast<A>,
        Error,
    >)
        requires
            susceptibility.wf(),
        ensures
            match r {
                Ok(n) => {
                    &&& triggers@.len() > 0
                    &&& forall|i: int|
                        0 <= i < triggers@.len() ==> #[trigger] covers(
                triggers@, i,
                            susceptibility.grid(),
                            triggers@[0].steps(),
                        )
                    &&& n.wf()
                    &&& n.map() == susceptibility
                    &&& n.sources() == triggers@
                    &&& n.rule() == combine
                    &&& n.steps() == triggers@[0].steps()
                },
                Err(e) => if triggers@.len() == 0 {
                    e == (Error::InvalidParameter { name: "triggers", reason: Reason::Text("need at least one trigger") })
                } else {
                    exists|i: int| #[trigger]
                        first_uncovered(triggers@, susceptibility.grid(), triggers@[0].steps(), i) && e == uncovered(
                            triggers@,
                            i,
                            susceptibility.grid(),
                            triggers@[0].steps(),
                        )
                },
            },
    {
        if triggers.len() == 0 {
            return Err(
                Error::InvalidParameter { name: "triggers", reason: Reason::Text("need at least one trigger") },
            );
        }
        let dims: GridDims = susceptibility.dims();
        let n_steps: usize = triggers[0].n_steps();
        let mut i: usize = 0;
        while i < triggers.len()
            invariant
                i <= triggers@.len(),
                triggers@.len() > 0,
                dims == susceptibility.grid(),
                n_steps == triggers@[0].steps(),
                forall|k: int| 0 <= k < i ==> #[trigger] covers(triggers@, k, dims, n_steps as nat),
            decreases triggers@.len() - i,
        {
            let d: GridDims = triggers[i].dims();
            let n: usize = triggers[i].n_steps();
            if d != dims {
                assert(first_uncovered(triggers@, dims, n_steps as nat, i as int));
                return Err(
                    Error::GridMismatch {
                        susc_cols: dims.ncols,
                        susc_rows: dims.nrows,
                        forc_cols: d.ncols,
                        forc_rows: d.nrows,
                    },
                );
            }
            if n != n_steps {
                assert(first_uncovered(triggers@, dims, n_steps as nat, i as int));
                return Err(
                    Error::InvalidParameter {
                        name: "n_steps",
                        reason: Reason::Counts {
                            before: "triggers disagree: ",
                            first: n,
                            between: " vs ",
                            second: n_steps,
                            after: "",
                        },
                    },
                );
            }
            i = i + 1;
        }
        Ok(MultiNowcast { susceptibility, triggers, combine, n_steps, arithmetic: PhantomData })
    }

    /// Number of time steps.
    pub fn n_steps(&self) -> (r: usize)
        ensures
            r == self.steps(),
    {
        self.n_steps
    }

    /// Per-trigger factors at a cell and a step (for traceability), in trigger
    /// order.
    pub fn trigger_factors(&self, cell: usize, step: usize) -> (r: Vec<Binary64>)
        requires
            self.wf(),
            cell < self.map()@.len(),
            step < self.steps(),
        ensures
            factors_of(self.sources(), cell as int, step as int, r@),
    {
        let mut r: Vec<Binary64> = Vec::new();
        let mut i: usize = 0;
        while i < self.triggers.len()
            invariant
                i <= self.triggers@.len(),
                self.wf(),
                cell < self.map()@.len(),
                step < self.steps(),
                r@.len() == i,
                forall|k: int|
                    0 <= k < i ==> self.triggers@[k].yields(cell as int, step as int, #[trigger] r@[k]),
            decreases self.triggers@.len() - i,
        {
            assert(covers(self.triggers@, i as int, self.susceptibility.grid(), self.n_steps as nat));
            let f: Binary64 = self.triggers[i].factor(cell, step);
            r.push(f);
            i = i + 1;
        }
        r
    }

    /// Combined hazard field at a step.
    ///
    /// Factors should lie in `[0, 1]`; what a misbehaving trigger gives is held
    /// within the interval after fusion, and a NaN counts as zero.
    pub fn hazard_at(&self, step: usize) -> (r: HazardField)
        requires
            self.wf(),
            step < self.steps(),
        ensures
            r.wf(),
            r.at_step() == step,
            r.grid() == self.map().grid(),
            self.nowcasts(step as int, r@),
    {
        let dims: GridDims = self.susceptibility.dims();
        let n: usize = dims.len();
        let mut values: Vec<Binary64> = Vec::new();
        let mut c: usize = 0;
        while c < n
            invariant
                c <= n,
                n == self.map()@.len(),
                self.wf(),
                step < self.steps(),
                values@.len() == c,
                forall|k: int|
                    0 <= k < c ==> fused_hazard::<A>(
                        self.sources(),
                        self.rule(),
                        self.map()@[k],
                        k,
                        step as int,
                        #[trigger] values@[k],
                    ),
            decreases n - c,
        {
            let factors: Vec<Binary64> = self.trigger_factors(c, step);
            let combined: Binary64 = self.combine.apply::<A>(factors.as_slice());
            let p: Binary64 = A::times(self.susceptibility.get(c), hold(combined));
            proof {
                assert(factors_of(self.sources(), c as int, step as int, factors@));
                assert(self.rule().fuses::<A>(factors@, combined));
                assert(multiplies::<A>(self.map()@[c as int], held(combined), p));
            }
            values.push(p);
            c = c + 1;
        }
        HazardField::of_values(step, dims, values)
    }

    /// Runs the full nowcast, returning one [`HazardField`] per time step.
    pub fn run(&self) -> (r: Vec<HazardField>)
        requires
            self.wf(),
        ensures
            r@.len() == self.steps(),
            forall|t: int|
                0 <= t < r@.len() ==> (#[trigger] r@[t]).wf() && r@[t].at_step() == t && r@[t].grid()
                    == self.map().grid() && self.nowcasts(t, r@[t]@),
    {
        let mut r: Vec<HazardField> = Vec::new();
        let mut t: usize = 0;
        while t < self.n_steps
            invariant
                t <= self.n_steps,
                self.wf(),
                r@.len() == t,
                forall|k: int|
                    0 <= k < t ==> (#[trigger] r@[k]).wf() && r@[k].at_step() == k && r@[k].grid() == self.map().grid()
                        && self.nowcasts(k, r@[k]@),
            decreases self.n_steps - t,
        {
            r.push(self.hazard_at(t));
            t = t + 1;
        }
        r
    }

    /// Runs the nowcast and emits an [`Alert`] for every step whose hazard reaches
    /// `level`. Fails if `level` is not a probability in `[0, 1]`.
    pub fn alerts(&self, level: Binary64) -> (r: Result<Vec<Alert>, Error>)
        requires
            self.wf(),
        ensures
            match r {
                Ok(alerts) => level.unit() && exists|fields: Seq<Seq<Binary64>>| #[trigger]
                    self.runs(fields) && alerts_of::<A>(self.map().grid(), fields, level, alerts@),
                Err(e) => !level.unit() && e == bad_alert_level(level),
            },
    {
        match validate_alert_level(level) {
            Ok(_) => {},
            Err(e) => {
                return Err(e);
            },
        }
        let fields: Vec<HazardField> = self.run();
        let alerts: Vec<Alert> = collect_alerts::<A>(self.susceptibility.dims(), &fields, level);
        proof {
            let all = fields@.map_values(|f: HazardField| f@);
            assert(all.len() == self.steps());
            assert forall|t: int| 0 <= t < all.len() implies self.nowcasts(t, #[trigger] all[t]) by {
                assert(self.nowcasts(t, fields@[t]@));
            }
            assert(self.runs(all));
        }
        Ok(alerts)
    }
}

/// One curve for all cells is one curve: where every cell has the same threshold,
/// a threshold map yields the factors of the single threshold.
pub proof fn lemma_uniform_map_is_single_curve<F: Forcing, A: Arithmetic>(
    mapped: IdMapTrigger<F, A>,
    single: IdTrigger<F, A>,
    cell: int,
    step: int,
    r: Binary64,
)
    requires
        mapped.source() == single.source(),
        mapped.parameters_at(cell) == single.parameters(),
    ensures
        mapped.yields(cell, step, r) <==> single.yields(cell, step, r),
{
}

/// A factor within `[0, 1]` that is not a negative zero.
pub open spec fn proper_factor(f: Binary64) -> bool {
    f.unit() && !f.negative()
}

/// A single I–D trigger is the batch engine: under [`Combine::Max`] the hazard of
/// a cell is the one that the batch engine gives, as long as factors lie within
/// `[0, 1]`.
pub proof fn lemma_single_trigger_is_batch<F: Forcing, A: Arithmetic>(
    triggers: Seq<Box<dyn Trigger>>,
    forcing: &F,
    kernel: Kernel,
    susceptibility: Binary64,
    cell: int,
    step: int,
    p: Binary64,
)
    requires
        triggers.len() == 1,
        forall|f: Binary64|
            triggers[0].yields(cell, step, f) <==> #[trigger] kernel.factor_of::<A>(
                depths_until(forcing, cell, step),
                f,
            ),
        forall|f: Binary64| #[trigger]
            kernel.factor_of::<A>(depths_until(forcing, cell, step), f) ==> proper_factor(f),
    ensures
        fused_hazard::<A>(triggers, Combine::Max, susceptibility, cell, step, p) <==> kernel.hazard_of::<A>(
            susceptibility,
            depths_until(forcing, cell, step),
            p,
        ),
{
    let depths = depths_until(forcing, cell, step);
    if fused_hazard::<A>(triggers, Combine::Max, susceptibility, cell, step, p) {
        let (fs, c) = choose|factors: Seq<Binary64>, combined: Binary64| #[trigger]
            factors_of(triggers, cell, step, factors) && #[trigger] Combine::Max.fuses::<A>(factors, combined)
                && multiplies::<A>(susceptibility, held(combined), p);
        assert(triggers[0].yields(cell, step, fs[0]));
        assert(kernel.factor_of::<A>(depths, fs[0]));
        lemma_peak_of_one(fs);
        assert(held(c) == fs[0]);
    }
    if kernel.hazard_of::<A>(susceptibility, depths, p) {
        let f = choose|f: Binary64| #[trigger] kernel.factor_of::<A>(depths, f) && multiplies::<A>(susceptibility, f, p);
        let fs = seq![f];
        lemma_peak_of_one(fs);
        assert(factors_of(triggers, cell, step, fs));
        assert(Combine::Max.fuses::<A>(fs, f));
        assert(held(f) == f);
    }
}

proof fn lemma_peak_of_one(fs: Seq<Binary64>)
    requires
        fs.len() == 1,
        proper_factor(fs[0]),
    ensures
        peak(fs) == fs[0],
{
    reveal_with_fuel(peak, 2);
    assert(fs.drop_last().len() == 0);
}

/// A fused hazard is a probability, and never above the susceptibility of its
/// cell, whatever the triggers gave.
pub proof fn lemma_fused_hazard_within_unit<A: Arithmetic>(
    triggers: Seq<Box<dyn Trigger>>,
    combine: Combine,
    susceptibility: Binary64,
    cell: int,
    step: int,
    p: Binary64,
)
    requires
        rounds_properly::<A>(),
        susceptibility.unit(),
        fused_hazard::<A>(triggers, combine, susceptibility, cell, step, p),
    ensures
        p.unit(),
        p.at_most(susceptibility),
{
    let (factors, combined) = choose|factors: Seq<Binary64>, combined: Binary64| #[trigger]
        factors_of(triggers, cell, step, factors) && #[trigger] combine.fuses::<A>(factors, combined) && multiplies::<A>(
            susceptibility,
            held(combined),
            p,
        );
    lemma_held_within_unit(combined);
}

/// The strongest trigger wins: no factor is above the fused one, which is one of
/// them, or zero.
pub proof fn lemma_strongest_wins<A: Arithmetic>(factors: Seq<Binary64>, r: Binary64)
    requires
        forall|i: int| 0 <= i < factors.len() ==> (#[trigger] factors[i]).unit(),
        Combine::Max.fuses::<A>(factors, r),
    ensures
        r.unit(),
        r == zero() || factors.contains(r),
        forall|i: int| 0 <= i < factors.len() ==> (#[trigger] factors[i]).at_most(r),
{
    lemma_peak(factors);
    assert forall|i: int| 0 <= i < factors.len() implies (#[trigger] factors[i]).at_most(r) by {
        assert(!peak(factors).less(factors[i]));
    }
}

/// All must concur: the product is within `[0, 1]` and above none of its factors.
pub proof fn lemma_all_must_concur<A: Arithmetic>(factors: Seq<Binary64>, r: Binary64)
    requires
        rounds_properly::<A>(),
        forall|i: int| 0 <= i < factors.len() ==> (#[trigger] factors[i]).unit(),
        Combine::Product.fuses::<A>(factors, r),
    ensures
        r.unit(),
        forall|i: int| 0 <= i < factors.len() ==> r.at_most(#[trigger] factors[i]),
{
    lemma_product_within_unit::<A>(factors, r);
}

proof fn lemma_product_within_unit<A: Arithmetic>(factors: Seq<Binary64>, r: Binary64)
    requires
        rounds_properly::<A>(),
        forall|i: int| 0 <= i < factors.len() ==> (#[trigger] factors[i]).unit(),
        multiplies_up::<A>(one(), factors, r),
    ensures
        r.unit(),
        forall|i: int| 0 <= i < factors.len() ==> r.at_most(#[trigger] factors[i]),
    decreases factors.len(),
{
    if factors.len() > 0 {
        let rest = factors.drop_last();
        let before = choose|before: Binary64| #[trigger]
            multiplies::<A>(before, factors.last(), r) && multiplies_up::<A>(one(), rest, before);
        assert forall|i: int| 0 <= i < rest.len() implies (#[trigger] rest[i]).unit() by {
            assert(rest[i] == factors[i]);
        }
        lemma_product_within_unit::<A>(rest, before);
        assert(factors.last().unit());
        assert forall|i: int| 0 <= i < factors.len() implies r.at_most(#[trigger] factors[i]) by {
            if i < rest.len() {
                assert(rest[i] == factors[i]);
                assert(before.at_most(rest[i]));
            }
        }
    }
}

/// Triggers within `[0, 1]` need no holding back: whatever the rule, their fusion
/// lies within `[0, 1]`.
pub proof fn lemma_fusion_within_unit<A: Arithmetic>(combine: Combine, factors: Seq<Binary64>, r: Binary64)
    requires
        rounds_properly::<A>(),
        forall|i: int| 0 <= i < factors.len() ==> (#[trigger] factors[i]).unit(),
        combine.fuses::<A>(factors, r),
    ensures
        r.unit(),
        held(r) == r,
{
    match combine {
        Combine::Max => {
            lemma_strongest_wins::<A>(factors, r);
        },
        Combine::Product => {
            lemma_all_must_concur::<A>(factors, r);
        },
        Combine::NoisyOr => {
            let (rests, quiet) = choose|rests: Seq<Binary64>, quiet: Binary64| #[trigger]
                complements::<A>(factors, rests) && #[trigger] multiplies_up::<A>(one(), rests, quiet) && differs::<A>(
                    one(),
                    quiet,
                    r,
                );
            assert forall|i: int| 0 <= i < rests.len() implies (#[trigger] rests[i]).unit() by {
                assert(factors[i].unit());
            }
            lemma_product_within_unit::<A>(rests, quiet);
        },
    }
    lemma_held_within_unit(r);
}

/// What factors leave to one, as numbers.
pub open spec fn left_over(factors: Seq<Binary64>) -> Seq<real> {
    factors.map_values(|f: Binary64| 1real - f.number())
}

/// The numbers of factors.
pub open spec fn numbers(factors: Seq<Binary64>) -> Seq<real> {
    factors.map_values(|f: Binary64| f.number())
}

/// Independent triggers: a noisy-or leaves to one what all factors together leave
/// to it, the product of what each leaves, within rounding.
pub proof fn lemma_any_may_fire<A: Arithmetic>(factors: &[Binary64], r: Binary64)
    requires
        rounds_closely::<A>(),
        rounds_properly::<A>(),
        forall|i: int| 0 <= i < factors@.len() ==> (#[trigger] factors@[i]).unit(),
        call_ensures(Combine::apply::<A>, (&Combine::NoisyOr, factors), r),
    ensures
        r.unit(),
        absolute((1real - r.number()) - series::product(left_over(factors@))) <= ulp(4real * (factors@.len() as real) + 2real),
{
    let (rests, quiet) = choose|rests: Seq<Binary64>, quiet: Binary64| #[trigger]
        complements::<A>(factors@, rests) && #[trigger] multiplies_up::<A>(one(), rests, quiet) && differs::<A>(
            one(),
            quiet,
            r,
        );
    lemma_scales();
    lemma_small_numbers();
    let (n, left) = (factors@.len() as real, left_over(factors@));
    let slack = ulp(2real);
    assert forall|i: int| 0 <= i < rests.len() implies (#[trigger] rests[i]).unit() by {
        assert(factors@[i].unit());
    }
    assert forall|i: int| 0 <= i < left.len() implies 0real <= #[trigger] left[i] <= 1real && absolute(
        rests[i].number() - left[i],
    ) <= slack by {
        assert(factors@[i].unit());
        lemma_unit_number(factors@[i]);
        assert(differs::<A>(one(), factors@[i], rests[i]));
        assert(rounds_to(1real - factors@[i].number(), rests[i]));
    }
    series::lemma_product_near::<A>(rests, left, slack, quiet);
    lemma_unit_number(quiet);
    assert(rounds_to(1real - quiet.number(), r));
    assert(n * (slack + ulp(2real)) == ulp(4real * n)) by (nonlinear_arith)
        requires
            slack == 2real / 0x10_0000_0000_0000real,
            ulp(2real) == 2real / 0x10_0000_0000_0000real,
            ulp(4real * n) == 4real * n / 0x10_0000_0000_0000real,
    ;
}

/// The noisy-or of two factors is their sum less their product, within rounding.
pub proof fn lemma_two_may_fire<A: Arithmetic>(factors: &[Binary64], r: Binary64)
    requires
        rounds_closely::<A>(),
        rounds_properly::<A>(),
        factors@.len() == 2,
        factors@[0].unit(),
        factors@[1].unit(),
        call_ensures(Combine::apply::<A>, (&Combine::NoisyOr, factors), r),
    ensures
        ({
            let (f, g) = (factors@[0].number(), factors@[1].number());
            absolute(r.number() - (f + g - f * g)) <= ulp(10real)
        }),
{
    assert forall|i: int| 0 <= i < factors@.len() implies (#[trigger] factors@[i]).unit() by {}
    lemma_any_may_fire::<A>(factors, r);
    let left = left_over(factors@);
    reveal_with_fuel(series::product, 3);
    assert(left.drop_last().drop_last().len() == 0);
    let (f, g) = (factors@[0].number(), factors@[1].number());
    assert(left.drop_last().last() == 1real - f && left.last() == 1real - g);
    let (x, y) = (1real - f, 1real - g);
    assert(series::product(left) == (1real * x) * y);
    assert((1real * x) * y == 1real - f - g + f * g) by (nonlinear_arith)
        requires
            x == 1real - f,
            y == 1real - g,
    ;
}

/// Numbers of which all are one but for one multiply to that one.
proof fn lemma_product_of_ones(numbers: Seq<real>, k: int)
    requires
        0 <= k < numbers.len(),
        forall|i: int| 0 <= i < numbers.len() && i != k ==> #[trigger] numbers[i] == 1real,
    ensures
        series::product(numbers) == numbers[k],
    decreases numbers.len(),
{
    let rest = numbers.drop_last();
    let (p, x) = (series::product(rest), numbers.last());
    if k == numbers.len() - 1 {
        lemma_product_of_only_ones(rest);
        assert(p * x == x) by (nonlinear_arith)
            requires
                p == 1real,
        ;
    } else {
        lemma_product_of_ones(rest, k);
        assert(numbers[numbers.len() - 1] == 1real);
        assert(p * x == p) by (nonlinear_arith)
            requires
                x == 1real,
        ;
    }
}

proof fn lemma_product_of_only_ones(numbers: Seq<real>)
    requires
        forall|i: int| 0 <= i < numbers.len() ==> #[trigger] numbers[i] == 1real,
    ensures
        series::product(numbers) == 1real,
    decreases numbers.len(),
{
    if numbers.len() > 0 {
        let rest = numbers.drop_last();
        lemma_product_of_only_ones(rest);
        assert(numbers[numbers.len() - 1] == 1real);
        let (p, x) = (series::product(rest), numbers.last());
        assert(p * x == 1real) by (nonlinear_arith)
            requires
                p == 1real,
                x == 1real,
        ;
    }
}

/// A trigger that fires alone is the noisy-or: where all other factors are zero,
/// the fusion is the factor, within rounding.
pub proof fn lemma_single_factor_stays<A: Arithmetic>(factors: &[Binary64], k: int, r: Binary64)
    requires
        rounds_closely::<A>(),
        rounds_properly::<A>(),
        0 <= k < factors@.len(),
        factors@[k].unit(),
        forall|i: int| 0 <= i < factors@.len() && i != k ==> (#[trigger] factors@[i]).same_number(zero()),
        call_ensures(Combine::apply::<A>, (&Combine::NoisyOr, factors), r),
    ensures
        absolute(r.number() - factors@[k].number()) <= ulp(4real * (factors@.len() as real) + 2real),
{
    lemma_small_numbers();
    assert forall|i: int| 0 <= i < factors@.len() implies (#[trigger] factors@[i]).unit() by {}
    lemma_any_may_fire::<A>(factors, r);
    let left = left_over(factors@);
    assert forall|i: int| 0 <= i < left.len() && i != k implies #[trigger] left[i] == 1real by {
        assert(factors@[i].same_number(zero()));
        lemma_rank_orders_numbers(factors@[i], zero());
    }
    lemma_product_of_ones(left, k);
}

/// A product is determined by its factors.
proof fn lemma_multiplies_up_unique<A: Arithmetic>(start: Binary64, factors: Seq<Binary64>, r: Binary64, s: Binary64)
    requires
        deterministic::<A>(),
        multiplies_up::<A>(start, factors, r),
        multiplies_up::<A>(start, factors, s),
    ensures
        r == s,
    decreases factors.len(),
{
    if factors.len() > 0 {
        let a = choose|a: Binary64| #[trigger]
            multiplies::<A>(a, factors.last(), r) && multiplies_up::<A>(start, factors.drop_last(), a);
        let b = choose|b: Binary64| #[trigger]
            multiplies::<A>(b, factors.last(), s) && multiplies_up::<A>(start, factors.drop_last(), b);
        lemma_multiplies_up_unique::<A>(start, factors.drop_last(), a, b);
    }
}

/// An idle trigger changes nothing: one more factor of zero leaves a noisy-or as
/// it is, one more factor of one a product.
pub proof fn lemma_idle_trigger_changes_nothing<A: Arithmetic>(
    factors: &[Binary64],
    more: &[Binary64],
    r: Binary64,
    s: Binary64,
)
    requires
        deterministic::<A>(),
        rounds_properly::<A>(),
        leaves_neutral::<A>(),
        forall|i: int| 0 <= i < factors@.len() ==> (#[trigger] factors@[i]).unit(),
        more@.len() == factors@.len() + 1,
        more@.drop_last() == factors@,
    ensures
        more@.last().same_number(zero()) && call_ensures(Combine::apply::<A>, (&Combine::NoisyOr, factors), r)
            && call_ensures(Combine::apply::<A>, (&Combine::NoisyOr, more), s) ==> r == s,
        more@.last() == one() && call_ensures(Combine::apply::<A>, (&Combine::Product, factors), r) && call_ensures(
            Combine::apply::<A>,
            (&Combine::Product, more),
            s,
        ) ==> r == s,
{
    if more@.last().same_number(zero()) && call_ensures(Combine::apply::<A>, (&Combine::NoisyOr, factors), r)
        && call_ensures(Combine::apply::<A>, (&Combine::NoisyOr, more), s) {
        let (xs, x) = choose|rests: Seq<Binary64>, quiet: Binary64| #[trigger]
            complements::<A>(factors@, rests) && #[trigger] multiplies_up::<A>(one(), rests, quiet) && differs::<A>(
                one(),
                quiet,
                r,
            );
        let (ys, y) = choose|rests: Seq<Binary64>, quiet: Binary64| #[trigger]
            complements::<A>(more@, rests) && #[trigger] multiplies_up::<A>(one(), rests, quiet) && differs::<A>(
                one(),
                quiet,
                s,
            );
        let before = choose|before: Binary64| #[trigger]
            multiplies::<A>(before, ys.last(), y) && multiplies_up::<A>(one(), ys.drop_last(), before);
        assert forall|i: int| 0 <= i < xs.len() implies xs[i] == ys.drop_last()[i] && xs[i].unit() by {
            assert(differs::<A>(one(), factors@[i], xs[i]));
            assert(differs::<A>(one(), more@[i], ys[i]));
            assert(more@.drop_last()[i] == factors@[i]);
            assert(factors@[i].unit());
        }
        assert(xs == ys.drop_last());
        lemma_multiplies_up_unique::<A>(one(), xs, x, before);
        lemma_product_within_unit::<A>(xs, x);
        assert(differs::<A>(one(), more@[more@.len() - 1], ys[ys.len() - 1]));
        assert(ys.last() == one());
        assert(y == before);
    }
    if more@.last() == one() && call_ensures(Combine::apply::<A>, (&Combine::Product, factors), r) && call_ensures(
        Combine::apply::<A>,
        (&Combine::Product, more),
        s,
    ) {
        let before = choose|before: Binary64| #[trigger]
            multiplies::<A>(before, more@.last(), s) && multiplies_up::<A>(one(), more@.drop_last(), before);
        lemma_multiplies_up_unique::<A>(one(), factors@, r, before);
        lemma_product_within_unit::<A>(factors@, r);
    }
}

/// All must concur: the product rule gives the product of the factors, within
/// rounding.
pub proof fn lemma_product_of_factors<A: Arithmetic>(factors: &[Binary64], r: Binary64)
    requires
        rounds_closely::<A>(),
        rounds_properly::<A>(),
        forall|i: int| 0 <= i < factors@.len() ==> (#[trigger] factors@[i]).unit(),
        call_ensures(Combine::apply::<A>, (&Combine::Product, factors), r),
    ensures
        r.unit(),
        absolute(r.number() - series::product(numbers(factors@))) <= ulp(2real * (factors@.len() as real)),
{
    let ys = numbers(factors@);
    assert forall|i: int| 0 <= i < ys.len() implies 0real <= #[trigger] ys[i] <= 1real && absolute(
        factors@[i].number() - ys[i],
    ) <= 0real by {
        assert(factors@[i].unit());
        lemma_unit_number(factors@[i]);
    }
    series::lemma_product_near::<A>(factors@, ys, 0real, r);
    let n = factors@.len() as real;
    assert(n * (0real + ulp(2real)) == ulp(2real * n)) by (nonlinear_arith)
        requires
            ulp(2real) == 2real / 0x10_0000_0000_0000real,
            ulp(2real * n) == 2real * n / 0x10_0000_0000_0000real,
    ;
}

/// The strongest trigger wins: the fusion by the maximum is a factor that no other
/// one exceeds.
pub proof fn lemma_maximum_of_factors<A: Arithmetic>(factors: &[Binary64], r: Binary64)
    requires
        factors@.len() > 0,
        forall|i: int| 0 <= i < factors@.len() ==> (#[trigger] factors@[i]).unit(),
        call_ensures(Combine::apply::<A>, (&Combine::Max, factors), r),
    ensures
        forall|i: int| 0 <= i < factors@.len() ==> (#[trigger] factors@[i]).at_most(r),
        exists|i: int| 0 <= i < factors@.len() && (#[trigger] factors@[i]).same_number(r),
{
    lemma_strongest_wins::<A>(factors@, r);
    if factors@.contains(r) {
        let i = choose|i: int| 0 <= i < factors@.len() && factors@[i] == r;
        assert(factors@[i].unit() && factors@[i].same_number(r));
    } else {
        assert(factors@[0].unit() && factors@[0].at_most(r));
        assert(factors@[0].same_number(r));
    }
}

/// A number to a whole power.
pub open spec fn whole_power(x: real, n: nat) -> real
    decreases n,
{
    if n == 0 {
        1real
    } else {
        whole_power(x, (n - 1) as nat) * x
    }
}

/// An index is determined by the retention and the depths.
proof fn lemma_antecedent_unique<A: Arithmetic>(decay: Binary64, depths: Seq<Binary64>, v: Binary64, w: Binary64)
    requires
        deterministic::<A>(),
        antecedent::<A>(decay, depths, v),
        antecedent::<A>(decay, depths, w),
    ensures
        v == w,
    decreases depths.len(),
{
    if depths.len() > 0 {
        let (a, j) = choose|before: Binary64, kept: Binary64| #[trigger]
            multiplies::<A>(decay, before, kept) && #[trigger] sums::<A>(kept, depths.last(), v) && antecedent::<A>(
                decay,
                depths.drop_last(),
                before,
            );
        let (b, k) = choose|before: Binary64, kept: Binary64| #[trigger]
            multiplies::<A>(decay, before, kept) && #[trigger] sums::<A>(kept, depths.last(), w) && antecedent::<A>(
                decay,
                depths.drop_last(),
                before,
            );
        lemma_antecedent_unique::<A>(decay, depths.drop_last(), a, b);
        assert(j == k);
    }
}

/// An index starts at zero: nothing has fallen before the first step.
pub proof fn lemma_index_starts_at_zero<F: Forcing, A: Arithmetic>(t: AntecedentTrigger<F, A>, cell: usize, v: Binary64)
    requires
        cell < t.source().grid().cells(),
        0 < t.source().steps(),
        call_ensures(AntecedentTrigger::<F, A>::api, (&t, cell, 0usize), v),
    ensures
        v == zero(),
{
    assert(depths_until(&t.source(), cell as int, -1).len() == 0);
}

/// From one step to the next an index shrinks to the retention that the trigger
/// was built with and grows by the depth that fell, within rounding. On a dry
/// step it is the rounded product of the retention and itself.
pub proof fn lemma_index_decays<F: Forcing, A: Arithmetic>(
    forcing: F,
    decay: Binary64,
    crit_mm: Binary64,
    model: TriggerModel,
    t: AntecedentTrigger<F, A>,
    cell: usize,
    step: usize,
    next: usize,
    v: Binary64,
    w: Binary64,
)
    requires
        deterministic::<A>(),
        rounds_closely::<A>(),
        leaves_neutral::<A>(),
        forcing.grid().fits(),
        call_ensures(
            AntecedentTrigger::<F, A>::new,
            (forcing, decay, crit_mm, model),
            Ok::<AntecedentTrigger<F, A>, Error>(t),
        ),
        cell < forcing.grid().cells(),
        next == step + 1,
        next < forcing.steps(),
        call_ensures(AntecedentTrigger::<F, A>::api, (&t, cell, step), v),
        call_ensures(AntecedentTrigger::<F, A>::api, (&t, cell, next), w),
        v.finite(),
        absolute(v.number()) <= pow2(1000) as real,
        forcing.depth(cell as int, step as int).finite(),
        absolute(forcing.depth(cell as int, step as int).number()) <= pow2(1000) as real,
    ensures
        w.finite(),
        ({
            let (d, x) = (forcing.depth(cell as int, step as int).number(), v.number());
            absolute(w.number() - (decay.number() * x + d)) <= ulp(3real * (absolute(x) + absolute(d))) + 3real * tiny()
        }),
        forcing.depth(cell as int, step as int).same_number(zero()) ==> rounds_to(decay.number() * v.number(), w),
{
    let depths = depths_until(&forcing, cell as int, step as int);
    let depth = forcing.depth(cell as int, step as int);
    assert(depths.drop_last() == depths_until(&forcing, cell as int, step - 1));
    assert(antecedent::<A>(decay, depths, w));
    let (before, kept) = choose|before: Binary64, kept: Binary64| #[trigger]
        multiplies::<A>(decay, before, kept) && #[trigger] sums::<A>(kept, depths.last(), w) && antecedent::<A>(
            decay,
            depths.drop_last(),
            before,
        );
    lemma_antecedent_unique::<A>(decay, depths.drop_last(), before, v);
    lemma_scales();
    lemma_retention(decay);
    let (c, x, d) = (decay.number(), v.number(), depth.number());
    assert(c * x == x * c) by (nonlinear_arith);
    series::lemma_part_of(x, c);
    assert(rounds_to(c * x, kept));
    assert(rounds_to(kept.number() + d, w));
    if depth.same_number(zero()) {
        lemma_rank_orders_numbers(w, kept);
    }
}

/// A retention is a number between zero and one.
proof fn lemma_retention(decay: Binary64)
    requires
        zero().less(decay),
        decay.less(one()),
    ensures
        decay.finite(),
        0real < decay.number() < 1real,
{
    lemma_small_numbers();
    lemma_rank_orders_numbers(zero(), decay);
    lemma_rank_orders_numbers(decay, one());
}

/// The index after a dry spell, on the depths themselves.
proof fn lemma_index_after_dry_depths<A: Arithmetic>(
    decay: Binary64,
    depths: Seq<Binary64>,
    n: nat,
    v: Binary64,
    w: Binary64,
)
    requires
        deterministic::<A>(),
        rounds_closely::<A>(),
        leaves_neutral::<A>(),
        zero().less(decay),
        decay.less(one()),
        n <= 0x100_0000_0000,
        n <= depths.len(),
        forall|i: int| depths.len() - n <= i < depths.len() ==> (#[trigger] depths[i]).same_number(zero()),
        antecedent::<A>(decay, depths.take(depths.len() - n), v),
        antecedent::<A>(decay, depths, w),
        v.finite(),
        absolute(v.number()) <= pow2(1000) as real,
    ensures
        w.finite(),
        0real < whole_power(decay.number(), n) <= 1real,
        absolute(w.number() - v.number() * whole_power(decay.number(), n)) <= series::drift(n as real, absolute(v.number())),
    decreases n,
{
    lemma_scales();
    let (c, x) = (decay.number(), v.number());
    let size = absolute(x);
    if n == 0 {
        assert(depths.take(depths.len() as int) == depths);
        lemma_antecedent_unique::<A>(decay, depths, v, w);
        let u = ulp(2real * size) + 2real * tiny();
        assert(0real * u == 0real && x * 1real == x) by (nonlinear_arith);
    } else {
        let m = (n - 1) as nat;
        let rest = depths.drop_last();
        let (before, kept) = choose|before: Binary64, kept: Binary64| #[trigger]
            multiplies::<A>(decay, before, kept) && #[trigger] sums::<A>(kept, depths.last(), w) && antecedent::<A>(
                decay,
                depths.drop_last(),
                before,
            );
        assert(rest.take(rest.len() - m) == depths.take(depths.len() - n));
        assert forall|i: int| rest.len() - m <= i < rest.len() implies (#[trigger] rest[i]).same_number(zero()) by {
            assert(depths[i].same_number(zero()));
        }
        lemma_index_after_dry_depths::<A>(decay, rest, m, v, before);
        lemma_retention(decay);
        let (b, p) = (before.number(), whole_power(c, m));
        let xp = x * p;
        series::lemma_part_of(x, p);
        series::lemma_part_of(b, c);
        assert(c * b == b * c) by (nonlinear_arith);
        series::lemma_drift_is_small(m as real, size);
        assert(rounds_to(c * b, kept));
        assert(depths[depths.len() - 1].same_number(zero()));
        lemma_rank_orders_numbers(w, kept);
        let z = b - xp;
        series::lemma_part_of(z, c);
        assert(z * c == b * c - xp * c) by (nonlinear_arith)
            requires
                z == b - xp,
        ;
        assert(xp * c == x * (p * c)) by (nonlinear_arith)
            requires
                xp == x * p,
        ;
        series::lemma_part_of(p, c);
        assert(0real < p * c) by (nonlinear_arith)
            requires
                0real < p,
                0real < c,
        ;
        series::lemma_drift_grows(m as real, size);
        assert(n as real == m as real + 1real);
    }
}

/// After `n` dry steps an index is what it was times the retention to the power
/// `n`, within rounding. So a single depth leaves its share behind.
pub proof fn lemma_index_after_dry_spell<F: Forcing, A: Arithmetic>(
    forcing: F,
    decay: Binary64,
    crit_mm: Binary64,
    model: TriggerModel,
    t: AntecedentTrigger<F, A>,
    cell: usize,
    step: usize,
    later: usize,
    v: Binary64,
    w: Binary64,
)
    requires
        deterministic::<A>(),
        rounds_closely::<A>(),
        leaves_neutral::<A>(),
        forcing.grid().fits(),
        call_ensures(
            AntecedentTrigger::<F, A>::new,
            (forcing, decay, crit_mm, model),
            Ok::<AntecedentTrigger<F, A>, Error>(t),
        ),
        cell < forcing.grid().cells(),
        step <= later < forcing.steps(),
        later - step <= 0x100_0000_0000,
        forall|i: int| step <= i < later ==> (#[trigger] forcing.depth(cell as int, i)).same_number(zero()),
        call_ensures(AntecedentTrigger::<F, A>::api, (&t, cell, step), v),
        call_ensures(AntecedentTrigger::<F, A>::api, (&t, cell, later), w),
        v.finite(),
        absolute(v.number()) <= pow2(1000) as real,
    ensures
        w.finite(),
        absolute(w.number() - v.number() * whole_power(decay.number(), (later - step) as nat)) <= series::drift(
            (later - step) as real,
            absolute(v.number()),
        ),
{
    let depths = depths_until(&forcing, cell as int, later - 1);
    let n = (later - step) as nat;
    assert(depths.take(depths.len() - n) == depths_until(&forcing, cell as int, step - 1));
    assert forall|i: int| depths.len() - n <= i < depths.len() implies (#[trigger] depths[i]).same_number(zero()) by {
        assert(forcing.depth(cell as int, i).same_number(zero()));
    }
    lemma_index_after_dry_depths::<A>(decay, depths, n, v, w);
}

/// Depths that fell are not below zero.
pub open spec fn all_fallen(depths: Seq<Binary64>) -> bool {
    forall|i: int| 0 <= i < depths.len() ==> zero().at_most(#[trigger] depths[i])
}

proof fn lemma_wetter_index<A: Arithmetic>(
    low: Binary64,
    high: Binary64,
    less: Seq<Binary64>,
    more: Seq<Binary64>,
    v: Binary64,
    w: Binary64,
)
    requires
        orders_products::<A>(),
        orders_sums::<A>(),
        low.positive_finite(),
        high.positive_finite(),
        low.at_most(high),
        less.len() == more.len(),
        all_fallen(less),
        forall|i: int| 0 <= i < less.len() ==> (#[trigger] less[i]).at_most(more[i]),
        antecedent::<A>(low, less, v),
        antecedent::<A>(high, more, w),
    ensures
        zero().at_most(v),
        v.at_most(w),
    decreases less.len(),
{
    if less.len() > 0 {
        let (a, j) = choose|before: Binary64, kept: Binary64| #[trigger]
            multiplies::<A>(low, before, kept) && #[trigger] sums::<A>(kept, less.last(), v) && antecedent::<A>(
                low,
                less.drop_last(),
                before,
            );
        let (b, k) = choose|before: Binary64, kept: Binary64| #[trigger]
            multiplies::<A>(high, before, kept) && #[trigger] sums::<A>(kept, more.last(), w) && antecedent::<A>(
                high,
                more.drop_last(),
                before,
            );
        let (x, y) = (less.drop_last(), more.drop_last());
        assert forall|i: int| 0 <= i < x.len() implies zero().at_most(#[trigger] x[i]) && x[i].at_most(y[i]) by {
            assert(zero().at_most(less[i]) && less[i].at_most(more[i]));
        }
        lemma_wetter_index::<A>(low, high, x, y, a, b);
        assert(zero().at_most(less[less.len() - 1]) && less[less.len() - 1].at_most(more[less.len() - 1]));
        assert(zero().at_most(j) && j.at_most(k));
    }
}

/// A larger retention or more rain never gives a smaller index.
pub proof fn lemma_index_grows<F: Forcing, G: Forcing, A: Arithmetic>(
    t: AntecedentTrigger<F, A>,
    u: AntecedentTrigger<G, A>,
    cell: usize,
    step: usize,
    v: Binary64,
    w: Binary64,
)
    requires
        orders_products::<A>(),
        orders_sums::<A>(),
        t.retention().positive_finite(),
        u.retention().positive_finite(),
        t.retention().at_most(u.retention()),
        cell < t.source().grid().cells(),
        cell < u.source().grid().cells(),
        step < t.source().steps(),
        step < u.source().steps(),
        forall|i: int|
            0 <= i < step ==> zero().at_most(#[trigger] t.source().depth(cell as int, i)) && t.source().depth(
                cell as int,
                i,
            ).at_most(u.source().depth(cell as int, i)),
        call_ensures(AntecedentTrigger::<F, A>::api, (&t, cell, step), v),
        call_ensures(AntecedentTrigger::<G, A>::api, (&u, cell, step), w),
    ensures
        zero().at_most(v),
        v.at_most(w),
{
    let x = depths_until(&t.source(), cell as int, step - 1);
    let y = depths_until(&u.source(), cell as int, step - 1);
    assert forall|i: int| 0 <= i < x.len() implies zero().at_most(#[trigger] x[i]) && x[i].at_most(y[i]) by {
        assert(zero().at_most(t.source().depth(cell as int, i)));
    }
    lemma_wetter_index::<A>(t.retention(), u.retention(), x, y, v, w);
}

/// The factor of a threshold trigger is that of the multiple of the threshold that
/// the value of the cell and the step reaches. That multiple is returned.
pub proof fn lemma_threshold_trigger_in_numbers<F: Forcing, A: Arithmetic>(
    t: ThresholdTrigger<F, A>,
    cell: int,
    step: int,
    r: Binary64,
) -> (e: Binary64)
    requires
        rounds_closely::<A>(),
        t.critical_value().positive_finite(),
        t.source().depth(cell, step).finite(),
        absolute(t.source().depth(cell, step).number()) <= t.critical_value().number() * (pow2(500) as real),
        t.yields(cell, step, r),
    ensures
        rounds_to(t.source().depth(cell, step).number() / t.critical_value().number(), e),
        t.logistic().maps::<A>(e, r),
{
    let e = choose|e: Binary64| #[trigger]
        divides::<A>(t.source().depth(cell, step), t.critical_value(), e) && t.logistic().maps::<A>(e, r);
    lemma_scales();
    lemma_small_numbers();
    lemma_rank_orders_numbers(zero(), t.critical_value());
    let (x, y) = (t.source().depth(cell, step).number(), t.critical_value().number());
    series::lemma_quotient_of(x, y);
    series::lemma_quotient_bound(x, y, x / y, pow2(500) as real);
    e
}

/// The factor of an antecedent trigger is that of the multiple of the critical
/// depth that the antecedent index of the cell and the step reaches. That multiple
/// is returned.
pub proof fn lemma_antecedent_trigger_in_numbers<F: Forcing, A: Arithmetic>(
    t: AntecedentTrigger<F, A>,
    cell: usize,
    step: usize,
    api: Binary64,
    r: Binary64,
) -> (e: Binary64)
    requires
        deterministic::<A>(),
        rounds_closely::<A>(),
        t.critical_depth().positive_finite(),
        api.finite(),
        absolute(api.number()) <= t.critical_depth().number() * (pow2(500) as real),
        call_ensures(AntecedentTrigger::<F, A>::api, (&t, cell, step), api),
        t.yields(cell as int, step as int, r),
    ensures
        rounds_to(api.number() / t.critical_depth().number(), e),
        t.logistic().maps::<A>(e, r),
{
    let depths = depths_until(&t.source(), cell as int, step - 1);
    let (v, e) = choose|v: Binary64, e: Binary64| #[trigger]
        antecedent::<A>(t.retention(), depths, v) && #[trigger] divides::<A>(v, t.critical_depth(), e)
            && t.logistic().maps::<A>(e, r);
    lemma_antecedent_unique::<A>(t.retention(), depths, v, api);
    lemma_scales();
    lemma_small_numbers();
    lemma_rank_orders_numbers(zero(), t.critical_depth());
    let (x, y) = (api.number(), t.critical_depth().number());
    series::lemma_quotient_of(x, y);
    series::lemma_quotient_bound(x, y, x / y, pow2(500) as real);
    e
}

/// A fused hazard is the susceptibility times the fused factor, held within
/// `[0, 1]`, within a neighbouring value. Of what is returned, the first are the
/// factors of the triggers, in order, the second is what they fuse to.
pub proof fn lemma_fused_hazard_in_numbers<A: Arithmetic>(
    nowcast: &MultiNowcast<A>,
    step: usize,
    field: HazardField,
    cell: int,
) -> (r: (Seq<Binary64>, Binary64))
    requires
        rounds_closely::<A>(),
        nowcast.wf(),
        nowcast.map().wf(),
        step < nowcast.steps(),
        0 <= cell < nowcast.map()@.len(),
        call_ensures(MultiNowcast::<A>::hazard_at, (nowcast, step), field),
    ensures
        factors_of(nowcast.sources(), cell, step as int, r.0),
        nowcast.rule().fuses::<A>(r.0, r.1),
        !r.1.nan() ==> rounds_to(nowcast.map()@[cell].number() * series::held(r.1.number()), field@[cell]),
{
    let s = nowcast.map()@[cell];
    let p = field@[cell];
    assert(fused_hazard::<A>(nowcast.sources(), nowcast.rule(), s, cell, step as int, p));
    let (factors, combined) = choose|factors: Seq<Binary64>, combined: Binary64| #[trigger]
        factors_of(nowcast.sources(), cell, step as int, factors) && #[trigger] nowcast.rule().fuses::<A>(
            factors,
            combined,
        ) && multiplies::<A>(s, held(combined), p);
    lemma_scales();
    lemma_small_numbers();
    lemma_held_within_unit(combined);
    lemma_unit_number(held(combined));
    assert(s.unit());
    lemma_unit_number(s);
    lemma_rank_orders_numbers(combined, zero());
    lemma_rank_orders_numbers(one(), combined);
    assert(!combined.nan() ==> held(combined).number() == series::held(combined.number()));
    series::lemma_part_of(s.number(), held(combined).number());
    (factors, combined)
}

} // verus!
