//! Physical refinement of a flood alert: inundation depths on a local mesh.
//!
//! The nowcast flags when and roughly where discharge crosses a flood threshold. A
//! shallow-water solver then turns that flag into a depth field: where the water
//! goes, and how deep. The coupling is one-way and on demand.
//!
//! The solver advances the water; what is decided around it stands here. An
//! [`Inundation`] holds the run parameters, an [`Integration`] says which time
//! step comes next and when the run ends, and [`DepthField::from_depths`] turns
//! the final water heights into a field.

use vstd::arithmetic::power2::{lemma2_to64, lemma2_to64_rest, pow2};
use vstd::prelude::*;
use vstd::set_lib::set_int_range;

use crate::accuracy::{grain, lemma_scales, rounds_closely, rounds_to, speck, ulp};
use crate::arithmetic::{
    adds_up, counts, differs, divides, lemma_adds_up_push, multiplies, ratio, ratio_of, roots, sums, Arithmetic,
};
use crate::binary64::{
    absolute, lemma_number_of_pattern, lemma_rank_orders_numbers, lemma_small_numbers, one, zero, Binary64,
};
use crate::error::{Error, Reason};
use crate::grid::{copy_values, GridDims};
use crate::hazard::{count_reached, peak, peak_of, reached, HazardField};
use crate::ranking::lemma_ratio_value;
use crate::runout::{lemma_million, million};
use crate::series::{lemma_bound_of_product, lemma_close_product, lemma_mean_of_terms, sum};

verus! {

/// One thousandth, `1e-3`.
#[verifier::allow_in_spec]
pub fn thousandth() -> Binary64
    returns
        (Binary64 { bits: 0x3F50_624D_D2F1_A9FC }),
{
    Binary64 { bits: 0x3F50_624D_D2F1_A9FC }
}

/// The number of seconds in a day, `86400`.
#[verifier::allow_in_spec]
pub fn seconds_per_day() -> Binary64
    returns
        (Binary64 { bits: 0x40F5_1800_0000_0000 }),
{
    Binary64 { bits: 0x40F5_1800_0000_0000 }
}

/// One tenth, `0.1`.
#[verifier::allow_in_spec]
pub fn tenth() -> Binary64
    returns
        (Binary64 { bits: 0x3FB9_9999_9999_999A }),
{
    Binary64 { bits: 0x3FB9_9999_9999_999A }
}

/// The time-step factor of a new run, `0.4`.
#[verifier::allow_in_spec]
pub fn default_cfl() -> Binary64
    returns
        (Binary64 { bits: 0x3FD9_9999_9999_999A }),
{
    Binary64 { bits: 0x3FD9_9999_9999_999A }
}

/// The largest number of time steps of a new run.
pub const DEFAULT_MAX_STEPS: usize = 200_000;

/// `r` is the volumetric inflow (m³/s) of a discharge (mm/day) over an area (km²).
pub open spec fn inflow_of<A: Arithmetic>(mm_day: Binary64, area_km2: Binary64, r: Binary64) -> bool {
    exists|metres: Binary64, square_metres: Binary64, volume: Binary64|
        {
            &&& #[trigger] multiplies::<A>(mm_day, thousandth(), metres)
            &&& #[trigger] multiplies::<A>(area_km2, million(), square_metres)
            &&& #[trigger] multiplies::<A>(metres, square_metres, volume)
            &&& divides::<A>(volume, seconds_per_day(), r)
        }
}

/// Converts a routed discharge (mm/day spread over `area_km2`) into a volumetric
/// inflow (m³/s) for a point source.
pub fn discharge_to_inflow_m3s<A: Arithmetic>(mm_day: Binary64, area_km2: Binary64) -> (r: Binary64)
    ensures
        inflow_of::<A>(mm_day, area_km2, r),
{
    let metres: Binary64 = A::times(mm_day, thousandth());
    let square_metres: Binary64 = A::times(area_km2, million());
    let volume: Binary64 = A::times(metres, square_metres);
    assert(multiplies::<A>(mm_day, thousandth(), metres));
    assert(multiplies::<A>(area_km2, million(), square_metres));
    assert(multiplies::<A>(metres, square_metres, volume));
    A::over(volume, seconds_per_day())
}

/// Inundation depth (m) per cell, row-major.
#[derive(Debug)]
pub struct DepthField {
    dims: GridDims,
    depth: Vec<Binary64>,
}

impl View for DepthField {
    type V = Seq<Binary64>;

    closed spec fn view(&self) -> Seq<Binary64> {
        self.depth@
    }
}

/// The depth of a water height: from zero on, and zero where it is not finite.
pub open spec fn depth_of(height: Binary64) -> Binary64 {
    if height.finite() {
        height.larger(zero())
    } else {
        zero()
    }
}

/// `r` is the mean of values: their sum over their number.
pub open spec fn averages<A: Arithmetic>(values: Seq<Binary64>, r: Binary64) -> bool {
    exists|total: Binary64, n: Binary64| #[trigger]
        adds_up::<A>(zero(), values, total) && #[trigger] counts::<A>(values.len() as int, n) && divides::<A>(
            total,
            n,
            r,
        )
}

impl DepthField {
    /// The grid of the field.
    pub closed spec fn grid(&self) -> GridDims {
        self.dims
    }

    /// One depth per cell.
    pub open spec fn wf(&self) -> bool {
        self@.len() == self.grid().cells() && self.grid().fits()
    }

    /// Builds the field of the water heights of a solver, and tells whether any of
    /// them is not finite: a numerically unstable state. Unstable cells count as
    /// dry, a placeholder that is not to be trusted.
    pub fn from_depths(dims: GridDims, heights: &[Binary64]) -> (r: (DepthField, bool))
        requires
            dims.fits(),
            heights@.len() == dims.cells(),
        ensures
            r.0.wf(),
            r.0.grid() == dims,
            r.0@ == heights@.map_values(|h: Binary64| depth_of(h)),
            r.1 == exists|c: int| 0 <= c < heights@.len() && !(#[trigger] heights@[c]).finite(),
    {
        let mut depth: Vec<Binary64> = Vec::new();
        let mut unstable: bool = false;
        let mut c: usize = 0;
        while c < heights.len()
            invariant
                c <= heights@.len(),
                depth@.len() == c,
                forall|k: int| 0 <= k < c ==> #[trigger] depth@[k] == depth_of(heights@[k]),
                unstable == exists|k: int| 0 <= k < c && !(#[trigger] heights@[k]).finite(),
            decreases heights@.len() - c,
        {
            let h: Binary64 = heights[c];
            if !h.is_finite() {
                unstable = true;
                assert(!heights@[c as int].finite());
                depth.push(zero());
            } else {
                depth.push(h.max(zero()));
            }
            c = c + 1;
        }
        assert(depth@ == heights@.map_values(|h: Binary64| depth_of(h)));
        (DepthField { dims, depth }, unstable)
    }

    /// Grid of the field.
    pub fn dims(&self) -> (r: GridDims)
        ensures
            r == self.grid(),
    {
        self.dims
    }

    /// The depths of all cells, row-major.
    pub fn depth(&self) -> (r: &[Binary64])
        ensures
            r@ == self@,
    {
        self.depth.as_slice()
    }

    /// Deepest water anywhere on the field (m).
    pub fn max_depth(&self) -> (r: Binary64)
        ensures
            r == peak(self@),
    {
        peak_of(self.depth.as_slice())
    }

    /// Mean water depth over all cells (m).
    pub fn mean_depth<A: Arithmetic>(&self) -> (r: Binary64)
        ensures
            averages::<A>(self@, r),
    {
        let mut total: Binary64 = zero();
        let mut i: usize = 0;
        assert(self@.take(0) == Seq::<Binary64>::empty());
        while i < self.depth.len()
            invariant
                i <= self@.len(),
                adds_up::<A>(zero(), self@.take(i as int), total),
            decreases self@.len() - i,
        {
            let next: Binary64 = A::plus(total, self.depth[i]);
            proof {
                assert(sums::<A>(total, self@[i as int], next));
                lemma_adds_up_push::<A>(zero(), self@.take(i as int), total, self@[i as int], next);
                assert(self@.take(i + 1) == self@.take(i as int).push(self@[i as int]));
            }
            total = next;
            i = i + 1;
        }
        assert(self@.take(self@.len() as int) == self@);
        let n: Binary64 = A::of_count(self.depth.len() as u64);
        assert(counts::<A>(self@.len() as int, n));
        A::over(total, n)
    }

    /// Fraction of the grid with at least `min_depth` (m) of water, in `[0, 1]`.
    pub fn inundated_fraction<A: Arithmetic>(&self, min_depth: Binary64) -> (r: Binary64)
        ensures
            ratio_of::<A>(reached(self@, min_depth).len() as int, self@.len() as int, r),
    {
        let n: usize = count_reached(self.depth.as_slice(), min_depth);
        ratio::<A>(n as u64, self.depth.len() as u64)
    }

    /// Brings a coarse flood probability down onto this field: the probability
    /// where the water is at least `min_depth` deep, zero elsewhere. Fails if the
    /// probability lies outside `[0, 1]`.
    pub fn refined_hazard(&self, step: usize, nowcast_prob: Binary64, min_depth: Binary64) -> (r: Result<
        HazardField,
        Error,
    >)
        requires
            self.wf(),
        ensures
            match r {
                Ok(f) => {
                    &&& nowcast_prob.unit()
                    &&& f.wf()
                    &&& f.at_step() == step
                    &&& f.grid() == self.grid()
                    &&& forall|c: int|
                        0 <= c < self@.len() ==> #[trigger] f@[c] == if min_depth.at_most(self@[c]) {
                            nowcast_prob
                        } else {
                            zero()
                        }
                },
                Err(e) => !nowcast_prob.unit() && e == (Error::InvalidParameter {
                    name: "probability",
                    reason: Reason::Value {
                        before: "mask probability is ",
                        value: nowcast_prob,
                        after: ", expected within [0, 1]",
                    },
                }),
            },
    {
        let mut mask: Vec<bool> = Vec::new();
        let mut c: usize = 0;
        while c < self.depth.len()
            invariant
                c <= self@.len(),
                mask@.len() == c,
                forall|k: int| 0 <= k < c ==> #[trigger] mask@[k] == min_depth.at_most(self@[k]),
            decreases self@.len() - c,
        {
            mask.push(min_depth.not_above(self.depth[c]));
            c = c + 1;
        }
        HazardField::masked(step, self.dims, mask.as_slice(), nowcast_prob)
    }
}

impl Clone for DepthField {
    fn clone(&self) -> (r: DepthField)
        ensures
            r.grid() == self.grid(),
            r@ == self@,
    {
        DepthField { dims: self.dims, depth: copy_values(self.depth.as_slice()) }
    }
}

/// What an integration did, so that a capped run cannot pass for a completed one.
#[derive(Debug, Clone, Copy, PartialEq, Eq, Structural)]
pub struct IntegrationStats {
    /// Simulated time reached (s).
    pub t_reached_s: Binary64,
    /// Time steps taken.
    pub steps: usize,
    /// Whether the run stopped before the requested duration: the depth field is
    /// then a partial inundation.
    pub truncated: bool,
    /// Whether the solver produced a depth that is not finite in at least one
    /// cell. The field reports those cells as dry, which is a placeholder: it is
    /// not to be used for an alert.
    pub unstable: bool,
}

/// What a run needs to know of the mesh and the physics of a solver.
#[derive(Debug, Clone, Copy, PartialEq, Eq, Structural)]
pub struct Mesh {
    pub rows: usize,
    pub cols: usize,
    /// Cell size across the columns (m).
    pub dx: Binary64,
    /// Cell size across the rows (m).
    pub dy: Binary64,
    /// Depth (m) under which the solver takes a cell as dry.
    pub h_dry: Binary64,
    /// Gravitational acceleration (m/s²) of the solver.
    pub gravity: Binary64,
}

/// A volumetric inflow at a cell of the mesh.
#[derive(Debug, Clone, Copy, PartialEq, Eq, Structural)]
pub struct PointSource {
    pub row: usize,
    pub col: usize,
    /// Inflow (m³/s).
    pub q_mass: Binary64,
}

/// A configured inundation run.
#[derive(Debug, Clone, Copy, PartialEq, Eq, Structural)]
pub struct Inundation {
    mesh: Mesh,
    duration_s: Binary64,
    cfl: Binary64,
    dry_tol: Binary64,
    max_steps: usize,
}

/// The error for a duration that is not finite and above zero.
pub open spec fn bad_duration(duration_s: Binary64) -> Error {
    Error::InvalidParameter {
        name: "duration_s",
        reason: Reason::Value { before: "must be finite and > 0, got ", value: duration_s, after: "" },
    }
}

/// Whether a time-step factor lies within `(0, 1]`.
pub open spec fn proper_cfl(cfl: Binary64) -> bool {
    cfl.positive_finite() && cfl.at_most(one())
}

/// The error of a source, where it has one.
pub open spec fn bad_source(index: int, source: PointSource, rows: usize, cols: usize) -> Option<Error> {
    if source.row >= rows || source.col >= cols {
        Some(
            Error::InvalidParameter {
                name: "sources",
                reason: Reason::Source { index: index as usize, row: source.row, col: source.col, rows, cols },
            },
        )
    } else if !source.q_mass.finite() {
        Some(
            Error::InvalidParameter {
                name: "sources",
                reason: Reason::Cell {
                    before: "source ",
                    cell: index as usize,
                    between: " has a non-finite inflow q_mass = ",
                    value: source.q_mass,
                    after: "",
                },
            },
        )
    } else {
        None
    }
}

/// The first source with an error.
pub open spec fn first_bad_source(sources: Seq<PointSource>, rows: usize, cols: usize, i: int) -> bool {
    &&& 0 <= i < sources.len()
    &&& bad_source(i, sources[i], rows, cols) is Some
    &&& forall|k: int| 0 <= k < i ==> bad_source(k, #[trigger] sources[k], rows, cols) is None
}

impl Inundation {
    /// The mesh of the run.
    pub closed spec fn plan(&self) -> Mesh {
        self.mesh
    }

    /// The duration of the run.
    pub closed spec fn duration(&self) -> Binary64 {
        self.duration_s
    }

    /// The time-step factor.
    pub closed spec fn factor(&self) -> Binary64 {
        self.cfl
    }

    /// The dry-cell tolerance.
    pub closed spec fn tolerance(&self) -> Binary64 {
        self.dry_tol
    }

    /// The largest number of time steps.
    pub closed spec fn cap(&self) -> usize {
        self.max_steps
    }

    /// A new run to `duration_s` seconds, with a time-step factor of `0.4`, the
    /// solver's own dry depth, and at most [`DEFAULT_MAX_STEPS`] steps. Fails on a
    /// duration that is not finite and above zero.
    pub fn new(mesh: Mesh, duration_s: Binary64) -> (r: Result<Inundation, Error>)
        ensures
            match r {
                Ok(i) => {
                    &&& duration_s.positive_finite()
                    &&& i.plan() == mesh
                    &&& i.duration() == duration_s
                    &&& i.factor() == default_cfl()
                    &&& i.tolerance() == mesh.h_dry
                    &&& i.cap() == DEFAULT_MAX_STEPS
                },
                Err(e) => !duration_s.positive_finite() && e == bad_duration(duration_s),
            },
    {
        if !duration_s.is_positive_finite() {
            return Err(
                Error::InvalidParameter {
                    name: "duration_s",
                    reason: Reason::Value { before: "must be finite and > 0, got ", value: duration_s, after: "" },
                },
            );
        }
        Ok(Inundation { mesh, duration_s, cfl: default_cfl(), dry_tol: mesh.h_dry, max_steps: DEFAULT_MAX_STEPS })
    }

    /// Sets the time-step factor, which must lie within `(0, 1]`.
    pub fn with_cfl(self, cfl: Binary64) -> (r: Result<Inundation, Error>)
        ensures
            match r {
                Ok(i) => {
                    &&& proper_cfl(cfl)
                    &&& i.factor() == cfl
                    &&& i.plan() == self.plan()
                    &&& i.duration() == self.duration()
                    &&& i.tolerance() == self.tolerance()
                    &&& i.cap() == self.cap()
                },
                Err(e) => !proper_cfl(cfl) && e == (Error::InvalidParameter {
                    name: "cfl",
                    reason: Reason::Value { before: "must be within (0, 1], got ", value: cfl, after: "" },
                }),
            },
    {
        if !(cfl.is_positive_finite() && cfl.not_above(one())) {
            return Err(
                Error::InvalidParameter {
                    name: "cfl",
                    reason: Reason::Value { before: "must be within (0, 1], got ", value: cfl, after: "" },
                },
            );
        }
        Ok(
            Inundation {
                mesh: self.mesh,
                duration_s: self.duration_s,
                cfl,
                dry_tol: self.dry_tol,
                max_steps: self.max_steps,
            },
        )
    }

    /// Sets the largest number of time steps, at least one.
    pub fn with_max_steps(self, max_steps: usize) -> (r: Result<Inundation, Error>)
        ensures
            match r {
                Ok(i) => {
                    &&& max_steps > 0
                    &&& i.cap() == max_steps
                    &&& i.plan() == self.plan()
                    &&& i.duration() == self.duration()
                    &&& i.factor() == self.factor()
                    &&& i.tolerance() == self.tolerance()
                },
                Err(e) => max_steps == 0 && e == (Error::InvalidParameter {
                    name: "max_steps",
                    reason: Reason::Text("must be >= 1"),
                }),
            },
    {
        if max_steps == 0 {
            return Err(Error::InvalidParameter { name: "max_steps", reason: Reason::Text("must be >= 1") });
        }
        Ok(
            Inundation {
                mesh: self.mesh,
                duration_s: self.duration_s,
                cfl: self.cfl,
                dry_tol: self.dry_tol,
                max_steps,
            },
        )
    }

    /// Sets the dry-cell tolerance (m) of the friction step, finite and not below
    /// zero.
    pub fn with_dry_tol(self, dry_tol: Binary64) -> (r: Result<Inundation, Error>)
        ensures
            match r {
                Ok(i) => {
                    &&& dry_tol.nonnegative_finite()
                    &&& i.tolerance() == dry_tol
                    &&& i.plan() == self.plan()
                    &&& i.duration() == self.duration()
                    &&& i.factor() == self.factor()
                    &&& i.cap() == self.cap()
                },
                Err(e) => !dry_tol.nonnegative_finite() && e == (Error::InvalidParameter {
                    name: "dry_tol",
                    reason: Reason::Value { before: "must be finite and >= 0, got ", value: dry_tol, after: "" },
                }),
            },
    {
        if !dry_tol.is_nonnegative_finite() {
            return Err(
                Error::InvalidParameter {
                    name: "dry_tol",
                    reason: Reason::Value { before: "must be finite and >= 0, got ", value: dry_tol, after: "" },
                },
            );
        }
        Ok(
            Inundation {
                mesh: self.mesh,
                duration_s: self.duration_s,
                cfl: self.cfl,
                dry_tol,
                max_steps: self.max_steps,
            },
        )
    }

    /// The mesh of the run.
    pub fn mesh(&self) -> (r: Mesh)
        ensures
            r == self.plan(),
    {
        self.mesh
    }

    /// The time-step factor.
    pub fn cfl(&self) -> (r: Binary64)
        ensures
            r == self.factor(),
    {
        self.cfl
    }

    /// The dry-cell tolerance.
    pub fn dry_tol(&self) -> (r: Binary64)
        ensures
            r == self.tolerance(),
    {
        self.dry_tol
    }

    /// Checks the point inflows of a run. Fails on the first source that lies
    /// outside the mesh or has an inflow that is not finite.
    pub fn check_sources(&self, sources: &[PointSource]) -> (r: Result<(), Error>)
        ensures
            match r {
                Ok(_) => forall|i: int|
                    0 <= i < sources@.len() ==> bad_source(i, #[trigger] sources@[i], self.plan().rows, self.plan().cols)
                        is None,
                Err(e) => exists|i: int| #[trigger]
                    first_bad_source(sources@, self.plan().rows, self.plan().cols, i) && Some(e) == bad_source(
                        i,
                        sources@[i],
                        self.plan().rows,
                        self.plan().cols,
                    ),
            },
    {
        let rows: usize = self.mesh.rows;
        let cols: usize = self.mesh.cols;
        let mut i: usize = 0;
        while i < sources.len()
            invariant
                i <= sources@.len(),
                rows == self.plan().rows,
                cols == self.plan().cols,
                forall|k: int| 0 <= k < i ==> bad_source(k, #[trigger] sources@[k], rows, cols) is None,
            decreases sources@.len() - i,
        {
            let s: PointSource = sources[i];
            if s.row >= rows || s.col >= cols {
                assert(first_bad_source(sources@, rows, cols, i as int));
                return Err(
                    Error::InvalidParameter {
                        name: "sources",
                        reason: Reason::Source { index: i, row: s.row, col: s.col, rows, cols },
                    },
                );
            }
            if !s.q_mass.is_finite() {
                assert(first_bad_source(sources@, rows, cols, i as int));
                return Err(
                    Error::InvalidParameter {
                        name: "sources",
                        reason: Reason::Cell {
                            before: "source ",
                            cell: i,
                            between: " has a non-finite inflow q_mass = ",
                            value: s.q_mass,
                            after: "",
                        },
                    },
                );
            }
            i = i + 1;
        }
        Ok(())
    }

    /// `r` is the time step of a dry start, before any wave exists.
    pub open spec fn falls_back<A: Arithmetic>(&self, r: Binary64) -> bool {
        exists|reach: Binary64, head: Binary64, speed: Binary64|
            {
                &&& #[trigger] multiplies::<A>(self.factor(), self.plan().dx.smaller(self.plan().dy), reach)
                &&& #[trigger] multiplies::<A>(self.plan().gravity, tenth(), head)
                &&& #[trigger] roots::<A>(head, speed)
                &&& divides::<A>(reach, speed, r)
            }
    }

    /// Starts the integration: no time has passed, no step is taken.
    pub fn start<A: Arithmetic>(&self) -> (r: Integration)
        ensures
            r.time() == zero(),
            r.taken() == 0,
            r.duration() == self.duration(),
            r.cap() == self.cap(),
            self.falls_back::<A>(r.dry_step()),
    {
        let reach: Binary64 = A::times(self.cfl, self.mesh.dx.min(self.mesh.dy));
        let head: Binary64 = A::times(self.mesh.gravity, tenth());
        let speed: Binary64 = A::root(head);
        let fallback: Binary64 = A::over(reach, speed);
        assert(multiplies::<A>(self.factor(), self.plan().dx.smaller(self.plan().dy), reach));
        assert(multiplies::<A>(self.plan().gravity, tenth(), head));
        assert(roots::<A>(head, speed));
        Integration { t: zero(), steps: 0, duration_s: self.duration_s, max_steps: self.max_steps, fallback }
    }
}

/// The course of an integration: the time reached and the steps taken.
///
/// The caller advances the solver by each step that [`next`](Integration::next)
/// gives, and ends the run where it gives none.
#[derive(Debug, Clone, Copy, PartialEq, Eq, Structural)]
pub struct Integration {
    t: Binary64,
    steps: usize,
    duration_s: Binary64,
    max_steps: usize,
    fallback: Binary64,
}

impl Integration {
    /// The time reached.
    pub closed spec fn time(&self) -> Binary64 {
        self.t
    }

    /// The number of steps taken.
    pub closed spec fn taken(&self) -> usize {
        self.steps
    }

    /// The requested duration.
    pub closed spec fn duration(&self) -> Binary64 {
        self.duration_s
    }

    /// The largest number of steps.
    pub closed spec fn cap(&self) -> usize {
        self.max_steps
    }

    /// The time step of a dry start.
    pub closed spec fn dry_step(&self) -> Binary64 {
        self.fallback
    }

    /// Whether another step is due.
    pub open spec fn pending(&self) -> bool {
        self.time().less(self.duration()) && self.taken() < self.cap()
    }

    /// `dt` is the time step that follows from the solver's proposal: the proposal
    /// where it is finite and above zero, else the one of a dry start, and never
    /// past the requested duration.
    pub open spec fn steps_by<A: Arithmetic>(&self, proposed: Binary64, dt: Binary64) -> bool {
        exists|left: Binary64| #[trigger]
            differs::<A>(self.duration(), self.time(), left) && dt == (if proposed.positive_finite() {
                proposed
            } else {
                self.dry_step()
            }).smaller(left)
    }

    /// Whether another step is due.
    pub fn goes_on(&self) -> (r: bool)
        ensures
            r == self.pending(),
    {
        self.t.below(self.duration_s) && self.steps < self.max_steps
    }

    /// Takes the next step: its length, or `None` where the run has ended.
    /// `proposed` is the solver's own stable time step.
    pub fn next<A: Arithmetic>(&mut self, proposed: Binary64) -> (r: Option<Binary64>)
        ensures
            final(self).duration() == old(self).duration(),
            final(self).cap() == old(self).cap(),
            final(self).dry_step() == old(self).dry_step(),
            match r {
                Some(dt) => {
                    &&& old(self).pending()
                    &&& old(self).steps_by::<A>(proposed, dt)
                    &&& sums::<A>(old(self).time(), dt, final(self).time())
                    &&& final(self).taken() == old(self).taken() + 1
                },
                None => !old(self).pending() && *final(self) == *old(self),
            },
    {
        if !self.goes_on() {
            return None;
        }
        let left: Binary64 = A::minus(self.duration_s, self.t);
        let stable: Binary64 = if proposed.is_positive_finite() {
            proposed
        } else {
            self.fallback
        };
        let dt: Binary64 = stable.min(left);
        assert(differs::<A>(self.duration(), self.time(), left));
        let t: Binary64 = A::plus(self.t, dt);
        assert(sums::<A>(self.time(), dt, t));
        self.t = t;
        self.steps = self.steps + 1;
        Some(dt)
    }

    /// What the run did, with what is known of the stability of its last state.
    pub fn stats(&self, unstable: bool) -> (r: IntegrationStats)
        ensures
            r.t_reached_s == self.time(),
            r.steps == self.taken(),
            r.truncated == self.time().less(self.duration()),
            r.unstable == unstable,
    {
        IntegrationStats {
            t_reached_s: self.t,
            steps: self.steps,
            truncated: self.t.below(self.duration_s),
            unstable,
        }
    }
}

/// A run that ended without truncation reached its duration, and a truncated one
/// used up its steps.
pub proof fn lemma_ended_run(run: &Integration)
    requires
        !run.pending(),
    ensures
        run.time().less(run.duration()) ==> run.taken() >= run.cap(),
        run.taken() < run.cap() ==> !run.time().less(run.duration()),
{
}

/// A thousandth is one, within a neighbouring value.
proof fn lemma_thousandth()
    ensures
        thousandth().finite(),
        absolute(thousandth().number() - 1real / 1000real) <= (1real / 0x10_0000_0000_0000real) * (1real / 1000real),
{
    lemma_number_of_pattern(thousandth(), 0x3F5, 0x0010_624D_D2F1_A9FC);
    lemma2_to64();
    lemma2_to64_rest();
    assert(pow2(62) as real == 4611686018427387904real);
    assert(thousandth().number() * 4611686018427387904real == 4611686018427388real);
}

/// A day has 86400 seconds.
proof fn lemma_seconds_per_day()
    ensures
        seconds_per_day().finite(),
        seconds_per_day().number() == 86400real,
{
    lemma_number_of_pattern(seconds_per_day(), 0x40F, 0x0015_1800_0000_0000);
    lemma2_to64();
    lemma2_to64_rest();
    assert(pow2(36) as real == 68719476736real);
    assert(seconds_per_day().number() * 68719476736real == 5937362789990400real);
}

/// The inflow of a discharge over an area: a millimetre a day over a square
/// kilometre is a thousand cubic metres in 86400 seconds, within rounding.
pub proof fn lemma_inflow_is_volume_per_second<A: Arithmetic>(mm_day: Binary64, area_km2: Binary64, r: Binary64)
    requires
        rounds_closely::<A>(),
        mm_day.finite(),
        area_km2.finite(),
        speck() <= mm_day.number() <= 0x1_0000_0000real,
        speck() <= area_km2.number() <= 0x1_0000_0000real,
        call_ensures(discharge_to_inflow_m3s::<A>, (mm_day, area_km2), r),
    ensures
        r.finite(),
        ({
            let exact = mm_day.number() * area_km2.number();
            absolute(86400real * r.number() - 1000real * exact) <= ulp(12000real * exact)
        }),
{
    let (metres, square_metres, volume) = choose|metres: Binary64, square_metres: Binary64, volume: Binary64|
        {
            &&& #[trigger] multiplies::<A>(mm_day, thousandth(), metres)
            &&& #[trigger] multiplies::<A>(area_km2, million(), square_metres)
            &&& #[trigger] multiplies::<A>(metres, square_metres, volume)
            &&& divides::<A>(volume, seconds_per_day(), r)
        };
    lemma_scales();
    lemma_thousandth();
    lemma_million();
    lemma_seconds_per_day();
    let (q, a, g) = (mm_day.number(), area_km2.number(), speck());
    let (th, size) = (thousandth().number(), 0x1_0000_0000real);
    assert(grain() <= 1real / 0x1_0000_0000_0000_0000_0000_0000real) by {
        let (g, p) = (grain(), pow2(500) as real);
        assert(g <= 1real / 0x1_0000_0000_0000_0000_0000_0000real) by (nonlinear_arith)
            requires
                g * p == 1real,
                g > 0real,
                p >= 0x1_0000_0000_0000_0000_0000_0000real,
        ;
    }
    lemma_bound_of_product(q, th, 1real);
    assert(rounds_to(q * th, metres));
    assert(rounds_to(a * 1000000real, square_metres));
    let e = 1real / 0x10_0000_0000_0000real;
    let (m, s) = (q * (1real / 1000real), a * 1000000real);
    assert(m == q / 1000real);
    lemma_close_product(q, q, 0real, 1real / 1000real, th, e, metres);
    lemma_close_product(a, a, 0real, 1000000real, 1000000real, 0real, square_metres);
    let w = 2real / 0x10_0000_0000_0000real;
    assert((2real * 0real + e + w) * m == ulp(3real * m) && (3real * e) * m == ulp(3real * m)) by (nonlinear_arith)
        requires
            e == 1real / 0x10_0000_0000_0000real,
            w == 2real / 0x10_0000_0000_0000real,
    ;
    assert((2real * 0real + 0real + w) * s == ulp(2real * s) && (2real * e) * s == ulp(2real * s)) by (nonlinear_arith)
        requires
            e == 1real / 0x10_0000_0000_0000real,
            w == 2real / 0x10_0000_0000_0000real,
    ;
    assert(absolute(metres.number()) <= size && absolute(square_metres.number()) <= 0x10_0000real * size);
    lemma_bound_of_product(metres.number(), square_metres.number(), 0x10_0000real * size);
    assert(rounds_to(metres.number() * square_metres.number(), volume));
    let (exact, ms) = (q * a, m * s);
    assert(ms == 1000real * exact) by (nonlinear_arith)
        requires
            ms == m * s,
            m == q / 1000real,
            s == a * 1000000real,
            exact == q * a,
    ;
    assert(exact >= g * g) by (nonlinear_arith)
        requires
            exact == q * a,
            q >= g,
            a >= g,
            g >= 0real,
    ;
    assert(g * g == 1real / 0x1_0000_0000_0000_0000real) by (nonlinear_arith)
        requires
            g == 1real / 0x1_0000_0000real,
    ;
    assert(exact <= size * size) by (nonlinear_arith)
        requires
            exact == q * a,
            0real <= q <= size,
            0real <= a <= size,
    ;
    lemma_close_product(m, metres.number(), 3real * e, s, square_metres.number(), 2real * e, volume);
    assert((2real * (3real * e) + 2real * e + w) * ms == ulp(10real * ms)) by (nonlinear_arith)
        requires
            e == 1real / 0x10_0000_0000_0000real,
            w == 2real / 0x10_0000_0000_0000real,
    ;
    assert(absolute(volume.number() - ms) <= ulp(10real * ms));
    assert(rounds_to(volume.number() / 86400real, r));
}

/// The numbers that depths denote.
pub open spec fn depth_numbers(depths: Seq<Binary64>) -> Seq<real> {
    depths.map_values(|d: Binary64| d.number())
}

/// The mean depth is the sum of the depths over their number, and the inundated
/// fraction the share of cells that are at least as deep as asked, within
/// rounding.
pub proof fn lemma_depths_in_numbers<A: Arithmetic>(
    field: &DepthField,
    min_depth: Binary64,
    mean: Binary64,
    fraction: Binary64,
)
    requires
        rounds_closely::<A>(),
        0 < field@.len() <= 0x100_0000_0000,
        forall|c: int| 0 <= c < field@.len() ==> (#[trigger] field@[c]).finite(),
        forall|c: int| 0 <= c < field@.len() ==> absolute((#[trigger] field@[c]).number()) <= 0x1_0000_0000real,
        min_depth.finite(),
        call_ensures(DepthField::mean_depth::<A>, (field,), mean),
        call_ensures(DepthField::inundated_fraction::<A>, (field, min_depth), fraction),
    ensures
        mean.finite(),
        absolute(mean.number() - sum(depth_numbers(field@)) / (field@.len() as real)) <= ulp(
            (4real * (field@.len() as real) + 5real) * 0x1_0000_0000real,
        ),
        forall|c: int| #[trigger]
            reached(field@, min_depth).contains(c) <==> 0 <= c < field@.len() && min_depth.number() <= field@[c].number(),
        rounds_to((reached(field@, min_depth).len() as real) / (field@.len() as real), fraction),
{
    let (total, n) = choose|total: Binary64, n: Binary64| #[trigger]
        adds_up::<A>(zero(), field@, total) && #[trigger] counts::<A>(field@.len() as int, n) && divides::<A>(
            total,
            n,
            mean,
        );
    lemma_scales();
    lemma_small_numbers();
    lemma2_to64();
    vstd::arithmetic::power2::lemma_pow2_strictly_increases(32, 800);
    let numbers = depth_numbers(field@);
    lemma_mean_of_terms::<A>(field@, numbers, 0x1_0000_0000real, 0real, zero(), total, n, mean);
    vstd::set_lib::lemma_int_range(0, field@.len() as int);
    vstd::set_lib::lemma_len_subset(reached(field@, min_depth), set_int_range(0, field@.len() as int));
    lemma_ratio_value::<A>(reached(field@, min_depth).len() as int, field@.len() as int, fraction);
    assert forall|c: int| #[trigger]
        reached(field@, min_depth).contains(c) <==> 0 <= c < field@.len() && min_depth.number() <= field@[c].number() by {
        if 0 <= c < field@.len() {
            assert(field@[c].finite());
            lemma_rank_orders_numbers(field@[c], min_depth);
        }
    }
}

/// Water that stands above the ground is as deep as it is; what is below, or no
/// finite number, is dry.
pub proof fn lemma_depth_of_height(dims: GridDims, heights: &[Binary64], r: (DepthField, bool), cell: int)
    requires
        dims.fits(),
        heights@.len() == dims.cells(),
        0 <= cell < heights@.len(),
        call_ensures(DepthField::from_depths, (dims, heights), r),
    ensures
        heights@[cell].finite() && heights@[cell].number() > 0real ==> r.0@[cell] == heights@[cell],
        !(heights@[cell].finite() && heights@[cell].number() > 0real) ==> r.0@[cell].finite() && r.0@[cell].number() == 0real,
{
    lemma_small_numbers();
    lemma_rank_orders_numbers(heights@[cell], zero());
    assert(r.0@[cell] == depth_of(heights@[cell]));
}

} // verus!
