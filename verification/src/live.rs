//! Real-time (streaming) nowcasting.
//!
//! [`Nowcast`](crate::nowcast::Nowcast) is a batch engine: it holds the whole
//! forcing series. An operational nowcast ingests forcing one step at a time as
//! it arrives and must emit a hazard field immediately, without seeing the
//! future. [`LiveNowcast`] is that streaming engine. Per cell it keeps only the
//! running sums that its windows reach back to.
//!
//! A [`StepSource`] abstracts where each step comes from; [`run_live`] drives a
//! source through the engine.

use std::marker::PhantomData;

use vstd::prelude::*;

use crate::arithmetic::{deterministic, multiplies, rounds_properly, sums, Arithmetic};
use crate::binary64::{zero, Binary64};
use crate::error::{Error, Reason};
use crate::forcing::{depths_until, Forcing};
use crate::grid::{copy_values, first_outside_unit, GridDims, SusceptibilityMap};
use crate::hazard::{bad_hazard, wrong_length, HazardField};
use crate::kernel::{
    accumulates, lemma_accumulates_push, lemma_hazard_of_unique, lemma_hazard_within_unit, recent, Kernel,
};
use crate::nowcast::{field_at, grids_differ, no_window};
use crate::threshold::IdThreshold;
use crate::trigger::TriggerModel;

verus! {

/// The depths of a cell over the steps of a stream.
pub open spec fn column(history: Seq<Seq<Binary64>>, cell: int) -> Seq<Binary64> {
    history.map_values(|step: Seq<Binary64>| step[cell])
}

/// `values` is the hazard field at the last step of a stream.
pub open spec fn live_field<A: Arithmetic>(
    susceptibility: Seq<Binary64>,
    kernel: Kernel,
    history: Seq<Seq<Binary64>>,
    values: Seq<Binary64>,
) -> bool {
    &&& values.len() == susceptibility.len()
    &&& forall|c: int|
        0 <= c < values.len() ==> kernel.hazard_of::<A>(susceptibility[c], column(history, c), #[trigger] values[c])
}

/// The first cell whose depth is not finite or below zero.
pub open spec fn first_bad_depth(depths: Seq<Binary64>, cell: int) -> bool {
    &&& 0 <= cell < depths.len()
    &&& !depths[cell].nonnegative_finite()
    &&& forall|c: int| 0 <= c < cell ==> (#[trigger] depths[c]).nonnegative_finite()
}

/// Whether a step fills the grid with finite depths that are not below zero.
pub open spec fn step_accepted(dims: GridDims, depths: Seq<Binary64>) -> bool {
    depths.len() == dims.cells() && forall|c: int|
        0 <= c < depths.len() ==> (#[trigger] depths[c]).nonnegative_finite()
}

/// The error for a step that is not accepted.
pub open spec fn step_refused(dims: GridDims, step: int, depths: Seq<Binary64>, e: Error) -> bool {
    if depths.len() != dims.cells() {
        e == wrong_length(dims, depths.len())
    } else {
        exists|cell: int| #[trigger]
            first_bad_depth(depths, cell) && e == (Error::InvalidParameter {
                name: "depths",
                reason: Reason::Depth { cell: cell as usize, value: depths[cell], step: step as usize },
            })
    }
}

/// The error for a hazard that is no probability, at the last step of a stream.
pub open spec fn hazard_refused<A: Arithmetic>(
    susceptibility: Seq<Binary64>,
    kernel: Kernel,
    history: Seq<Seq<Binary64>>,
    e: Error,
) -> bool {
    exists|values: Seq<Binary64>, cell: int| #[trigger]
        live_field::<A>(susceptibility, kernel, history, values) && #[trigger] first_outside_unit(values, cell) && e
            == bad_hazard(cell, values[cell])
}

/// A streaming susceptibility × trigger engine fed one step at a time.
pub struct LiveNowcast<A: Arithmetic> {
    susceptibility: SusceptibilityMap,
    kernel: Kernel,
    /// Per cell: the running sums that windows reach back to, newest last.
    buffers: Vec<Vec<Binary64>>,
    /// Number of steps ingested so far (the index of the next step).
    step: usize,
    history: Ghost<Seq<Seq<Binary64>>>,
    rows: Ghost<Seq<Seq<Binary64>>>,
    arithmetic: PhantomData<A>,
}

/// The sums kept of a longer row are those kept of the shorter one and the new
/// one, without the oldest where there are too many.
proof fn lemma_recent_push(row: Seq<Binary64>, window: nat, sum: Binary64)
    requires
        row.len() > 0,
    ensures
        ({
            let kept = recent(row, window).push(sum);
            recent(row.push(sum), window) == if kept.len() - 1 > window {
                kept.remove(0)
            } else {
                kept
            }
        }),
{
    let kept = recent(row, window).push(sum);
    if kept.len() - 1 > window {
        assert(recent(row.push(sum), window) =~= kept.remove(0));
    } else {
        assert(recent(row.push(sum), window) =~= kept);
    }
}

fn find_bad_depth(depths: &[Binary64]) -> (r: Option<usize>)
    ensures
        match r {
            Some(c) => first_bad_depth(depths@, c as int),
            None => forall|c: int| 0 <= c < depths@.len() ==> (#[trigger] depths@[c]).nonnegative_finite(),
        },
{
    let mut c: usize = 0;
    while c < depths.len()
        invariant
            c <= depths@.len(),
            forall|k: int| 0 <= k < c ==> (#[trigger] depths@[k]).nonnegative_finite(),
        decreases depths@.len() - c,
    {
        if !depths[c].is_nonnegative_finite() {
            return Some(c);
        }
        c = c + 1;
    }
    None
}

impl<A: Arithmetic> LiveNowcast<A> {
    /// The susceptibility map of the engine.
    pub closed spec fn map(&self) -> SusceptibilityMap {
        self.susceptibility
    }

    /// The parameters of the engine.
    pub closed spec fn parameters(&self) -> Kernel {
        self.kernel
    }

    /// The steps ingested so far.
    pub closed spec fn ingested(&self) -> Seq<Seq<Binary64>> {
        self.history@
    }

    /// The kept sums are those that the windows of the ingested steps reach back
    /// to.
    pub closed spec fn wf(&self) -> bool {
        &&& self.susceptibility.wf()
        &&& self.kernel.max_window_steps > 0
        &&& self.step == self.history@.len()
        &&& self.buffers@.len() == self.susceptibility@.len()
        &&& self.rows@.len() == self.susceptibility@.len()
        &&& forall|c: int|
            0 <= c < self.rows@.len() ==> accumulates::<A>(column(self.history@, c), #[trigger] self.rows@[c])
        &&& forall|c: int|
            0 <= c < self.buffers@.len() ==> (#[trigger] self.buffers@[c])@ == recent(
                self.rows@[c],
                self.kernel.max_window_steps as nat,
            )
    }

    /// Builds a streaming engine. `dt_hours` is the step length;
    /// `max_window_steps` bounds the longest I–D window.
    pub fn new(
        susceptibility: SusceptibilityMap,
        threshold: IdThreshold,
        trigger: TriggerModel,
        max_window_steps: usize,
        dt_hours: Binary64,
    ) -> (r: Result<LiveNowcast<A>, Error>)
        requires
            susceptibility.wf(),
        ensures
            match r {
                Ok(n) => {
                    &&& max_window_steps > 0
                    &&& dt_hours.positive_finite()
                    &&& n.wf()
                    &&& n.map() == susceptibility
                    &&& n.parameters() == (Kernel { threshold, trigger, max_window_steps, dt_hours })
                    &&& n.ingested() == Seq::<Seq<Binary64>>::empty()
                },
                Err(e) => if max_window_steps == 0 {
                    e == no_window()
                } else {
                    !dt_hours.positive_finite() && e == (Error::InvalidParameter {
                        name: "dt_hours",
                        reason: Reason::Value { before: "must be finite and > 0, got ", value: dt_hours, after: "" },
                    })
                },
            },
    {
        if max_window_steps == 0 {
            return Err(Error::InvalidParameter { name: "max_window_steps", reason: Reason::Text("must be >= 1") });
        }
        if !dt_hours.is_positive_finite() {
            return Err(
                Error::InvalidParameter {
                    name: "dt_hours",
                    reason: Reason::Value { before: "must be finite and > 0, got ", value: dt_hours, after: "" },
                },
            );
        }
        let n: usize = susceptibility.dims().len();
        let mut buffers: Vec<Vec<Binary64>> = Vec::new();
        let mut c: usize = 0;
        while c < n
            invariant
                c <= n,
                buffers@.len() == c,
                forall|k: int| 0 <= k < c ==> (#[trigger] buffers@[k])@ == seq![zero()],
            decreases n - c,
        {
            let mut buffer: Vec<Binary64> = Vec::new();
            buffer.push(zero());
            assert(buffer@ == seq![zero()]);
            buffers.push(buffer);
            c = c + 1;
        }
        let history: Ghost<Seq<Seq<Binary64>>> = Ghost(Seq::empty());
        let rows: Ghost<Seq<Seq<Binary64>>> = Ghost(Seq::new(n as nat, |k: int| seq![zero()]));
        let kernel = Kernel { threshold, trigger, max_window_steps, dt_hours };
        Ok(LiveNowcast { susceptibility, kernel, buffers, step: 0, history, rows, arithmetic: PhantomData })
    }

    /// Grid of the engine.
    pub fn dims(&self) -> (r: GridDims)
        ensures
            r == self.map().grid(),
    {
        self.susceptibility.dims()
    }

    /// Step length in hours.
    pub fn dt_hours(&self) -> (r: Binary64)
        ensures
            r == self.parameters().dt_hours,
    {
        self.kernel.dt_hours
    }

    /// Number of steps ingested so far (index of the next step to arrive).
    pub fn step_index(&self) -> (r: usize)
        requires
            self.wf(),
        ensures
            r == self.ingested().len(),
    {
        self.step
    }

    /// Ingests one step's per-cell water-input depth (mm) and returns the hazard
    /// field for that step.
    ///
    /// The length must equal the grid size, and every depth must be finite and
    /// not below zero: a NaN accepted here would poison all later sums of its
    /// cell. A refused step leaves the engine as it was.
    pub fn push(&mut self, depths: &[Binary64]) -> (r: Result<HazardField, Error>)
        requires
            old(self).wf(),
            step_accepted(old(self).map().grid(), depths@) ==> old(self).ingested().len() < usize::MAX,
        ensures
            !step_accepted(old(self).map().grid(), depths@) ==> *final(self) == *old(self),
            final(self).wf(),
            final(self).map() == old(self).map(),
            final(self).parameters() == old(self).parameters(),
            final(self).ingested() == if step_accepted(old(self).map().grid(), depths@) {
                old(self).ingested().push(depths@)
            } else {
                old(self).ingested()
            },
            match r {
                Ok(f) => {
                    &&& step_accepted(old(self).map().grid(), depths@)
                    &&& f.wf()
                    &&& f.at_step() == old(self).ingested().len()
                    &&& f.grid() == old(self).map().grid()
                    &&& live_field::<A>(
                        old(self).map()@,
                        old(self).parameters(),
                        old(self).ingested().push(depths@),
                        f@,
                    )
                    &&& forall|c: int| 0 <= c < f@.len() ==> (#[trigger] f@[c]).unit()
                },
                Err(e) => if step_accepted(old(self).map().grid(), depths@) {
                    hazard_refused::<A>(
                        old(self).map()@,
                        old(self).parameters(),
                        old(self).ingested().push(depths@),
                        e,
                    )
                } else {
                    step_refused(old(self).map().grid(), old(self).ingested().len() as int, depths@, e)
                },
            },
    {
        let dims: GridDims = self.susceptibility.dims();
        let n: usize = dims.len();
        if depths.len() != n {
            return Err(
                Error::GridSizeMismatch {
                    expected: n,
                    got: depths.len(),
                    ncols: dims.ncols,
                    nrows: dims.nrows,
                },
            );
        }
        if let Some(cell) = find_bad_depth(depths) {
            assert(first_bad_depth(depths@, cell as int));
            assert(!step_accepted(dims, depths@));
            return Err(
                Error::InvalidParameter {
                    name: "depths",
                    reason: Reason::Depth { cell, value: depths[cell], step: self.step },
                },
            );
        }
        let window: usize = self.kernel.max_window_steps;
        let ghost before = self.history@;
        let ghost after = before.push(depths@);
        let ghost mut rows: Seq<Seq<Binary64>> = Seq::empty();
        let mut buffers: Vec<Vec<Binary64>> = Vec::new();
        let mut values: Vec<Binary64> = Vec::new();
        let mut c: usize = 0;
        while c < n
            invariant
                c <= n,
                n == depths@.len(),
                n == self.susceptibility@.len(),
                self.wf(),
                window == self.kernel.max_window_steps,
                before == self.history@,
                after == before.push(depths@),
                rows.len() == c,
                buffers@.len() == c,
                values@.len() == c,
                forall|k: int| 0 <= k < c ==> accumulates::<A>(column(after, k), #[trigger] rows[k]),
                forall|k: int| 0 <= k < c ==> (#[trigger] buffers@[k])@ == recent(rows[k], window as nat),
                forall|k: int|
                    0 <= k < c ==> self.kernel.hazard_of::<A>(
                        self.susceptibility@[k],
                        column(after, k),
                        #[trigger] values@[k],
                    ),
            decreases n - c,
        {
            let ghost row = self.rows@[c as int];
            proof {
                assert(accumulates::<A>(column(before, c as int), self.rows@[c as int]));
                assert(self.buffers@[c as int]@ == recent(row, window as nat));
                assert(recent(row, window as nat).last() == row.last());
            }
            let mut buffer: Vec<Binary64> = copy_values(self.buffers[c].as_slice());
            let sum: Binary64 = A::plus(buffer[buffer.len() - 1], depths[c]);
            proof {
                assert(sums::<A>(row.last(), depths@[c as int], sum));
                lemma_accumulates_push::<A>(column(before, c as int), row, depths@[c as int], sum);
                assert(column(after, c as int) == column(before, c as int).push(depths@[c as int]));
                lemma_recent_push(row, window as nat, sum);
            }
            buffer.push(sum);
            if buffer.len() - 1 > window {
                buffer.remove(0);
            }
            assert(buffer@ == recent(row.push(sum), window as nat));
            let (e, _m): (Binary64, usize) = self.kernel.threshold.worst_window::<A>(
                self.kernel.dt_hours,
                buffer.as_slice(),
            );
            let factor: Binary64 = self.kernel.trigger.factor::<A>(e);
            let p: Binary64 = A::times(self.susceptibility.get(c), factor);
            proof {
                assert(self.kernel.fires::<A>(row.push(sum), factor));
                assert(accumulates::<A>(column(after, c as int), row.push(sum)));
                assert(self.kernel.factor_of::<A>(column(after, c as int), factor));
                assert(multiplies::<A>(self.susceptibility@[c as int], factor, p));
                rows = rows.push(row.push(sum));
            }
            buffers.push(buffer);
            values.push(p);
            c = c + 1;
        }
        let t: usize = self.step;
        proof {
            assert(live_field::<A>(self.susceptibility@, self.kernel, after, values@));
            assert(step_accepted(dims, depths@));
        }
        self.buffers = buffers;
        self.step = t + 1;
        self.history = Ghost(after);
        self.rows = Ghost(rows);
        HazardField::new(t, dims, values)
    }
}

/// A pull-based source of forcing steps for [`run_live`]: each call yields the
/// next step's per-cell depth (mm), or `None` when the stream ends.
pub trait StepSource {
    /// The grid of the steps.
    open spec fn grid(&self) -> GridDims {
        arbitrary()
    }

    /// The length of a step.
    open spec fn hours(&self) -> Binary64 {
        arbitrary()
    }

    /// The steps that are still to come.
    open spec fn pending(&self) -> Seq<Seq<Binary64>> {
        arbitrary()
    }

    /// Grid the steps are defined on.
    fn dims(&self) -> (r: GridDims)
        ensures
            r == self.grid(),
    ;

    /// Step length in hours.
    fn dt_hours(&self) -> (r: Binary64)
        ensures
            r == self.hours(),
    ;

    /// The next step's per-cell depth (mm), or `None` at end of stream.
    fn next_step(&mut self) -> (r: Option<Vec<Binary64>>)
        ensures
            final(self).grid() == old(self).grid(),
            final(self).hours() == old(self).hours(),
            match r {
                Some(depths) => old(self).pending().len() > 0 && depths@ == old(self).pending()[0]
                    && final(self).pending() == old(self).pending().drop_first(),
                None => old(self).pending().len() == 0 && final(self).pending().len() == 0,
            },
    ;
}

/// The depths of all cells at a step of a forcing.
pub open spec fn step_of<F: Forcing>(forcing: &F, step: int) -> Seq<Binary64> {
    Seq::new(forcing.grid().cells(), |c: int| forcing.depth(c, step))
}

/// The steps of a forcing from some step up to another one.
pub open spec fn steps_of<F: Forcing>(forcing: &F, from: int, to: int) -> Seq<Seq<Binary64>> {
    Seq::new(
        if from < to {
            (to - from) as nat
        } else {
            0
        },
        |t: int| step_of(forcing, from + t),
    )
}

/// A [`StepSource`] that replays an in-memory [`Forcing`] step by step: the
/// bridge that lets the streaming engine consume any batch forcing.
pub struct ReplaySource<F: Forcing> {
    forcing: F,
    step: usize,
}

impl<F: Forcing> ReplaySource<F> {
    #[verifier::type_invariant]
    spec fn addressable(self) -> bool {
        self.forcing.grid().fits()
    }

    /// Replays a forcing from its first step.
    pub fn new(forcing: F) -> (r: ReplaySource<F>)
        requires
            forcing.grid().fits(),
        ensures
            r.grid() == forcing.grid(),
            r.hours() == forcing.hours(),
            r.pending() == steps_of(&forcing, 0, forcing.steps() as int),
    {
        ReplaySource { forcing, step: 0 }
    }
}

impl<F: Forcing> StepSource for ReplaySource<F> {
    closed spec fn grid(&self) -> GridDims {
        self.forcing.grid()
    }

    closed spec fn hours(&self) -> Binary64 {
        self.forcing.hours()
    }

    closed spec fn pending(&self) -> Seq<Seq<Binary64>> {
        steps_of(&self.forcing, self.step as int, self.forcing.steps() as int)
    }

    fn dims(&self) -> (r: GridDims) {
        self.forcing.dims()
    }

    fn dt_hours(&self) -> (r: Binary64) {
        self.forcing.dt_hours()
    }

    fn next_step(&mut self) -> (r: Option<Vec<Binary64>>) {
        proof {
            use_type_invariant(&*self);
        }
        let step: usize = self.step;
        if step >= self.forcing.n_steps() {
            return None;
        }
        let n: usize = self.forcing.dims().len();
        let mut depths: Vec<Binary64> = Vec::new();
        let mut c: usize = 0;
        while c < n
            invariant
                c <= n,
                n == self.forcing.grid().cells(),
                step < self.forcing.steps(),
                depths@.len() == c,
                forall|k: int| 0 <= k < c ==> #[trigger] depths@[k] == self.forcing.depth(k, step as int),
            decreases n - c,
        {
            depths.push(self.forcing.depth_mm(c, step));
            c = c + 1;
        }
        let ghost was = *self;
        self.step = step + 1;
        proof {
            assert(depths@ == step_of(&self.forcing, step as int));
            assert(was.pending()[0] == step_of(&was.forcing, step as int));
            assert(self.pending() =~= was.pending().drop_first()) by {
                assert forall|t: int| 0 <= t < self.pending().len() implies self.pending()[t] == was.pending().drop_first()[t] by {
                    assert(self.pending()[t] == step_of(&self.forcing, step + 1 + t));
                    assert(was.pending()[t + 1] == step_of(&self.forcing, step + (t + 1)));
                }
            }
        }
        Some(depths)
    }
}

/// `fields` are the hazard fields of the first steps of a stream that continues
/// what has been ingested before.
pub open spec fn streams<A: Arithmetic>(
    map: SusceptibilityMap,
    kernel: Kernel,
    before: Seq<Seq<Binary64>>,
    steps: Seq<Seq<Binary64>>,
    fields: Seq<HazardField>,
) -> bool {
    &&& fields.len() <= steps.len()
    &&& forall|i: int|
        0 <= i < fields.len() ==> {
            &&& (#[trigger] fields[i]).wf()
            &&& fields[i].at_step() == before.len() + i
            &&& fields[i].grid() == map.grid()
            &&& step_accepted(map.grid(), steps[i])
            &&& live_field::<A>(map@, kernel, before + steps.take(i + 1), fields[i]@)
            &&& forall|c: int| 0 <= c < fields[i]@.len() ==> (#[trigger] fields[i]@[c]).unit()
        }
}

/// The step behind the streamed ones is refused, or its hazard is.
pub open spec fn stops_at<A: Arithmetic>(
    map: SusceptibilityMap,
    kernel: Kernel,
    before: Seq<Seq<Binary64>>,
    steps: Seq<Seq<Binary64>>,
    n: int,
    after: Seq<Seq<Binary64>>,
    e: Error,
) -> bool {
    &&& 0 <= n < steps.len()
    &&& if step_accepted(map.grid(), steps[n]) {
        after == before + steps.take(n + 1) && hazard_refused::<A>(map@, kernel, after, e)
    } else {
        after == before + steps.take(n) && step_refused(map.grid(), before.len() + n, steps[n], e)
    }
}

/// What comes of driving steps through an engine that has ingested others before:
/// a field for every step, or for those before the one that it stops at.
pub open spec fn drives<A: Arithmetic>(
    map: SusceptibilityMap,
    kernel: Kernel,
    before: Seq<Seq<Binary64>>,
    steps: Seq<Seq<Binary64>>,
    fields: Seq<HazardField>,
    after: Seq<Seq<Binary64>>,
    r: Result<(), Error>,
) -> bool {
    streams::<A>(map, kernel, before, steps, fields) && match r {
        Ok(_) => fields.len() == steps.len() && after == before + steps,
        Err(e) => stops_at::<A>(map, kernel, before, steps, fields.len() as int, after, e),
    }
}

/// The error for a source whose step length differs from the engine's.
pub open spec fn step_lengths_differ(source: Binary64, engine: Binary64) -> Error {
    Error::InvalidParameter {
        name: "dt_hours",
        reason: Reason::Values {
            before: "source step ",
            first: source,
            between: " h differs from engine step ",
            second: engine,
            after: " h",
        },
    }
}

/// Where [`run_live_with`] hands every step's [`HazardField`] as it is produced: a
/// list, a display, a notifier.
pub trait FieldSink {
    /// The fields handed over so far.
    open spec fn received(&self) -> Seq<HazardField> {
        arbitrary()
    }

    /// Takes the field of a step.
    fn on_step(&mut self, field: HazardField)
        ensures
            final(self).received() == old(self).received().push(field),
    ;
}

impl FieldSink for Vec<HazardField> {
    open spec fn received(&self) -> Seq<HazardField> {
        self@
    }

    fn on_step(&mut self, field: HazardField) {
        self.push(field);
    }
}

/// Drives a [`StepSource`] through a [`LiveNowcast`], handing every step's
/// [`HazardField`] to `sink` as it is produced. Fails if the source grid or step
/// length disagrees with the engine, and stops at the first step that the engine
/// refuses.
pub fn run_live_with<S: StepSource, K: FieldSink, A: Arithmetic>(
    engine: &mut LiveNowcast<A>,
    source: &mut S,
    sink: &mut K,
) -> (r: Result<(), Error>)
    requires
        old(engine).wf(),
        old(engine).ingested().len() + old(source).pending().len() <= usize::MAX,
    ensures
        final(engine).wf(),
        final(engine).map() == old(engine).map(),
        final(engine).parameters() == old(engine).parameters(),
        old(sink).received().is_prefix_of(final(sink).received()),
        ({
            let (map, kernel, before) = (old(engine).map(), old(engine).parameters(), old(engine).ingested());
            let (steps, after) = (old(source).pending(), final(engine).ingested());
            let new = final(sink).received().skip(old(sink).received().len() as int);
            if old(source).grid() != map.grid() {
                r == Err::<(), Error>(grids_differ(map.grid(), old(source).grid())) && after == before && new.len() == 0
            } else if !old(source).hours().same_number(kernel.dt_hours) {
                r == Err::<(), Error>(step_lengths_differ(old(source).hours(), kernel.dt_hours)) && after == before
                    && new.len() == 0
            } else {
                drives::<A>(map, kernel, before, steps, new, after, r)
            }
        }),
{
    let s: GridDims = source.dims();
    let e: GridDims = engine.dims();
    assert(sink.received().skip(sink.received().len() as int).len() == 0);
    if s != e {
        return Err(
            Error::GridMismatch { susc_cols: e.ncols, susc_rows: e.nrows, forc_cols: s.ncols, forc_rows: s.nrows },
        );
    }
    if !source.dt_hours().same(engine.dt_hours()) {
        return Err(
            Error::InvalidParameter {
                name: "dt_hours",
                reason: Reason::Values {
                    before: "source step ",
                    first: source.dt_hours(),
                    between: " h differs from engine step ",
                    second: engine.dt_hours(),
                    after: " h",
                },
            },
        );
    }
    let ghost (map, kernel, before) = (engine.map(), engine.parameters(), engine.ingested());
    let ghost steps = source.pending();
    let ghost start = sink.received();
    let ghost mut n: int = 0;
    assert(steps.skip(0) == steps);
    assert(before + steps.take(0) == before);
    loop
        invariant
            map == old(engine).map(),
            kernel == old(engine).parameters(),
            before == old(engine).ingested(),
            steps == old(source).pending(),
            start == old(sink).received(),
            old(source).grid() == map.grid(),
            old(source).hours().same_number(kernel.dt_hours),
            engine.wf(),
            engine.map() == map,
            engine.parameters() == kernel,
            before.len() + steps.len() <= usize::MAX,
            0 <= n <= steps.len(),
            source.pending() == steps.skip(n),
            engine.ingested() == before + steps.take(n),
            start.is_prefix_of(sink.received()),
            sink.received().len() == start.len() + n,
            streams::<A>(map, kernel, before, steps, sink.received().skip(start.len() as int)),
        ensures
            engine.wf(),
            engine.map() == map,
            engine.parameters() == kernel,
            n == steps.len(),
            engine.ingested() == before + steps.take(n),
            start.is_prefix_of(sink.received()),
            sink.received().len() == start.len() + n,
            streams::<A>(map, kernel, before, steps, sink.received().skip(start.len() as int)),
        decreases steps.len() - n,
    {
        match source.next_step() {
            None => {
                break;
            },
            Some(depths) => {
                let ghost new = sink.received().skip(start.len() as int);
                proof {
                    assert(depths@ == steps[n]);
                    assert(steps.skip(n).drop_first() == steps.skip(n + 1));
                    assert((before + steps.take(n)).push(depths@) == before + steps.take(n + 1));
                }
                match engine.push(depths.as_slice()) {
                    Ok(field) => {
                        sink.on_step(field);
                        proof {
                            assert(sink.received().skip(start.len() as int) == new.push(field));
                            let next = new.push(field);
                            assert forall|i: int| 0 <= i < next.len() implies {
                                &&& (#[trigger] next[i]).wf()
                                &&& next[i].at_step() == before.len() + i
                                &&& next[i].grid() == map.grid()
                                &&& step_accepted(map.grid(), steps[i])
                                &&& live_field::<A>(map@, kernel, before + steps.take(i + 1), next[i]@)
                                &&& forall|c: int| 0 <= c < next[i]@.len() ==> (#[trigger] next[i]@[c]).unit()
                            } by {
                                if i < new.len() {
                                    assert(next[i] == new[i]);
                                }
                            }
                            n = n + 1;
                        }
                    },
                    Err(error) => {
                        assert(sink.received().skip(start.len() as int) == new);
                        return Err(error);
                    },
                }
            },
        }
    }
    assert(steps.take(steps.len() as int) == steps);
    Ok(())
}

/// Drives a [`StepSource`] through a [`LiveNowcast`], adding every step's
/// [`HazardField`] to `fields` as it is produced. Fails if the source grid or
/// step length disagrees with the engine, and stops at the first step that the
/// engine refuses.
pub fn run_live<S: StepSource, A: Arithmetic>(
    engine: &mut LiveNowcast<A>,
    source: &mut S,
    fields: &mut Vec<HazardField>,
) -> (r: Result<(), Error>)
    requires
        old(engine).wf(),
        old(engine).ingested().len() + old(source).pending().len() <= usize::MAX,
    ensures
        final(engine).wf(),
        final(engine).map() == old(engine).map(),
        final(engine).parameters() == old(engine).parameters(),
        old(fields)@.is_prefix_of(final(fields)@),
        ({
            let (map, kernel, before) = (old(engine).map(), old(engine).parameters(), old(engine).ingested());
            let (steps, after) = (old(source).pending(), final(engine).ingested());
            let new = final(fields)@.skip(old(fields)@.len() as int);
            if old(source).grid() != map.grid() {
                r == Err::<(), Error>(grids_differ(map.grid(), old(source).grid())) && after == before && new.len() == 0
            } else if !old(source).hours().same_number(kernel.dt_hours) {
                r == Err::<(), Error>(step_lengths_differ(old(source).hours(), kernel.dt_hours)) && after == before
                    && new.len() == 0
            } else {
                drives::<A>(map, kernel, before, steps, new, after, r)
            }
        }),
{
    run_live_with(engine, source, fields)
}

/// Streaming is batch: the hazard field that the streaming engine gives after the
/// first steps of a forcing is the field that the batch engine gives for the last
/// of them.
pub proof fn lemma_streaming_is_batch<F: Forcing, A: Arithmetic>(
    susceptibility: Seq<Binary64>,
    forcing: &F,
    kernel: Kernel,
    step: int,
    values: Seq<Binary64>,
)
    requires
        0 <= step < forcing.steps(),
        susceptibility.len() == forcing.grid().cells(),
    ensures
        live_field::<A>(susceptibility, kernel, steps_of(forcing, 0, step + 1), values) <==> field_at::<F, A>(
            susceptibility,
            forcing,
            kernel,
            step,
            values,
        ),
{
    let history = steps_of(forcing, 0, step + 1);
    assert forall|c: int| 0 <= c < susceptibility.len() implies #[trigger] column(history, c) == depths_until(
        forcing,
        c,
        step,
    ) by {
        assert(column(history, c) =~= depths_until(forcing, c, step)) by {
            assert forall|t: int| 0 <= t < step + 1 implies column(history, c)[t] == forcing.depth(c, t) by {
                assert(history[t] == step_of(forcing, 0 + t));
            }
        }
    }
    if live_field::<A>(susceptibility, kernel, history, values) {
        assert forall|c: int| 0 <= c < values.len() implies kernel.hazard_of::<A>(
            susceptibility[c],
            depths_until(forcing, c, step),
            #[trigger] values[c],
        ) by {
            assert(kernel.hazard_of::<A>(susceptibility[c], column(history, c), values[c]));
        }
    }
    if field_at::<F, A>(susceptibility, forcing, kernel, step, values) {
        assert forall|c: int| 0 <= c < values.len() implies kernel.hazard_of::<A>(
            susceptibility[c],
            column(history, c),
            #[trigger] values[c],
        ) by {
            assert(kernel.hazard_of::<A>(susceptibility[c], depths_until(forcing, c, step), values[c]));
        }
    }
}

/// Two streaming engines with the same parameters that have ingested the same
/// steps give the same hazard field, however the steps arrived.
pub proof fn lemma_live_field_is_determined<A: Arithmetic>(
    susceptibility: Seq<Binary64>,
    kernel: Kernel,
    history: Seq<Seq<Binary64>>,
    p: Seq<Binary64>,
    q: Seq<Binary64>,
)
    requires
        deterministic::<A>(),
        live_field::<A>(susceptibility, kernel, history, p),
        live_field::<A>(susceptibility, kernel, history, q),
    ensures
        p == q,
{
    assert forall|c: int| 0 <= c < p.len() implies p[c] == q[c] by {
        assert(kernel.hazard_of::<A>(susceptibility[c], column(history, c), p[c]));
        assert(kernel.hazard_of::<A>(susceptibility[c], column(history, c), q[c]));
        lemma_hazard_of_unique::<A>(kernel, susceptibility[c], column(history, c), p[c], q[c]);
    }
}

/// A full replay of a forcing through a fresh streaming engine gives the fields
/// of a batch run, step for step and value for value.
pub proof fn lemma_replay_equals_run<F: Forcing, A: Arithmetic>(
    map: SusceptibilityMap,
    forcing: &F,
    kernel: Kernel,
    streamed: Seq<HazardField>,
    batch: Seq<Seq<Binary64>>,
)
    requires
        deterministic::<A>(),
        map.wf(),
        map.grid() == forcing.grid(),
        streams::<A>(map, kernel, Seq::empty(), steps_of(forcing, 0, forcing.steps() as int), streamed),
        streamed.len() == forcing.steps(),
        batch.len() == forcing.steps(),
        forall|t: int| 0 <= t < batch.len() ==> field_at::<F, A>(map@, forcing, kernel, t, #[trigger] batch[t]),
    ensures
        forall|t: int| 0 <= t < batch.len() ==> (#[trigger] streamed[t]).at_step() == t && streamed[t]@ == batch[t],
{
    let all = steps_of(forcing, 0, forcing.steps() as int);
    assert forall|t: int| 0 <= t < batch.len() implies (#[trigger] streamed[t]).at_step() == t && streamed[t]@
        == batch[t] by {
        let history = Seq::<Seq<Binary64>>::empty() + all.take(t + 1);
        assert(history =~= steps_of(forcing, 0, t + 1)) by {
            assert forall|k: int| 0 <= k < t + 1 implies history[k] == steps_of(forcing, 0, t + 1)[k] by {
                assert(all[k] == step_of(forcing, 0 + k));
            }
        }
        assert(live_field::<A>(map@, kernel, history, streamed[t]@));
        assert(field_at::<F, A>(map@, forcing, kernel, t, batch[t]));
        lemma_streaming_is_batch::<F, A>(map@, forcing, kernel, t, batch[t]);
        lemma_live_field_is_determined::<A>(map@, kernel, history, streamed[t]@, batch[t]);
    }
}

/// A replay never stops: driving a forcing of finite depths that are not below
/// zero through a fresh streaming engine succeeds, ingests all its steps, and
/// gives the fields of a batch run, step for step and value for value.
pub proof fn lemma_replay_succeeds<F: Forcing, A: Arithmetic>(
    map: SusceptibilityMap,
    forcing: &F,
    kernel: Kernel,
    streamed: Seq<HazardField>,
    after: Seq<Seq<Binary64>>,
    r: Result<(), Error>,
    batch: Seq<Seq<Binary64>>,
)
    requires
        deterministic::<A>(),
        rounds_properly::<A>(),
        kernel.trigger.k.positive_finite(),
        map.wf(),
        map.grid() == forcing.grid(),
        forall|c: int, t: int|
            0 <= c < forcing.grid().cells() && 0 <= t < forcing.steps() ==> (#[trigger] forcing.depth(
                c,
                t,
            )).nonnegative_finite(),
        drives::<A>(
            map,
            kernel,
            Seq::empty(),
            steps_of(forcing, 0, forcing.steps() as int),
            streamed,
            after,
            r,
        ),
        batch.len() == forcing.steps(),
        forall|t: int| 0 <= t < batch.len() ==> field_at::<F, A>(map@, forcing, kernel, t, #[trigger] batch[t]),
    ensures
        r is Ok,
        streamed.len() == forcing.steps(),
        after.len() == forcing.steps(),
        forall|t: int| 0 <= t < batch.len() ==> (#[trigger] streamed[t]).at_step() == t && streamed[t]@ == batch[t],
{
    let steps = steps_of(forcing, 0, forcing.steps() as int);
    if let Err(e) = r {
        let n = streamed.len() as int;
        assert(steps[n] == step_of(forcing, n));
        assert(step_accepted(map.grid(), steps[n]));
        assert(hazard_refused::<A>(map@, kernel, after, e));
        let (values, cell) = choose|values: Seq<Binary64>, cell: int| #[trigger]
            live_field::<A>(map@, kernel, after, values) && #[trigger] first_outside_unit(values, cell) && e == bad_hazard(
                cell,
                values[cell],
            );
        assert(kernel.hazard_of::<A>(map@[cell], column(after, cell), values[cell]));
        assert(map@[cell].unit());
        lemma_hazard_within_unit::<A>(kernel, map@[cell], column(after, cell), values[cell]);
    }
    assert(Seq::<Seq<Binary64>>::empty() + steps == steps);
    lemma_replay_equals_run::<F, A>(map, forcing, kernel, streamed, batch);
}

} // verus!
