//! Ensemble (probabilistic) nowcasting.
//!
//! A deterministic forcing gives one hazard field per step. A forecast forcing,
//! such as an ensemble rainfall nowcast, gives many plausible realizations of the
//! near future. Running the engine on each member and aggregating yields a
//! probabilistic hazard: at every cell and step, the fraction of members that
//! reach the alert level, plus the ensemble mean and spread.

use vstd::arithmetic::power2::{lemma2_to64, lemma_pow2_strictly_increases};
use vstd::prelude::*;
use vstd::set_lib::set_int_range;

use crate::accuracy::{lemma_scales, root_is_accurate, rounds_closely, rounds_to, tiny, ulp};
use crate::arithmetic::{
    adds_up, counts, deterministic, differs, exact_where_trivial, lemma_adds_up_push, multiplies, ratio, ratio_of, roots,
    rounds_properly, sums, Arithmetic,
};
use crate::binary64::{absolute, lemma_rank_orders_numbers, lemma_small_numbers, lemma_unit_number, one, zero, Binary64};
use crate::calibrate::{mean_of, rearranges};
use crate::error::{Error, Reason};
use crate::forcing::{depths_until, Forcing};
use crate::grid::{copy_values, GridDims, SusceptibilityMap};
use crate::hazard::{bad_alert_level, count_reached, peak, peak_of, reached, validate_alert_level, HazardField};
use crate::kernel::{lemma_hazard_of_unique, Kernel};
use crate::nowcast::{field_at, grids_differ, no_window, Nowcast};
use crate::ranking::lemma_ratio_value;
use crate::series::{lemma_bound_of_product, lemma_mean_of_terms, lemma_part_of, sum};
use crate::threshold::IdThreshold;
use crate::trigger::TriggerModel;

verus! {

/// Probabilistic hazard for one step, aggregated across ensemble members.
#[derive(Debug)]
pub struct EnsembleField {
    /// Time step index.
    pub step: usize,
    dims: GridDims,
    p_exceed: Vec<Binary64>,
    mean: Vec<Binary64>,
    spread: Vec<Binary64>,
}

impl EnsembleField {
    /// The step of the field.
    pub closed spec fn at_step(&self) -> usize {
        self.step
    }

    /// The grid of the field.
    pub closed spec fn grid(&self) -> GridDims {
        self.dims
    }

    /// The exceedance probabilities of all cells.
    pub closed spec fn exceedances(&self) -> Seq<Binary64> {
        self.p_exceed@
    }

    /// The mean hazards of all cells.
    pub closed spec fn means(&self) -> Seq<Binary64> {
        self.mean@
    }

    /// The spreads of all cells.
    pub closed spec fn spreads(&self) -> Seq<Binary64> {
        self.spread@
    }

    /// Grid of the field.
    pub fn dims(&self) -> (r: GridDims)
        ensures
            r == self.grid(),
    {
        self.dims
    }

    /// Per-cell exceedance probability: fraction of members at or above the alert
    /// level. This is the probabilistic forecast hazard.
    pub fn probability_of_exceedance(&self) -> (r: &[Binary64])
        ensures
            r@ == self.exceedances(),
    {
        self.p_exceed.as_slice()
    }

    /// Per-cell ensemble-mean hazard.
    pub fn mean(&self) -> (r: &[Binary64])
        ensures
            r@ == self.means(),
    {
        self.mean.as_slice()
    }

    /// Per-cell ensemble spread (population standard deviation).
    pub fn spread(&self) -> (r: &[Binary64])
        ensures
            r@ == self.spreads(),
    {
        self.spread.as_slice()
    }

    /// Highest exceedance probability anywhere on the grid this step.
    pub fn max_probability_of_exceedance(&self) -> (r: Binary64)
        ensures
            r == peak(self.exceedances()),
    {
        peak_of(self.p_exceed.as_slice())
    }
}

impl Clone for EnsembleField {
    fn clone(&self) -> (r: EnsembleField)
        ensures
            r.at_step() == self.at_step(),
            r.grid() == self.grid(),
            r.exceedances() == self.exceedances(),
            r.means() == self.means(),
            r.spreads() == self.spreads(),
    {
        EnsembleField {
            step: self.step,
            dims: self.dims,
            p_exceed: copy_values(self.p_exceed.as_slice()),
            mean: copy_values(self.mean.as_slice()),
            spread: copy_values(self.spread.as_slice()),
        }
    }
}

/// `hs` are the hazards of all members at a cell and a step.
pub open spec fn member_hazards<F: Forcing, A: Arithmetic>(
    susceptibility: Binary64,
    members: Seq<F>,
    threshold: IdThreshold,
    trigger: TriggerModel,
    max_window_steps: usize,
    cell: int,
    step: int,
    hs: Seq<Binary64>,
) -> bool {
    &&& hs.len() == members.len()
    &&& forall|i: int|
        0 <= i < hs.len() ==> (Kernel { threshold, trigger, max_window_steps, dt_hours: members[i].hours() }).hazard_of::<
            A,
        >(susceptibility, depths_until(&members[i], cell, step), #[trigger] hs[i])
}

/// `squares` are the squares of values.
pub open spec fn squares_of<A: Arithmetic>(hs: Seq<Binary64>, squares: Seq<Binary64>) -> bool {
    &&& squares.len() == hs.len()
    &&& forall|i: int| 0 <= i < squares.len() ==> multiplies::<A>(hs[i], hs[i], #[trigger] squares[i])
}

/// `r` is the mean of values.
pub open spec fn ensemble_mean<A: Arithmetic>(hs: Seq<Binary64>, r: Binary64) -> bool {
    exists|total: Binary64| #[trigger] adds_up::<A>(zero(), hs, total) && mean_of::<A>(total, hs.len() as int, r)
}

/// `r` is the population standard deviation of values with a given mean: the root
/// of the mean square without the square of the mean, from zero on.
pub open spec fn ensemble_spread<A: Arithmetic>(hs: Seq<Binary64>, mean: Binary64, r: Binary64) -> bool {
    exists|squares: Seq<Binary64>, total: Binary64, mean_square: Binary64, square: Binary64, variance: Binary64|
        {
            &&& #[trigger] squares_of::<A>(hs, squares)
            &&& #[trigger] adds_up::<A>(zero(), squares, total)
            &&& #[trigger] mean_of::<A>(total, hs.len() as int, mean_square)
            &&& #[trigger] multiplies::<A>(mean, mean, square)
            &&& #[trigger] differs::<A>(mean_square, square, variance)
            &&& roots::<A>(variance.larger(zero()), r)
        }
}

/// Three values aggregate the hazards of the members at a cell.
pub open spec fn aggregates<A: Arithmetic>(
    hs: Seq<Binary64>,
    level: Binary64,
    p: Binary64,
    mean: Binary64,
    spread: Binary64,
) -> bool {
    &&& ratio_of::<A>(reached(hs, level).len() as int, hs.len() as int, p)
    &&& ensemble_mean::<A>(hs, mean)
    &&& ensemble_spread::<A>(hs, mean, spread)
}

/// Three values aggregate the hazards of the members at a cell and a step.
pub open spec fn aggregates_cell<F: Forcing, A: Arithmetic>(
    susceptibility: Binary64,
    members: Seq<F>,
    threshold: IdThreshold,
    trigger: TriggerModel,
    max_window_steps: usize,
    level: Binary64,
    cell: int,
    step: int,
    p: Binary64,
    mean: Binary64,
    spread: Binary64,
) -> bool {
    exists|hs: Seq<Binary64>| #[trigger]
        member_hazards::<F, A>(susceptibility, members, threshold, trigger, max_window_steps, cell, step, hs)
            && aggregates::<A>(hs, level, p, mean, spread)
}

/// A field aggregates the hazards of the members at all cells of a step.
pub open spec fn aggregates_step<F: Forcing, A: Arithmetic>(
    map: SusceptibilityMap,
    members: Seq<F>,
    threshold: IdThreshold,
    trigger: TriggerModel,
    max_window_steps: usize,
    level: Binary64,
    step: int,
    field: EnsembleField,
) -> bool {
    &&& field.at_step() == step
    &&& field.grid() == map.grid()
    &&& field.exceedances().len() == map@.len()
    &&& field.means().len() == map@.len()
    &&& field.spreads().len() == map@.len()
    &&& forall|c: int|
        0 <= c < map@.len() ==> aggregates_cell::<F, A>(
            map@[c],
            members,
            threshold,
            trigger,
            max_window_steps,
            level,
            c,
            step,
            #[trigger] field.exceedances()[c],
            field.means()[c],
            field.spreads()[c],
        )
}

/// Whether a member covers the grid and the steps.
pub open spec fn fits_ensemble<F: Forcing>(member: F, dims: GridDims, steps: nat) -> bool {
    member.steps() == steps && member.grid() == dims
}

/// The error of the first member that does not fit, or for a window of no step.
pub open spec fn ensemble_refused<F: Forcing>(
    dims: GridDims,
    members: Seq<F>,
    max_window_steps: usize,
    i: int,
    e: Error,
) -> bool {
    let steps = members[0].steps();
    &&& 0 <= i < members.len()
    &&& forall|k: int| 0 <= k < i ==> fits_ensemble(#[trigger] members[k], dims, steps)
    &&& i > 0 ==> max_window_steps > 0
    &&& if members[i].steps() != steps {
        e == (Error::InvalidParameter {
            name: "members",
            reason: Reason::Counts {
                before: "member has ",
                first: members[i].steps() as usize,
                between: " steps, expected ",
                second: steps as usize,
                after: "",
            },
        })
    } else if members[i].grid() != dims {
        e == grids_differ(dims, members[i].grid())
    } else {
        max_window_steps == 0 && e == no_window()
    }
}

fn compute_mean<A: Arithmetic>(hs: &[Binary64]) -> (r: Binary64)
    ensures
        ensemble_mean::<A>(hs@, r),
{
    let mut total: Binary64 = zero();
    let mut i: usize = 0;
    assert(hs@.take(0) == Seq::<Binary64>::empty());
    while i < hs.len()
        invariant
            i <= hs@.len(),
            adds_up::<A>(zero(), hs@.take(i as int), total),
        decreases hs@.len() - i,
    {
        let next: Binary64 = A::plus(total, hs[i]);
        proof {
            assert(sums::<A>(total, hs@[i as int], next));
            lemma_adds_up_push::<A>(zero(), hs@.take(i as int), total, hs@[i as int], next);
            assert(hs@.take(i + 1) == hs@.take(i as int).push(hs@[i as int]));
        }
        total = next;
        i = i + 1;
    }
    assert(hs@.take(hs@.len() as int) == hs@);
    let count: Binary64 = A::of_count(hs.len() as u64);
    assert(counts::<A>(hs@.len() as int, count));
    A::over(total, count)
}

fn compute_spread<A: Arithmetic>(hs: &[Binary64], mean: Binary64) -> (r: Binary64)
    ensures
        ensemble_spread::<A>(hs@, mean, r),
{
    let ghost mut squares: Seq<Binary64> = Seq::empty();
    let mut total: Binary64 = zero();
    let mut i: usize = 0;
    while i < hs.len()
        invariant
            i <= hs@.len(),
            squares.len() == i,
            forall|k: int| 0 <= k < i ==> multiplies::<A>(hs@[k], hs@[k], #[trigger] squares[k]),
            adds_up::<A>(zero(), squares, total),
        decreases hs@.len() - i,
    {
        let square: Binary64 = A::times(hs[i], hs[i]);
        let next: Binary64 = A::plus(total, square);
        proof {
            assert(multiplies::<A>(hs@[i as int], hs@[i as int], square));
            assert(sums::<A>(total, square, next));
            lemma_adds_up_push::<A>(zero(), squares, total, square, next);
            squares = squares.push(square);
        }
        total = next;
        i = i + 1;
    }
    let count: Binary64 = A::of_count(hs.len() as u64);
    let mean_square: Binary64 = A::over(total, count);
    let square: Binary64 = A::times(mean, mean);
    let variance: Binary64 = A::minus(mean_square, square);
    proof {
        assert(squares_of::<A>(hs@, squares));
        assert(counts::<A>(hs@.len() as int, count));
        assert(mean_of::<A>(total, hs@.len() as int, mean_square));
        assert(multiplies::<A>(mean, mean, square));
        assert(differs::<A>(mean_square, square, variance));
    }
    A::root(variance.max(zero()))
}

/// Runs the engine on every member.
fn run_members<F: Forcing, A: Arithmetic>(
    susceptibility: &SusceptibilityMap,
    members: Vec<F>,
    threshold: IdThreshold,
    trigger: TriggerModel,
    max_window_steps: usize,
) -> (r: Result<Vec<Vec<HazardField>>, Error>)
    requires
        susceptibility.wf(),
        members@.len() > 0,
    ensures
        match r {
            Ok(runs) => {
                &&& max_window_steps > 0
                &&& runs@.len() == members@.len()
                &&& forall|i: int|
                    0 <= i < members@.len() ==> fits_ensemble(
                        #[trigger] members@[i],
                        susceptibility.grid(),
                        members@[0].steps(),
                    )
                &&& forall|i: int|
                    0 <= i < runs@.len() ==> run_of::<F, A>(
                        *susceptibility,
                        members@[i],
                        Kernel { threshold, trigger, max_window_steps, dt_hours: members@[i].hours() },
                        (#[trigger] runs@[i])@,
                    )
            },
            Err(e) => exists|i: int| #[trigger]
                ensemble_refused(susceptibility.grid(), members@, max_window_steps, i, e),
        },
{
    let ghost all = members@;
    let ghost dims = susceptibility.grid();
    let n_steps: usize = members[0].n_steps();
    let mut rest: Vec<F> = members;
    let mut runs: Vec<Vec<HazardField>> = Vec::new();
    assert(all.skip(0) == all);
    while rest.len() > 0
        invariant
            all == members@,
            all.len() > 0,
            susceptibility.wf(),
            dims == susceptibility.grid(),
            n_steps == all[0].steps(),
            runs@.len() <= all.len(),
            rest@ == all.skip(runs@.len() as int),
            runs@.len() > 0 ==> max_window_steps > 0,
            forall|i: int| 0 <= i < runs@.len() ==> fits_ensemble(#[trigger] all[i], dims, n_steps as nat),
            forall|i: int|
                0 <= i < runs@.len() ==> run_of::<F, A>(
                    *susceptibility,
                    all[i],
                    Kernel { threshold, trigger, max_window_steps, dt_hours: all[i].hours() },
                    (#[trigger] runs@[i])@,
                ),
        decreases rest@.len(),
    {
        let ghost i = runs@.len() as int;
        assert(rest@[0] == all[i]);
        let member: F = rest.remove(0);
        assert(rest@ == all.skip(i + 1));
        let steps: usize = member.n_steps();
        if steps != n_steps {
            let e: Error = Error::InvalidParameter {
                name: "members",
                reason: Reason::Counts {
                    before: "member has ",
                    first: steps,
                    between: " steps, expected ",
                    second: n_steps,
                    after: "",
                },
            };
            assert(ensemble_refused(dims, all, max_window_steps, i, e));
            return Err(e);
        }
        let map: SusceptibilityMap = susceptibility.clone();
        match Nowcast::<F, A>::new(map, member, threshold, trigger, max_window_steps) {
            Ok(engine) => {
                let fields: Vec<HazardField> = engine.run();
                proof {
                    assert forall|t: int| 0 <= t < fields@.len() implies (#[trigger] fields@[t]).wf()
                        && fields@[t].grid() == dims && field_at::<F, A>(
                        susceptibility@,
                        &all[i],
                        Kernel { threshold, trigger, max_window_steps, dt_hours: all[i].hours() },
                        t,
                        fields@[t]@,
                    ) by {
                        assert(engine.nowcasts(t, fields@[t]@));
                    }
                }
                runs.push(fields);
            },
            Err(e) => {
                assert(ensemble_refused(dims, all, max_window_steps, i, e));
                return Err(e);
            },
        }
    }
    assert(runs@.len() == all.len());
    Ok(runs)
}

/// `fields` is the batch run of a member.
spec fn run_of<F: Forcing, A: Arithmetic>(map: SusceptibilityMap, member: F, kernel: Kernel, fields: Seq<HazardField>) -> bool {
    &&& fields.len() == member.steps()
    &&& forall|t: int|
        0 <= t < fields.len() ==> (#[trigger] fields[t]).wf() && fields[t].grid() == map.grid() && field_at::<F, A>(
            map@,
            &member,
            kernel,
            t,
            fields[t]@,
        )
}

/// Runs the engine over an ensemble of forcing members sharing one
/// susceptibility, threshold and trigger, and aggregates into a per-step
/// probabilistic hazard.
///
/// `alert_level` defines exceedance (hazard `>=` level). All members must share
/// the susceptibility grid and step count. Fails on a level that is no
/// probability, an empty ensemble, or a member whose grid or length disagrees.
pub fn ensemble_hazard<F: Forcing, A: Arithmetic>(
    susceptibility: &SusceptibilityMap,
    members: Vec<F>,
    threshold: IdThreshold,
    trigger: TriggerModel,
    max_window_steps: usize,
    alert_level: Binary64,
) -> (r: Result<Vec<EnsembleField>, Error>)
    requires
        susceptibility.wf(),
    ensures
        match r {
            Ok(fields) => {
                &&& alert_level.unit()
                &&& members@.len() > 0
                &&& max_window_steps > 0
                &&& forall|i: int|
                    0 <= i < members@.len() ==> fits_ensemble(
                        #[trigger] members@[i],
                        susceptibility.grid(),
                        members@[0].steps(),
                    )
                &&& fields@.len() == members@[0].steps()
                &&& forall|t: int|
                    0 <= t < fields@.len() ==> aggregates_step::<F, A>(
                        *susceptibility,
                        members@,
                        threshold,
                        trigger,
                        max_window_steps,
                        alert_level,
                        t,
                        #[trigger] fields@[t],
                    )
            },
            Err(e) => if !alert_level.unit() {
                e == bad_alert_level(alert_level)
            } else if members@.len() == 0 {
                e == (Error::InvalidParameter {
                    name: "members",
                    reason: Reason::Text("ensemble needs at least one member"),
                })
            } else {
                exists|i: int| #[trigger]
                    ensemble_refused(susceptibility.grid(), members@, max_window_steps, i, e)
            },
        },
{
    match validate_alert_level(alert_level) {
        Ok(_) => {},
        Err(e) => {
            return Err(e);
        },
    }
    if members.len() == 0 {
        return Err(
            Error::InvalidParameter { name: "members", reason: Reason::Text("ensemble needs at least one member") },
        );
    }
    let ghost all = members@;
    let dims: GridDims = susceptibility.dims();
    let n: usize = dims.len();
    let n_steps: usize = members[0].n_steps();
    let runs: Vec<Vec<HazardField>> = match run_members::<F, A>(
        susceptibility,
        members,
        threshold,
        trigger,
        max_window_steps,
    ) {
        Ok(runs) => runs,
        Err(e) => {
            return Err(e);
        },
    };
    let mut fields: Vec<EnsembleField> = Vec::new();
    let mut t: usize = 0;
    while t < n_steps
        invariant
            t <= n_steps,
            susceptibility.wf(),
            dims == susceptibility.grid(),
            n == susceptibility@.len(),
            all.len() > 0,
            n_steps == all[0].steps(),
            runs@.len() == all.len(),
            forall|i: int| 0 <= i < all.len() ==> fits_ensemble(#[trigger] all[i], dims, n_steps as nat),
            forall|i: int|
                0 <= i < runs@.len() ==> run_of::<F, A>(
                    *susceptibility,
                    all[i],
                    Kernel { threshold, trigger, max_window_steps, dt_hours: all[i].hours() },
                    (#[trigger] runs@[i])@,
                ),
            fields@.len() == t,
            forall|k: int|
                0 <= k < t ==> aggregates_step::<F, A>(
                    *susceptibility,
                    all,
                    threshold,
                    trigger,
                    max_window_steps,
                    alert_level,
                    k,
                    #[trigger] fields@[k],
                ),
        decreases n_steps - t,
    {
        let mut p_exceed: Vec<Binary64> = Vec::new();
        let mut mean: Vec<Binary64> = Vec::new();
        let mut spread: Vec<Binary64> = Vec::new();
        let mut c: usize = 0;
        while c < n
            invariant
                c <= n,
                t < n_steps,
                dims == susceptibility.grid(),
                susceptibility.wf(),
                n == susceptibility@.len(),
                all.len() > 0,
                runs@.len() == all.len(),
                forall|i: int| 0 <= i < all.len() ==> fits_ensemble(#[trigger] all[i], dims, n_steps as nat),
                forall|i: int|
                    0 <= i < runs@.len() ==> run_of::<F, A>(
                        *susceptibility,
                        all[i],
                        Kernel { threshold, trigger, max_window_steps, dt_hours: all[i].hours() },
                        (#[trigger] runs@[i])@,
                    ),
                p_exceed@.len() == c,
                mean@.len() == c,
                spread@.len() == c,
                forall|k: int|
                    0 <= k < c ==> aggregates_cell::<F, A>(
                        susceptibility@[k],
                        all,
                        threshold,
                        trigger,
                        max_window_steps,
                        alert_level,
                        k,
                        t as int,
                        #[trigger] p_exceed@[k],
                        mean@[k],
                        spread@[k],
                    ),
            decreases n - c,
        {
            let mut hs: Vec<Binary64> = Vec::new();
            let mut i: usize = 0;
            while i < runs.len()
                invariant
                    i <= runs@.len(),
                    c < n,
                    t < n_steps,
                    n == susceptibility@.len(),
                    runs@.len() == all.len(),
                    dims == susceptibility.grid(),
                    forall|k: int| 0 <= k < all.len() ==> fits_ensemble(#[trigger] all[k], dims, n_steps as nat),
                    forall|k: int|
                        0 <= k < runs@.len() ==> run_of::<F, A>(
                            *susceptibility,
                            all[k],
                            Kernel { threshold, trigger, max_window_steps, dt_hours: all[k].hours() },
                            (#[trigger] runs@[k])@,
                        ),
                    hs@.len() == i,
                    forall|k: int|
                        0 <= k < i ==> (Kernel { threshold, trigger, max_window_steps, dt_hours: all[k].hours() }).hazard_of::<
                            A,
                        >(susceptibility@[c as int], depths_until(&all[k], c as int, t as int), #[trigger] hs@[k]),
                decreases runs@.len() - i,
            {
                proof {
                    assert(fits_ensemble(all[i as int], dims, n_steps as nat));
                    assert(run_of::<F, A>(
                        *susceptibility,
                        all[i as int],
                        Kernel { threshold, trigger, max_window_steps, dt_hours: all[i as int].hours() },
                        runs@[i as int]@,
                    ));
                    assert(runs@[i as int]@[t as int].wf());
                }
                let field: &HazardField = &runs[i][t];
                let h: Binary64 = field.probability()[c];
                assert(h == runs@[i as int]@[t as int]@[c as int]);
                hs.push(h);
                i = i + 1;
            }
            let p: Binary64 = ratio::<A>(count_reached(hs.as_slice(), alert_level) as u64, hs.len() as u64);
            let mu: Binary64 = compute_mean::<A>(hs.as_slice());
            let sigma: Binary64 = compute_spread::<A>(hs.as_slice(), mu);
            proof {
                assert(member_hazards::<F, A>(
                    susceptibility@[c as int],
                    all,
                    threshold,
                    trigger,
                    max_window_steps,
                    c as int,
                    t as int,
                    hs@,
                ));
                assert(aggregates::<A>(hs@, alert_level, p, mu, sigma));
            }
            p_exceed.push(p);
            mean.push(mu);
            spread.push(sigma);
            c = c + 1;
        }
        fields.push(EnsembleField { step: t, dims, p_exceed, mean, spread });
        t = t + 1;
    }
    Ok(fields)
}

/// With a single member the exceedance is all or nothing: one member reaches the
/// level where its hazard does, and none otherwise.
pub proof fn lemma_single_member_is_all_or_nothing(hazard: Binary64, level: Binary64)
    ensures
        reached(seq![hazard], level).len() == if level.at_most(hazard) {
            1nat
        } else {
            0nat
        },
{
    let hs = seq![hazard];
    if level.at_most(hazard) {
        assert(reached(hs, level) =~= set![0int]);
    } else {
        assert(reached(hs, level) =~= Set::<int>::empty());
    }
}

/// The exceedance does not depend on the order of the members: rearranging them
/// keeps the number of those that reach the level.
pub proof fn lemma_exceedance_ignores_order(hs: Seq<Binary64>, order: Seq<int>, level: Binary64)
    requires
        rearranges(order, hs.len()),
    ensures
        reached(order.map_values(|i: int| hs[i]), level).len() == reached(hs, level).len(),
{
    let other = order.map_values(|i: int| hs[i]);
    let f = |i: int| order[i];
    let (a, b) = (reached(other, level), reached(hs, level));
    vstd::set_lib::lemma_int_range(0, other.len() as int);
    vstd::set_lib::lemma_int_range(0, hs.len() as int);
    assert(order.to_set() == set_int_range(0, hs.len() as int));
    order.unique_seq_to_set();
    assert forall|k: int| b.contains(k) implies exists|i: int| #[trigger] a.contains(i) && f(i) == k by {
        assert(order.to_set().contains(k));
        let i = choose|i: int| 0 <= i < order.len() && order[i] == k;
        assert(a.contains(i));
    }
    assert(a.map(f) =~= b) by {
        assert forall|k: int| b.contains(k) implies a.map(f).contains(k) by {
            let i = choose|i: int| #[trigger] a.contains(i) && f(i) == k;
            assert(a.contains(i));
        }
    }
    assert forall|x: int, y: int| a.contains(x) && a.contains(y) && #[trigger] f(x) == #[trigger] f(y) implies x
        == y by {
    }
    vstd::set_lib::lemma_map_size(a, b, f);
}

/// A sum of one term is the term.
proof fn lemma_sum_of_one<A: Arithmetic>(term: Binary64, total: Binary64)
    requires
        exact_where_trivial::<A>(),
        !term.nan(),
        adds_up::<A>(zero(), seq![term], total),
    ensures
        total.same_number(term),
{
    let terms = seq![term];
    let before = choose|before: Binary64| #[trigger]
        sums::<A>(before, terms.last(), total) && adds_up::<A>(zero(), terms.drop_last(), before);
    assert(terms.drop_last().len() == 0);
    assert(before == zero());
}

/// A single member is its own forecast: the mean is its hazard, the spread is
/// zero, and the exceedance is one where it reaches the level and zero otherwise.
pub proof fn lemma_single_member_has_no_spread<A: Arithmetic>(
    hazard: Binary64,
    level: Binary64,
    p: Binary64,
    mean: Binary64,
    spread: Binary64,
)
    requires
        deterministic::<A>(),
        rounds_properly::<A>(),
        exact_where_trivial::<A>(),
        hazard.unit(),
        aggregates::<A>(seq![hazard], level, p, mean, spread),
    ensures
        mean.same_number(hazard),
        spread.same_number(zero()),
        p == if level.at_most(hazard) {
            one()
        } else {
            zero()
        },
{
    let hs = seq![hazard];
    lemma_single_member_is_all_or_nothing(hazard, level);
    let sum = choose|total: Binary64| #[trigger]
        adds_up::<A>(zero(), hs, total) && mean_of::<A>(total, hs.len() as int, mean);
    lemma_sum_of_one::<A>(hazard, sum);
    assert(mean == sum);
    let (squares, total, mean_square, square, variance) = choose|
        squares: Seq<Binary64>,
        total: Binary64,
        mean_square: Binary64,
        square: Binary64,
        variance: Binary64,
    |
        {
            &&& #[trigger] squares_of::<A>(hs, squares)
            &&& #[trigger] adds_up::<A>(zero(), squares, total)
            &&& #[trigger] mean_of::<A>(total, hs.len() as int, mean_square)
            &&& #[trigger] multiplies::<A>(mean, mean, square)
            &&& #[trigger] differs::<A>(mean_square, square, variance)
            &&& roots::<A>(variance.larger(zero()), spread)
        };
    assert(multiplies::<A>(hazard, hazard, squares[0]));
    assert(squares == seq![squares[0]]);
    assert(squares[0].unit());
    lemma_sum_of_one::<A>(squares[0], total);
    assert(mean_square == total);
    if hazard.rank() == 0 {
        assert(squares[0].same_number(zero()) && square.same_number(zero()));
    } else {
        assert(mean == hazard);
        assert(square == squares[0]);
    }
    assert(variance.same_number(zero()));
}

/// The hazards that an ensemble aggregates are those of runs of its members: each
/// is the hazard of its cell in the field that the batch engine gives for the
/// member and the step.
pub proof fn lemma_members_are_runs<F: Forcing, A: Arithmetic>(
    susceptibility: Seq<Binary64>,
    members: Seq<F>,
    threshold: IdThreshold,
    trigger: TriggerModel,
    max_window_steps: usize,
    cell: int,
    step: int,
    hs: Seq<Binary64>,
    i: int,
    values: Seq<Binary64>,
)
    requires
        deterministic::<A>(),
        0 <= cell < susceptibility.len(),
        0 <= i < members.len(),
        member_hazards::<F, A>(susceptibility[cell], members, threshold, trigger, max_window_steps, cell, step, hs),
        field_at::<F, A>(
            susceptibility,
            &members[i],
            (Kernel { threshold, trigger, max_window_steps, dt_hours: members[i].hours() }),
            step,
            values,
        ),
    ensures
        hs[i] == values[cell],
{
    let kernel = Kernel { threshold, trigger, max_window_steps, dt_hours: members[i].hours() };
    let depths = depths_until(&members[i], cell, step);
    assert(kernel.hazard_of::<A>(susceptibility[cell], depths, values[cell]));
    assert(kernel.hazard_of::<A>(susceptibility[cell], depths, hs[i]));
    lemma_hazard_of_unique::<A>(kernel, susceptibility[cell], depths, hs[i], values[cell]);
}

/// The numbers that values denote.
pub open spec fn hazard_numbers(hs: Seq<Binary64>) -> Seq<real> {
    hs.map_values(|h: Binary64| h.number())
}

/// The squares of the numbers that values denote.
pub open spec fn hazard_squares(hs: Seq<Binary64>) -> Seq<real> {
    hs.map_values(|h: Binary64| h.number() * h.number())
}

/// The mean of numbers.
pub open spec fn average(numbers: Seq<real>) -> real {
    sum(numbers) / (numbers.len() as real)
}

/// The mean of the squares of values without the square of their mean, from zero
/// on.
pub open spec fn variance_of(hs: Seq<Binary64>) -> real {
    let m = average(hazard_numbers(hs));
    let v = average(hazard_squares(hs)) - m * m;
    if v < 0real {
        0real
    } else {
        v
    }
}

/// The mean of probabilities is the exact one, within rounding.
pub proof fn lemma_ensemble_mean<A: Arithmetic>(hs: Seq<Binary64>, mean: Binary64)
    requires
        rounds_closely::<A>(),
        0 < hs.len() <= 0x100_0000_0000,
        forall|i: int| 0 <= i < hs.len() ==> (#[trigger] hs[i]).unit(),
        ensemble_mean::<A>(hs, mean),
    ensures
        mean.finite(),
        absolute(mean.number() - average(hazard_numbers(hs))) <= ulp(4real * (hs.len() as real) + 5real),
        absolute(average(hazard_numbers(hs))) <= 1real,
{
    let total = choose|total: Binary64| #[trigger]
        adds_up::<A>(zero(), hs, total) && mean_of::<A>(total, hs.len() as int, mean);
    let count = choose|count: Binary64| #[trigger]
        counts::<A>(hs.len() as int, count) && crate::arithmetic::divides::<A>(total, count, mean);
    lemma_scales();
    lemma_small_numbers();
    lemma2_to64();
    lemma_pow2_strictly_increases(1, 800);
    let numbers = hazard_numbers(hs);
    assert forall|i: int| 0 <= i < hs.len() implies (#[trigger] hs[i]).finite() && absolute(hs[i].number() - numbers[i])
        <= 0real by {
        lemma_unit_number(hs[i]);
    }
    assert forall|i: int| 0 <= i < numbers.len() implies absolute(#[trigger] numbers[i]) <= 1real by {
        lemma_unit_number(hs[i]);
    }
    lemma_mean_of_terms::<A>(hs, numbers, 1real, 0real, zero(), total, count, mean);
}

/// The mean square of probabilities is the exact one, within rounding.
proof fn lemma_ensemble_square<A: Arithmetic>(
    hs: Seq<Binary64>,
    squares: Seq<Binary64>,
    total: Binary64,
    mean_square: Binary64,
)
    requires
        rounds_closely::<A>(),
        0 < hs.len() <= 0x100_0000_0000,
        forall|i: int| 0 <= i < hs.len() ==> (#[trigger] hs[i]).unit(),
        squares_of::<A>(hs, squares),
        adds_up::<A>(zero(), squares, total),
        mean_of::<A>(total, hs.len() as int, mean_square),
    ensures
        mean_square.finite(),
        absolute(mean_square.number() - average(hazard_squares(hs))) <= ulp(4real * (hs.len() as real) + 7real),
        absolute(average(hazard_squares(hs))) <= 1real,
{
    let count = choose|count: Binary64| #[trigger]
        counts::<A>(hs.len() as int, count) && crate::arithmetic::divides::<A>(total, count, mean_square);
    lemma_scales();
    lemma_small_numbers();
    lemma2_to64();
    lemma_pow2_strictly_increases(1, 800);
    let numbers = hazard_squares(hs);
    assert forall|i: int| 0 <= i < squares.len() implies (#[trigger] squares[i]).finite() && absolute(
        squares[i].number() - numbers[i],
    ) <= ulp(2real) by {
        assert(multiplies::<A>(hs[i], hs[i], squares[i]));
        assert(hs[i].unit());
        lemma_unit_number(hs[i]);
        lemma_part_of(hs[i].number(), hs[i].number());
    }
    assert forall|i: int| 0 <= i < numbers.len() implies absolute(#[trigger] numbers[i]) <= 1real by {
        assert(hs[i].unit());
        lemma_unit_number(hs[i]);
        lemma_part_of(hs[i].number(), hs[i].number());
    }
    lemma_mean_of_terms::<A>(squares, numbers, 1real, ulp(2real), zero(), total, count, mean_square);
}

/// What an ensemble makes of the hazards of its members at a cell: the share of
/// those at or above the level, their mean, and a spread whose square is their
/// variance, the mean square without the square of the mean, all within rounding.
pub proof fn lemma_ensemble_in_numbers<A: Arithmetic>(
    hs: Seq<Binary64>,
    level: Binary64,
    p: Binary64,
    mean: Binary64,
    spread: Binary64,
)
    requires
        rounds_closely::<A>(),
        root_is_accurate::<A>(),
        0 < hs.len() <= 0x100_0000_0000,
        forall|i: int| 0 <= i < hs.len() ==> (#[trigger] hs[i]).unit(),
        level.unit(),
        aggregates::<A>(hs, level, p, mean, spread),
    ensures
        forall|i: int| #[trigger] reached(hs, level).contains(i) <==> 0 <= i < hs.len() && level.number() <= hs[i].number(),
        rounds_to((reached(hs, level).len() as real) / (hs.len() as real), p),
        absolute(mean.number() - average(hazard_numbers(hs))) <= ulp(4real * (hs.len() as real) + 5real),
        spread.finite() && spread.number() >= 0real,
        absolute(spread.number() * spread.number() - variance_of(hs)) <= ulp(16real * (hs.len() as real) + 64real),
{
    let n = hs.len() as real;
    lemma_scales();
    lemma_small_numbers();
    vstd::set_lib::lemma_int_range(0, hs.len() as int);
    vstd::set_lib::lemma_len_subset(reached(hs, level), set_int_range(0, hs.len() as int));
    lemma_ratio_value::<A>(reached(hs, level).len() as int, hs.len() as int, p);
    assert forall|i: int| #[trigger] reached(hs, level).contains(i) <==> 0 <= i < hs.len() && level.number()
        <= hs[i].number() by {
        if 0 <= i < hs.len() {
            assert(hs[i].unit());
            lemma_rank_orders_numbers(hs[i], level);
        }
    }
    lemma_ensemble_mean::<A>(hs, mean);
    let (squares, total, mean_square, square, variance) = choose|
        squares: Seq<Binary64>,
        total: Binary64,
        mean_square: Binary64,
        square: Binary64,
        variance: Binary64,
    |
        {
            &&& #[trigger] squares_of::<A>(hs, squares)
            &&& #[trigger] adds_up::<A>(zero(), squares, total)
            &&& #[trigger] mean_of::<A>(total, hs.len() as int, mean_square)
            &&& #[trigger] multiplies::<A>(mean, mean, square)
            &&& #[trigger] differs::<A>(mean_square, square, variance)
            &&& roots::<A>(variance.larger(zero()), spread)
        };
    lemma_ensemble_square::<A>(hs, squares, total, mean_square);
    let (m, x) = (average(hazard_numbers(hs)), mean.number());
    let s = average(hazard_squares(hs));
    assert(x * x - m * m == (x - m) * (x + m)) by (nonlinear_arith);
    assert(absolute(x - m) <= 1real / 64real);
    lemma_bound_of_product(x - m, x + m, 3real);
    assert(absolute(m * m) <= 1real) by {
        lemma_bound_of_product(m, m, 1real);
    }
    assert(rounds_to(x * x, square));
    let y = square.number();
    assert(absolute(y - m * m) <= ulp(12real * n + 24real));
    assert(absolute(mean_square.number() - y) <= 4real);
    assert(rounds_to(mean_square.number() - y, variance));
    lemma_rank_orders_numbers(variance, zero());
    lemma_rank_orders_numbers(zero(), variance);
    let held = variance.larger(zero());
    assert(held.finite() && held.number() == if variance.number() < 0real {
        0real
    } else {
        variance.number()
    });
    assert(absolute(held.number() - variance_of(hs)) <= ulp(16real * n + 40real));
}

} // verus!
