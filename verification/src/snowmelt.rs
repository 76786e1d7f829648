//! Distributed water input from a snow model: per-cell rain and snowmelt runoff.
//!
//! A snow model is a sequential simulation (the snowpack accumulates from step to
//! step), whereas a [`Forcing`] needs random access, so that the
//! intensity–duration logic can accumulate rolling windows. The bridge is to run
//! the snow model over the whole meteorological series once and to keep the
//! runoff of every cell and step in one buffer.

use vstd::arithmetic::power2::pow2;
use vstd::prelude::*;

use crate::accuracy::{lemma_scales, rounds_closely, rounds_to};
use crate::arithmetic::{multiplies, Arithmetic};
use crate::binary64::{absolute, lemma_rank_orders_numbers, lemma_small_numbers, zero, Binary64};
use crate::forcing::{hours_per_day, lemma_hours_per_day, Forcing};
use crate::grid::{copy_values, GridDims};

verus! {

/// The water input of a cell: its runoff from zero on, and zero where the runoff
/// is not finite (cells without elevation).
pub open spec fn water_input(runoff: Binary64) -> Binary64 {
    if runoff.finite() {
        runoff.larger(zero())
    } else {
        zero()
    }
}

/// A water input is finite and not below zero, whatever the snow model gave: no
/// cell poisons the accumulation over rolling windows.
pub proof fn lemma_water_input_is_proper(runoff: Binary64)
    ensures
        water_input(runoff).nonnegative_finite(),
        runoff.nonnegative_finite() ==> water_input(runoff) == runoff,
{
}

/// A [`Forcing`] backed by a distributed snow simulation.
///
/// Holds the rain and snowmelt runoff (mm) of every cell and step, row-major
/// within a step.
#[derive(Debug)]
pub struct SnowmeltForcing {
    dims: GridDims,
    dt_hours: Binary64,
    n_steps: usize,
    runoff: Vec<Binary64>,
}

impl View for SnowmeltForcing {
    type V = Seq<Binary64>;

    closed spec fn view(&self) -> Seq<Binary64> {
        self.runoff@
    }
}

/// The place of a cell and a step lies within a buffer of steps.
proof fn lemma_place(cells: int, steps: int, cell: int, step: int)
    requires
        0 <= cell < cells,
        0 <= step < steps,
    ensures
        0 <= step * cells,
        0 <= step * cells + cell < steps * cells,
        step * cells + cells <= steps * cells,
{
    assert(0 <= step * cells && step * cells + cells <= steps * cells) by (nonlinear_arith)
        requires
            0 < cells,
            0 <= step < steps,
    ;
}

impl SnowmeltForcing {
    #[verifier::type_invariant]
    spec fn filled(self) -> bool {
        &&& self.dims.fits()
        &&& self.runoff@.len() == self.n_steps * self.dims.cells()
    }

    /// Collects the per-cell runoff (mm) that a snow model gave for each step of a
    /// meteorological series, at a time step of `dt_days`.
    ///
    /// Values that are not finite or below zero become zero water input.
    pub fn run<A: Arithmetic>(dims: GridDims, fields: &[Vec<Binary64>], dt_days: Binary64) -> (r: SnowmeltForcing)
        requires
            dims.fits(),
            forall|t: int| 0 <= t < fields@.len() ==> (#[trigger] fields@[t])@.len() == dims.cells(),
        ensures
            r.grid() == dims,
            r.steps() == fields@.len(),
            multiplies::<A>(dt_days, hours_per_day(), r.hours()),
            forall|c: int, t: int|
                0 <= c < dims.cells() && 0 <= t < fields@.len() ==> #[trigger] r.depth(c, t) == water_input(
                    fields@[t]@[c],
                ),
    {
        let n: usize = dims.len();
        let mut runoff: Vec<Binary64> = Vec::new();
        let mut t: usize = 0;
        while t < fields.len()
            invariant
                t <= fields@.len(),
                n == dims.cells(),
                forall|s: int| 0 <= s < fields@.len() ==> (#[trigger] fields@[s])@.len() == n,
                runoff@.len() == t * n,
                forall|c: int, s: int|
                    #![trigger fields@[s]@[c]]
                    0 <= c < n && 0 <= s < t ==> runoff@[s * n + c] == water_input(fields@[s]@[c]),
            decreases fields@.len() - t,
        {
            assert(fields@[t as int]@.len() == n);
            let ghost before = runoff@;
            let mut c: usize = 0;
            while c < n
                invariant
                    c <= n,
                    t < fields@.len(),
                    fields@[t as int]@.len() == n,
                    before.len() == t * n,
                    runoff@.len() == before.len() + c,
                    forall|k: int| 0 <= k < before.len() ==> runoff@[k] == before[k],
                    forall|k: int| 0 <= k < c ==> runoff@[before.len() + k] == water_input(#[trigger] fields@[t as int]@[k]),
                decreases n - c,
            {
                let v: Binary64 = fields[t][c];
                runoff.push(
                    if v.is_finite() {
                        v.max(zero())
                    } else {
                        zero()
                    },
                );
                c = c + 1;
            }
            proof {
                assert((t + 1) * n == t * n + n) by (nonlinear_arith);
                assert forall|c: int, s: int|
                    #![trigger fields@[s]@[c]]
                    0 <= c < n && 0 <= s < t + 1 implies runoff@[s * n + c] == water_input(fields@[s]@[c]) by {
                    if s < t {
                        lemma_place(n as int, t as int, c, s);
                    }
                }
            }
            t = t + 1;
        }
        let dt_hours: Binary64 = A::times(dt_days, hours_per_day());
        assert(multiplies::<A>(dt_days, hours_per_day(), dt_hours));
        let r = SnowmeltForcing { dims, dt_hours, n_steps: fields.len(), runoff };
        proof {
            assert forall|c: int, s: int| 0 <= c < dims.cells() && 0 <= s < fields@.len() implies #[trigger] r.depth(
                c,
                s,
            ) == water_input(fields@[s]@[c]) by {
                assert(runoff@[s * n + c] == water_input(fields@[s]@[c]));
            }
        }
        r
    }

    /// The runoff (mm) of all cells at a step, row-major.
    pub fn runoff_at(&self, step: usize) -> (r: &[Binary64])
        requires
            step < self.steps(),
        ensures
            r@.len() == self.grid().cells(),
            forall|c: int| 0 <= c < r@.len() ==> #[trigger] r@[c] == self.depth(c, step as int),
    {
        proof {
            use_type_invariant(self);
        }
        let total: usize = self.runoff.len();
        let n: usize = self.dims.len();
        proof {
            assert(0 <= step * n && step * n + n == (step + 1) * n && (step + 1) * n <= self.n_steps * n)
                by (nonlinear_arith)
                requires
                    0 <= n,
                    0 <= step < self.n_steps,
            ;
        }
        let start: usize = step * n;
        let r: &[Binary64] = vstd::slice::slice_subrange(self.runoff.as_slice(), start, start + n);
        assert forall|c: int| 0 <= c < r@.len() implies #[trigger] r@[c] == self.depth(c, step as int) by {
            assert(r@[c] == self.runoff@[start + c]);
        }
        r
    }
}

impl Clone for SnowmeltForcing {
    fn clone(&self) -> (r: SnowmeltForcing)
        ensures
            r.grid() == self.grid(),
            r.steps() == self.steps(),
            r.hours() == self.hours(),
            r@ == self@,
    {
        proof {
            use_type_invariant(self);
        }
        SnowmeltForcing {
            dims: self.dims,
            dt_hours: self.dt_hours,
            n_steps: self.n_steps,
            runoff: copy_values(self.runoff.as_slice()),
        }
    }
}

impl Forcing for SnowmeltForcing {
    closed spec fn grid(&self) -> GridDims {
        self.dims
    }

    closed spec fn steps(&self) -> nat {
        self.n_steps as nat
    }

    closed spec fn hours(&self) -> Binary64 {
        self.dt_hours
    }

    open spec fn depth(&self, cell: int, step: int) -> Binary64 {
        self@[step * self.grid().cells() + cell]
    }

    fn dims(&self) -> (r: GridDims) {
        self.dims
    }

    fn n_steps(&self) -> (r: usize) {
        self.n_steps
    }

    fn dt_hours(&self) -> (r: Binary64) {
        self.dt_hours
    }

    fn depth_mm(&self, cell: usize, step: usize) -> (r: Binary64) {
        let total: usize = self.runoff.len();
        proof {
            use_type_invariant(self);
            lemma_place(self.dims.cells() as int, self.n_steps as int, cell as int, step as int);
            assert(total == self.n_steps * self.dims.cells());
        }
        let n: usize = self.dims.len();
        self.runoff[step * n + cell]
    }
}

/// A snow simulation gives its runoff as depth: what is finite and above zero as it
/// is, all else as zero. Its steps last twenty-four hours to the day, within a
/// neighbouring value.
pub proof fn lemma_runoff_is_depth<A: Arithmetic>(
    dims: GridDims,
    fields: &[Vec<Binary64>],
    dt_days: Binary64,
    forcing: SnowmeltForcing,
    cell: int,
    step: int,
)
    requires
        rounds_closely::<A>(),
        dims.fits(),
        forall|t: int| 0 <= t < fields@.len() ==> (#[trigger] fields@[t])@.len() == dims.cells(),
        dt_days.finite(),
        absolute(dt_days.number()) <= pow2(1000) as real,
        0 <= cell < dims.cells(),
        0 <= step < fields@.len(),
        call_ensures(SnowmeltForcing::run::<A>, (dims, fields, dt_days), forcing),
    ensures
        rounds_to(24real * dt_days.number(), forcing.hours()),
        ({
            let (runoff, depth) = (fields@[step]@[cell], forcing.depth(cell, step));
            &&& depth.finite()
            &&& runoff.finite() && runoff.number() > 0real ==> depth == runoff
            &&& !(runoff.finite() && runoff.number() > 0real) ==> depth.number() == 0real
        }),
{
    lemma_scales();
    lemma_small_numbers();
    lemma_hours_per_day();
    let runoff = fields@[step]@[cell];
    assert(forcing.depth(cell, step) == water_input(runoff));
    lemma_rank_orders_numbers(zero(), runoff);
    lemma_rank_orders_numbers(runoff, zero());
    assert(dt_days.number() * 24real == 24real * dt_days.number());
}

} // verus!
