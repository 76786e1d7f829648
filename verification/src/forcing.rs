//! Dynamic forcing interface and observed-series implementations.
//!
//! A [`Forcing`] is the time-varying trigger that modulates the static
//! susceptibility. The interface uses random access rather than a pull model: the
//! intensity–duration logic accumulates water input over rolling windows, and
//! backtesting replays a whole dated series; both want the full record
//! addressable.

use vstd::arithmetic::power2::{lemma2_to64, lemma2_to64_rest, pow2};
use vstd::prelude::*;

use crate::arithmetic::Arithmetic;
use crate::binary64::{lemma_number_of_pattern, zero, Binary64};
use crate::columns::{column_of, csv_column};
use crate::error::{Error, Reason};
use crate::grid::{copy_values, GridDims};

verus! {

/// A source of dynamic water-input forcing over a grid and a time axis.
///
/// The depth is the water input (mm) deposited at a cell during a time step:
/// rainfall, or rain and snowmelt. Cells and steps are 0-indexed. What a forcing
/// does not say of itself is not known.
pub trait Forcing {
    /// The grid of the forcing.
    open spec fn grid(&self) -> GridDims {
        arbitrary()
    }

    /// The number of time steps.
    open spec fn steps(&self) -> nat {
        arbitrary()
    }

    /// The length of a time step.
    open spec fn hours(&self) -> Binary64 {
        arbitrary()
    }

    /// The water-input depth at a cell and a step.
    open spec fn depth(&self, cell: int, step: int) -> Binary64 {
        arbitrary()
    }

    /// Spatial grid the forcing is defined on.
    fn dims(&self) -> (r: GridDims)
        ensures
            r == self.grid(),
    ;

    /// Number of time steps in the series.
    fn n_steps(&self) -> (r: usize)
        ensures
            r == self.steps(),
    ;

    /// Length of one time step, in hours.
    fn dt_hours(&self) -> (r: Binary64)
        ensures
            r == self.hours(),
    ;

    /// Water-input depth (mm) at `cell` during `step`.
    fn depth_mm(&self, cell: usize, step: usize) -> (r: Binary64)
        requires
            cell < self.grid().cells(),
            step < self.steps(),
        ensures
            r == self.depth(cell as int, step as int),
    ;
}

/// The number of hours in a day, `24`.
#[verifier::allow_in_spec]
pub fn hours_per_day() -> Binary64
    returns
        (Binary64 { bits: 0x4038_0000_0000_0000 }),
{
    Binary64 { bits: 0x4038_0000_0000_0000 }
}

/// The depths of a cell up to and including a step.
pub open spec fn depths_until<F: Forcing>(forcing: &F, cell: int, step: int) -> Seq<Binary64> {
    Seq::new((step + 1) as nat, |t: int| forcing.depth(cell, t))
}

/// A day has twenty-four hours.
pub proof fn lemma_hours_per_day()
    ensures
        hours_per_day().finite(),
        hours_per_day().number() == 24real,
{
    lemma_number_of_pattern(hours_per_day(), 0x403, 0x0018_0000_0000_0000);
    lemma2_to64();
    lemma2_to64_rest();
    assert(pow2(48) as real == 281474976710656real);
    assert(hours_per_day().number() * 281474976710656real == 6755399441055744real);
}

/// Whether a depth is neither a NaN nor below zero.
pub open spec fn depth_accepted(depth: Binary64) -> bool {
    zero().at_most(depth)
}

/// Whether all depths are accepted.
pub open spec fn depths_accepted(depths: Seq<Binary64>) -> bool {
    forall|i: int| 0 <= i < depths.len() ==> depth_accepted(#[trigger] depths[i])
}

fn all_accepted(depths: &[Binary64]) -> (r: bool)
    ensures
        r == depths_accepted(depths@),
{
    let mut i: usize = 0;
    while i < depths.len()
        invariant
            i <= depths@.len(),
            forall|k: int| 0 <= k < i ==> depth_accepted(#[trigger] depths@[k]),
        decreases depths@.len() - i,
    {
        if !zero().not_above(depths[i]) {
            assert(!depth_accepted(depths@[i as int]));
            return false;
        }
        i = i + 1;
    }
    true
}

/// The error for a step length that is not above zero.
pub open spec fn bad_step_length(dt_hours: Binary64) -> Error {
    Error::InvalidParameter {
        name: "dt_hours",
        reason: Reason::Value { before: "must be > 0, got ", value: dt_hours, after: "" },
    }
}

/// The error for depths that are not accepted.
pub open spec fn bad_depths() -> Error {
    Error::InvalidParameter {
        name: "depths_mm",
        reason: Reason::Text("rainfall depths must be finite and non-negative"),
    }
}

fn check_series(dt_hours: Binary64, depths_mm: &[Binary64]) -> (r: Result<(), Error>)
    ensures
        match r {
            Ok(_) => dt_hours.positive_finite() && depths_accepted(depths_mm@),
            Err(e) => if !dt_hours.positive_finite() {
                e == bad_step_length(dt_hours)
            } else {
                !depths_accepted(depths_mm@) && e == bad_depths()
            },
        },
{
    if !dt_hours.is_positive_finite() {
        return Err(
            Error::InvalidParameter {
                name: "dt_hours",
                reason: Reason::Value { before: "must be > 0, got ", value: dt_hours, after: "" },
            },
        );
    }
    if !all_accepted(depths_mm) {
        return Err(
            Error::InvalidParameter {
                name: "depths_mm",
                reason: Reason::Text("rainfall depths must be finite and non-negative"),
            },
        );
    }
    Ok(())
}

/// Single-gauge observed rainfall applied uniformly to every cell.
#[derive(Debug)]
pub struct UniformRain {
    dims: GridDims,
    dt_hours: Binary64,
    depths_mm: Vec<Binary64>,
}

impl View for UniformRain {
    type V = Seq<Binary64>;

    closed spec fn view(&self) -> Seq<Binary64> {
        self.depths_mm@
    }
}

impl UniformRain {
    /// Builds a series of per-step rainfall depths (mm) over a grid.
    ///
    /// The step length must be finite and above zero, the depths not below zero.
    pub fn new(dims: GridDims, dt_hours: Binary64, depths_mm: Vec<Binary64>) -> (r: Result<UniformRain, Error>)
        ensures
            match r {
                Ok(u) => dt_hours.positive_finite() && depths_accepted(depths_mm@) && u.grid() == dims && u.hours()
                    == dt_hours && u@ == depths_mm@,
                Err(e) => if !dt_hours.positive_finite() {
                    e == bad_step_length(dt_hours)
                } else {
                    !depths_accepted(depths_mm@) && e == bad_depths()
                },
            },
    {
        match check_series(dt_hours, depths_mm.as_slice()) {
            Ok(_) => Ok(UniformRain { dims, dt_hours, depths_mm }),
            Err(e) => Err(e),
        }
    }

    /// Parses a single observed rainfall column from CSV text.
    ///
    /// `column` is the 0-based field holding the rainfall depth (mm). Lines whose
    /// field is empty or not a finite number are skipped, which tolerates a
    /// header row and gappy gauge exports.
    pub fn from_csv<A: Arithmetic>(text: &str, column: usize, dims: GridDims, dt_hours: Binary64) -> (r: Result<
        UniformRain,
        Error,
    >)
        ensures
            exists|depths: Seq<Binary64>| #[trigger]
                column_of::<A>(text@, column as int, depths) && match r {
                    Ok(u) => depths.len() > 0 && dt_hours.positive_finite() && depths_accepted(depths) && u.grid() == dims
                        && u.hours() == dt_hours && u@ == depths,
                    Err(e) => if depths.len() == 0 {
                        e == Error::Parse(
                            Reason::Count { before: "no numeric values found in column ", count: column, after: "" },
                        )
                    } else if !dt_hours.positive_finite() {
                        e == bad_step_length(dt_hours)
                    } else {
                        !depths_accepted(depths) && e == bad_depths()
                    },
                },
    {
        let depths: Vec<Binary64> = csv_column::<A>(text, column);
        if depths.len() == 0 {
            return Err(
                Error::Parse(
                    Reason::Count { before: "no numeric values found in column ", count: column, after: "" },
                ),
            );
        }
        UniformRain::new(dims, dt_hours, depths)
    }
}

impl Clone for UniformRain {
    fn clone(&self) -> (r: UniformRain)
        ensures
            r.grid() == self.grid(),
            r.hours() == self.hours(),
            r@ == self@,
    {
        UniformRain { dims: self.dims, dt_hours: self.dt_hours, depths_mm: copy_values(self.depths_mm.as_slice()) }
    }
}

impl Forcing for UniformRain {
    closed spec fn grid(&self) -> GridDims {
        self.dims
    }

    open spec fn steps(&self) -> nat {
        self@.len()
    }

    closed spec fn hours(&self) -> Binary64 {
        self.dt_hours
    }

    open spec fn depth(&self, cell: int, step: int) -> Binary64 {
        self@[step]
    }

    fn dims(&self) -> (r: GridDims) {
        self.dims
    }

    fn n_steps(&self) -> (r: usize) {
        self.depths_mm.len()
    }

    fn dt_hours(&self) -> (r: Binary64) {
        self.dt_hours
    }

    fn depth_mm(&self, cell: usize, step: usize) -> (r: Binary64) {
        self.depths_mm[step]
    }
}

/// Distributed rainfall: one depth per cell and step, step by step, row-major
/// within a step.
#[derive(Debug)]
pub struct GriddedRain {
    dims: GridDims,
    dt_hours: Binary64,
    n_steps: usize,
    depths_mm: Vec<Binary64>,
}

impl View for GriddedRain {
    type V = Seq<Binary64>;

    closed spec fn view(&self) -> Seq<Binary64> {
        self.depths_mm@
    }
}

impl GriddedRain {
    #[verifier::type_invariant]
    spec fn filled(self) -> bool {
        self.depths_mm@.len() == self.n_steps * self.dims.cells()
    }

    /// Builds a stack of steps. The number of depths must be a multiple of the
    /// number of cells, which must not be zero.
    pub fn new(dims: GridDims, dt_hours: Binary64, depths_mm: Vec<Binary64>) -> (r: Result<GriddedRain, Error>)
        requires
            dims.fits(),
        ensures
            match r {
                Ok(g) => {
                    &&& dt_hours.positive_finite()
                    &&& depths_accepted(depths_mm@)
                    &&& dims.cells() > 0
                    &&& g.grid() == dims
                    &&& g.hours() == dt_hours
                    &&& g@ == depths_mm@
                    &&& g.steps() * dims.cells() == depths_mm@.len()
                },
                Err(e) => if !dt_hours.positive_finite() {
                    e == bad_step_length(dt_hours)
                } else if !depths_accepted(depths_mm@) {
                    e == bad_depths()
                } else {
                    (dims.cells() == 0 || depths_mm@.len() % dims.cells() != 0) && e == (Error::InvalidParameter {
                        name: "depths_mm",
                        reason: Reason::Counts {
                            before: "",
                            first: depths_mm@.len() as usize,
                            between: " depths do not fill steps of ",
                            second: dims.cells() as usize,
                            after: " cells",
                        },
                    })
                },
            },
    {
        match check_series(dt_hours, depths_mm.as_slice()) {
            Ok(_) => {},
            Err(e) => {
                return Err(e);
            },
        }
        let n: usize = dims.len();
        if n == 0 || depths_mm.len() % n != 0 {
            return Err(
                Error::InvalidParameter {
                    name: "depths_mm",
                    reason: Reason::Counts {
                        before: "",
                        first: depths_mm.len(),
                        between: " depths do not fill steps of ",
                        second: n,
                        after: " cells",
                    },
                },
            );
        }
        let n_steps: usize = depths_mm.len() / n;
        proof {
            vstd::arithmetic::div_mod::lemma_fundamental_div_mod(depths_mm@.len() as int, n as int);
            assert(n * n_steps == n_steps * n) by (nonlinear_arith);
        }
        Ok(GriddedRain { dims, dt_hours, n_steps, depths_mm })
    }
}

impl Clone for GriddedRain {
    fn clone(&self) -> (r: GriddedRain)
        ensures
            r.grid() == self.grid(),
            r.hours() == self.hours(),
            r.steps() == self.steps(),
            r@ == self@,
    {
        proof {
            use_type_invariant(self);
        }
        GriddedRain {
            dims: self.dims,
            dt_hours: self.dt_hours,
            n_steps: self.n_steps,
            depths_mm: copy_values(self.depths_mm.as_slice()),
        }
    }
}

impl Forcing for GriddedRain {
    closed spec fn grid(&self) -> GridDims {
        self.dims
    }

    closed spec fn steps(&self) -> nat {
        self.n_steps as nat
    }

    closed spec fn hours(&self) -> Binary64 {
        self.dt_hours
    }

    open spec fn depth(&self, cell: int, step: int) -> Binary64 {
        self@[step * self.grid().cells() + cell]
    }

    fn dims(&self) -> (r: GridDims) {
        self.dims
    }

    fn n_steps(&self) -> (r: usize) {
        self.n_steps
    }

    fn dt_hours(&self) -> (r: Binary64) {
        self.dt_hours
    }

    fn depth_mm(&self, cell: usize, step: usize) -> (r: Binary64) {
        let total: usize = self.depths_mm.len();
        proof {
            use_type_invariant(self);
            assert(total == self.n_steps * self.dims.cells());
            let n = self.dims.cells() as int;
            assert(0 <= step * n && step * n + n <= self.n_steps * n) by (nonlinear_arith)
                requires
                    0 <= step < self.n_steps,
                    0 < n,
            ;
            assert(n <= self.n_steps * n) by (nonlinear_arith)
                requires
                    0 < self.n_steps,
                    0 < n,
            ;
        }
        let n: usize = self.dims.len();
        self.depths_mm[step * n + cell]
    }
}

} // verus!
