//! Hazard-probability fields and the alerts that they raise.

use vstd::prelude::*;
use vstd::set_lib::set_int_range;

use crate::arithmetic::{ratio, ratio_of, Arithmetic};
use crate::binary64::{zero, Binary64};
use crate::error::{Error, Reason};
use crate::grid::{copy_values, find_outside_unit, first_outside_unit, GridDims};
use crate::matching::lemma_count_next;

verus! {

/// Hazard-probability field for one time step (row-major, one value per cell).
#[derive(Debug)]
pub struct HazardField {
    pub step: usize,
    dims: GridDims,
    probability: Vec<Binary64>,
}

/// A step whose hazard field reached or exceeded the alert level somewhere.
#[derive(Debug, Clone, Copy, PartialEq, Eq, Structural)]
pub struct Alert {
    pub step: usize,
    /// Number of cells at or above the alert level.
    pub n_cells: usize,
    /// Fraction of the grid at or above the alert level, in `[0, 1]`.
    pub fraction: Binary64,
    /// Peak hazard probability at this step.
    pub max_probability: Binary64,
}

impl View for HazardField {
    type V = Seq<Binary64>;

    closed spec fn view(&self) -> Seq<Binary64> {
        self.probability@
    }
}

/// The largest of some values and zero; NaNs do not count.
pub open spec fn peak(values: Seq<Binary64>) -> Binary64
    decreases values.len(),
{
    if values.len() == 0 {
        zero()
    } else {
        peak(values.drop_last()).larger(values.last())
    }
}

/// The largest of some values and zero.
pub fn peak_of(values: &[Binary64]) -> (r: Binary64)
    ensures
        r == peak(values@),
{
    let mut r: Binary64 = zero();
    let mut i: usize = 0;
    assert(values@.take(0) == Seq::<Binary64>::empty());
    while i < values.len()
        invariant
            i <= values@.len(),
            r == peak(values@.take(i as int)),
        decreases values@.len() - i,
    {
        r = r.max(values[i]);
        assert(values@.take(i + 1).drop_last() == values@.take(i as int));
        i = i + 1;
    }
    assert(values@.take(values@.len() as int) == values@);
    r
}

/// A peak is not below any value nor below zero, and it is zero or one of the
/// values.
pub proof fn lemma_peak(values: Seq<Binary64>)
    ensures
        zero().at_most(peak(values)),
        peak(values) == zero() || values.contains(peak(values)),
        forall|i: int| 0 <= i < values.len() ==> !peak(values).less(#[trigger] values[i]),
    decreases values.len(),
{
    if values.len() > 0 {
        let rest = values.drop_last();
        lemma_peak(rest);
        assert forall|i: int| 0 <= i < values.len() implies !peak(values).less(#[trigger] values[i]) by {
            if i < rest.len() {
                assert(values[i] == rest[i]);
            }
        }
        if rest.contains(peak(rest)) {
            let i = choose|i: int| 0 <= i < rest.len() && rest[i] == peak(rest);
            assert(values[i] == peak(rest));
        }
        assert(values[values.len() - 1] == values.last());
    }
}

/// The cells at or above a level.
pub open spec fn reached(values: Seq<Binary64>, level: Binary64) -> Set<int> {
    set_int_range(0, values.len() as int).filter(|c: int| level.at_most(values[c]))
}

/// How many values are at or above a level.
pub fn count_reached(values: &[Binary64], level: Binary64) -> (r: usize)
    ensures
        r == reached(values@, level).len(),
        reached(values@, level).finite(),
        r <= values@.len(),
{
    let ghost s = Seq::new(values@.len(), |k: int| k);
    let ghost p = |c: int| level.at_most(values@[c]);
    let mut n: usize = 0;
    let mut i: usize = 0;
    assert(s.no_duplicates());
    assert(s.take(0).to_set().filter(p) == Set::<int>::empty());
    while i < values.len()
        invariant
            i <= values@.len(),
            s == Seq::new(values@.len(), |k: int| k),
            s.no_duplicates(),
            p == (|c: int| level.at_most(values@[c])),
            n == s.take(i as int).to_set().filter(p).len(),
            n <= i,
        decreases values@.len() - i,
    {
        proof {
            lemma_count_next(s, i as int, p);
        }
        if level.not_above(values[i]) {
            n = n + 1;
        }
        i = i + 1;
    }
    proof {
        let range = set_int_range(0, values@.len() as int);
        assert(s.take(s.len() as int) == s);
        assert forall|k: int| range.contains(k) implies s.to_set().contains(k) by {
            assert(s[k] == k);
        }
        assert(s.to_set() == range);
        vstd::set_lib::lemma_int_range(0, values@.len() as int);
        range.lemma_len_filter(p);
        assert(reached(values@, level) == s.to_set().filter(p));
    }
    n
}

/// The error for an alert level that is no probability.
pub open spec fn bad_alert_level(level: Binary64) -> Error {
    Error::InvalidParameter {
        name: "alert_level",
        reason: Reason::Value { before: "must be a probability in [0, 1], got ", value: level, after: "" },
    }
}

/// Alert levels are compared against hazard probabilities in `[0, 1]`; anything
/// else is refused up front.
pub fn validate_alert_level(level: Binary64) -> (r: Result<(), Error>)
    ensures
        match r {
            Ok(_) => level.unit(),
            Err(e) => !level.unit() && e == bad_alert_level(level),
        },
{
    if !level.in_unit_interval() {
        return Err(
            Error::InvalidParameter {
                name: "alert_level",
                reason: Reason::Value { before: "must be a probability in [0, 1], got ", value: level, after: "" },
            },
        );
    }
    Ok(())
}

/// `alert` is the alert of a field of probabilities: present exactly where a cell
/// reaches the level.
pub open spec fn alerts_at<A: Arithmetic>(
    step: usize,
    dims: GridDims,
    values: Seq<Binary64>,
    level: Binary64,
    alert: Option<Alert>,
) -> bool {
    let n = reached(values, level).len();
    match alert {
        Some(a) => {
            &&& n > 0
            &&& a.step == step
            &&& a.n_cells == n
            &&& ratio_of::<A>(n as int, dims.cells() as int, a.fraction)
            &&& a.max_probability == peak(values)
        },
        None => n == 0,
    }
}

/// The error for a list of values that does not fill a grid.
pub open spec fn wrong_length(dims: GridDims, got: nat) -> Error {
    Error::GridSizeMismatch {
        expected: dims.cells() as usize,
        got: got as usize,
        ncols: dims.ncols,
        nrows: dims.nrows,
    }
}

/// The error for a hazard that is no probability.
pub open spec fn bad_hazard(cell: int, value: Binary64) -> Error {
    Error::InvalidParameter {
        name: "probability",
        reason: Reason::Cell {
            before: "hazard at cell ",
            cell: cell as usize,
            between: " is ",
            value,
            after: ", expected within [0, 1]",
        },
    }
}

impl HazardField {
    /// The grid of the field.
    pub closed spec fn grid(&self) -> GridDims {
        self.dims
    }

    /// The step of the field.
    pub closed spec fn at_step(&self) -> usize {
        self.step
    }

    /// One value per cell.
    pub open spec fn wf(&self) -> bool {
        self@.len() == self.grid().cells() && self.grid().fits()
    }

    /// Builds a hazard field from a row-major probability vector.
    ///
    /// Fails if the length does not match `dims` or any value lies outside
    /// `[0, 1]`.
    pub fn new(step: usize, dims: GridDims, probability: Vec<Binary64>) -> (r: Result<HazardField, Error>)
        requires
            dims.fits(),
        ensures
            match r {
                Ok(f) => {
                    &&& f.wf()
                    &&& f.at_step() == step
                    &&& f.grid() == dims
                    &&& f@ == probability@
                    &&& forall|i: int| 0 <= i < probability@.len() ==> (#[trigger] probability@[i]).unit()
                },
                Err(e) => if probability@.len() != dims.cells() {
                    e == wrong_length(dims, probability@.len())
                } else {
                    exists|cell: int| #[trigger]
                        first_outside_unit(probability@, cell) && e == bad_hazard(cell, probability@[cell])
                },
            },
            r is Ok ==> probability@.len() == dims.cells(),
    {
        if probability.len() != dims.len() {
            return Err(
                Error::GridSizeMismatch {
                    expected: dims.len(),
                    got: probability.len(),
                    ncols: dims.ncols,
                    nrows: dims.nrows,
                },
            );
        }
        match find_outside_unit(probability.as_slice()) {
            Some(cell) => {
                assert(first_outside_unit(probability@, cell as int));
                Err(
                    Error::InvalidParameter {
                        name: "probability",
                        reason: Reason::Cell {
                            before: "hazard at cell ",
                            cell,
                            between: " is ",
                            value: probability[cell],
                            after: ", expected within [0, 1]",
                        },
                    },
                )
            },
            None => Ok(HazardField { step, dims, probability }),
        }
    }

    /// A field of values that an engine has computed, one per cell.
    pub(crate) fn of_values(step: usize, dims: GridDims, probability: Vec<Binary64>) -> (r: HazardField)
        requires
            dims.fits(),
            probability@.len() == dims.cells(),
        ensures
            r.wf(),
            r.at_step() == step,
            r.grid() == dims,
            r@ == probability@,
    {
        HazardField { step, dims, probability }
    }

    /// Builds a field that carries `probability` on the `true` cells of a
    /// row-major mask and zero elsewhere: the combiner that brings a coarse alert
    /// onto a physical footprint.
    ///
    /// Fails if the mask length does not match `dims` or `probability` lies
    /// outside `[0, 1]`.
    pub fn masked(step: usize, dims: GridDims, mask: &[bool], probability: Binary64) -> (r: Result<HazardField, Error>)
        requires
            dims.fits(),
        ensures
            match r {
                Ok(f) => {
                    &&& mask@.len() == dims.cells()
                    &&& probability.unit()
                    &&& f.wf()
                    &&& f.at_step() == step
                    &&& f.grid() == dims
                    &&& forall|c: int|
                        0 <= c < mask@.len() ==> #[trigger] f@[c] == if mask@[c] {
                            probability
                        } else {
                            zero()
                        }
                },
                Err(e) => if mask@.len() != dims.cells() {
                    e == wrong_length(dims, mask@.len())
                } else {
                    !probability.unit() && e == (Error::InvalidParameter {
                        name: "probability",
                        reason: Reason::Value {
                            before: "mask probability is ",
                            value: probability,
                            after: ", expected within [0, 1]",
                        },
                    })
                },
            },
    {
        if mask.len() != dims.len() {
            return Err(
                Error::GridSizeMismatch {
                    expected: dims.len(),
                    got: mask.len(),
                    ncols: dims.ncols,
                    nrows: dims.nrows,
                },
            );
        }
        if !probability.in_unit_interval() {
            return Err(
                Error::InvalidParameter {
                    name: "probability",
                    reason: Reason::Value {
                        before: "mask probability is ",
                        value: probability,
                        after: ", expected within [0, 1]",
                    },
                },
            );
        }
        let mut values: Vec<Binary64> = Vec::new();
        let mut i: usize = 0;
        while i < mask.len()
            invariant
                i <= mask@.len(),
                values@.len() == i,
                forall|c: int|
                    0 <= c < i ==> #[trigger] values@[c] == if mask@[c] {
                        probability
                    } else {
                        zero()
                    },
            decreases mask@.len() - i,
        {
            values.push(
                if mask[i] {
                    probability
                } else {
                    zero()
                },
            );
            i = i + 1;
        }
        Ok(HazardField { step, dims, probability: values })
    }

    /// The grid of the field.
    pub fn dims(&self) -> (r: GridDims)
        ensures
            r == self.grid(),
    {
        self.dims
    }

    /// The step of the field.
    pub fn step_index(&self) -> (r: usize)
        ensures
            r == self.at_step(),
    {
        self.step
    }

    /// The probabilities of all cells, row-major.
    pub fn probability(&self) -> (r: &[Binary64])
        ensures
            r@ == self@,
    {
        self.probability.as_slice()
    }

    /// Largest hazard probability anywhere on the field at this step.
    pub fn max_probability(&self) -> (r: Binary64)
        ensures
            r == peak(self@),
    {
        peak_of(self.probability.as_slice())
    }

    /// An [`Alert`] for this step if any cell reaches `level`, else `None`; the
    /// level may be any value.
    pub fn raised<A: Arithmetic>(&self, level: Binary64) -> (r: Option<Alert>)
        requires
            self.wf(),
        ensures
            alerts_at::<A>(self.at_step(), self.grid(), self@, level, r),
    {
        let n_cells: usize = count_reached(self.probability.as_slice(), level);
        if n_cells > 0 {
            Some(
                Alert {
                    step: self.step,
                    n_cells,
                    fraction: ratio::<A>(n_cells as u64, self.dims.len() as u64),
                    max_probability: self.max_probability(),
                },
            )
        } else {
            None
        }
    }

    /// An [`Alert`] for this step if any cell reaches `level`, else `None`.
    /// Fails if `level` is not a probability in `[0, 1]`.
    pub fn alert<A: Arithmetic>(&self, level: Binary64) -> (r: Result<Option<Alert>, Error>)
        requires
            self.wf(),
        ensures
            match r {
                Ok(alert) => level.unit() && alerts_at::<A>(self.at_step(), self.grid(), self@, level, alert),
                Err(e) => !level.unit() && e == bad_alert_level(level),
            },
    {
        match validate_alert_level(level) {
            Ok(_) => Ok(self.raised::<A>(level)),
            Err(e) => Err(e),
        }
    }
}

impl Clone for HazardField {
    fn clone(&self) -> (r: HazardField)
        ensures
            r.at_step() == self.at_step(),
            r.grid() == self.grid(),
            r@ == self@,
    {
        HazardField {
            step: self.step,
            dims: self.dims,
            probability: copy_values(self.probability.as_slice()),
        }
    }
}

/// A field alerts exactly where its peak reaches the level, on levels above zero.
pub proof fn lemma_alert_iff_peak_reaches(values: Seq<Binary64>, level: Binary64)
    requires
        zero().less(level),
    ensures
        reached(values, level).len() > 0 <==> level.at_most(peak(values)),
{
    lemma_peak(values);
    let range = set_int_range(0, values.len() as int);
    let p = |c: int| level.at_most(values[c]);
    vstd::set_lib::lemma_int_range(0, values.len() as int);
    range.lemma_len_filter(p);
    if reached(values, level).len() > 0 {
        let c = reached(values, level).choose();
        assert(reached(values, level).contains(c));
        assert(!peak(values).less(values[c]));
    }
    if level.at_most(peak(values)) {
        let c = choose|c: int| 0 <= c < values.len() && values[c] == peak(values);
        assert(reached(values, level).contains(c));
        if reached(values, level).len() == 0 {
            assert(reached(values, level) == Set::<int>::empty());
        }
    }
}

/// Raising the level never adds a cell: the cells that reach a higher level reach
/// a lower one too.
pub proof fn lemma_higher_level_alerts_less(values: Seq<Binary64>, low: Binary64, high: Binary64)
    requires
        low.at_most(high),
    ensures
        reached(values, high).subset_of(reached(values, low)),
{
}

} // verus!
