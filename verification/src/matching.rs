//! Space–time matching of alerts and events.
//!
//! A verification unit is a cell together with a period (a day or a month). An
//! event covers the units that lie within a Chebyshev radius of its cell and
//! within a tolerance of its period. Everything here is stated over sets of
//! units: what counts as a hit, a miss, a false alarm and a correct negative is
//! the size of a set.

use vstd::prelude::*;

use crate::contingency::Contingency;
use crate::grid::{lemma_cell_of_row_and_col, lemma_row_and_col_of_cell, GridDims};
use crate::keyset::{ascending, Key, KeySet, Period};

verus! {

/// The distance of two integers.
pub open spec fn distance(a: int, b: int) -> int {
    if a <= b {
        b - a
    } else {
        a - b
    }
}

/// Whether two cells of the grid lie within Chebyshev `radius` of each other.
pub open spec fn near_cells(dims: GridDims, a: int, b: int, radius: nat) -> bool {
    &&& 0 <= a < dims.cells()
    &&& 0 <= b < dims.cells()
    &&& distance(dims.row(a), dims.row(b)) <= radius
    &&& distance(dims.col(a), dims.col(b)) <= radius
}

/// Whether `other` lies within `tolerance` periods of `period`.
pub open spec fn reaches<T: Period>(period: T, other: T, tolerance: nat) -> bool {
    exists|d: int| -tolerance <= d <= tolerance && #[trigger] period.moved(d) == Some(other)
}

/// How far an event reaches in space and time.
pub struct Reach {
    /// The grid that the cells index into.
    pub dims: GridDims,
    /// Neighbourhood half-width (Chebyshev), in cells.
    pub radius: usize,
    /// Half-window, in periods.
    pub tolerance: u32,
}

impl Reach {
    /// Whether an event covers a unit.
    pub open spec fn covers<T: Period>(self, event: (usize, T), unit: (usize, T)) -> bool {
        &&& near_cells(self.dims, event.0 as int, unit.0 as int, self.radius as nat)
        &&& reaches(event.1, unit.1, self.tolerance as nat)
    }

    /// Whether an event covers one of the alerts.
    pub open spec fn warned<T: Period>(self, event: (usize, T), alerted: Set<(usize, T)>) -> bool {
        exists|unit: (usize, T)| #[trigger] alerted.contains(unit) && self.covers(event, unit)
    }

    /// Whether one of the events covers a unit.
    pub open spec fn covered<T: Period>(self, unit: (usize, T), events: Set<(usize, T)>) -> bool {
        exists|event: (usize, T)| #[trigger] events.contains(event) && self.covers(event, unit)
    }

    /// The events that fall on the grid and into the analysed periods.
    pub open spec fn observed<T: Period>(self, periods: Set<T>, events: Set<(usize, T)>) -> Set<(usize, T)> {
        events.filter(|e: (usize, T)| e.0 < self.dims.cells() && periods.contains(e.1))
    }

    /// Observed events that cover an alert.
    pub open spec fn hits<T: Period>(self, periods: Set<T>, alerted: Set<(usize, T)>, events: Set<(usize, T)>) -> Set<
        (usize, T),
    > {
        self.observed(periods, events).filter(|e: (usize, T)| self.warned(e, alerted))
    }

    /// Observed events that cover no alert.
    pub open spec fn misses<T: Period>(self, periods: Set<T>, alerted: Set<(usize, T)>, events: Set<(usize, T)>) -> Set<
        (usize, T),
    > {
        self.observed(periods, events).filter(|e: (usize, T)| !self.warned(e, alerted))
    }

    /// Alerts in the analysed periods that no observed event covers.
    pub open spec fn false_alarms<T: Period>(
        self,
        periods: Set<T>,
        alerted: Set<(usize, T)>,
        events: Set<(usize, T)>,
    ) -> Set<(usize, T)> {
        alerted.filter(
            |u: (usize, T)| periods.contains(u.1) && !self.covered(u, self.observed(periods, events)),
        )
    }

    /// All units of the grid in the analysed periods.
    pub open spec fn units<T: Period>(self, periods: Set<T>) -> Set<(usize, T)> {
        Set::new(|u: (usize, T)| u.0 < self.dims.cells() && periods.contains(u.1))
    }

    /// Units of the grid in the analysed periods without an alert that no
    /// observed event covers.
    pub open spec fn correct_negatives<T: Period>(
        self,
        periods: Set<T>,
        alerted: Set<(usize, T)>,
        events: Set<(usize, T)>,
    ) -> Set<(usize, T)> {
        self.units(periods).filter(
            |u: (usize, T)| !alerted.contains(u) && !self.covered(u, self.observed(periods, events)),
        )
    }

    /// A contingency table counts the four sets.
    pub open spec fn scores<T: Period>(
        self,
        periods: Set<T>,
        alerted: Set<(usize, T)>,
        events: Set<(usize, T)>,
        table: Contingency,
    ) -> bool {
        &&& table.hits == self.hits(periods, alerted, events).len()
        &&& table.misses == self.misses(periods, alerted, events).len()
        &&& table.false_alarms == self.false_alarms(periods, alerted, events).len()
        &&& table.correct_negatives == self.correct_negatives(periods, alerted, events).len()
    }
}

/// Row-major cells within Chebyshev `radius` of `center`, clipped to the grid,
/// in ascending order.
pub fn chebyshev_window(dims: GridDims, center: usize, radius: usize) -> (r: Vec<usize>)
    requires
        dims.fits(),
        center < dims.cells(),
    ensures
        forall|cell: usize| r@.contains(cell) <==> near_cells(dims, center as int, cell as int, radius as nat),
        forall|i: int, j: int| 0 <= i < j < r@.len() ==> r@[i] < r@[j],
{
    proof {
        lemma_row_and_col_of_cell(dims, center as int);
    }
    let row: usize = center / dims.ncols;
    let col: usize = center % dims.ncols;
    let first_row: usize = if radius <= row {
        row - radius
    } else {
        0
    };
    let last_row: usize = if radius <= dims.nrows - 1 - row {
        row + radius
    } else {
        dims.nrows - 1
    };
    let first_col: usize = if radius <= col {
        col - radius
    } else {
        0
    };
    let last_col: usize = if radius <= dims.ncols - 1 - col {
        col + radius
    } else {
        dims.ncols - 1
    };
    let mut r: Vec<usize> = Vec::new();
    let mut y: usize = first_row;
    while y <= last_row
        invariant
            dims.fits(),
            center < dims.cells(),
            dims.row(center as int) == row,
            dims.col(center as int) == col,
            first_row <= y <= last_row + 1,
            last_row < dims.nrows,
            first_col <= col <= last_col < dims.ncols,
            first_row == (if radius <= row { row - radius } else { 0 }),
            last_row == (if radius <= dims.nrows - 1 - row { row + radius } else { dims.nrows - 1 }),
            first_col == (if radius <= col { col - radius } else { 0 }),
            last_col == (if radius <= dims.ncols - 1 - col { col + radius } else { dims.ncols - 1 }),
            forall|i: int, j: int| 0 <= i < j < r@.len() ==> r@[i] < r@[j],
            forall|i: int| 0 <= i < r@.len() ==> near_cells(dims, center as int, #[trigger] r@[i] as int, radius as nat)
                && dims.row(r@[i] as int) < y,
            forall|cell: usize|
                near_cells(dims, center as int, cell as int, radius as nat) && dims.row(cell as int) < y
                    ==> #[trigger] r@.contains(cell),
        decreases last_row + 1 - y,
    {
        let mut x: usize = first_col;
        while x <= last_col
            invariant
                dims.fits(),
                center < dims.cells(),
                dims.row(center as int) == row,
                dims.col(center as int) == col,
                first_row <= y <= last_row,
                last_row < dims.nrows,
                first_col <= x <= last_col + 1,
                first_col <= col <= last_col < dims.ncols,
                first_row == (if radius <= row { row - radius } else { 0 }),
                last_row == (if radius <= dims.nrows - 1 - row { row + radius } else { dims.nrows - 1 }),
                first_col == (if radius <= col { col - radius } else { 0 }),
                last_col == (if radius <= dims.ncols - 1 - col { col + radius } else { dims.ncols - 1 }),
                forall|i: int, j: int| 0 <= i < j < r@.len() ==> r@[i] < r@[j],
                forall|i: int|
                    0 <= i < r@.len() ==> near_cells(dims, center as int, #[trigger] r@[i] as int, radius as nat) && (
                    dims.row(r@[i] as int) < y || (dims.row(r@[i] as int) == y && dims.col(r@[i] as int) < x)),
                forall|cell: usize|
                    near_cells(dims, center as int, cell as int, radius as nat) && (dims.row(cell as int) < y || (
                    dims.row(cell as int) == y && dims.col(cell as int) < x)) ==> #[trigger] r@.contains(cell),
            decreases last_col + 1 - x,
        {
            proof {
                lemma_cell_of_row_and_col(dims, x as int, y as int);
                assert(y * dims.ncols >= 0) by (nonlinear_arith);
            }
            let cell: usize = y * dims.ncols + x;
            let ghost before = r@;
            r.push(cell);
            proof {
                assert(near_cells(dims, center as int, cell as int, radius as nat));
                assert forall|i: int, j: int| 0 <= i < j < r@.len() implies r@[i] < r@[j] by {
                    if j == before.len() {
                        lemma_row_and_col_of_cell(dims, r@[i] as int);
                        lemma_index_order(dims, r@[i] as int, cell as int);
                    }
                }
                assert forall|c: usize|
                    near_cells(dims, center as int, c as int, radius as nat) && (dims.row(c as int) < y || (dims.row(
                        c as int,
                    ) == y && dims.col(c as int) < x + 1)) implies #[trigger] r@.contains(c) by {
                    lemma_row_and_col_of_cell(dims, c as int);
                    if dims.row(c as int) == y && dims.col(c as int) == x {
                        assert(c == cell);
                        assert(r@[before.len() as int] == cell);
                    } else {
                        assert(before.contains(c));
                        let i = choose|i: int| 0 <= i < before.len() && before[i] == c;
                        assert(r@[i] == c);
                    }
                }
            }
            x = x + 1;
        }
        proof {
            assert forall|c: usize|
                near_cells(dims, center as int, c as int, radius as nat) && dims.row(c as int) < y + 1 implies #[trigger]
            r@.contains(c) by {
                lemma_row_and_col_of_cell(dims, c as int);
            }
        }
        y = y + 1;
    }
    proof {
        assert forall|c: usize| near_cells(dims, center as int, c as int, radius as nat) implies #[trigger] r@.contains(
            c,
        ) by {
            lemma_row_and_col_of_cell(dims, c as int);
        }
    }
    r
}

/// A cell of an earlier row, or of an earlier column of the same row, has a
/// smaller index.
proof fn lemma_index_order(dims: GridDims, a: int, b: int)
    requires
        0 <= a < dims.cells(),
        0 <= b < dims.cells(),
        dims.row(a) < dims.row(b) || (dims.row(a) == dims.row(b) && dims.col(a) < dims.col(b)),
    ensures
        a < b,
{
    lemma_row_and_col_of_cell(dims, a);
    lemma_row_and_col_of_cell(dims, b);
    let n = dims.ncols as int;
    let (ra, rb) = (dims.row(a), dims.row(b));
    assert(ra < rb ==> ra * n + n <= rb * n) by (nonlinear_arith)
        requires
            n > 0,
    ;
}

/// Whether a cell of a window of cells and a period within the tolerance make up
/// an alert.
fn probe<T: Period + Copy>(cells: &Vec<usize>, period: T, tolerance: u32, alerted: &KeySet<(usize, T)>) -> (r: bool)
    requires
        alerted.wf(),
    ensures
        r <==> exists|unit: (usize, T)| #[trigger]
            alerted@.contains(unit) && cells@.contains(unit.0) && reaches(period, unit.1, tolerance as nat),
{
    let mut i: usize = 0;
    while i < cells.len()
        invariant
            i <= cells@.len(),
            alerted.wf(),
            forall|k: int, unit: (usize, T)|
                0 <= k < i && #[trigger] cells@[k] == unit.0 && #[trigger] alerted@.contains(unit) ==> !reaches(
                    period,
                    unit.1,
                    tolerance as nat,
                ),
        decreases cells@.len() - i,
    {
        let mut d: i64 = -(tolerance as i64);
        while d <= tolerance as i64
            invariant
                i < cells@.len(),
                alerted.wf(),
                -tolerance <= d <= tolerance + 1,
                forall|e: int, other: T|
                    -tolerance <= e < d && #[trigger] period.moved(e) == Some(other) ==> !#[trigger] alerted@.contains(
                        (cells@[i as int], other),
                    ),
            decreases tolerance + 1 - d,
        {
            if let Some(other) = period.shifted(d) {
                if alerted.contains((cells[i], other)) {
                    proof {
                        assert(period.moved(d as int) == Some(other));
                        assert(cells@.contains(cells@[i as int]));
                    }
                    return true;
                }
            }
            d = d + 1;
        }
        i = i + 1;
    }
    false
}

impl Reach {
    /// Whether an event covers one of the alerts.
    pub fn is_warned<T: Period + Copy>(&self, event: (usize, T), alerted: &KeySet<(usize, T)>) -> (r: bool)
        requires
            self.dims.fits(),
            event.0 < self.dims.cells(),
            alerted.wf(),
        ensures
            r == self.warned(event, alerted@),
    {
        let cells: Vec<usize> = chebyshev_window(self.dims, event.0, self.radius);
        probe(&cells, event.1, self.tolerance, alerted)
    }

    /// Adds the units that an event covers to a list.
    fn list_covered<T: Period + Copy>(&self, event: (usize, T), units: &mut Vec<(usize, T)>)
        requires
            self.dims.fits(),
            event.0 < self.dims.cells(),
        ensures
            forall|u: (usize, T)| #[trigger]
                final(units)@.contains(u) <==> old(units)@.contains(u) || self.covers(event, u),
    {
        let cells: Vec<usize> = chebyshev_window(self.dims, event.0, self.radius);
        let ghost start = units@;
        let mut i: usize = 0;
        while i < cells.len()
            invariant
                i <= cells@.len(),
                forall|u: (usize, T)| #[trigger]
                    units@.contains(u) <==> start.contains(u) || (cells@.take(i as int).contains(u.0) && reaches(
                        event.1,
                        u.1,
                        self.tolerance as nat,
                    )),
            decreases cells@.len() - i,
        {
            let ghost before = units@;
            let mut d: i64 = -(self.tolerance as i64);
            while d <= self.tolerance as i64
                invariant
                    i < cells@.len(),
                    -self.tolerance <= d <= self.tolerance + 1,
                    forall|u: (usize, T)| #[trigger]
                        units@.contains(u) <==> before.contains(u) || (u.0 == cells@[i as int] && exists|e: int|
                            -self.tolerance <= e < d && #[trigger] event.1.moved(e) == Some(u.1)),
                decreases self.tolerance + 1 - d,
            {
                let ghost last = units@;
                if let Some(other) = event.1.shifted(d) {
                    units.push((cells[i], other));
                    proof {
                        let added = (cells@[i as int], other);
                        assert forall|u: (usize, T)| #[trigger] units@.contains(u) implies before.contains(u) || (u.0
                            == cells@[i as int] && exists|e: int|
                            -self.tolerance <= e < d + 1 && #[trigger] event.1.moved(e) == Some(u.1)) by {
                            let k = choose|k: int| 0 <= k < units@.len() && units@[k] == u;
                            if k < last.len() {
                                assert(last[k] == u);
                                assert(last.contains(u));
                            } else {
                                assert(event.1.moved(d as int) == Some(u.1));
                            }
                        }
                        assert forall|u: (usize, T)|
                            before.contains(u) || (u.0 == cells@[i as int] && exists|e: int|
                                -self.tolerance <= e < d + 1 && #[trigger] event.1.moved(e) == Some(
                                    u.1,
                                )) implies #[trigger] units@.contains(u) by {
                            if last.contains(u) {
                                let k = choose|k: int| 0 <= k < last.len() && last[k] == u;
                                assert(units@[k] == u);
                            } else {
                                assert(units@[last.len() as int] == added);
                                assert(u == added);
                            }
                        }
                    }
                }
                d = d + 1;
            }
            proof {
                assert(cells@.take(i + 1) == cells@.take(i as int).push(cells@[i as int]));
                assert forall|u: (usize, T)| #[trigger]
                    units@.contains(u) <==> start.contains(u) || (cells@.take(i + 1).contains(u.0) && reaches(
                        event.1,
                        u.1,
                        self.tolerance as nat,
                    )) by {
                    let was = cells@.take(i as int);
                    assert(was.push(cells@[i as int]).contains(u.0) <==> was.contains(u.0) || u.0 == cells@[i as int])
                        by {
                        vstd::seq_lib::lemma_seq_contains_after_push(was, cells@[i as int], u.0);
                    }
                }
            }
            i = i + 1;
        }
        assert(cells@.take(cells@.len() as int) == cells@);
    }

    /// The units that the events cover.
    pub fn footprint<T: Period + Copy>(&self, events: &KeySet<(usize, T)>) -> (r: KeySet<(usize, T)>)
        requires
            self.dims.fits(),
            events.wf(),
            forall|e: (usize, T)| #[trigger] events@.contains(e) ==> e.0 < self.dims.cells(),
        ensures
            r.wf(),
            forall|u: (usize, T)| #[trigger] r@.contains(u) <==> self.covered(u, events@),
    {
        let listed: &[(usize, T)] = events.as_slice();
        let mut units: Vec<(usize, T)> = Vec::new();
        let mut i: usize = 0;
        proof {
            events.lemma_listed();
            assert forall|k: int| 0 <= k < listed@.len() implies (#[trigger] listed@[k]).0 < self.dims.cells() by {
                assert(events@.contains(listed@[k]));
            }
        }
        while i < listed.len()
            invariant
                self.dims.fits(),
                i <= listed@.len(),
                forall|k: int| 0 <= k < listed@.len() ==> (#[trigger] listed@[k]).0 < self.dims.cells(),
                forall|u: (usize, T)| #[trigger]
                    units@.contains(u) <==> exists|k: int| 0 <= k < i && self.covers(#[trigger] listed@[k], u),
            decreases listed@.len() - i,
        {
            let ghost before = units@;
            self.list_covered(listed[i], &mut units);
            proof {
                assert forall|u: (usize, T)| #[trigger] units@.contains(u) implies exists|k: int|
                    0 <= k < i + 1 && self.covers(#[trigger] listed@[k], u) by {
                    if before.contains(u) {
                        let k = choose|k: int| 0 <= k < i && self.covers(#[trigger] listed@[k], u);
                        assert(self.covers(listed@[k], u));
                    } else {
                        assert(self.covers(listed@[i as int], u));
                    }
                }
                assert forall|u: (usize, T)|
                    (exists|k: int| 0 <= k < i + 1 && self.covers(#[trigger] listed@[k], u)) implies #[trigger]
                units@.contains(u) by {
                    let k = choose|k: int| 0 <= k < i + 1 && self.covers(#[trigger] listed@[k], u);
                    if k < i {
                        assert(before.contains(u));
                    }
                }
            }
            i = i + 1;
        }
        let r: KeySet<(usize, T)> = KeySet::from_keys(units.as_slice());
        proof {
            assert forall|u: (usize, T)| #[trigger] r@.contains(u) <==> self.covered(u, events@) by {
                if units@.contains(u) {
                    let k = choose|k: int| 0 <= k < listed@.len() && self.covers(#[trigger] listed@[k], u);
                    assert(events@.contains(listed@[k]));
                }
                if self.covered(u, events@) {
                    let e = choose|e: (usize, T)| #[trigger] events@.contains(e) && self.covers(e, u);
                    let k = choose|k: int| 0 <= k < listed@.len() && listed@[k] == e;
                    assert(self.covers(listed@[k], u));
                }
            }
        }
        r
    }

    /// The distinct events that fall on the grid and into the analysed periods.
    pub fn select_observed<T: Period + Copy>(&self, periods: &KeySet<T>, events: &[(usize, T)]) -> (r: KeySet<
        (usize, T),
    >)
        requires
            self.dims.fits(),
            periods.wf(),
        ensures
            r.wf(),
            r@ == self.observed(periods@, events@.to_set()),
    {
        let n: usize = self.dims.len();
        let mut kept: Vec<(usize, T)> = Vec::new();
        let mut i: usize = 0;
        while i < events.len()
            invariant
                i <= events@.len(),
                n == self.dims.cells(),
                periods.wf(),
                forall|e: (usize, T)| #[trigger]
                    kept@.contains(e) <==> events@.take(i as int).contains(e) && e.0 < n && periods@.contains(e.1),
            decreases events@.len() - i,
        {
            let ghost before = kept@;
            let event: (usize, T) = events[i];
            if event.0 < n && periods.contains(event.1) {
                kept.push(event);
            }
            proof {
                assert(events@.take(i + 1) == events@.take(i as int).push(event));
                assert forall|e: (usize, T)| #[trigger]
                    kept@.contains(e) <==> events@.take(i + 1).contains(e) && e.0 < n && periods@.contains(e.1) by {
                    vstd::seq_lib::lemma_seq_contains_after_push(events@.take(i as int), event, e);
                    vstd::seq_lib::lemma_seq_contains_after_push(before, event, e);
                }
            }
            i = i + 1;
        }
        let r: KeySet<(usize, T)> = KeySet::from_keys(kept.as_slice());
        assert(events@.take(events@.len() as int) == events@);
        assert(r@ == self.observed(periods@, events@.to_set()));
        r
    }
}

/// One more listed unit changes a count of listed units by one where it
/// satisfies the predicate, and not otherwise.
pub proof fn lemma_count_next<K>(s: Seq<K>, i: int, p: spec_fn(K) -> bool)
    requires
        s.no_duplicates(),
        0 <= i < s.len(),
    ensures
        s.take(i).to_set().filter(p).finite(),
        s.take(i + 1).to_set().filter(p).len() == s.take(i).to_set().filter(p).len() + if p(s[i]) {
            1nat
        } else {
            0nat
        },
        s.take(i).to_set().filter(p).len() <= i,
{
    let (a, b) = (s.take(i).to_set(), s.take(i + 1).to_set());
    vstd::seq_lib::seq_to_set_is_finite(s.take(i));
    s.take(i).lemma_cardinality_of_set();
    a.lemma_len_filter(p);
    assert(s.take(i + 1) == s.take(i).push(s[i]));
    s.take(i).lemma_push_to_set_commute(s[i]);
    assert(!a.contains(s[i])) by {
        if s.take(i).contains(s[i]) {
            let k = choose|k: int| 0 <= k < i && s.take(i)[k] == s[i];
            assert(s[k] == s[i]);
        }
    }
    if p(s[i]) {
        assert(b.filter(p) == a.filter(p).insert(s[i]));
    } else {
        assert(b.filter(p) == a.filter(p));
    }
}

/// Nothing listed, nothing counted; all listed, the whole set counted.
pub proof fn lemma_count_ends<K: Key + Copy>(set: KeySet<K>, p: spec_fn(K) -> bool)
    requires
        set.wf(),
    ensures
        set.listed().take(0).to_set().filter(p).len() == 0,
        set.listed().take(set.listed().len() as int).to_set().filter(p) == set@.filter(p),
        set.listed().no_duplicates(),
        set@.filter(p).finite(),
        set@.filter(p).len() <= set@.len(),
{
    set.lemma_listed();
    let s = set.listed();
    assert(s.take(s.len() as int) == s);
    assert(s.take(0).to_set().filter(p) == Set::<K>::empty());
    set@.lemma_len_filter(p);
}

/// The number of units of a grid is the number of cells times the number of periods.
pub proof fn lemma_units_len<T: Period>(reach: Reach, periods: Set<T>)
    requires
        periods.finite(),
        reach.dims.fits(),
    ensures
        reach.units(periods).finite(),
        reach.units(periods).len() == periods.len() * reach.dims.cells(),
    decreases periods.len(),
{
    let n = reach.dims.cells();
    if periods.len() == 0 {
        assert(reach.units(periods) == Set::<(usize, T)>::empty());
        assert(0 * n == 0);
    } else {
        let t = periods.choose();
        let rest = periods.remove(t);
        lemma_units_len(reach, rest);
        let cells = vstd::set_lib::set_int_range(0, n as int);
        vstd::set_lib::lemma_int_range(0, n as int);
        let column = Set::new(|u: (usize, T)| u.0 < n && u.1 == t);
        let f = |c: int| (c as usize, t);
        assert(cells.map(f) == column) by {
            assert forall|u: (usize, T)| column.contains(u) implies cells.map(f).contains(u) by {
                assert(cells.contains(u.0 as int) && f(u.0 as int) == u);
            }
        }
        assert forall|a: int, b: int| cells.contains(a) && cells.contains(b) && #[trigger] f(a) == #[trigger] f(
            b,
        ) implies a == b by {
            assert(f(a).0 == f(b).0);
        }
        vstd::set_lib::lemma_map_size(cells, column, f);
        cells.lemma_map_finite(f);
        assert(reach.units(periods) == reach.units(rest) + column);
        vstd::set_lib::lemma_set_disjoint_lens(reach.units(rest), column);
        assert((rest.len() + 1) * n == rest.len() * n + n) by (nonlinear_arith);
    }
}

/// The units of the grid in the analysed periods fall apart into those that an
/// observed event covers, the uncovered ones with an alert and the uncovered
/// ones without.
pub proof fn lemma_units_partition<T: Period>(
    reach: Reach,
    periods: Set<T>,
    alerted: Set<(usize, T)>,
    events: Set<(usize, T)>,
)
    requires
        periods.finite(),
        reach.dims.fits(),
    ensures
        ({
            let observed = reach.observed(periods, events);
            let covered = reach.units(periods).filter(|u: (usize, T)| reach.covered(u, observed));
            let alarms = reach.units(periods).filter(|u: (usize, T)| alerted.contains(u) && !reach.covered(u, observed));
            &&& covered.len() + alarms.len() + reach.correct_negatives(periods, alerted, events).len() == periods.len()
                * reach.dims.cells()
            &&& covered.finite()
            &&& alarms.finite()
            &&& reach.correct_negatives(periods, alerted, events).finite()
        }),
{
    let units = reach.units(periods);
    let observed = reach.observed(periods, events);
    let fc = |u: (usize, T)| reach.covered(u, observed);
    let fa = |u: (usize, T)| alerted.contains(u) && !reach.covered(u, observed);
    let fq = |u: (usize, T)| !alerted.contains(u) && !reach.covered(u, observed);
    lemma_units_len(reach, periods);
    units.lemma_len_filter(fc);
    units.lemma_len_filter(fa);
    units.lemma_len_filter(fq);
    let (covered, alarms, quiet) = (units.filter(fc), units.filter(fa), units.filter(fq));
    assert(units == covered + (alarms + quiet));
    vstd::set_lib::lemma_set_disjoint_lens(alarms, quiet);
    vstd::set_lib::lemma_set_disjoint_lens(covered, alarms + quiet);
}

impl Reach {
    /// Scores alerts against events over the units of the grid in the analysed
    /// periods.
    ///
    /// Hits probe the window of each event; false alarms are one pass over the
    /// alerts; correct negatives come from the sizes of the sets, without a walk
    /// over all units.
    pub fn contingency<T: Period + Copy>(
        &self,
        periods: &[T],
        alerted: &KeySet<(usize, T)>,
        events: &[(usize, T)],
    ) -> (r: Contingency)
        requires
            self.dims.fits(),
            alerted.wf(),
            periods@.to_set().len() * self.dims.cells() <= u64::MAX,
        ensures
            self.scores(periods@.to_set(), alerted@, events@.to_set(), r),
            self.hits(periods@.to_set(), alerted@, events@.to_set()).finite(),
            self.misses(periods@.to_set(), alerted@, events@.to_set()).finite(),
            self.false_alarms(periods@.to_set(), alerted@, events@.to_set()).finite(),
            self.correct_negatives(periods@.to_set(), alerted@, events@.to_set()).finite(),
    {
        let set: KeySet<T> = KeySet::from_keys(periods);
        let n: usize = self.dims.len();
        let observed: KeySet<(usize, T)> = self.select_observed(&set, events);
        let footprint: KeySet<(usize, T)> = self.footprint(&observed);
        let ghost ps = periods@.to_set();
        let ghost seen = self.observed(ps, events@.to_set());
        let ghost hit = |e: (usize, T)| self.warned(e, alerted@);
        let ghost miss = |e: (usize, T)| !self.warned(e, alerted@);
        let ghost alarm = |u: (usize, T)| ps.contains(u.1) && !self.covered(u, seen);
        let ghost inside = |u: (usize, T)| ps.contains(u.1) && !self.covered(u, seen) && u.0 < n;
        let ghost kept = |u: (usize, T)| ps.contains(u.1);
        let mut hits: u64 = 0;
        let mut misses: u64 = 0;
        let listed: &[(usize, T)] = observed.as_slice();
        proof {
            set.lemma_listed();
            lemma_count_ends(observed, hit);
            lemma_count_ends(observed, miss);
        }
        let mut i: usize = 0;
        while i < listed.len()
            invariant
                i <= listed@.len(),
                self.dims.fits(),
                alerted.wf(),
                listed@.no_duplicates(),
                listed@ == observed.listed(),
                observed.wf(),
                observed@ == seen,
                seen == self.observed(ps, events@.to_set()),
                hit == (|e: (usize, T)| self.warned(e, alerted@)),
                miss == (|e: (usize, T)| !self.warned(e, alerted@)),
                hits == listed@.take(i as int).to_set().filter(hit).len(),
                misses == listed@.take(i as int).to_set().filter(miss).len(),
                hits <= i,
                misses <= i,
            decreases listed@.len() - i,
        {
            proof {
                observed.lemma_listed();
                assert(observed@.contains(listed@[i as int]));
                lemma_count_next(listed@, i as int, hit);
                lemma_count_next(listed@, i as int, miss);
            }
            if self.is_warned(listed[i], alerted) {
                hits = hits + 1;
            } else {
                misses = misses + 1;
            }
            i = i + 1;
        }
        let alerts: &[(usize, T)] = alerted.as_slice();
        let mut false_alarms: u64 = 0;
        let mut on_grid: u64 = 0;
        proof {
            lemma_count_ends(*alerted, alarm);
            lemma_count_ends(*alerted, inside);
        }
        i = 0;
        while i < alerts.len()
            invariant
                i <= alerts@.len(),
                alerts@.no_duplicates(),
                set.wf(),
                set@ == ps,
                footprint.wf(),
                forall|u: (usize, T)| #[trigger] footprint@.contains(u) <==> self.covered(u, seen),
                alarm == (|u: (usize, T)| ps.contains(u.1) && !self.covered(u, seen)),
                inside == (|u: (usize, T)| ps.contains(u.1) && !self.covered(u, seen) && u.0 < n),
                false_alarms == alerts@.take(i as int).to_set().filter(alarm).len(),
                on_grid == alerts@.take(i as int).to_set().filter(inside).len(),
                false_alarms <= i,
                on_grid <= i,
            decreases alerts@.len() - i,
        {
            proof {
                lemma_count_next(alerts@, i as int, alarm);
                lemma_count_next(alerts@, i as int, inside);
            }
            let unit: (usize, T) = alerts[i];
            if set.contains(unit.1) && !footprint.contains(unit) {
                false_alarms = false_alarms + 1;
                if unit.0 < n {
                    on_grid = on_grid + 1;
                }
            }
            i = i + 1;
        }
        let marked: &[(usize, T)] = footprint.as_slice();
        let mut in_period: u64 = 0;
        proof {
            lemma_count_ends(footprint, kept);
        }
        i = 0;
        while i < marked.len()
            invariant
                i <= marked@.len(),
                marked@.no_duplicates(),
                set.wf(),
                set@ == ps,
                kept == (|u: (usize, T)| ps.contains(u.1)),
                in_period == marked@.take(i as int).to_set().filter(kept).len(),
                in_period <= i,
            decreases marked@.len() - i,
        {
            proof {
                lemma_count_next(marked@, i as int, kept);
            }
            if set.contains(marked[i].1) {
                in_period = in_period + 1;
            }
            i = i + 1;
        }
        proof {
            lemma_units_partition(*self, ps, alerted@, events@.to_set());
            let units = self.units(ps);
            assert(units.filter(|u: (usize, T)| self.covered(u, seen)) == footprint@.filter(kept));
            assert(units.filter(|u: (usize, T)| alerted@.contains(u) && !self.covered(u, seen)) == alerted@.filter(
                inside,
            ));
        }
        let total: u64 = set.len() as u64 * n as u64;
        Contingency { hits, misses, false_alarms, correct_negatives: total - in_period - on_grid }
    }
}

} // verus!
