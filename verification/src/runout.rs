//! Debris-flow runout: the footprint of a simulated flow.
//!
//! The nowcast flags when and where an intensity–duration threshold is crossed; an
//! agent-based debris-flow model then simulates which slopes the flow reaches and
//! where it stops. A [`Runout`] is that footprint on the nowcast grid; it brings
//! the coarse probability down onto the cells that the flow reached.
//!
//! A `swarm_abm` grid is indexed by column `x` and row `y`; the nowcast grid has
//! the flat index `y * ncols + x`. The two line up cell for cell.

use swarm_abm::prelude::{Grid2D, Pos};
use vstd::arithmetic::power2::{lemma2_to64, lemma2_to64_rest, pow2};
use vstd::prelude::*;
use vstd::set_lib::set_int_range;

use crate::accuracy::{grain, lemma_scales, rounds_closely, rounds_to, speck, ulp};
use crate::arithmetic::{counts, divides, multiplies, Arithmetic};
use crate::binary64::{absolute, lemma_number_of_pattern, zero, Binary64};
use crate::error::{Error, Reason};
use crate::fire::count_set;
use crate::grid::{lemma_cell_of_row_and_col, lemma_row_and_col_of_cell, GridDims};
use crate::hazard::HazardField;
use crate::series::{lemma_bound_of_product, lemma_close_product};

verus! {

/// `swarm_abm::grid::Grid2D`, a dense grid with private fields.
#[verifier::external_type_specification]
#[verifier::external_body]
#[verifier::reject_recursive_types(T)]
pub struct ExGrid2D<T>(swarm_abm::prelude::Grid2D<T>);

/// What a grid of marks holds, row by row.
pub uninterp spec fn grid_marks(grid: Grid2D<bool>) -> Seq<Seq<bool>>;

/// The number of columns of a grid of marks.
pub uninterp spec fn grid_columns(grid: Grid2D<bool>) -> nat;

/// `Grid2D::width`: the number of columns.
#[verifier::external_body]
fn grid_width(grid: &Grid2D<bool>) -> (r: usize)
    ensures
        r == grid_columns(*grid),
{
    grid.width()
}

/// `Grid2D::height`: the number of rows.
#[verifier::external_body]
fn grid_height(grid: &Grid2D<bool>) -> (r: usize)
    ensures
        r == grid_marks(*grid).len(),
{
    grid.height()
}

/// `Grid2D::index` on a position within the grid: the mark of its row and column.
#[verifier::external_body]
fn grid_mark(grid: &Grid2D<bool>, x: usize, y: usize) -> (r: bool)
    requires
        x < grid_columns(*grid),
        y < grid_marks(*grid).len(),
    ensures
        r == grid_marks(*grid)[y as int][x as int],
{
    grid[Pos { x, y }]
}

/// The simulated debris-flow runout: which cells the flow reached.
#[derive(Debug)]
pub struct Runout {
    dims: GridDims,
    footprint: Vec<bool>,
    pixel_size: Binary64,
}

/// One million, the number of square metres in a square kilometre.
#[verifier::allow_in_spec]
pub fn million() -> Binary64
    returns
        (Binary64 { bits: 0x412E_8480_0000_0000 }),
{
    Binary64 { bits: 0x412E_8480_0000_0000 }
}

/// The error for a pixel size that is not finite and above zero.
pub open spec fn bad_pixel_size(pixel_size: Binary64) -> Error {
    Error::InvalidParameter {
        name: "pixel_size",
        reason: Reason::Value { before: "must be finite and > 0 metres, got ", value: pixel_size, after: "" },
    }
}

/// A pixel size must be a finite number of metres above zero; any other one would
/// corrupt every area statistic.
pub fn validate_pixel_size(pixel_size: Binary64) -> (r: Result<(), Error>)
    ensures
        match r {
            Ok(_) => pixel_size.positive_finite(),
            Err(e) => !pixel_size.positive_finite() && e == bad_pixel_size(pixel_size),
        },
{
    if !pixel_size.is_positive_finite() {
        return Err(
            Error::InvalidParameter {
                name: "pixel_size",
                reason: Reason::Value {
                    before: "must be finite and > 0 metres, got ",
                    value: pixel_size,
                    after: "",
                },
            },
        );
    }
    Ok(())
}

/// The set cells of a footprint.
pub open spec fn affected(footprint: Seq<bool>) -> Set<int> {
    set_int_range(0, footprint.len() as int).filter(|c: int| footprint[c])
}

/// `r` is the area (km²) of a number of square pixels.
pub open spec fn area_of<A: Arithmetic>(cells: int, pixel_size: Binary64, r: Binary64) -> bool {
    exists|n: Binary64, strip: Binary64, square: Binary64|
        {
            &&& #[trigger] counts::<A>(cells, n)
            &&& #[trigger] multiplies::<A>(n, pixel_size, strip)
            &&& #[trigger] multiplies::<A>(strip, pixel_size, square)
            &&& divides::<A>(square, million(), r)
        }
}

impl Runout {
    /// The grid of the footprint.
    pub closed spec fn grid(&self) -> GridDims {
        self.dims
    }

    /// The cells that the flow reached, row-major.
    pub closed spec fn mask(&self) -> Seq<bool> {
        self.footprint@
    }

    /// The side of a cell in metres.
    pub closed spec fn pixel(&self) -> Binary64 {
        self.pixel_size
    }

    /// One mark per cell, and a proper pixel size.
    pub open spec fn wf(&self) -> bool {
        &&& self.grid().fits()
        &&& self.mask().len() == self.grid().cells()
        &&& self.pixel().positive_finite()
    }

    /// Flattens the footprint of a model, row-major. Fails on a pixel size that is
    /// not finite and above zero.
    pub fn from_footprint(footprint: &Grid2D<bool>, pixel_size: Binary64) -> (r: Result<Runout, Error>)
        ensures
            match r {
                Ok(f) => {
                    &&& pixel_size.positive_finite()
                    &&& f.wf()
                    &&& f.pixel() == pixel_size
                    &&& f.grid().ncols == grid_columns(*footprint)
                    &&& f.grid().nrows == grid_marks(*footprint).len()
                    &&& forall|c: int|
                        0 <= c < f.mask().len() ==> #[trigger] f.mask()[c] == grid_marks(*footprint)[f.grid().row(
                            c,
                        )][f.grid().col(c)]
                },
                Err(e) => !pixel_size.positive_finite() && e == bad_pixel_size(pixel_size),
            },
    {
        match validate_pixel_size(pixel_size) {
            Ok(_) => {},
            Err(e) => {
                return Err(e);
            },
        }
        let w: usize = grid_width(footprint);
        let h: usize = grid_height(footprint);
        let dims: GridDims = GridDims::new(w, h);
        let ghost marks = grid_marks(*footprint);
        let mut flat: Vec<bool> = Vec::new();
        let mut y: usize = 0;
        while y < h
            invariant
                y <= h,
                w == grid_columns(*footprint),
                h == marks.len(),
                marks == grid_marks(*footprint),
                dims == (GridDims { ncols: w, nrows: h }),
                flat@.len() == y * w,
                forall|c: int| 0 <= c < flat@.len() ==> #[trigger] flat@[c] == marks[dims.row(c)][dims.col(c)],
            decreases h - y,
        {
            let mut x: usize = 0;
            while x < w
                invariant
                    x <= w,
                    y < h,
                    w == grid_columns(*footprint),
                    h == marks.len(),
                    marks == grid_marks(*footprint),
                    dims == (GridDims { ncols: w, nrows: h }),
                    flat@.len() == y * w + x,
                    forall|c: int| 0 <= c < flat@.len() ==> #[trigger] flat@[c] == marks[dims.row(c)][dims.col(c)],
                decreases w - x,
            {
                flat.push(grid_mark(footprint, x, y));
                proof {
                    lemma_cell_of_row_and_col(dims, x as int, y as int);
                }
                x = x + 1;
            }
            proof {
                assert((y + 1) * w == y * w + w) by (nonlinear_arith);
            }
            y = y + 1;
        }
        proof {
            assert(h * w == w * h) by (nonlinear_arith);
        }
        let total: usize = flat.len();
        assert(total == dims.cells());
        Ok(Runout { dims, footprint: flat, pixel_size })
    }

    /// Grid of the footprint.
    pub fn dims(&self) -> (r: GridDims)
        ensures
            r == self.grid(),
    {
        self.dims
    }

    /// Row-major mask: set where the flow reached.
    pub fn footprint(&self) -> (r: &[bool])
        ensures
            r@ == self.mask(),
    {
        self.footprint.as_slice()
    }

    /// Number of cells that the flow reached.
    pub fn affected_cells(&self) -> (r: usize)
        ensures
            r == affected(self.mask()).len(),
    {
        count_set(self.footprint.as_slice())
    }

    /// Area that the flow reached, in km².
    pub fn affected_km2<A: Arithmetic>(&self) -> (r: Binary64)
        ensures
            area_of::<A>(affected(self.mask()).len() as int, self.pixel(), r),
    {
        let cells: usize = self.affected_cells();
        let n: Binary64 = A::of_count(cells as u64);
        let strip: Binary64 = A::times(n, self.pixel_size);
        let square: Binary64 = A::times(strip, self.pixel_size);
        assert(counts::<A>(cells as int, n));
        assert(multiplies::<A>(n, self.pixel(), strip));
        assert(multiplies::<A>(strip, self.pixel(), square));
        A::over(square, million())
    }

    /// Brings a coarse probability down onto the footprint: the probability where
    /// the flow reached, zero elsewhere. Fails if the probability lies outside
    /// `[0, 1]`.
    pub fn refined_hazard(&self, step: usize, nowcast_prob: Binary64) -> (r: Result<HazardField, Error>)
        requires
            self.wf(),
        ensures
            match r {
                Ok(f) => {
                    &&& nowcast_prob.unit()
                    &&& f.wf()
                    &&& f.at_step() == step
                    &&& f.grid() == self.grid()
                    &&& forall|c: int|
                        0 <= c < self.mask().len() ==> #[trigger] f@[c] == if self.mask()[c] {
                            nowcast_prob
                        } else {
                            zero()
                        }
                },
                Err(e) => !nowcast_prob.unit() && e == (Error::InvalidParameter {
                    name: "probability",
                    reason: Reason::Value {
                        before: "mask probability is ",
                        value: nowcast_prob,
                        after: ", expected within [0, 1]",
                    },
                }),
            },
    {
        HazardField::masked(step, self.dims, self.footprint.as_slice(), nowcast_prob)
    }
}

impl Clone for Runout {
    fn clone(&self) -> (r: Runout)
        ensures
            r.grid() == self.grid(),
            r.mask() == self.mask(),
            r.pixel() == self.pixel(),
    {
        let mut footprint: Vec<bool> = Vec::new();
        let mut i: usize = 0;
        while i < self.footprint.len()
            invariant
                i <= self.footprint@.len(),
                footprint@ == self.footprint@.take(i as int),
            decreases self.footprint@.len() - i,
        {
            footprint.push(self.footprint[i]);
            assert(self.footprint@.take(i + 1) == self.footprint@.take(i as int).push(self.footprint@[i as int]));
            i = i + 1;
        }
        assert(self.footprint@.take(self.footprint@.len() as int) == self.footprint@);
        Runout { dims: self.dims, footprint, pixel_size: self.pixel_size }
    }
}

/// Row and column of a grid of marks line up with the flat index: the mark of a
/// row and a column is found at its flat index in the footprint.
pub proof fn lemma_footprint_lines_up(dims: GridDims, marks: Seq<Seq<bool>>, mask: Seq<bool>, x: int, y: int)
    requires
        mask.len() == dims.cells(),
        forall|c: int| 0 <= c < mask.len() ==> #[trigger] mask[c] == marks[dims.row(c)][dims.col(c)],
        0 <= x < dims.ncols,
        0 <= y < dims.nrows,
    ensures
        0 <= y * dims.ncols + x < mask.len(),
        mask[y * dims.ncols + x] == marks[y][x],
{
    lemma_cell_of_row_and_col(dims, x, y);
    lemma_row_and_col_of_cell(dims, y * dims.ncols + x);
}

/// A square kilometre has a million square metres.
pub proof fn lemma_million()
    ensures
        million().finite(),
        million().number() == 1000000real,
{
    lemma_number_of_pattern(million(), 0x412, 0x001E_8480_0000_0000);
    lemma2_to64();
    lemma2_to64_rest();
    assert(pow2(33) as real == 8589934592real);
    assert(million().number() * 8589934592real == 8589934592000000real);
}

/// The area that a flow reached is that of its cells: their number times the
/// square of the pixel size, over a million, within rounding. Without a cell it is
/// next to nothing.
pub proof fn lemma_area_is_of_reached_cells<A: Arithmetic>(runout: &Runout, r: Binary64)
    requires
        rounds_closely::<A>(),
        runout.wf(),
        runout.mask().len() <= 0x100_0000_0000,
        speck() <= runout.pixel().number() <= 0x1_0000_0000real,
        call_ensures(Runout::affected_km2::<A>, (runout,), r),
    ensures
        r.finite(),
        affected(runout.mask()).len() > 0 ==> ({
            let exact = (affected(runout.mask()).len() as real) * runout.pixel().number() * runout.pixel().number();
            absolute(1000000real * r.number() - exact) <= ulp(9real * exact)
        }),
        affected(runout.mask()).len() == 0 ==> absolute(r.number()) <= grain(),
{
    vstd::set_lib::lemma_int_range(0, runout.mask().len() as int);
    vstd::set_lib::lemma_len_subset(affected(runout.mask()), set_int_range(0, runout.mask().len() as int));
    let cells = affected(runout.mask()).len() as int;
    let px = runout.pixel();
    let (n, strip, square) = choose|n: Binary64, strip: Binary64, square: Binary64|
        {
            &&& #[trigger] counts::<A>(cells, n)
            &&& #[trigger] multiplies::<A>(n, px, strip)
            &&& #[trigger] multiplies::<A>(strip, px, square)
            &&& divides::<A>(square, million(), r)
        };
    lemma_scales();
    lemma_million();
    let (k, s) = (cells as real, px.number());
    let size = 0x1_0000_0000real;
    lemma_bound_of_product(k, s, size);
    assert(rounds_to(k * s, strip));
    lemma_bound_of_product(strip.number(), s, size);
    assert(rounds_to(strip.number() * s, square));
    let (a, e) = (k * s, k * s * s);
    assert(rounds_to(square.number() / 1000000real, r));
    if cells > 0 {
        assert(a >= speck() && e >= speck() * speck()) by {
            assert(a >= s) by (nonlinear_arith)
                requires
                    a == k * s,
                    k >= 1real,
                    s >= 0real,
            ;
            let g = speck();
            assert(e >= g * g) by (nonlinear_arith)
                requires
                    e == a * s,
                    a >= g,
                    s >= g,
                    g >= 0real,
            ;
        }
        assert(speck() * speck() == 1real / 0x1_0000_0000_0000_0000real) by (nonlinear_arith)
            requires
                speck() == 1real / 0x1_0000_0000real,
        ;
        assert(grain() <= 1real / 0x1_0000_0000_0000_0000_0000_0000real) by {
            let (g, p) = (grain(), pow2(500) as real);
            assert(g <= 1real / 0x1_0000_0000_0000_0000_0000_0000real) by (nonlinear_arith)
                requires
                    g * p == 1real,
                    g > 0real,
                    p >= 0x1_0000_0000_0000_0000_0000_0000real,
            ;
        }
        let w = 2real / 0x10_0000_0000_0000real;
        lemma_close_product(k, k, 0real, s, s, 0real, strip);
        assert((2real * 0real + 0real + w) * a == w * a);
        lemma_close_product(a, strip.number(), w, s, s, 0real, square);
        assert((2real * w + 0real + w) * e == ulp(6real * e)) by (nonlinear_arith)
            requires
                w == 2real / 0x10_0000_0000_0000real,
        ;
        assert(absolute(square.number() - e) <= ulp(6real * e));
    }
}

} // verus!
