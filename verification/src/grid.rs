//! Raster grids and the static susceptibility map.
//!
//! A grid is a flat, row-major list of cells plus its dimensions.

use vstd::prelude::*;

use crate::binary64::Binary64;
use crate::error::Error;

verus! {

/// Dimensions of a row-major raster grid.
#[derive(Debug, Clone, Copy, PartialEq, Eq, Structural)]
pub struct GridDims {
    pub ncols: usize,
    pub nrows: usize,
}

impl GridDims {
    /// Number of cells.
    pub open spec fn cells(self) -> nat {
        self.ncols as nat * self.nrows as nat
    }

    /// Whether the number of cells is representable.
    pub open spec fn fits(self) -> bool {
        self.cells() <= usize::MAX
    }

    /// Row of a cell.
    pub open spec fn row(self, cell: int) -> int {
        cell / self.ncols as int
    }

    /// Column of a cell.
    pub open spec fn col(self, cell: int) -> int {
        cell % self.ncols as int
    }

    pub fn new(ncols: usize, nrows: usize) -> (r: GridDims)
        ensures
            r == (GridDims { ncols, nrows }),
    {
        GridDims { ncols, nrows }
    }

    /// Number of cells in the grid.
    pub fn len(&self) -> (r: usize)
        requires
            self.fits(),
        ensures
            r == self.cells(),
    {
        self.ncols * self.nrows
    }

    /// Whether the grid has no cell.
    pub fn is_empty(&self) -> (r: bool)
        requires
            self.fits(),
        ensures
            r == (self.cells() == 0),
    {
        self.len() == 0
    }

    /// Flat row-major index for a `(col, row)` pair.
    pub fn index(&self, col: usize, row: usize) -> (r: usize)
        requires
            row * self.ncols + col <= usize::MAX,
        ensures
            r == row * self.ncols + col,
            col < self.ncols && row < self.nrows ==> r < self.cells() && self.row(r as int) == row && self.col(
                r as int,
            ) == col,
    {
        proof {
            if col < self.ncols && row < self.nrows {
                lemma_cell_of_row_and_col(*self, col as int, row as int);
            }
            assert(row * self.ncols >= 0) by (nonlinear_arith);
        }
        row * self.ncols + col
    }
}

/// The flat index of a row and a column of the grid is a cell of that row and
/// that column.
pub proof fn lemma_cell_of_row_and_col(dims: GridDims, col: int, row: int)
    requires
        0 <= col < dims.ncols,
        0 <= row < dims.nrows,
    ensures
        0 <= row * dims.ncols + col < dims.cells(),
        dims.row(row * dims.ncols + col) == row,
        dims.col(row * dims.ncols + col) == col,
{
    let n = dims.ncols as int;
    assert(0 <= row * n + col < n * dims.nrows) by (nonlinear_arith)
        requires
            0 <= col < n,
            0 <= row < dims.nrows,
    ;
    vstd::arithmetic::div_mod::lemma_fundamental_div_mod_converse(row * n + col, n, row, col);
}

/// Row and column determine a cell: every cell of the grid is the flat index of
/// its own row and column, which lie within the grid.
pub proof fn lemma_row_and_col_of_cell(dims: GridDims, cell: int)
    requires
        0 <= cell < dims.cells(),
    ensures
        0 <= dims.col(cell) < dims.ncols,
        0 <= dims.row(cell) < dims.nrows,
        dims.row(cell) * dims.ncols + dims.col(cell) == cell,
{
    let n = dims.ncols as int;
    assert(n > 0) by (nonlinear_arith)
        requires
            0 <= cell < n * dims.nrows,
            n >= 0,
    ;
    vstd::arithmetic::div_mod::lemma_fundamental_div_mod(cell, n);
    vstd::arithmetic::div_mod::lemma_mod_bound(cell, n);
    assert(0 <= cell / n < dims.nrows && (cell / n) * n == n * (cell / n)) by (nonlinear_arith)
        requires
            0 <= cell < n * dims.nrows,
            n > 0,
            cell == n * (cell / n) + cell % n,
            0 <= cell % n < n,
    ;
}

/// The susceptibility of the first cell that is outside `[0, 1]`, if there is one.
pub open spec fn first_outside_unit(values: Seq<Binary64>, cell: int) -> bool {
    &&& 0 <= cell < values.len()
    &&& !values[cell].unit()
    &&& forall|i: int| 0 <= i < cell ==> (#[trigger] values[i]).unit()
}

/// Finds the first value outside `[0, 1]`.
pub fn find_outside_unit(values: &[Binary64]) -> (r: Option<usize>)
    ensures
        match r {
            Some(i) => first_outside_unit(values@, i as int),
            None => forall|i: int| 0 <= i < values@.len() ==> (#[trigger] values@[i]).unit(),
        },
{
    let mut i: usize = 0;
    while i < values.len()
        invariant
            i <= values@.len(),
            forall|j: int| 0 <= j < i ==> (#[trigger] values@[j]).unit(),
        decreases values@.len() - i,
    {
        if !values[i].in_unit_interval() {
            return Some(i);
        }
        i = i + 1;
    }
    None
}

/// Static landslide or flood susceptibility map: one value per cell in `[0, 1]`.
///
/// This is the background field produced upstream. The nowcast modulates it in
/// time with a dynamic trigger; it never changes the susceptibility itself.
#[derive(Debug)]
pub struct SusceptibilityMap {
    dims: GridDims,
    values: Vec<Binary64>,
}

impl View for SusceptibilityMap {
    type V = Seq<Binary64>;

    closed spec fn view(&self) -> Seq<Binary64> {
        self.values@
    }
}

impl SusceptibilityMap {
    /// The grid of the map.
    pub closed spec fn grid(&self) -> GridDims {
        self.dims
    }

    /// One value per cell, each within `[0, 1]`.
    pub open spec fn wf(&self) -> bool {
        &&& self@.len() == self.grid().cells()
        &&& self.grid().fits()
        &&& forall|i: int| 0 <= i < self@.len() ==> (#[trigger] self@[i]).unit()
    }

    /// Builds a map from a row-major vector of susceptibility values.
    ///
    /// Fails if `values.len()` does not match `dims`, or if any value lies
    /// outside `[0, 1]`.
    pub fn new(dims: GridDims, values: Vec<Binary64>) -> (r: Result<SusceptibilityMap, Error>)
        requires
            dims.fits(),
        ensures
            match r {
                Ok(m) => m.wf() && m.grid() == dims && m@ == values@,
                Err(Error::GridSizeMismatch { expected, got, ncols, nrows }) => values@.len() != dims.cells()
                    && expected == dims.cells() && got == values@.len() && ncols == dims.ncols && nrows
                    == dims.nrows,
                Err(Error::SusceptibilityOutOfRange { cell, value }) => values@.len() == dims.cells()
                    && first_outside_unit(values@, cell as int) && value == values@[cell as int],
                Err(_) => false,
            },
            r is Ok <==> values@.len() == dims.cells() && forall|i: int|
                0 <= i < values@.len() ==> (#[trigger] values@[i]).unit(),
    {
        if values.len() != dims.len() {
            return Err(
                Error::GridSizeMismatch {
                    expected: dims.len(),
                    got: values.len(),
                    ncols: dims.ncols,
                    nrows: dims.nrows,
                },
            );
        }
        match find_outside_unit(values.as_slice()) {
            Some(cell) => Err(Error::SusceptibilityOutOfRange { cell, value: values[cell] }),
            None => Ok(SusceptibilityMap { dims, values }),
        }
    }

    /// Builds a spatially uniform map.
    pub fn uniform(dims: GridDims, value: Binary64) -> (r: Result<SusceptibilityMap, Error>)
        requires
            dims.fits(),
        ensures
            match r {
                Ok(m) => m.wf() && m.grid() == dims && forall|i: int|
                    0 <= i < dims.cells() ==> #[trigger] m@[i] == value,
                Err(e) => e == (Error::SusceptibilityOutOfRange { cell: 0, value }),
            },
            r is Ok <==> dims.cells() == 0 || value.unit(),
    {
        let n: usize = dims.len();
        let mut values: Vec<Binary64> = Vec::new();
        let mut i: usize = 0;
        while i < n
            invariant
                i <= n,
                values@.len() == i,
                forall|j: int| 0 <= j < i ==> #[trigger] values@[j] == value,
            decreases n - i,
        {
            values.push(value);
            i = i + 1;
        }
        let r = SusceptibilityMap::new(dims, values);
        proof {
            if dims.cells() > 0 {
                assert(values@[0] == value);
            }
        }
        r
    }

    /// The grid of the map.
    pub fn dims(&self) -> (r: GridDims)
        ensures
            r == self.grid(),
    {
        self.dims
    }

    /// The values of all cells, row-major.
    pub fn values(&self) -> (r: &[Binary64])
        ensures
            r@ == self@,
    {
        self.values.as_slice()
    }

    /// Susceptibility at a flat cell index.
    pub fn get(&self, cell: usize) -> (r: Binary64)
        requires
            cell < self@.len(),
        ensures
            r == self@[cell as int],
    {
        self.values[cell]
    }
}

impl Clone for SusceptibilityMap {
    fn clone(&self) -> (r: SusceptibilityMap)
        ensures
            r@ == self@,
            r.grid() == self.grid(),
    {
        SusceptibilityMap { dims: self.dims, values: copy_values(self.values.as_slice()) }
    }
}

/// A copy of a list of values.
pub fn copy_values(values: &[Binary64]) -> (r: Vec<Binary64>)
    ensures
        r@ == values@,
{
    let mut r: Vec<Binary64> = Vec::new();
    let mut i: usize = 0;
    while i < values.len()
        invariant
            i <= values@.len(),
            r@ == values@.take(i as int),
        decreases values@.len() - i,
    {
        r.push(values[i]);
        i = i + 1;
        assert(values@.take(i as int) == values@.take(i - 1).push(values@[i - 1]));
    }
    assert(values@.take(values@.len() as int) == values@);
    r
}

} // verus!
