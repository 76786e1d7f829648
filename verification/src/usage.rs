//! What a request of the command line can be refused for.

use vstd::prelude::*;

use crate::arithmetic::Arithmetic;
use crate::error::Error;
use crate::grid::GridDims;
use crate::raster::Error as RasterError;
use crate::text::{append_decimal, decimal};

verus! {

/// Why a request is refused.
#[derive(Debug)]
#[allow(inconsistent_fields)]
pub enum Usage {
    /// Rainfall from a gauge and from rasters at once.
    BothRains,
    /// No rainfall.
    NoRain,
    /// A susceptibility raster and a uniform value at once.
    BothSusceptibilities,
    /// No susceptibility.
    NoSusceptibility,
    /// A number of columns that is not that of the susceptibility raster.
    Columns { given: usize, raster: usize },
    /// A number of rows that is not that of the susceptibility raster.
    Rows { given: usize, raster: usize },
    /// A susceptibility grid that is not the forcing grid.
    Grids { susceptibility: GridDims, forcing: GridDims },
    /// A stack of steps whose cells are not those of the grid.
    Cells { given: usize, grid: usize },
    /// Rasters are to be written, but nothing is georeferenced.
    NoGeoreference,
    /// A column of a file without a number.
    NoValues { column: usize, file: String },
    /// Dates and depths of a file that do not come in pairs.
    Undated { dated: usize, depths: usize, column: usize },
    /// A sweep that is not of the form `MIN:MAX:STEP`.
    SweepForm,
    /// A part of a sweep that is no number.
    SweepNumber { part: &'static str },
    /// A sweep that does not go upwards.
    SweepRange,
    /// An error of the nowcast.
    Core(Error),
    /// An error of reading or stacking rasters.
    Raster(RasterError),
}

/// A grid as it is written out.
pub open spec fn written_grid(dims: GridDims) -> Seq<char> {
    "GridDims { ncols: "@ + decimal(dims.ncols as nat) + ", nrows: "@ + decimal(dims.nrows as nat) + " }"@
}

fn append_grid(text: &mut String, dims: GridDims)
    ensures
        final(text)@ == old(text)@ + written_grid(dims),
{
    text.append("GridDims { ncols: ");
    append_decimal(text, dims.ncols);
    text.append(", nrows: ");
    append_decimal(text, dims.nrows);
    text.append(" }");
    assert(text@ =~= old(text)@ + written_grid(dims));
}

impl Usage {
    /// `text` is the message of the refusal.
    pub open spec fn says<A: Arithmetic>(self, text: Seq<char>) -> bool {
        match self {
            Usage::BothRains => text == "use either --rain-csv or --rain-rasters, not both"@,
            Usage::NoRain => text == "provide rainfall with --rain-csv or --rain-rasters"@,
            Usage::BothSusceptibilities => text == "use either --susc or --uniform-susc, not both"@,
            Usage::NoSusceptibility => text == "provide susceptibility with --susc or --uniform-susc"@,
            Usage::Columns { given, raster } => text == "--ncols "@ + decimal(given as nat)
                + " disagrees with the susceptibility raster ("@ + decimal(raster as nat) + " cols)"@,
            Usage::Rows { given, raster } => text == "--nrows "@ + decimal(given as nat)
                + " disagrees with the susceptibility raster ("@ + decimal(raster as nat) + " rows)"@,
            Usage::Grids { susceptibility, forcing } => text == "susceptibility grid "@ + written_grid(susceptibility)
                + " does not match forcing grid "@ + written_grid(forcing),
            Usage::Cells { given, grid } => text == "rain has "@ + decimal(given as nat)
                + " cells per step, grid has "@ + decimal(grid as nat),
            Usage::NoGeoreference => text == "--out-dir needs a georeferenced --susc to write GeoTIFFs"@,
            Usage::NoValues { column, file } => text == "no numeric values in column "@ + decimal(column as nat)
                + " of "@ + file@,
            Usage::Undated { dated, depths, column } => text == "rain CSV has "@ + decimal(dated as nat)
                + " dated rows but "@ + decimal(depths as nat)
                + " numeric depths; need a date column 0 (YYYY-MM-...) and depth column "@ + decimal(column as nat),
            Usage::SweepForm => text == "--sweep must be MIN:MAX:STEP (e.g. 2:16:0.5)"@,
            Usage::SweepNumber { part } => text == "sweep "@ + part@,
            Usage::SweepRange => text == "--sweep needs STEP > 0 and MAX ≥ MIN"@,
            Usage::Core(e) => e.says::<A>(text),
            Usage::Raster(e) => e.says::<A>(text),
        }
    }

    /// The message of the refusal.
    pub fn message<A: Arithmetic>(&self) -> (r: String)
        ensures
            self.says::<A>(r@),
    {
        let mut r: String = String::new();
        match self {
            Usage::BothRains => {
                r.append("use either --rain-csv or --rain-rasters, not both");
                assert(r@ == "use either --rain-csv or --rain-rasters, not both"@);
            },
            Usage::NoRain => {
                r.append("provide rainfall with --rain-csv or --rain-rasters");
                assert(r@ == "provide rainfall with --rain-csv or --rain-rasters"@);
            },
            Usage::BothSusceptibilities => {
                r.append("use either --susc or --uniform-susc, not both");
                assert(r@ == "use either --susc or --uniform-susc, not both"@);
            },
            Usage::NoSusceptibility => {
                r.append("provide susceptibility with --susc or --uniform-susc");
                assert(r@ == "provide susceptibility with --susc or --uniform-susc"@);
            },
            Usage::Columns { given, raster } => {
                r.append("--ncols ");
                append_decimal(&mut r, *given);
                r.append(" disagrees with the susceptibility raster (");
                append_decimal(&mut r, *raster);
                r.append(" cols)");
                assert(r@ == "--ncols "@ + decimal(*given as nat) + " disagrees with the susceptibility raster ("@
                    + decimal(*raster as nat) + " cols)"@);
            },
            Usage::Rows { given, raster } => {
                r.append("--nrows ");
                append_decimal(&mut r, *given);
                r.append(" disagrees with the susceptibility raster (");
                append_decimal(&mut r, *raster);
                r.append(" rows)");
                assert(r@ == "--nrows "@ + decimal(*given as nat) + " disagrees with the susceptibility raster ("@
                    + decimal(*raster as nat) + " rows)"@);
            },
            Usage::Grids { susceptibility, forcing } => {
                r.append("susceptibility grid ");
                append_grid(&mut r, *susceptibility);
                r.append(" does not match forcing grid ");
                append_grid(&mut r, *forcing);
                assert(r@ == "susceptibility grid "@ + written_grid(*susceptibility) + " does not match forcing grid "@
                    + written_grid(*forcing));
            },
            Usage::Cells { given, grid } => {
                r.append("rain has ");
                append_decimal(&mut r, *given);
                r.append(" cells per step, grid has ");
                append_decimal(&mut r, *grid);
                assert(r@ == "rain has "@ + decimal(*given as nat) + " cells per step, grid has "@ + decimal(
                    *grid as nat,
                ));
            },
            Usage::NoGeoreference => {
                r.append("--out-dir needs a georeferenced --susc to write GeoTIFFs");
                assert(r@ == "--out-dir needs a georeferenced --susc to write GeoTIFFs"@);
            },
            Usage::NoValues { column, file } => {
                r.append("no numeric values in column ");
                append_decimal(&mut r, *column);
                r.append(" of ");
                r.append(file.as_str());
                assert(r@ == "no numeric values in column "@ + decimal(*column as nat) + " of "@ + file@);
            },
            Usage::Undated { dated, depths, column } => {
                r.append("rain CSV has ");
                append_decimal(&mut r, *dated);
                r.append(" dated rows but ");
                append_decimal(&mut r, *depths);
                r.append(" numeric depths; need a date column 0 (YYYY-MM-...) and depth column ");
                append_decimal(&mut r, *column);
                assert(r@ == "rain CSV has "@ + decimal(*dated as nat) + " dated rows but "@ + decimal(*depths as nat)
                    + " numeric depths; need a date column 0 (YYYY-MM-...) and depth column "@ + decimal(
                    *column as nat,
                ));
            },
            Usage::SweepForm => {
                r.append("--sweep must be MIN:MAX:STEP (e.g. 2:16:0.5)");
                assert(r@ == "--sweep must be MIN:MAX:STEP (e.g. 2:16:0.5)"@);
            },
            Usage::SweepNumber { part } => {
                r.append("sweep ");
                r.append(part);
                assert(r@ == "sweep "@ + part@);
            },
            Usage::SweepRange => {
                r.append("--sweep needs STEP > 0 and MAX ≥ MIN");
                assert(r@ == "--sweep needs STEP > 0 and MAX ≥ MIN"@);
            },
            Usage::Core(e) => {
                return e.message::<A>();
            },
            Usage::Raster(e) => {
                return e.message::<A>();
            },
        }
        r
    }
}

} // verus!
