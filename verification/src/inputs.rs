//! Resolving what a request names into a susceptibility map and a forcing.
//!
//! A gauge has no grid of its own: where the susceptibility comes from a raster,
//! the raster fixes the grid, and explicit dimensions must agree with it; a
//! uniform susceptibility takes the explicit dimensions, one cell by default. A
//! stack of rain rasters always defines the grid itself.

use vstd::prelude::*;

use crate::arithmetic::Arithmetic;
use crate::binary64::Binary64;
use crate::columns::{column_of, csv_column};
use crate::error::{Error, Reason};
use crate::forcing::{bad_depths, bad_step_length, depths_accepted, Forcing, GriddedRain, UniformRain};
use crate::grid::{GridDims, SusceptibilityMap};
use crate::kernel::Kernel;
use crate::nowcast::{grids_differ, no_window, Nowcast};
use crate::threshold::IdThreshold;
use crate::trigger::TriggerModel;
use crate::usage::Usage;

verus! {

/// Where rainfall comes from.
#[derive(Debug, Clone, Copy, PartialEq, Eq, Structural)]
pub enum RainSource {
    /// A single gauge, broadcast over the grid.
    Gauge,
    /// A stack of rasters, one per step.
    Rasters,
}

/// Where susceptibility comes from.
#[derive(Debug, Clone, Copy, PartialEq, Eq, Structural)]
pub enum SusceptibilitySource {
    /// A raster.
    Raster,
    /// One value for all cells.
    Uniform(Binary64),
}

/// Takes the rainfall source of a request: a gauge or rasters, exactly one of
/// them.
pub fn rain_source(gauge: bool, rasters: bool) -> (r: Result<RainSource, Usage>)
    ensures
        r == (match (gauge, rasters) {
            (true, true) => Err::<RainSource, Usage>(Usage::BothRains),
            (true, false) => Ok(RainSource::Gauge),
            (false, true) => Ok(RainSource::Rasters),
            (false, false) => Err(Usage::NoRain),
        }),
{
    if gauge && rasters {
        Err(Usage::BothRains)
    } else if gauge {
        Ok(RainSource::Gauge)
    } else if rasters {
        Ok(RainSource::Rasters)
    } else {
        Err(Usage::NoRain)
    }
}

/// The susceptibility source that a request names.
pub open spec fn susceptibility_named(raster: bool, uniform: Option<Binary64>) -> Result<SusceptibilitySource, Usage> {
    match uniform {
        Some(v) => if raster {
            Err(Usage::BothSusceptibilities)
        } else {
            Ok(SusceptibilitySource::Uniform(v))
        },
        None => if raster {
            Ok(SusceptibilitySource::Raster)
        } else {
            Err(Usage::NoSusceptibility)
        },
    }
}

/// Takes the susceptibility source of a request: a raster or a uniform value,
/// exactly one of them.
pub fn susceptibility_source(raster: bool, uniform: Option<Binary64>) -> (r: Result<SusceptibilitySource, Usage>)
    ensures
        r == susceptibility_named(raster, uniform),
{
    match uniform {
        Some(v) => if raster {
            Err(Usage::BothSusceptibilities)
        } else {
            Ok(SusceptibilitySource::Uniform(v))
        },
        None => if raster {
            Ok(SusceptibilitySource::Raster)
        } else {
            Err(Usage::NoSusceptibility)
        },
    }
}

/// Whether a gauge takes its grid from a susceptibility raster, which is then read
/// before the gauge. Fails where a uniform value is given too.
pub fn raster_fixes_grid(raster: bool, uniform: Option<Binary64>) -> (r: Result<bool, Usage>)
    ensures
        r == if raster && uniform is Some {
            Err::<bool, Usage>(Usage::BothSusceptibilities)
        } else {
            Ok(raster)
        },
{
    if raster && uniform.is_some() {
        Err(Usage::BothSusceptibilities)
    } else {
        Ok(raster)
    }
}

/// The grid of a gauge: that of the susceptibility raster, where there is one,
/// which explicit dimensions must agree with; else the explicit dimensions, one
/// column by default and as many rows as columns.
pub open spec fn grid_named(raster: Option<GridDims>, ncols: Option<usize>, nrows: Option<usize>) -> Result<
    GridDims,
    Usage,
> {
    match raster {
        Some(d) => if ncols is Some && ncols->0 != d.ncols {
            Err(Usage::Columns { given: ncols->0, raster: d.ncols })
        } else if nrows is Some && nrows->0 != d.nrows {
            Err(Usage::Rows { given: nrows->0, raster: d.nrows })
        } else {
            Ok(d)
        },
        None => {
            let nc = if ncols is Some {
                ncols->0
            } else {
                1
            };
            Ok(
                GridDims {
                    ncols: nc,
                    nrows: if nrows is Some {
                        nrows->0
                    } else {
                        nc
                    },
                },
            )
        },
    }
}

/// Takes the grid of a gauge. Fails where explicit dimensions disagree with the
/// susceptibility raster.
pub fn gauge_grid(raster: Option<GridDims>, ncols: Option<usize>, nrows: Option<usize>) -> (r: Result<GridDims, Usage>)
    ensures
        r == grid_named(raster, ncols, nrows),
{
    match raster {
        Some(d) => {
            if let Some(nc) = ncols {
                if nc != d.ncols {
                    return Err(Usage::Columns { given: nc, raster: d.ncols });
                }
            }
            if let Some(nr) = nrows {
                if nr != d.nrows {
                    return Err(Usage::Rows { given: nr, raster: d.nrows });
                }
            }
            Ok(d)
        },
        None => {
            let nc: usize = match ncols {
                Some(nc) => nc,
                None => 1,
            };
            let nr: usize = match nrows {
                Some(nr) => nr,
                None => nc,
            };
            Ok(GridDims::new(nc, nr))
        },
    }
}

/// Holds the susceptibility that was read from a raster against a forcing grid.
pub fn raster_susceptibility(map: SusceptibilityMap, dims: GridDims) -> (r: Result<SusceptibilityMap, Usage>)
    ensures
        r == if map.grid() != dims {
            Err::<SusceptibilityMap, Usage>(Usage::Grids { susceptibility: map.grid(), forcing: dims })
        } else {
            Ok(map)
        },
{
    let own: GridDims = map.dims();
    if own != dims {
        return Err(Usage::Grids { susceptibility: own, forcing: dims });
    }
    Ok(map)
}

/// A uniform susceptibility on a grid.
pub fn uniform_susceptibility(dims: GridDims, value: Binary64) -> (r: Result<SusceptibilityMap, Usage>)
    requires
        dims.fits(),
    ensures
        match r {
            Ok(m) => (dims.cells() == 0 || value.unit()) && m.wf() && m.grid() == dims && forall|i: int|
                0 <= i < dims.cells() ==> #[trigger] m@[i] == value,
            Err(e) => dims.cells() > 0 && !value.unit() && e == Usage::Core(
                Error::SusceptibilityOutOfRange { cell: 0, value },
            ),
        },
{
    match SusceptibilityMap::uniform(dims, value) {
        Ok(m) => Ok(m),
        Err(e) => Err(Usage::Core(e)),
    }
}

/// The error of a gauge series, where it is not admissible.
pub open spec fn series_refused(depths: Seq<Binary64>, column: usize, dt_hours: Binary64) -> Option<Error> {
    if depths.len() == 0 {
        Some(Error::Parse(Reason::Count { before: "no numeric values found in column ", count: column, after: "" }))
    } else if !dt_hours.positive_finite() {
        Some(bad_step_length(dt_hours))
    } else if !depths_accepted(depths) {
        Some(bad_depths())
    } else {
        None
    }
}

/// `map` is the susceptibility of a gauge request: what was read from a raster, or
/// the uniform value on the grid of the gauge.
pub open spec fn resolves_map(
    raster: Option<SusceptibilityMap>,
    uniform: Option<Binary64>,
    dims: GridDims,
    map: SusceptibilityMap,
) -> bool {
    match raster {
        Some(m) => map == m,
        None => {
            &&& uniform is Some
            &&& map.wf()
            &&& map.grid() == dims
            &&& forall|i: int| 0 <= i < dims.cells() ==> #[trigger] map@[i] == uniform->0
        },
    }
}

/// Why a request without a raster has no susceptibility.
pub open spec fn map_refused(uniform: Option<Binary64>, dims: GridDims) -> Option<Usage> {
    match uniform {
        None => Some(Usage::NoSusceptibility),
        Some(value) => if dims.cells() > 0 && !value.unit() {
            Some(Usage::Core(Error::SusceptibilityOutOfRange { cell: 0, value }))
        } else {
            None
        },
    }
}

/// Resolves a gauge request: the susceptibility, and the rainfall of a column of
/// comma-separated text on the same grid. `raster` is the susceptibility that was
/// read from a raster, where the request names one.
pub fn resolve_gauge<A: Arithmetic>(
    raster: Option<SusceptibilityMap>,
    uniform: Option<Binary64>,
    ncols: Option<usize>,
    nrows: Option<usize>,
    text: &str,
    column: usize,
    dt_hours: Binary64,
) -> (r: Result<(SusceptibilityMap, UniformRain), Usage>)
    requires
        raster is None ==> grid_named(None, ncols, nrows)->Ok_0.fits(),
    ensures
        ({
            let named = match raster {
                Some(m) => Some(m.grid()),
                None => None,
            };
            if raster is Some && uniform is Some {
                r == Err::<(SusceptibilityMap, UniformRain), Usage>(Usage::BothSusceptibilities)
            } else {
                match grid_named(named, ncols, nrows) {
                    Err(u) => r == Err::<(SusceptibilityMap, UniformRain), Usage>(u),
                    Ok(dims) => exists|depths: Seq<Binary64>| #[trigger]
                        column_of::<A>(text@, column as int, depths) && match r {
                            Ok((map, rain)) => {
                                &&& series_refused(depths, column, dt_hours) is None
                                &&& rain.grid() == dims
                                &&& rain.hours() == dt_hours
                                &&& rain@ == depths
                                &&& resolves_map(raster, uniform, dims, map)
                            },
                            Err(e) => match series_refused(depths, column, dt_hours) {
                                Some(error) => e == Usage::Core(error),
                                None => raster is None && Some(e) == map_refused(uniform, dims),
                            },
                        },
                }
            }
        }),
{
    match raster_fixes_grid(raster.is_some(), uniform) {
        Ok(_) => {},
        Err(u) => {
            return Err(u);
        },
    }
    let named: Option<GridDims> = match &raster {
        Some(m) => Some(m.dims()),
        None => None,
    };
    let dims: GridDims = match gauge_grid(named, ncols, nrows) {
        Ok(d) => d,
        Err(u) => {
            return Err(u);
        },
    };
    let rain: UniformRain = match UniformRain::from_csv::<A>(text, column, dims, dt_hours) {
        Ok(rain) => rain,
        Err(e) => {
            return Err(Usage::Core(e));
        },
    };
    assert(column_of::<A>(text@, column as int, rain@));
    match raster {
        Some(map) => Ok((map, rain)),
        None => match susceptibility_source(false, uniform) {
            Ok(SusceptibilitySource::Uniform(value)) => match uniform_susceptibility(dims, value) {
                Ok(map) => Ok((map, rain)),
                Err(u) => Err(u),
            },
            Ok(SusceptibilitySource::Raster) => Err(Usage::NoSusceptibility),
            Err(u) => Err(u),
        },
    }
}

/// Resolves a request with rain rasters: they define the grid, which the
/// susceptibility must share.
pub fn resolve_rasters(forcing: GridDims, raster: Option<SusceptibilityMap>, uniform: Option<Binary64>) -> (r: Result<
    SusceptibilityMap,
    Usage,
>)
    requires
        forcing.fits(),
    ensures
        match raster {
            Some(m) => if uniform is Some {
                r == Err::<SusceptibilityMap, Usage>(Usage::BothSusceptibilities)
            } else if m.grid() != forcing {
                r == Err::<SusceptibilityMap, Usage>(Usage::Grids { susceptibility: m.grid(), forcing })
            } else {
                r == Ok::<SusceptibilityMap, Usage>(m)
            },
            None => match r {
                Ok(map) => map_refused(uniform, forcing) is None && resolves_map(None, uniform, forcing, map),
                Err(e) => Some(e) == map_refused(uniform, forcing),
            },
        },
{
    match susceptibility_source(raster.is_some(), uniform) {
        Ok(SusceptibilitySource::Uniform(value)) => uniform_susceptibility(forcing, value),
        Ok(SusceptibilitySource::Raster) => match raster {
            Some(map) => raster_susceptibility(map, forcing),
            None => Err(Usage::NoSusceptibility),
        },
        Err(u) => Err(u),
    }
}

/// The depths of a column of a file, at least one. `file` is what the refusal
/// calls the file.
pub fn gauge_depths<A: Arithmetic>(file: &str, text: &str, column: usize) -> (r: Result<Vec<Binary64>, Usage>)
    ensures
        exists|depths: Seq<Binary64>| #[trigger]
            column_of::<A>(text@, column as int, depths) && match r {
                Ok(v) => v@ == depths && depths.len() > 0,
                Err(Usage::NoValues { column: c, file: f }) => depths.len() == 0 && c == column && f@ == file@,
                Err(_) => false,
            },
{
    let depths: Vec<Binary64> = csv_column::<A>(text, column);
    if depths.len() == 0 {
        return Err(Usage::NoValues { column, file: file.to_owned() });
    }
    Ok(depths)
}

/// Distributed rainfall from a stack of steps that is given as one list, with
/// `cells` values per step. Fails where these are not the cells of the grid.
pub fn stacked_rain(dims: GridDims, cells: usize, dt_hours: Binary64, depths: Vec<Binary64>) -> (r: Result<
    GriddedRain,
    Usage,
>)
    requires
        dims.fits(),
    ensures
        match r {
            Ok(g) => {
                &&& cells == dims.cells()
                &&& dt_hours.positive_finite()
                &&& depths_accepted(depths@)
                &&& g.grid() == dims
                &&& g.hours() == dt_hours
                &&& g@ == depths@
                &&& g.steps() * dims.cells() == depths@.len()
            },
            Err(e) => if cells != dims.cells() {
                e == (Usage::Cells { given: cells, grid: dims.cells() as usize })
            } else if !dt_hours.positive_finite() {
                e == Usage::Core(bad_step_length(dt_hours))
            } else if !depths_accepted(depths@) {
                e == Usage::Core(bad_depths())
            } else {
                (cells == 0 || depths@.len() % (cells as nat) != 0) && e == Usage::Core(
                    Error::InvalidParameter {
                        name: "depths_mm",
                        reason: Reason::Counts {
                            before: "",
                            first: depths@.len() as usize,
                            between: " depths do not fill steps of ",
                            second: cells,
                            after: " cells",
                        },
                    },
                )
            },
        },
{
    let n: usize = dims.len();
    if cells != n {
        return Err(Usage::Cells { given: cells, grid: n });
    }
    match GriddedRain::new(dims, dt_hours, depths) {
        Ok(g) => Ok(g),
        Err(e) => Err(Usage::Core(e)),
    }
}

/// Threshold and trigger parameters of a request.
#[derive(Debug, Clone, Copy, PartialEq, Eq, Structural)]
pub struct EngineArgs {
    /// I–D intercept `a` in `I = a·D^-b` (mm/h).
    pub id_a: Binary64,
    /// I–D duration exponent `b`.
    pub id_b: Binary64,
    /// Logistic trigger steepness `k`.
    pub k: Binary64,
    /// Longest rolling I–D window (steps).
    pub max_window: usize,
}

impl EngineArgs {
    /// The parameters with another intercept of the curve.
    pub open spec fn at_intercept(self, id_a: Binary64) -> EngineArgs {
        EngineArgs { id_a, id_b: self.id_b, k: self.k, max_window: self.max_window }
    }

    /// The parameters with another intercept of the curve.
    pub fn with_intercept(&self, id_a: Binary64) -> (r: EngineArgs)
        ensures
            r == self.at_intercept(id_a),
    {
        EngineArgs { id_a, id_b: self.id_b, k: self.k, max_window: self.max_window }
    }

    /// The error of the curve or the trigger, where one of them is not admissible.
    pub open spec fn refused(self) -> Option<Error> {
        if !self.id_a.positive_finite() {
            Some(
                Error::InvalidParameter {
                    name: "a",
                    reason: Reason::Value {
                        before: "I-D intercept must be finite and > 0, got ",
                        value: self.id_a,
                        after: "",
                    },
                },
            )
        } else if !self.id_b.nonnegative_finite() {
            Some(
                Error::InvalidParameter {
                    name: "b",
                    reason: Reason::Value {
                        before: "I-D exponent must be finite and >= 0, got ",
                        value: self.id_b,
                        after: "",
                    },
                },
            )
        } else if !self.k.positive_finite() {
            Some(
                Error::InvalidParameter {
                    name: "k",
                    reason: Reason::Value {
                        before: "logistic steepness must be > 0, got ",
                        value: self.k,
                        after: "",
                    },
                },
            )
        } else {
            None
        }
    }

    /// The parameters of an engine with a given step length.
    pub open spec fn kernel(self, dt_hours: Binary64) -> Kernel {
        Kernel {
            threshold: IdThreshold { a: self.id_a, b: self.id_b },
            trigger: TriggerModel { k: self.k },
            max_window_steps: self.max_window,
            dt_hours,
        }
    }

    /// The curve and the trigger.
    pub fn models(&self) -> (r: Result<(IdThreshold, TriggerModel), Error>)
        ensures
            match r {
                Ok((t, m)) => self.refused() is None && t == (IdThreshold { a: self.id_a, b: self.id_b }) && m == (
                TriggerModel { k: self.k }),
                Err(e) => self.refused() == Some(e),
            },
    {
        let threshold: IdThreshold = match IdThreshold::new(self.id_a, self.id_b) {
            Ok(t) => t,
            Err(e) => {
                return Err(e);
            },
        };
        match TriggerModel::new(self.k) {
            Ok(m) => Ok((threshold, m)),
            Err(e) => Err(e),
        }
    }
}

/// Builds the engine of a request.
pub fn make_nowcast<F: Forcing, A: Arithmetic>(susc: SusceptibilityMap, forcing: F, e: &EngineArgs) -> (r: Result<
    Nowcast<F, A>,
    Error,
>)
    requires
        susc.wf(),
    ensures
        match r {
            Ok(n) => {
                &&& e.refused() is None
                &&& susc.grid() == forcing.grid()
                &&& e.max_window > 0
                &&& n.wf()
                &&& n.map() == susc
                &&& n.source() == forcing
                &&& n.parameters() == e.kernel(forcing.hours())
            },
            Err(error) => if e.refused() is Some {
                Some(error) == e.refused()
            } else if susc.grid() != forcing.grid() {
                error == grids_differ(susc.grid(), forcing.grid())
            } else {
                e.max_window == 0 && error == no_window()
            },
        },
{
    match e.models() {
        Ok((threshold, trigger)) => Nowcast::new(susc, forcing, threshold, trigger, e.max_window),
        Err(error) => Err(error),
    }
}

} // verus!
