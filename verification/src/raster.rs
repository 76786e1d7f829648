//! Georeferenced rasters at the edge of the nowcast grid.
//!
//! - In: a susceptibility raster becomes a [`SusceptibilityMap`], a stack of
//!   precipitation rasters a [`GriddedRain`].
//! - Out: a [`HazardField`] becomes a georeferenced raster again.
//!
//! Raster data is row-major, like the nowcast grid: the two line up cell for cell,
//! so a map built here shares the grid of its raster and of any field written
//! back out.

use surtgis_core::CRS;
use vstd::prelude::*;

use crate::arithmetic::{differs, multiplies, sums, Arithmetic};
use crate::binary64::{one, zero, Binary64};
use crate::error::{Error as CoreError, Reason};
use crate::forcing::{bad_step_length, Forcing, GriddedRain};
use crate::grid::{copy_values, GridDims, SusceptibilityMap};
use crate::hazard::HazardField;

verus! {

/// `surtgis_core::CRS`, a coordinate reference system with private fields.
#[verifier::external_type_specification]
#[verifier::external_body]
pub struct ExCrs(surtgis_core::CRS);

/// `CRS::eq`, which compares the three parts of a reference system (its WKT, its
/// EPSG code, its PROJ string): two systems are the same exactly where all parts
/// are.
#[verifier::external_body]
fn crs_equal(a: &CRS, b: &CRS) -> (r: bool)
    ensures
        r == (*a == *b),
{
    a == b
}

/// `CRS::clone`, which copies the three parts of a reference system.
#[verifier::external_body]
fn crs_copy(a: &CRS) -> (r: CRS)
    ensures
        r == *a,
{
    a.clone()
}

/// Errors from bridging rasters and the nowcast.
#[derive(Debug)]
#[allow(inconsistent_fields)]
pub enum Error {
    /// The raster library failed to read or write.
    SurtGis(String),
    /// An error of the nowcast grid or its validation.
    Core(CoreError),
    /// Inputs disagreed on grid shape.
    Shape(Reason),
    /// Inputs share a shape but not a georeference (origin, resolution, reference
    /// system): stacking them would misalign the forcing against the grid.
    Georef(Reason),
}

impl Error {
    /// `text` is the message of the error.
    pub open spec fn says<A: Arithmetic>(self, text: Seq<char>) -> bool {
        match self {
            Error::SurtGis(reason) => text == "surtgis: "@ + reason@,
            Error::Core(e) => e.says::<A>(text),
            Error::Shape(reason) => exists|t: Seq<char>| #[trigger]
                reason.says::<A>(t) && text == "grid shape mismatch: "@ + t,
            Error::Georef(reason) => exists|t: Seq<char>| #[trigger]
                reason.says::<A>(t) && text == "georeference mismatch: "@ + t,
        }
    }

    /// The message of the error.
    pub fn message<A: Arithmetic>(&self) -> (r: String)
        ensures
            self.says::<A>(r@),
    {
        let mut r: String = String::new();
        match self {
            Error::SurtGis(reason) => {
                r.append("surtgis: ");
                r.append(reason.as_str());
                assert(r@ == "surtgis: "@ + reason@);
            },
            Error::Core(e) => {
                return e.message::<A>();
            },
            Error::Shape(reason) => {
                let t: String = reason.wording::<A>();
                r.append("grid shape mismatch: ");
                r.append(t.as_str());
                assert(r@ == "grid shape mismatch: "@ + t@);
            },
            Error::Georef(reason) => {
                let t: String = reason.wording::<A>();
                r.append("georeference mismatch: ");
                r.append(t.as_str());
                assert(r@ == "georeference mismatch: "@ + t@);
            },
        }
        r
    }
}

/// Affine placement of a raster.
#[derive(Debug, Clone, Copy, PartialEq, Eq, Structural)]
pub struct Transform {
    pub origin_x: Binary64,
    pub origin_y: Binary64,
    pub pixel_width: Binary64,
    pub pixel_height: Binary64,
    pub row_rotation: Binary64,
    pub col_rotation: Binary64,
}

/// A georeferenced raster: row-major values, and where they lie.
#[derive(Debug)]
pub struct Raster {
    pub dims: GridDims,
    pub values: Vec<Binary64>,
    /// The value that marks cells without data.
    pub nodata: Option<Binary64>,
    pub transform: Transform,
    pub crs: Option<CRS>,
}

impl Raster {
    /// One value per cell.
    pub open spec fn wf(&self) -> bool {
        self.dims.fits() && self.values@.len() == self.dims.cells()
    }
}

/// Georeferencing kept beside the nowcast grids, so that a hazard field can be
/// written back in the projection of its source raster.
#[derive(Debug)]
pub struct Georef {
    pub transform: Transform,
    pub crs: Option<CRS>,
}

fn copy_of(crs: &Option<CRS>) -> (r: Option<CRS>)
    ensures
        r == *crs,
{
    match crs {
        Some(c) => Some(crs_copy(c)),
        None => None,
    }
}

impl Georef {
    /// Takes the georeferencing of a raster.
    pub fn of(raster: &Raster) -> (r: Georef)
        ensures
            r.transform == raster.transform,
            r.crs == raster.crs,
    {
        Georef { transform: raster.transform, crs: copy_of(&raster.crs) }
    }
}

impl Clone for Georef {
    fn clone(&self) -> (r: Georef)
        ensures
            r == *self,
    {
        Georef { transform: self.transform, crs: copy_of(&self.crs) }
    }
}

/// Whether a value is the marker of cells without data.
pub open spec fn marks_nodata(value: Binary64, nodata: Option<Binary64>) -> bool {
    match nodata {
        Some(marker) => value.same_number(marker),
        None => false,
    }
}

fn is_nodata(value: Binary64, nodata: Option<Binary64>) -> (r: bool)
    ensures
        r == marks_nodata(value, nodata),
{
    match nodata {
        Some(marker) => value.same(marker),
        None => false,
    }
}

/// The susceptibility of a raster value: held within `[0, 1]`, and zero for a NaN
/// or a cell without data.
pub open spec fn susceptibility_of(value: Binary64, nodata: Option<Binary64>) -> Binary64 {
    if value.nan() || marks_nodata(value, nodata) {
        zero()
    } else {
        value.clamped(zero(), one())
    }
}

/// The rain depth of a raster value: from zero on, and zero for a value that is
/// not finite or a cell without data.
pub open spec fn rain_of(value: Binary64, nodata: Option<Binary64>) -> Binary64 {
    if !value.finite() || marks_nodata(value, nodata) {
        zero()
    } else {
        value.larger(zero())
    }
}

/// Converts a susceptibility raster to a [`SusceptibilityMap`].
///
/// Values are moved into `[0, 1]`; NaNs and cells without data become zero (no
/// background hazard outside the mapped area), so any raster is admissible.
pub fn susceptibility_from_raster(raster: &Raster) -> (r: Result<SusceptibilityMap, Error>)
    requires
        raster.wf(),
    ensures
        match r {
            Ok(m) => m.wf() && m.grid() == raster.dims && m@ == raster.values@.map_values(
                |v: Binary64| susceptibility_of(v, raster.nodata),
            ),
            Err(_) => false,
        },
{
    let mut values: Vec<Binary64> = Vec::new();
    let mut c: usize = 0;
    while c < raster.values.len()
        invariant
            c <= raster.values@.len(),
            values@.len() == c,
            forall|k: int|
                0 <= k < c ==> #[trigger] values@[k] == susceptibility_of(raster.values@[k], raster.nodata)
                    && values@[k].unit(),
        decreases raster.values@.len() - c,
    {
        let v: Binary64 = raster.values[c];
        values.push(
            if v.is_nan() || is_nodata(v, raster.nodata) {
                zero()
            } else {
                v.clamp(zero(), one())
            },
        );
        c = c + 1;
    }
    assert(values@ == raster.values@.map_values(|v: Binary64| susceptibility_of(v, raster.nodata)));
    match SusceptibilityMap::new(raster.dims, values) {
        Ok(m) => Ok(m),
        Err(e) => Err(Error::Core(e)),
    }
}

/// One billionth, `1e-9`.
#[verifier::allow_in_spec]
pub fn billionth() -> Binary64
    returns
        (Binary64 { bits: 0x3E11_2E0B_E826_D695 }),
{
    Binary64 { bits: 0x3E11_2E0B_E826_D695 }
}

/// `r` tells whether two coordinates agree up to a tight relative tolerance, which
/// covers the noise of writing a number down but no real offset.
pub open spec fn agrees<A: Arithmetic>(x: Binary64, y: Binary64, r: bool) -> bool {
    exists|gap: Binary64, scaled: Binary64, allowed: Binary64|
        {
            &&& #[trigger] differs::<A>(x, y, gap)
            &&& #[trigger] multiplies::<A>(billionth(), x.unsigned().larger(y.unsigned()), scaled)
            &&& #[trigger] sums::<A>(billionth(), scaled, allowed)
            &&& r == gap.unsigned().at_most(allowed)
        }
}

fn agree<A: Arithmetic>(x: Binary64, y: Binary64) -> (r: bool)
    ensures
        agrees::<A>(x, y, r),
{
    let gap: Binary64 = A::minus(x, y);
    let scaled: Binary64 = A::times(billionth(), x.abs().max(y.abs()));
    let allowed: Binary64 = A::plus(billionth(), scaled);
    assert(differs::<A>(x, y, gap));
    assert(multiplies::<A>(billionth(), x.unsigned().larger(y.unsigned()), scaled));
    assert(sums::<A>(billionth(), scaled, allowed));
    gap.abs().not_above(allowed)
}

/// `r` tells whether two transforms place a grid alike: whether all six of their
/// coefficients agree.
pub open spec fn places_alike<A: Arithmetic>(a: Transform, b: Transform, r: bool) -> bool {
    exists|x: bool, y: bool, w: bool, h: bool, rr: bool, cr: bool|
        {
            &&& #[trigger] agrees::<A>(a.origin_x, b.origin_x, x)
            &&& #[trigger] agrees::<A>(a.origin_y, b.origin_y, y)
            &&& #[trigger] agrees::<A>(a.pixel_width, b.pixel_width, w)
            &&& #[trigger] agrees::<A>(a.pixel_height, b.pixel_height, h)
            &&& #[trigger] agrees::<A>(a.row_rotation, b.row_rotation, rr)
            &&& #[trigger] agrees::<A>(a.col_rotation, b.col_rotation, cr)
            &&& r == (x && y && w && h && rr && cr)
        }
}

fn same_transform<A: Arithmetic>(a: &Transform, b: &Transform) -> (r: bool)
    ensures
        places_alike::<A>(*a, *b, r),
{
    let x: bool = agree::<A>(a.origin_x, b.origin_x);
    let y: bool = agree::<A>(a.origin_y, b.origin_y);
    let w: bool = agree::<A>(a.pixel_width, b.pixel_width);
    let h: bool = agree::<A>(a.pixel_height, b.pixel_height);
    let rr: bool = agree::<A>(a.row_rotation, b.row_rotation);
    let cr: bool = agree::<A>(a.col_rotation, b.col_rotation);
    x && y && w && h && rr && cr
}

/// Whether both rasters declare a reference system, and different ones.
pub open spec fn crs_differ(a: Option<CRS>, b: Option<CRS>) -> bool {
    a is Some && b is Some && a->0 != b->0
}

/// `e` is the outcome of holding a raster of a stack against the first one: the
/// error of one that differs from it, or none.
pub open spec fn compared<A: Arithmetic>(first: Raster, s: int, raster: Raster, e: Option<Error>) -> bool {
    if raster.dims != first.dims {
        e == Some(
            Error::Shape(Reason::Count { before: "raster ", count: s as usize, after: " differs from raster 0" }),
        )
    } else {
        exists|same: bool| #[trigger]
            places_alike::<A>(raster.transform, first.transform, same) && e == if !same {
                Some(
                    Error::Georef(
                        Reason::Count {
                            before: "raster ",
                            count: s as usize,
                            after: " has a different geotransform than raster 0 (same shape, different grid)",
                        },
                    ),
                )
            } else if crs_differ(raster.crs, first.crs) {
                Some(
                    Error::Georef(
                        Reason::Count {
                            before: "raster ",
                            count: s as usize,
                            after: " has a different CRS than raster 0",
                        },
                    ),
                )
            } else {
                None
            }
    }
}

fn compare<A: Arithmetic>(first: &Raster, s: usize, raster: &Raster) -> (r: Option<Error>)
    ensures
        compared::<A>(*first, s as int, *raster, r),
{
    if raster.dims != first.dims {
        return Some(Error::Shape(Reason::Count { before: "raster ", count: s, after: " differs from raster 0" }));
    }
    let same: bool = same_transform::<A>(&raster.transform, &first.transform);
    assert(places_alike::<A>(raster.transform, first.transform, same));
    if !same {
        return Some(
            Error::Georef(
                Reason::Count {
                    before: "raster ",
                    count: s,
                    after: " has a different geotransform than raster 0 (same shape, different grid)",
                },
            ),
        );
    }
    if let (Some(a), Some(b)) = (&raster.crs, &first.crs) {
        if !crs_equal(a, b) {
            return Some(
                Error::Georef(
                    Reason::Count { before: "raster ", count: s, after: " has a different CRS than raster 0" },
                ),
            );
        }
    }
    None
}

/// `e` is the error of the first raster of a stack that differs from raster 0.
pub open spec fn first_differing<A: Arithmetic>(rasters: Seq<Raster>, s: int, e: Error) -> bool {
    &&& 0 <= s < rasters.len()
    &&& compared::<A>(rasters[0], s, rasters[s], Some(e))
    &&& forall|k: int| 0 <= k < s ==> compared::<A>(rasters[0], k, #[trigger] rasters[k], None)
}

/// Every raster of a stack has the shape and the georeference of the first one.
pub open spec fn stacks<A: Arithmetic>(rasters: Seq<Raster>) -> bool {
    forall|s: int| 0 <= s < rasters.len() ==> compared::<A>(rasters[0], s, #[trigger] rasters[s], None)
}

/// Stacks precipitation rasters (mm), one per step, into a [`GriddedRain`]. All
/// rasters must share the shape and the georeference of the first one; `dt_hours`
/// is the step length.
///
/// The georeference check (origin, resolution, rotation, and the reference system
/// where both declare one) catches a tile from another grid with the same shape,
/// which would otherwise stack silently and misalign rain against susceptibility.
pub fn gridded_rain_from_rasters<A: Arithmetic>(rasters: &[Raster], dt_hours: Binary64) -> (r: Result<
    GriddedRain,
    Error,
>)
    requires
        forall|s: int| 0 <= s < rasters@.len() ==> (#[trigger] rasters@[s]).wf(),
    ensures
        match r {
            Ok(g) => {
                &&& rasters@.len() > 0
                &&& stacks::<A>(rasters@)
                &&& dt_hours.positive_finite()
                &&& rasters@[0].dims.cells() > 0
                &&& g.grid() == rasters@[0].dims
                &&& g.hours() == dt_hours
                &&& g.steps() == rasters@.len()
                &&& forall|c: int, s: int|
                    0 <= c < g.grid().cells() && 0 <= s < rasters@.len() ==> #[trigger] g.depth(c, s) == rain_of(
                        rasters@[s].values@[c],
                        rasters@[s].nodata,
                    )
            },
            Err(e) => if rasters@.len() == 0 {
                e == Error::Shape(Reason::Text("no rasters provided"))
            } else {
                ||| exists|s: int| #[trigger] first_differing::<A>(rasters@, s, e)
                ||| stacks::<A>(rasters@) && !dt_hours.positive_finite() && e == Error::Core(bad_step_length(dt_hours))
                ||| stacks::<A>(rasters@) && dt_hours.positive_finite() && rasters@[0].dims.cells() == 0 && e == Error::Core(
                    CoreError::InvalidParameter {
                        name: "depths_mm",
                        reason: Reason::Counts {
                            before: "",
                            first: 0,
                            between: " depths do not fill steps of ",
                            second: 0,
                            after: " cells",
                        },
                    },
                )
            },
        },
{
    if rasters.len() == 0 {
        return Err(Error::Shape(Reason::Text("no rasters provided")));
    }
    let first: &Raster = &rasters[0];
    let dims: GridDims = first.dims;
    assert(rasters@[0].wf());
    let n: usize = dims.len();
    let mut depths: Vec<Binary64> = Vec::new();
    let mut s: usize = 0;
    while s < rasters.len()
        invariant
            s <= rasters@.len(),
            rasters@.len() > 0,
            *first == rasters@[0],
            dims == first.dims,
            dims.fits(),
            n == dims.cells(),
            forall|k: int| 0 <= k < rasters@.len() ==> (#[trigger] rasters@[k]).wf(),
            forall|k: int| 0 <= k < s ==> compared::<A>(rasters@[0], k, #[trigger] rasters@[k], None),
            depths@.len() == s * n,
            forall|k: int| 0 <= k < depths@.len() ==> zero().at_most(#[trigger] depths@[k]),
            forall|c: int, k: int|
                #![trigger rasters@[k].values@[c]]
                0 <= c < n && 0 <= k < s ==> depths@[k * n + c] == rain_of(rasters@[k].values@[c], rasters@[k].nodata),
        decreases rasters@.len() - s,
    {
        let raster: &Raster = &rasters[s];
        assert(rasters@[s as int].wf());
        match compare::<A>(first, s, raster) {
            Some(e) => {
                assert(first_differing::<A>(rasters@, s as int, e));
                return Err(e);
            },
            None => {},
        }
        assert(compared::<A>(rasters@[0], s as int, rasters@[s as int], None));
        let ghost before = depths@;
        let mut c: usize = 0;
        while c < n
            invariant
                c <= n,
                raster.values@.len() == n,
                before.len() == s * n,
                depths@.len() == before.len() + c,
                forall|k: int| 0 <= k < before.len() ==> depths@[k] == before[k],
                forall|k: int| 0 <= k < depths@.len() ==> zero().at_most(#[trigger] depths@[k]),
                forall|k: int|
                    0 <= k < c ==> depths@[before.len() + k] == rain_of(#[trigger] raster.values@[k], raster.nodata),
            decreases n - c,
        {
            let v: Binary64 = raster.values[c];
            depths.push(
                if !v.is_finite() || is_nodata(v, raster.nodata) {
                    zero()
                } else {
                    v.max(zero())
                },
            );
            c = c + 1;
        }
        proof {
            assert((s + 1) * n == s * n + n) by (nonlinear_arith);
            assert forall|c: int, k: int|
                #![trigger rasters@[k].values@[c]]
                0 <= c < n && 0 <= k < s + 1 implies depths@[k * n + c] == rain_of(
                rasters@[k].values@[c],
                rasters@[k].nodata,
            ) by {
                if k < s {
                    lemma_within(n as int, s as int, c, k);
                }
            }
        }
        s = s + 1;
    }
    let total: usize = depths.len();
    let count: usize = rasters.len();
    assert(stacks::<A>(rasters@));
    proof {
        if n > 0 {
            vstd::arithmetic::div_mod::lemma_mod_multiples_basic(count as int, n as int);
        } else {
            assert(count * n == 0) by (nonlinear_arith)
                requires
                    n == 0,
            ;
        }
    }
    match GriddedRain::new(dims, dt_hours, depths) {
        Ok(g) => {
            proof {
                assert(g.steps() == count) by (nonlinear_arith)
                    requires
                        g.steps() * n == count * n,
                        n > 0,
                ;
                assert forall|c: int, k: int| 0 <= c < g.grid().cells() && 0 <= k < rasters@.len() implies #[trigger] g.depth(
                    c,
                    k,
                ) == rain_of(rasters@[k].values@[c], rasters@[k].nodata) by {
                    assert(depths@[k * n + c] == rain_of(rasters@[k].values@[c], rasters@[k].nodata));
                }
            }
            Ok(g)
        },
        Err(e) => Err(Error::Core(e)),
    }
}

/// A cell of an earlier step comes before the end of a stack.
proof fn lemma_within(cells: int, steps: int, cell: int, step: int)
    requires
        0 <= cell < cells,
        0 <= step < steps,
    ensures
        0 <= step * cells + cell < steps * cells,
{
    assert(0 <= step * cells && step * cells + cells <= steps * cells) by (nonlinear_arith)
        requires
            0 < cells,
            0 <= step < steps,
    ;
}

/// Wraps a [`HazardField`] into a georeferenced raster without a marker for
/// missing data.
pub fn hazard_to_raster(field: &HazardField, georef: &Georef) -> (r: Raster)
    requires
        field.wf(),
    ensures
        r.wf(),
        r.dims == field.grid(),
        r.values@ == field@,
        r.nodata is None,
        r.transform == georef.transform,
        r.crs == georef.crs,
{
    Raster {
        dims: field.dims(),
        values: copy_values(field.probability()),
        nodata: None,
        transform: georef.transform,
        crs: copy_of(&georef.crs),
    }
}

/// What is written out can be read back: the susceptibility of a raster that was
/// made from probabilities without a marker for missing data holds the same
/// values.
pub proof fn lemma_hazard_reads_back(value: Binary64)
    requires
        value.unit(),
    ensures
        susceptibility_of(value, None) == value,
{
}

/// Whatever a raster holds, its susceptibility lies within `[0, 1]` and its rain
/// is finite and not below zero.
pub proof fn lemma_raster_values_are_admissible(value: Binary64, nodata: Option<Binary64>)
    ensures
        susceptibility_of(value, nodata).unit(),
        rain_of(value, nodata).nonnegative_finite(),
{
}

} // verus!
