//! Wildfire as a parallel hazard path, and the cascade behind it.
//!
//! A fire-spread engine gives, for every cell, the arrival time of the front and
//! its intensity. [`FireField::fire_hazard`] maps the intensity to a hazard in
//! `[0, 1]`. A burn scar sharply raises debris-flow and shallow-landslide
//! susceptibility; [`post_fire_susceptibility`] amplifies the static
//! susceptibility inside the burned footprint, so that a subsequent rainfall
//! nowcast sees the elevated hazard on the scar.

use vstd::arithmetic::power2::pow2;
use vstd::prelude::*;
use vstd::set_lib::set_int_range;

use crate::accuracy::{lemma_scales, rounds_closely, rounds_to, ulp};
use crate::arithmetic::{deterministic, divides, multiplies, rounds_properly, Arithmetic};
use crate::binary64::{
    absolute, lemma_rank_orders_numbers, lemma_small_numbers, lemma_unit_number, one, zero, Binary64,
};
use crate::error::{Error, Reason};
use crate::grid::{copy_values, first_outside_unit, GridDims, SusceptibilityMap};
use crate::hazard::{bad_hazard, HazardField};
use crate::kernel::{lemma_hazard_grows_with_susceptibility, Kernel};
use crate::matching::lemma_count_next;
use crate::nowcast::grids_differ;
use crate::series::{held, lemma_held_near, lemma_quotient_bound, lemma_quotient_of};

verus! {

/// A fire-spread result on the nowcast grid (row-major).
#[derive(Debug)]
pub struct FireField {
    dims: GridDims,
    /// Arrival time of the front (minutes since ignition), not finite where the
    /// fire never arrives.
    arrival_min: Vec<Binary64>,
    /// Fireline intensity at the head of the front (kW/m).
    intensity_head: Vec<Binary64>,
    horizon_min: Binary64,
}

/// The error for a horizon that is not finite and above zero.
pub open spec fn bad_horizon(horizon_min: Binary64) -> Error {
    Error::InvalidParameter {
        name: "horizon_min",
        reason: Reason::Value { before: "must be finite and > 0 minutes, got ", value: horizon_min, after: "" },
    }
}

/// Whether the fire reached a cell within a horizon.
pub open spec fn burned(arrival: Binary64, horizon: Binary64) -> bool {
    arrival.finite() && arrival.at_most(horizon)
}

/// A horizon must be finite and above zero minutes: any other one would let the
/// fire reach nothing, not even the cells that it starts from.
pub fn validate_horizon(horizon_min: Binary64) -> (r: Result<(), Error>)
    ensures
        match r {
            Ok(_) => horizon_min.positive_finite(),
            Err(e) => !horizon_min.positive_finite() && e == bad_horizon(horizon_min),
        },
{
    if !horizon_min.is_positive_finite() {
        return Err(
            Error::InvalidParameter {
                name: "horizon_min",
                reason: Reason::Value {
                    before: "must be finite and > 0 minutes, got ",
                    value: horizon_min,
                    after: "",
                },
            },
        );
    }
    Ok(())
}

/// How many entries of a mask are set.
pub fn count_set(mask: &[bool]) -> (r: usize)
    ensures
        r == set_int_range(0, mask@.len() as int).filter(|c: int| mask@[c]).len(),
        r <= mask@.len(),
{
    let ghost s = Seq::new(mask@.len(), |k: int| k);
    let ghost p = |c: int| mask@[c];
    let mut n: usize = 0;
    let mut i: usize = 0;
    assert(s.no_duplicates());
    assert(s.take(0).to_set().filter(p) == Set::<int>::empty());
    while i < mask.len()
        invariant
            i <= mask@.len(),
            s == Seq::new(mask@.len(), |k: int| k),
            s.no_duplicates(),
            p == (|c: int| mask@[c]),
            n == s.take(i as int).to_set().filter(p).len(),
            n <= i,
        decreases mask@.len() - i,
    {
        proof {
            lemma_count_next(s, i as int, p);
        }
        if mask[i] {
            n = n + 1;
        }
        i = i + 1;
    }
    proof {
        assert(s.take(s.len() as int) == s);
        assert forall|k: int| set_int_range(0, mask@.len() as int).contains(k) implies s.to_set().contains(k) by {
            assert(s[k] == k);
        }
        assert(s.to_set() == set_int_range(0, mask@.len() as int));
    }
    n
}

impl FireField {
    /// The grid of the field.
    pub closed spec fn grid(&self) -> GridDims {
        self.dims
    }

    /// The arrival times of all cells.
    pub closed spec fn arrivals(&self) -> Seq<Binary64> {
        self.arrival_min@
    }

    /// The intensities of all cells.
    pub closed spec fn intensities(&self) -> Seq<Binary64> {
        self.intensity_head@
    }

    /// The horizon.
    pub closed spec fn horizon(&self) -> Binary64 {
        self.horizon_min
    }

    /// One arrival time and one intensity per cell, and a proper horizon.
    pub open spec fn wf(&self) -> bool {
        &&& self.grid().fits()
        &&& self.arrivals().len() == self.grid().cells()
        &&& self.intensities().len() == self.grid().cells()
        &&& self.horizon().positive_finite()
    }

    /// The cells that the fire reached within the horizon.
    pub open spec fn scar(&self) -> Seq<bool> {
        self.arrivals().map_values(|t: Binary64| burned(t, self.horizon()))
    }

    /// Maps a fire-spread result onto the nowcast grid. `horizon_min` bounds the
    /// simulation and defines the burned footprint; it must be finite and above
    /// zero.
    pub fn new(
        dims: GridDims,
        arrival_min: Vec<Binary64>,
        intensity_head: Vec<Binary64>,
        horizon_min: Binary64,
    ) -> (r: Result<FireField, Error>)
        requires
            dims.fits(),
            arrival_min@.len() == dims.cells(),
            intensity_head@.len() == dims.cells(),
        ensures
            match r {
                Ok(f) => {
                    &&& horizon_min.positive_finite()
                    &&& f.wf()
                    &&& f.grid() == dims
                    &&& f.arrivals() == arrival_min@
                    &&& f.intensities() == intensity_head@
                    &&& f.horizon() == horizon_min
                },
                Err(e) => !horizon_min.positive_finite() && e == bad_horizon(horizon_min),
            },
    {
        match validate_horizon(horizon_min) {
            Ok(_) => Ok(FireField { dims, arrival_min, intensity_head, horizon_min }),
            Err(e) => Err(e),
        }
    }

    /// Grid of the burned field.
    pub fn dims(&self) -> (r: GridDims)
        ensures
            r == self.grid(),
    {
        self.dims
    }

    /// Time horizon (minutes since ignition) that defines "burned".
    pub fn horizon_min(&self) -> (r: Binary64)
        ensures
            r == self.horizon(),
    {
        self.horizon_min
    }

    /// Number of cells that the fire reached within the horizon.
    pub fn burned_cells(&self) -> (r: usize)
        ensures
            r == set_int_range(0, self.scar().len() as int).filter(|c: int| self.scar()[c]).len(),
    {
        let mask: Vec<bool> = self.burned_mask();
        let r: usize = count_set(mask.as_slice());
        assert(set_int_range(0, mask@.len() as int).filter(|c: int| mask@[c]) == set_int_range(
            0,
            self.scar().len() as int,
        ).filter(|c: int| self.scar()[c]));
        r
    }

    /// Burned mask (row-major): set where the fire arrived within the horizon.
    pub fn burned_mask(&self) -> (r: Vec<bool>)
        ensures
            r@ == self.scar(),
    {
        let mut r: Vec<bool> = Vec::new();
        let mut c: usize = 0;
        while c < self.arrival_min.len()
            invariant
                c <= self.arrivals().len(),
                r@.len() == c,
                forall|k: int| 0 <= k < c ==> #[trigger] r@[k] == burned(self.arrivals()[k], self.horizon()),
            decreases self.arrivals().len() - c,
        {
            let t: Binary64 = self.arrival_min[c];
            r.push(t.is_finite() && t.not_above(self.horizon_min));
            c = c + 1;
        }
        assert(r@ == self.scar());
        r
    }

    /// `p` is the fire hazard of a cell: its intensity as a share of the
    /// reference, held within `[0, 1]`, on the scar, and zero elsewhere.
    pub open spec fn hazard_of<A: Arithmetic>(&self, cell: int, reference: Binary64, p: Binary64) -> bool {
        if self.scar()[cell] {
            exists|share: Binary64| #[trigger]
                divides::<A>(self.intensities()[cell], reference, share) && p == share.clamped(zero(), one())
        } else {
            p == zero()
        }
    }

    /// `values` holds the fire hazard of all cells.
    pub open spec fn hazards<A: Arithmetic>(&self, reference: Binary64, values: Seq<Binary64>) -> bool {
        &&& values.len() == self.intensities().len()
        &&& forall|c: int| 0 <= c < values.len() ==> self.hazard_of::<A>(c, reference, #[trigger] values[c])
    }

    /// Fire hazard: the fireline intensity relative to a reference, in `[0, 1]`,
    /// over burned cells (zero elsewhere). A common reference is 1730 kW/m, the
    /// limit of direct manual attack. Fails if the reference is not finite and
    /// above zero, or if an intensity has no share in it.
    pub fn fire_hazard<A: Arithmetic>(&self, intensity_ref_kw_m: Binary64) -> (r: Result<HazardField, Error>)
        requires
            self.wf(),
        ensures
            match r {
                Ok(f) => {
                    &&& intensity_ref_kw_m.positive_finite()
                    &&& f.wf()
                    &&& f.at_step() == 0
                    &&& f.grid() == self.grid()
                    &&& self.hazards::<A>(intensity_ref_kw_m, f@)
                },
                Err(e) => if !intensity_ref_kw_m.positive_finite() {
                    e == (Error::InvalidParameter {
                        name: "intensity_ref_kw_m",
                        reason: Reason::Text("must be a positive, finite reference intensity"),
                    })
                } else {
                    exists|values: Seq<Binary64>, cell: int| #[trigger]
                        self.hazards::<A>(intensity_ref_kw_m, values) && #[trigger] first_outside_unit(values, cell) && e
                            == bad_hazard(cell, values[cell])
                },
            },
    {
        if !intensity_ref_kw_m.is_positive_finite() {
            return Err(
                Error::InvalidParameter {
                    name: "intensity_ref_kw_m",
                    reason: Reason::Text("must be a positive, finite reference intensity"),
                },
            );
        }
        let mask: Vec<bool> = self.burned_mask();
        let mut values: Vec<Binary64> = Vec::new();
        let mut c: usize = 0;
        while c < self.intensity_head.len()
            invariant
                c <= self.intensities().len(),
                self.wf(),
                mask@ == self.scar(),
                values@.len() == c,
                forall|k: int| 0 <= k < c ==> self.hazard_of::<A>(k, intensity_ref_kw_m, #[trigger] values@[k]),
            decreases self.intensities().len() - c,
        {
            let p: Binary64 = if mask[c] {
                let share: Binary64 = A::over(self.intensity_head[c], intensity_ref_kw_m);
                assert(divides::<A>(self.intensities()[c as int], intensity_ref_kw_m, share));
                share.clamp(zero(), one())
            } else {
                zero()
            };
            assert(self.hazard_of::<A>(c as int, intensity_ref_kw_m, p));
            values.push(p);
            c = c + 1;
        }
        assert(self.hazards::<A>(intensity_ref_kw_m, values@));
        HazardField::new(0, self.dims, values)
    }
}

impl Clone for FireField {
    fn clone(&self) -> (r: FireField)
        ensures
            r.grid() == self.grid(),
            r.arrivals() == self.arrivals(),
            r.intensities() == self.intensities(),
            r.horizon() == self.horizon(),
    {
        FireField {
            dims: self.dims,
            arrival_min: copy_values(self.arrival_min.as_slice()),
            intensity_head: copy_values(self.intensity_head.as_slice()),
            horizon_min: self.horizon_min,
        }
    }
}

/// `r` is the susceptibility of a cell behind a fire: amplified and held within
/// `[0, 1]` on the scar, unchanged elsewhere.
pub open spec fn amplified<A: Arithmetic>(susceptibility: Binary64, burned: bool, factor: Binary64, r: Binary64) -> bool {
    if burned {
        exists|raised: Binary64| #[trigger]
            multiplies::<A>(susceptibility, factor, raised) && r == raised.clamped(zero(), one())
    } else {
        r == susceptibility
    }
}

/// `values` holds the susceptibility of all cells behind a fire.
pub open spec fn amplified_map<A: Arithmetic>(
    base: Seq<Binary64>,
    scar: Seq<bool>,
    factor: Binary64,
    values: Seq<Binary64>,
) -> bool {
    &&& values.len() == base.len()
    &&& forall|c: int| 0 <= c < values.len() ==> amplified::<A>(base[c], scar[c], factor, #[trigger] values[c])
}

/// Post-fire cascade: multiplies susceptibility by `factor` inside the burned
/// footprint, leaving unburned cells unchanged. The result is held within
/// `[0, 1]`.
///
/// A factor above one models the elevated susceptibility on a burn scar. Fails if
/// the grids differ, if the factor is not finite and not below zero, or if the
/// amplification is not a number.
pub fn post_fire_susceptibility<A: Arithmetic>(base: &SusceptibilityMap, fire: &FireField, factor: Binary64) -> (r: Result<
    SusceptibilityMap,
    Error,
>)
    requires
        base.wf(),
        fire.wf(),
    ensures
        match r {
            Ok(m) => {
                &&& base.grid() == fire.grid()
                &&& factor.nonnegative_finite()
                &&& m.wf()
                &&& m.grid() == base.grid()
                &&& amplified_map::<A>(base@, fire.scar(), factor, m@)
            },
            Err(e) => if base.grid() != fire.grid() {
                e == grids_differ(base.grid(), fire.grid())
            } else if !factor.nonnegative_finite() {
                e == (Error::InvalidParameter {
                    name: "factor",
                    reason: Reason::Text("must be a non-negative, finite amplification"),
                })
            } else {
                exists|values: Seq<Binary64>, cell: int| #[trigger]
                    amplified_map::<A>(base@, fire.scar(), factor, values) && #[trigger] first_outside_unit(values, cell)
                        && e == (Error::SusceptibilityOutOfRange { cell: cell as usize, value: values[cell] })
            },
        },
{
    let b: GridDims = base.dims();
    let f: GridDims = fire.dims();
    if b != f {
        return Err(
            Error::GridMismatch { susc_cols: b.ncols, susc_rows: b.nrows, forc_cols: f.ncols, forc_rows: f.nrows },
        );
    }
    if !factor.is_nonnegative_finite() {
        return Err(
            Error::InvalidParameter {
                name: "factor",
                reason: Reason::Text("must be a non-negative, finite amplification"),
            },
        );
    }
    let mask: Vec<bool> = fire.burned_mask();
    let from: &[Binary64] = base.values();
    let mut values: Vec<Binary64> = Vec::new();
    let mut c: usize = 0;
    while c < from.len()
        invariant
            c <= from@.len(),
            from@ == base@,
            mask@ == fire.scar(),
            mask@.len() == from@.len(),
            values@.len() == c,
            forall|k: int| 0 <= k < c ==> amplified::<A>(base@[k], fire.scar()[k], factor, #[trigger] values@[k]),
        decreases from@.len() - c,
    {
        let v: Binary64 = if mask[c] {
            let raised: Binary64 = A::times(from[c], factor);
            assert(multiplies::<A>(base@[c as int], factor, raised));
            raised.clamp(zero(), one())
        } else {
            from[c]
        };
        assert(amplified::<A>(base@[c as int], fire.scar()[c as int], factor, v));
        values.push(v);
        c = c + 1;
    }
    assert(amplified_map::<A>(base@, fire.scar(), factor, values@));
    let r: Result<SusceptibilityMap, Error> = SusceptibilityMap::new(b, values);
    proof {
        if let Err(Error::SusceptibilityOutOfRange { cell, value }) = r {
            assert(first_outside_unit(values@, cell as int));
        }
    }
    r
}

/// The cascade leaves unburned cells alone: off the scar the susceptibility is
/// what it was.
pub proof fn lemma_unburned_cells_are_unchanged<A: Arithmetic>(
    base: Seq<Binary64>,
    scar: Seq<bool>,
    factor: Binary64,
    values: Seq<Binary64>,
    cell: int,
)
    requires
        amplified_map::<A>(base, scar, factor, values),
        0 <= cell < base.len(),
        !scar[cell],
    ensures
        values[cell] == base[cell],
{
    assert(amplified::<A>(base[cell], scar[cell], factor, values[cell]));
}

/// A fire hazard is zero off the scar and a probability on it, wherever the
/// intensity has a share in the reference.
pub proof fn lemma_fire_hazard_within_unit<A: Arithmetic>(fire: &FireField, reference: Binary64, cell: int, p: Binary64)
    requires
        fire.hazard_of::<A>(cell, reference, p),
        !p.nan(),
    ensures
        p.unit(),
        !fire.scar()[cell] ==> p == zero(),
{
}

/// The cascade is never refused for its values: whatever the finite factor not
/// below zero, every susceptibility behind a fire lies within `[0, 1]`.
pub proof fn lemma_cascade_is_admissible<A: Arithmetic>(
    base: Seq<Binary64>,
    scar: Seq<bool>,
    factor: Binary64,
    values: Seq<Binary64>,
)
    requires
        rounds_properly::<A>(),
        forall|c: int| 0 <= c < base.len() ==> (#[trigger] base[c]).unit(),
        factor.nonnegative_finite(),
        amplified_map::<A>(base, scar, factor, values),
    ensures
        forall|c: int| 0 <= c < values.len() ==> (#[trigger] values[c]).unit(),
        forall|c: int| !first_outside_unit(values, c),
{
    assert forall|c: int| 0 <= c < values.len() implies (#[trigger] values[c]).unit() by {
        assert(amplified::<A>(base[c], scar[c], factor, values[c]));
        assert(base[c].unit());
    }
}

/// The fire hazard is never refused for its values: with a proper reference and
/// finite intensities on the scar, every hazard lies within `[0, 1]`.
pub proof fn lemma_fire_hazard_is_admissible<A: Arithmetic>(fire: &FireField, reference: Binary64, values: Seq<Binary64>)
    requires
        rounds_properly::<A>(),
        fire.wf(),
        reference.positive_finite(),
        forall|c: int| 0 <= c < fire.scar().len() && fire.scar()[c] ==> (#[trigger] fire.intensities()[c]).finite(),
        fire.hazards::<A>(reference, values),
    ensures
        forall|c: int| 0 <= c < values.len() ==> (#[trigger] values[c]).unit(),
        forall|c: int| !first_outside_unit(values, c),
{
    assert forall|c: int| 0 <= c < values.len() implies (#[trigger] values[c]).unit() by {
        assert(fire.hazard_of::<A>(c, reference, values[c]));
        if fire.scar()[c] {
            assert(fire.intensities()[c].finite());
        }
    }
}

/// An amplification never lowers a susceptibility, and keeps it within `[0, 1]`.
pub proof fn lemma_scar_is_no_less_susceptible<A: Arithmetic>(
    susceptibility: Binary64,
    burned: bool,
    factor: Binary64,
    r: Binary64,
)
    requires
        rounds_properly::<A>(),
        susceptibility.unit(),
        factor.finite(),
        one().at_most(factor),
        amplified::<A>(susceptibility, burned, factor, r),
    ensures
        r.unit(),
        susceptibility.at_most(r),
{
}

/// Behind a fire the same rain finds no lower hazard in any cell.
pub proof fn lemma_fire_never_lowers_the_hazard<A: Arithmetic>(
    kernel: Kernel,
    susceptibility: Binary64,
    burned: bool,
    factor: Binary64,
    raised: Binary64,
    depths: Seq<Binary64>,
    before: Binary64,
    behind: Binary64,
)
    requires
        deterministic::<A>(),
        rounds_properly::<A>(),
        kernel.trigger.k.positive_finite(),
        susceptibility.unit(),
        factor.finite(),
        one().at_most(factor),
        amplified::<A>(susceptibility, burned, factor, raised),
        kernel.hazard_of::<A>(susceptibility, depths, before),
        kernel.hazard_of::<A>(raised, depths, behind),
    ensures
        before.at_most(behind),
{
    lemma_scar_is_no_less_susceptible::<A>(susceptibility, burned, factor, raised);
    lemma_hazard_grows_with_susceptibility::<A>(kernel, susceptibility, raised, depths, before, behind);
}

/// The fire hazard of a burned cell is its intensity in parts of the reference,
/// held within `[0, 1]`, within rounding; elsewhere it is zero.
pub proof fn lemma_fire_hazard_is_share_of_reference<A: Arithmetic>(
    fire: &FireField,
    reference: Binary64,
    field: HazardField,
    cell: int,
)
    requires
        rounds_closely::<A>(),
        fire.wf(),
        0 <= cell < fire.intensities().len(),
        fire.intensities()[cell].finite(),
        absolute(fire.intensities()[cell].number()) <= reference.number() * (pow2(500) as real),
        call_ensures(FireField::fire_hazard::<A>, (fire, reference), Ok::<HazardField, Error>(field)),
    ensures
        fire.scar()[cell] ==> absolute(
            field@[cell].number() - held(fire.intensities()[cell].number() / reference.number()),
        ) <= ulp(3real),
        !fire.scar()[cell] ==> field@[cell] == zero(),
{
    assert(fire.hazard_of::<A>(cell, reference, field@[cell]));
    lemma_small_numbers();
    lemma_scales();
    lemma_rank_orders_numbers(zero(), reference);
    if fire.scar()[cell] {
        let share = choose|share: Binary64| #[trigger]
            divides::<A>(fire.intensities()[cell], reference, share) && field@[cell] == share.clamped(zero(), one());
        let (x, y) = (fire.intensities()[cell].number(), reference.number());
        lemma_quotient_of(x, y);
        lemma_quotient_bound(x, y, x / y, pow2(500) as real);
        lemma_held_near(x / y, share);
    }
}

/// Behind a fire the susceptibility of a burned cell is what it was times the
/// factor, held within `[0, 1]`, within rounding; elsewhere it is what it was.
pub proof fn lemma_scar_is_amplified<A: Arithmetic>(
    base: &SusceptibilityMap,
    fire: &FireField,
    factor: Binary64,
    map: SusceptibilityMap,
    cell: int,
)
    requires
        rounds_closely::<A>(),
        base.wf(),
        fire.wf(),
        0 <= cell < base@.len(),
        absolute(factor.number()) <= pow2(500) as real,
        call_ensures(post_fire_susceptibility::<A>, (base, fire, factor), Ok::<SusceptibilityMap, Error>(map)),
    ensures
        fire.scar()[cell] ==> absolute(map@[cell].number() - held(base@[cell].number() * factor.number())) <= ulp(3real),
        !fire.scar()[cell] ==> map@[cell] == base@[cell],
{
    assert(amplified::<A>(base@[cell], fire.scar()[cell], factor, map@[cell]));
    lemma_scales();
    if fire.scar()[cell] {
        let raised = choose|raised: Binary64| #[trigger]
            multiplies::<A>(base@[cell], factor, raised) && map@[cell] == raised.clamped(zero(), one());
        assert(base@[cell].unit());
        lemma_unit_number(base@[cell]);
        let (x, y) = (base@[cell].number(), factor.number());
        assert(x * y == y * x) by (nonlinear_arith);
        crate::series::lemma_part_of(y, x);
        lemma_held_near(x * y, raised);
    }
}

} // verus!
