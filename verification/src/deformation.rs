//! Ground deformation as a second trigger.
//!
//! Rainfall says a slope is being loaded; radar interferometry says it is already
//! moving. A line-of-sight velocity field becomes a [`Forcing`], so that it can
//! drive a [`ThresholdTrigger`] and be fused with the rainfall trigger:
//!
//! ```text
//! hazard = susceptibility × ( rain_I-D  ⊕  deformation_rate )      (noisy-OR)
//! ```
//!
//! Creep before failure is a quasi-stationary background, so the velocity field
//! is broadcast over the time steps. Its magnitude is used: both subsidence and
//! uplift signal instability. Incoherent cells count as not moving.

use vstd::arithmetic::power2::{lemma2_to64, lemma2_to64_rest, pow2};
use vstd::prelude::*;

use crate::accuracy::{huge, lemma_scales, rounds_closely, rounds_to};
use crate::arithmetic::{deterministic, multiplies, Arithmetic};
use crate::binary64::{absolute, lemma_number_of_pattern, lemma_unsigned_number, zero, Binary64};
use crate::error::{Error, Reason};
use crate::forcing::Forcing;
use crate::grid::{copy_values, GridDims};
use crate::multi::ThresholdTrigger;
use crate::trigger::TriggerModel;

verus! {

/// The number of millimetres in a metre, `1000`.
#[verifier::allow_in_spec]
pub fn millimetres() -> Binary64
    returns
        (Binary64 { bits: 0x408F_4000_0000_0000 }),
{
    Binary64 { bits: 0x408F_4000_0000_0000 }
}

/// `rate` is the deformation rate (mm/yr) of a velocity (m/yr): its magnitude, or
/// zero where it is not finite.
pub open spec fn rate_of<A: Arithmetic>(velocity: Binary64, rate: Binary64) -> bool {
    if velocity.finite() {
        multiplies::<A>(velocity.unsigned(), millimetres(), rate)
    } else {
        rate == zero()
    }
}

/// `rates` are the deformation rates of a velocity field.
pub open spec fn rates_of<A: Arithmetic>(velocity: Seq<Binary64>, rates: Seq<Binary64>) -> bool {
    &&& rates.len() == velocity.len()
    &&& forall|c: int| 0 <= c < rates.len() ==> rate_of::<A>(velocity[c], #[trigger] rates[c])
}

/// A per-cell deformation rate (mm/yr) as a [`Forcing`] that is constant in time:
/// the quasi-stationary creep background that biases the trigger.
#[derive(Debug)]
pub struct DeformationForcing {
    dims: GridDims,
    n_steps: usize,
    dt_hours: Binary64,
    rate_mm_yr: Vec<Binary64>,
}

impl DeformationForcing {
    #[verifier::type_invariant]
    spec fn filled(self) -> bool {
        self.rate_mm_yr@.len() == self.dims.cells()
    }

    /// The deformation rate of each cell.
    pub closed spec fn rates(&self) -> Seq<Binary64> {
        self.rate_mm_yr@
    }

    /// Takes a row-major velocity field in m/yr. Converts to mm/yr, takes the
    /// magnitude, and maps values that are not finite to zero. `n_steps` and
    /// `dt_hours` should match the rainfall trigger that it is combined with.
    pub fn from_velocity_m_per_yr<A: Arithmetic>(
        dims: GridDims,
        velocity: &[Binary64],
        n_steps: usize,
        dt_hours: Binary64,
    ) -> (r: DeformationForcing)
        requires
            velocity@.len() == dims.cells(),
        ensures
            r.grid() == dims,
            r.steps() == n_steps,
            r.hours() == dt_hours,
            rates_of::<A>(velocity@, r.rates()),
    {
        let mut rate_mm_yr: Vec<Binary64> = Vec::new();
        let mut c: usize = 0;
        while c < velocity.len()
            invariant
                c <= velocity@.len(),
                rate_mm_yr@.len() == c,
                forall|k: int| 0 <= k < c ==> rate_of::<A>(velocity@[k], #[trigger] rate_mm_yr@[k]),
            decreases velocity@.len() - c,
        {
            let v: Binary64 = velocity[c];
            let rate: Binary64 = if v.is_finite() {
                A::times(v.abs(), millimetres())
            } else {
                zero()
            };
            assert(rate_of::<A>(v, rate));
            rate_mm_yr.push(rate);
            c = c + 1;
        }
        DeformationForcing { dims, n_steps, dt_hours, rate_mm_yr }
    }
}

impl Clone for DeformationForcing {
    fn clone(&self) -> (r: DeformationForcing)
        ensures
            r.grid() == self.grid(),
            r.steps() == self.steps(),
            r.hours() == self.hours(),
            r.rates() == self.rates(),
    {
        proof {
            use_type_invariant(self);
        }
        DeformationForcing {
            dims: self.dims,
            n_steps: self.n_steps,
            dt_hours: self.dt_hours,
            rate_mm_yr: copy_values(self.rate_mm_yr.as_slice()),
        }
    }
}

impl Forcing for DeformationForcing {
    closed spec fn grid(&self) -> GridDims {
        self.dims
    }

    closed spec fn steps(&self) -> nat {
        self.n_steps as nat
    }

    closed spec fn hours(&self) -> Binary64 {
        self.dt_hours
    }

    open spec fn depth(&self, cell: int, step: int) -> Binary64 {
        self.rates()[cell]
    }

    fn dims(&self) -> (r: GridDims) {
        self.dims
    }

    fn n_steps(&self) -> (r: usize) {
        self.n_steps
    }

    fn dt_hours(&self) -> (r: Binary64) {
        self.dt_hours
    }

    fn depth_mm(&self, cell: usize, step: usize) -> (r: Binary64) {
        proof {
            use_type_invariant(self);
        }
        self.rate_mm_yr[cell]
    }
}

/// Builds a deformation trigger from a row-major velocity field (m/yr): the factor
/// of a cell is the model's for `|v| / v_crit`, with `v_crit` in mm/yr, which must
/// be finite and above zero.
pub fn deformation_trigger_from_velocity<A: Arithmetic>(
    dims: GridDims,
    velocity: &[Binary64],
    n_steps: usize,
    dt_hours: Binary64,
    v_crit_mm_yr: Binary64,
    model: TriggerModel,
) -> (r: Result<ThresholdTrigger<DeformationForcing, A>, Error>)
    requires
        velocity@.len() == dims.cells(),
    ensures
        match r {
            Ok(t) => {
                &&& v_crit_mm_yr.positive_finite()
                &&& t.source().grid() == dims
                &&& t.source().steps() == n_steps
                &&& t.source().hours() == dt_hours
                &&& rates_of::<A>(velocity@, t.source().rates())
                &&& t.critical_value() == v_crit_mm_yr
                &&& t.logistic() == model
            },
            Err(e) => !v_crit_mm_yr.positive_finite() && e == (Error::InvalidParameter {
                name: "crit",
                reason: Reason::Value {
                    before: "threshold must be finite and > 0, got ",
                    value: v_crit_mm_yr,
                    after: "",
                },
            }),
        },
{
    let forcing: DeformationForcing = DeformationForcing::from_velocity_m_per_yr::<A>(
        dims,
        velocity,
        n_steps,
        dt_hours,
    );
    ThresholdTrigger::new(forcing, v_crit_mm_yr, model)
}

/// Subsidence and uplift count alike: a velocity and its opposite give the same
/// deformation rate.
pub proof fn lemma_rate_ignores_direction<A: Arithmetic>(velocity: Binary64, r: Binary64, s: Binary64)
    requires
        deterministic::<A>(),
        rate_of::<A>(velocity, r),
        rate_of::<A>(velocity.opposite(), s),
    ensures
        r == s,
{
    assert(velocity.opposite().unsigned() == velocity.unsigned());
}

/// The number of millimetres in a metre is a thousand.
proof fn lemma_millimetres()
    ensures
        millimetres().finite(),
        millimetres().number() == 1000real,
{
    lemma_number_of_pattern(millimetres(), 0x408, 0x001F_4000_0000_0000);
    lemma2_to64();
    lemma2_to64_rest();
    assert(pow2(43) as real == 8796093022208real);
    assert(millimetres().number() * 8796093022208real == 8796093022208000real);
}

/// A deformation rate is the size of the velocity in millimetres, a thousand to
/// the metre, within a neighbouring value, at every step; cells without a finite
/// velocity do not move.
pub proof fn lemma_rate_in_millimetres<A: Arithmetic>(
    dims: GridDims,
    velocity: &[Binary64],
    n_steps: usize,
    dt_hours: Binary64,
    forcing: DeformationForcing,
    cell: int,
    step: int,
)
    requires
        rounds_closely::<A>(),
        velocity@.len() == dims.cells(),
        0 <= cell < velocity@.len(),
        absolute(velocity@[cell].number()) <= pow2(1000) as real,
        call_ensures(
            DeformationForcing::from_velocity_m_per_yr::<A>,
            (dims, velocity, n_steps, dt_hours),
            forcing,
        ),
    ensures
        velocity@[cell].finite() ==> rounds_to(
            1000real * absolute(velocity@[cell].number()),
            forcing.depth(cell, step),
        ),
        !velocity@[cell].finite() ==> forcing.depth(cell, step) == zero(),
{
    let v = velocity@[cell];
    assert(rate_of::<A>(v, forcing.rates()[cell]));
    lemma_scales();
    lemma_millimetres();
    lemma_unsigned_number(v);
    assert(v.unsigned().number() * 1000real == 1000real * absolute(v.number()));
}

} // verus!
