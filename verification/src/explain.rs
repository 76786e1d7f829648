//! Exact attribution of a nowcast hazard value.
//!
//! Because the hazard is closed-form, `susceptibility × trigger_factor`, every
//! alert is exactly decomposable into its drivers, with no sampling or surrogate
//! model. An [`Explanation`] reports, for one cell and step: the hazard and its
//! two factors, the rolling intensity–duration window that drove the trigger, and
//! which side, terrain or weather, is the binding constraint.

use vstd::prelude::*;

use crate::accuracy::{lemma_scales, rounds_closely, rounds_to, ulp};
use crate::arithmetic::{multiplies, shows_rounded, sums, Arithmetic};
use crate::binary64::{absolute, lemma_rank_orders_numbers, lemma_unit_number, Binary64};
use crate::text::{append_decimal, decimal};

verus! {

/// Which factor limits the hazard (the smaller multiplicand is the bottleneck).
#[derive(Debug, Clone, Copy, PartialEq, Eq, Structural)]
pub enum Driver {
    /// The dynamic trigger is the bottleneck: susceptible ground, not enough rain.
    TriggerLimited,
    /// Susceptibility is the bottleneck: heavy rain, but stable ground.
    TerrainLimited,
    /// Both contribute comparably.
    Balanced,
}

/// The distance within which two factors count as comparable, `0.15`.
#[verifier::allow_in_spec]
pub fn comparable() -> Binary64
    returns
        (Binary64 { bits: 0x3FC3_3333_3333_3333 }),
{
    Binary64 { bits: 0x3FC3_3333_3333_3333 }
}

impl Driver {
    /// `self` is the driver of two factors: the one that stays behind the other by
    /// more than a tolerance.
    pub open spec fn limits<A: Arithmetic>(
        self,
        susceptibility: Binary64,
        trigger_factor: Binary64,
        tol: Binary64,
    ) -> bool {
        exists|lifted: Binary64| #[trigger]
            sums::<A>(trigger_factor, tol, lifted) && if lifted.less(susceptibility) {
                self == Driver::TriggerLimited
            } else {
                exists|raised: Binary64| #[trigger]
                    sums::<A>(susceptibility, tol, raised) && if raised.less(trigger_factor) {
                        self == Driver::TerrainLimited
                    } else {
                        self == Driver::Balanced
                    }
            }
    }

    /// Compares two factors up to a tolerance.
    pub fn classify<A: Arithmetic>(susceptibility: Binary64, trigger_factor: Binary64, tol: Binary64) -> (r: Driver)
        ensures
            r.limits::<A>(susceptibility, trigger_factor, tol),
    {
        let lifted: Binary64 = A::plus(trigger_factor, tol);
        assert(sums::<A>(trigger_factor, tol, lifted));
        if lifted.below(susceptibility) {
            return Driver::TriggerLimited;
        }
        let raised: Binary64 = A::plus(susceptibility, tol);
        assert(sums::<A>(susceptibility, tol, raised));
        if raised.below(trigger_factor) {
            Driver::TerrainLimited
        } else {
            Driver::Balanced
        }
    }

    /// The driver in words.
    pub open spec fn words(self) -> Seq<char> {
        match self {
            Driver::TriggerLimited => "limitado por el gatillo (lluvia insuficiente)"@,
            Driver::TerrainLimited => "limitado por el terreno (poco susceptible)"@,
            Driver::Balanced => "terreno y gatillo comparables"@,
        }
    }

    fn phrase(&self) -> (r: &'static str)
        ensures
            r@ == self.words(),
    {
        match self {
            Driver::TriggerLimited => "limitado por el gatillo (lluvia insuficiente)",
            Driver::TerrainLimited => "limitado por el terreno (poco susceptible)",
            Driver::Balanced => "terreno y gatillo comparables",
        }
    }
}

/// Exact decomposition of the hazard at a cell and a step into its drivers.
#[derive(Debug, Clone, Copy, PartialEq, Eq, Structural)]
pub struct Explanation {
    pub cell: usize,
    pub step: usize,
    pub hazard: Binary64,
    /// Static susceptibility at the cell (the "terrain" factor).
    pub susceptibility: Binary64,
    /// Dynamic trigger factor in `[0, 1]` (the "weather" factor).
    pub trigger_factor: Binary64,
    /// Duration (h) of the rolling window that maximised the I–D exceedance.
    pub critical_duration_h: Binary64,
    /// Mean rainfall intensity (mm/h) over that window.
    pub mean_intensity_mm_h: Binary64,
    /// Critical intensity (mm/h) of the I–D curve at that duration.
    pub critical_intensity_mm_h: Binary64,
    /// Exceedance ratio `E = I / I_crit` of the driving window.
    pub exceedance: Binary64,
    /// Which side is the binding constraint.
    pub driver: Driver,
}

impl Explanation {
    /// The hazard is the product of the two factors, and the driver compares them.
    pub open spec fn decomposes<A: Arithmetic>(self) -> bool {
        &&& multiplies::<A>(self.susceptibility, self.trigger_factor, self.hazard)
        &&& self.driver.limits::<A>(self.susceptibility, self.trigger_factor, comparable())
    }

    /// Combines two factors and the window that drove the trigger.
    pub fn new<A: Arithmetic>(
        cell: usize,
        step: usize,
        susceptibility: Binary64,
        trigger_factor: Binary64,
        critical_duration_h: Binary64,
        mean_intensity_mm_h: Binary64,
        critical_intensity_mm_h: Binary64,
        exceedance: Binary64,
    ) -> (r: Explanation)
        ensures
            r.decomposes::<A>(),
            r.cell == cell,
            r.step == step,
            r.susceptibility == susceptibility,
            r.trigger_factor == trigger_factor,
            r.critical_duration_h == critical_duration_h,
            r.mean_intensity_mm_h == mean_intensity_mm_h,
            r.critical_intensity_mm_h == critical_intensity_mm_h,
            r.exceedance == exceedance,
    {
        let hazard: Binary64 = A::times(susceptibility, trigger_factor);
        assert(multiplies::<A>(susceptibility, trigger_factor, hazard));
        Explanation {
            cell,
            step,
            hazard,
            susceptibility,
            trigger_factor,
            critical_duration_h,
            mean_intensity_mm_h,
            critical_intensity_mm_h,
            exceedance,
            driver: Driver::classify::<A>(susceptibility, trigger_factor, comparable()),
        }
    }

    /// `text` is the account of the explanation.
    pub open spec fn recounts<A: Arithmetic>(self, text: Seq<char>) -> bool {
        exists|
            hazard: Seq<char>,
            susceptibility: Seq<char>,
            factor: Seq<char>,
            duration: Seq<char>,
            mean: Seq<char>,
            critical: Seq<char>,
            exceedance: Seq<char>,
        |
            {
                &&& #[trigger] shows_rounded::<A>(self.hazard, 2, hazard)
                &&& #[trigger] shows_rounded::<A>(self.susceptibility, 2, susceptibility)
                &&& #[trigger] shows_rounded::<A>(self.trigger_factor, 2, factor)
                &&& #[trigger] shows_rounded::<A>(self.critical_duration_h, 0, duration)
                &&& #[trigger] shows_rounded::<A>(self.mean_intensity_mm_h, 1, mean)
                &&& #[trigger] shows_rounded::<A>(self.critical_intensity_mm_h, 1, critical)
                &&& #[trigger] shows_rounded::<A>(self.exceedance, 2, exceedance)
                &&& text == "celda "@ + decimal(self.cell as nat) + " paso "@ + decimal(self.step as nat) + ": peligro "@
                    + hazard + " = susceptibilidad "@ + susceptibility + " × gatillo "@ + factor
                    + "; ventana I–D dominante "@ + duration + " h con "@ + mean + " mm/h (crítica "@ + critical
                    + " mm/h, E="@ + exceedance + "); "@ + self.driver.words()
            }
    }

    /// A one-line human-readable account of why the hazard is what it is.
    pub fn summary<A: Arithmetic>(&self) -> (r: String)
        ensures
            self.recounts::<A>(r@),
    {
        let hazard: String = A::show_rounded(self.hazard, 2);
        let susceptibility: String = A::show_rounded(self.susceptibility, 2);
        let factor: String = A::show_rounded(self.trigger_factor, 2);
        let duration: String = A::show_rounded(self.critical_duration_h, 0);
        let mean: String = A::show_rounded(self.mean_intensity_mm_h, 1);
        let critical: String = A::show_rounded(self.critical_intensity_mm_h, 1);
        let exceedance: String = A::show_rounded(self.exceedance, 2);
        let mut r: String = String::new();
        r.append("celda ");
        append_decimal(&mut r, self.cell);
        r.append(" paso ");
        append_decimal(&mut r, self.step);
        r.append(": peligro ");
        r.append(hazard.as_str());
        r.append(" = susceptibilidad ");
        r.append(susceptibility.as_str());
        r.append(" × gatillo ");
        r.append(factor.as_str());
        r.append("; ventana I–D dominante ");
        r.append(duration.as_str());
        r.append(" h con ");
        r.append(mean.as_str());
        r.append(" mm/h (crítica ");
        r.append(critical.as_str());
        r.append(" mm/h, E=");
        r.append(exceedance.as_str());
        r.append("); ");
        r.append(self.driver.phrase());
        proof {
            assert(shows_rounded::<A>(self.hazard, 2, hazard@));
            assert(shows_rounded::<A>(self.susceptibility, 2, susceptibility@));
            assert(shows_rounded::<A>(self.trigger_factor, 2, factor@));
            assert(shows_rounded::<A>(self.critical_duration_h, 0, duration@));
            assert(shows_rounded::<A>(self.mean_intensity_mm_h, 1, mean@));
            assert(shows_rounded::<A>(self.critical_intensity_mm_h, 1, critical@));
            assert(shows_rounded::<A>(self.exceedance, 2, exceedance@));
            assert(r@ == "celda "@ + decimal(self.cell as nat) + " paso "@ + decimal(self.step as nat) + ": peligro "@
                + hazard@ + " = susceptibilidad "@ + susceptibility@ + " × gatillo "@ + factor@
                + "; ventana I–D dominante "@ + duration@ + " h con "@ + mean@ + " mm/h (crítica "@ + critical@
                + " mm/h, E="@ + exceedance@ + "); "@ + self.driver.words());
        }
        r
    }
}

/// What a driver says of two factors: one that is limited stays behind the other
/// by more than the tolerance, balanced ones do not, within a neighbouring value.
pub proof fn lemma_driver_is_the_lesser<A: Arithmetic>(
    susceptibility: Binary64,
    trigger_factor: Binary64,
    tol: Binary64,
    driver: Driver,
)
    requires
        rounds_closely::<A>(),
        susceptibility.unit(),
        trigger_factor.unit(),
        tol.unit(),
        call_ensures(Driver::classify::<A>, (susceptibility, trigger_factor, tol), driver),
    ensures
        ({
            let (s, f, t) = (susceptibility.number(), trigger_factor.number(), tol.number());
            &&& driver == Driver::TriggerLimited ==> s - f > t - ulp(3real)
            &&& driver == Driver::TerrainLimited ==> f - s > t - ulp(3real)
            &&& driver == Driver::Balanced ==> absolute(s - f) < t + ulp(3real)
        }),
{
    lemma_scales();
    lemma_unit_number(susceptibility);
    lemma_unit_number(trigger_factor);
    lemma_unit_number(tol);
    let lifted = choose|lifted: Binary64| #[trigger]
        sums::<A>(trigger_factor, tol, lifted) && if lifted.less(susceptibility) {
            driver == Driver::TriggerLimited
        } else {
            exists|raised: Binary64| #[trigger]
                sums::<A>(susceptibility, tol, raised) && if raised.less(trigger_factor) {
                    driver == Driver::TerrainLimited
                } else {
                    driver == Driver::Balanced
                }
        };
    assert(rounds_to(trigger_factor.number() + tol.number(), lifted));
    lemma_rank_orders_numbers(lifted, susceptibility);
    if !lifted.less(susceptibility) {
        let raised = choose|raised: Binary64| #[trigger]
            sums::<A>(susceptibility, tol, raised) && if raised.less(trigger_factor) {
                driver == Driver::TerrainLimited
            } else {
                driver == Driver::Balanced
            };
        assert(rounds_to(susceptibility.number() + tol.number(), raised));
        lemma_rank_orders_numbers(raised, trigger_factor);
    }
}

} // verus!
