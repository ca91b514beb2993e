//! Personality modulators and the hysteretic social-phase classifier.

use vstd::prelude::*;
use crate::units::{HALF, ONE};

verus! {

/// Three independent modulators, each meant to lie in the unit interval.
///
/// They scale the size of trust changes; they never alter the bounds that
/// an accumulator keeps.
#[derive(Clone, Copy, Debug, PartialEq, Eq, Structural)]
pub struct Personality {
    /// Drive to explore new contexts; scales the cold-start baseline.
    pub curiosity_drive: u32,
    /// Sensitivity to aversive events; scales the drop of a negative interaction.
    pub startle_sensitivity: u32,
    /// Speed of recovery; scales the gain of a positive interaction.
    pub recovery_speed: u32,
}

/// `base * (0.5 + modulator)` in fixed point.
pub open spec fn modulated(base: int, modulator: int) -> int {
    base * (HALF + modulator) / (ONE as int)
}

impl Personality {
    /// The mid-range personality: every modulator at one half.
    pub fn new() -> (p: Self)
        ensures
            p.curiosity_drive == HALF,
            p.startle_sensitivity == HALF,
            p.recovery_speed == HALF,
    {
        Personality { curiosity_drive: HALF, startle_sensitivity: HALF, recovery_speed: HALF }
    }

    /// Scales a base gain by `0.5 + recovery_speed`.
    pub fn modulate_coherence_gain(&self, base: u32) -> (r: u64)
        ensures
            r == modulated(base as int, self.recovery_speed as int),
    {
        scale_by_modulator(base, self.recovery_speed)
    }

    /// Scales a base drop by `0.5 + startle_sensitivity`.
    pub fn modulate_startle_drop(&self, base: u32) -> (r: u64)
        ensures
            r == modulated(base as int, self.startle_sensitivity as int),
    {
        scale_by_modulator(base, self.startle_sensitivity)
    }
}

fn scale_by_modulator(base: u32, modulator: u32) -> (r: u64)
    ensures
        r == modulated(base as int, modulator as int),
{
    let factor: u128 = HALF as u128 + modulator as u128;
    assert(base as int * factor as int <= 18448891548767117025) by (nonlinear_arith)
        requires
            0 <= base <= 0xffff_ffff,
            0 <= factor <= 0x1_0007_a11f,
    ;
    let product: u128 = base as u128 * factor;
    assert(product == base as int * factor as int);
    let scaled: u128 = product / (ONE as u128);
    assert(scaled <= 18448891548767);
    scaled as u64
}

impl Default for Personality {
    fn default() -> (p: Self)
        ensures
            p.curiosity_drive == HALF,
            p.startle_sensitivity == HALF,
            p.recovery_speed == HALF,
    {
        Personality::new()
    }
}

/// Four hysteresis thresholds on the coherence and tension axes.
///
/// A well-formed space has `enter >= exit` on both axes, which is what makes
/// the classifier a Schmitt trigger; the classifier itself accepts any values.
#[derive(Clone, Copy, Debug, PartialEq, Eq, Structural)]
pub struct PhaseSpace {
    /// Coherence needed to enter the high-coherence quadrants.
    pub coherence_high_enter: u32,
    /// Coherence needed to stay in the high-coherence quadrants.
    pub coherence_high_exit: u32,
    /// Tension needed to enter the high-tension quadrants.
    pub tension_high_enter: u32,
    /// Tension needed to stay in the high-tension quadrants.
    pub tension_high_exit: u32,
}

impl PhaseSpace {
    /// The thresholds 0.65 / 0.55 for coherence and 0.45 / 0.35 for tension.
    pub open spec fn standard() -> PhaseSpace {
        PhaseSpace {
            coherence_high_enter: 650_000,
            coherence_high_exit: 550_000,
            tension_high_enter: 450_000,
            tension_high_exit: 350_000,
        }
    }

    /// Whether each enter threshold is at least its exit threshold.
    pub open spec fn wf(&self) -> bool {
        &&& self.coherence_high_exit <= self.coherence_high_enter
        &&& self.tension_high_exit <= self.tension_high_enter
    }

    /// The standard thresholds.
    pub fn new() -> (ps: Self)
        ensures
            ps == PhaseSpace::standard(),
    {
        PhaseSpace {
            coherence_high_enter: 650_000,
            coherence_high_exit: 550_000,
            tension_high_enter: 450_000,
            tension_high_exit: 350_000,
        }
    }
}

impl Default for PhaseSpace {
    fn default() -> (ps: Self)
        ensures
            ps == PhaseSpace::standard(),
    {
        PhaseSpace::new()
    }
}

/// Behavioural phase: one quadrant of the coherence / tension plane.
#[derive(Clone, Copy, Debug, PartialEq, Eq, Structural)]
pub enum SocialPhase {
    /// Low coherence, low tension.
    ShyObserver,
    /// Low coherence, high tension.
    StartledRetreat,
    /// High coherence, low tension.
    QuietlyBeloved,
    /// High coherence, high tension.
    ProtectiveGuardian,
}

/// The quadrant named by two booleans.
pub open spec fn quadrant(high_coherence: bool, high_tension: bool) -> SocialPhase {
    if high_coherence {
        if high_tension {
            SocialPhase::ProtectiveGuardian
        } else {
            SocialPhase::QuietlyBeloved
        }
    } else {
        if high_tension {
            SocialPhase::StartledRetreat
        } else {
            SocialPhase::ShyObserver
        }
    }
}

impl SocialPhase {
    /// Whether this phase lies in the high-coherence half of the plane.
    pub open spec fn is_high_coherence(self) -> bool {
        self == SocialPhase::QuietlyBeloved || self == SocialPhase::ProtectiveGuardian
    }

    /// Whether this phase lies in the high-tension half of the plane.
    pub open spec fn is_high_tension(self) -> bool {
        self == SocialPhase::StartledRetreat || self == SocialPhase::ProtectiveGuardian
    }

    /// The phase that follows `prev` under the given inputs.
    ///
    /// Each axis is compared with its exit threshold when `prev` was already
    /// high on that axis, and with its enter threshold otherwise.
    pub open spec fn next(
        effective_coherence: u32,
        tension: u32,
        prev: SocialPhase,
        ps: PhaseSpace,
    ) -> SocialPhase {
        let coherence_bar = if prev.is_high_coherence() {
            ps.coherence_high_exit
        } else {
            ps.coherence_high_enter
        };
        let tension_bar = if prev.is_high_tension() {
            ps.tension_high_exit
        } else {
            ps.tension_high_enter
        };
        quadrant(effective_coherence >= coherence_bar, tension >= tension_bar)
    }

    /// Classifies the current inputs, with hysteresis against `prev`.
    pub fn classify(effective_coherence: u32, tension: u32, prev: SocialPhase, ps: &PhaseSpace) -> (phase:
        SocialPhase)
        ensures
            phase == SocialPhase::next(effective_coherence, tension, prev, *ps),
    {
        let high_coherence = match prev {
            SocialPhase::QuietlyBeloved | SocialPhase::ProtectiveGuardian => {
                effective_coherence >= ps.coherence_high_exit
            },
            _ => effective_coherence >= ps.coherence_high_enter,
        };
        let high_tension = match prev {
            SocialPhase::StartledRetreat | SocialPhase::ProtectiveGuardian => {
                tension >= ps.tension_high_exit
            },
            _ => tension >= ps.tension_high_enter,
        };
        if high_coherence {
            if high_tension {
                SocialPhase::ProtectiveGuardian
            } else {
                SocialPhase::QuietlyBeloved
            }
        } else {
            if high_tension {
                SocialPhase::StartledRetreat
            } else {
                SocialPhase::ShyObserver
            }
        }
    }

    /// The tint of each phase as a red, green, blue triple.
    pub open spec fn tint(self) -> Seq<u8> {
        match self {
            SocialPhase::ShyObserver => seq![40u8, 40u8, 80u8],
            SocialPhase::StartledRetreat => seq![80u8, 20u8, 20u8],
            SocialPhase::QuietlyBeloved => seq![60u8, 120u8, 200u8],
            SocialPhase::ProtectiveGuardian => seq![200u8, 100u8, 0u8],
        }
    }

    /// Colour tint for this phase.
    pub fn led_tint(&self) -> (rgb: [u8; 3])
        ensures
            rgb@ == self.tint(),
    {
        let rgb: [u8; 3] = match self {
            SocialPhase::ShyObserver => [40, 40, 80],
            SocialPhase::StartledRetreat => [80, 20, 20],
            SocialPhase::QuietlyBeloved => [60, 120, 200],
            SocialPhase::ProtectiveGuardian => [200, 100, 0],
        };
        assert(rgb@ =~= self.tint());
        rgb
    }

    /// Expression scale of this phase at a representative mid-range reading.
    pub fn expression_scale(&self) -> (scale: u32)
        ensures
            scale == permeability_of(HALF as int, *self),
    {
        permeability(HALF, 300_000, *self)
    }
}

/// How much expression a phase lets through at a given coherence.
pub open spec fn permeability_of(effective_coherence: int, phase: SocialPhase) -> int {
    match phase {
        SocialPhase::ShyObserver => effective_coherence * 3 / 10,
        SocialPhase::StartledRetreat => 100_000,
        SocialPhase::QuietlyBeloved => 500_000 + effective_coherence / 2,
        SocialPhase::ProtectiveGuardian => 400_000 + effective_coherence / 5,
    }
}

/// The band `[lo, hi]` that a phase keeps its permeability in.
pub open spec fn permeability_band(phase: SocialPhase) -> (int, int) {
    match phase {
        SocialPhase::ShyObserver => (0, 300_000),
        SocialPhase::StartledRetreat => (100_000, 100_000),
        SocialPhase::QuietlyBeloved => (500_000, 1_000_000),
        SocialPhase::ProtectiveGuardian => (400_000, 600_000),
    }
}

/// Output permeability: a function of the coherence and the quadrant only.
///
/// The tension argument is accepted for symmetry with the classifier and
/// does not influence the result.
pub fn permeability(effective_coherence: u32, _tension: u32, quadrant: SocialPhase) -> (p: u32)
    ensures
        p == permeability_of(effective_coherence as int, quadrant),
        effective_coherence <= ONE ==> permeability_band(quadrant).0 <= p <= permeability_band(
            quadrant,
        ).1,
{
    match quadrant {
        SocialPhase::ShyObserver => {
            let scaled: u64 = effective_coherence as u64 * 3 / 10;
            scaled as u32
        },
        SocialPhase::StartledRetreat => 100_000,
        SocialPhase::QuietlyBeloved => 500_000 + effective_coherence / 2,
        SocialPhase::ProtectiveGuardian => 400_000 + effective_coherence / 5,
    }
}

/// How deeply the agent narrates, banded by permeability.
#[derive(Clone, Copy, Debug, PartialEq, Eq, Structural)]
pub enum NarrationDepth {
    /// Below 0.2: no reflection.
    Silent,
    /// From 0.2 up to 0.4: factual observations only.
    Minimal,
    /// From 0.4 up to 0.6: contextual awareness.
    Brief,
    /// From 0.6 up to 0.8: personality-coloured narration.
    Full,
    /// From 0.8 on: phenomenological reflection.
    Deep,
}

impl NarrationDepth {
    /// The band that a permeability falls in.
    pub open spec fn band(p: u32) -> NarrationDepth {
        if p < 200_000 {
            NarrationDepth::Silent
        } else if p < 400_000 {
            NarrationDepth::Minimal
        } else if p < 600_000 {
            NarrationDepth::Brief
        } else if p < 800_000 {
            NarrationDepth::Full
        } else {
            NarrationDepth::Deep
        }
    }

    /// Maps a permeability to its narration depth.
    pub fn from_permeability(p: u32) -> (depth: Self)
        ensures
            depth == NarrationDepth::band(p),
    {
        if p < 200_000 {
            NarrationDepth::Silent
        } else if p < 400_000 {
            NarrationDepth::Minimal
        } else if p < 600_000 {
            NarrationDepth::Brief
        } else if p < 800_000 {
            NarrationDepth::Full
        } else {
            NarrationDepth::Deep
        }
    }
}

/// A phase on the high side of an axis stays there for as long as the signal
/// is at or above the exit threshold, and a phase on the low side stays low
/// for as long as the signal is below the enter threshold: between the two
/// thresholds the classifier never changes sides.
pub proof fn lemma_hysteresis_persists(
    effective_coherence: u32,
    tension: u32,
    prev: SocialPhase,
    ps: PhaseSpace,
)
    requires
        ps.wf(),
    ensures
        ps.coherence_high_exit <= effective_coherence < ps.coherence_high_enter
            ==> SocialPhase::next(effective_coherence, tension, prev, ps).is_high_coherence()
            == prev.is_high_coherence(),
        ps.tension_high_exit <= tension < ps.tension_high_enter ==> SocialPhase::next(
            effective_coherence,
            tension,
            prev,
            ps,
        ).is_high_tension() == prev.is_high_tension(),
        effective_coherence >= ps.coherence_high_enter ==> SocialPhase::next(
            effective_coherence,
            tension,
            prev,
            ps,
        ).is_high_coherence(),
        effective_coherence < ps.coherence_high_exit ==> !SocialPhase::next(
            effective_coherence,
            tension,
            prev,
            ps,
        ).is_high_coherence(),
        tension >= ps.tension_high_enter ==> SocialPhase::next(
            effective_coherence,
            tension,
            prev,
            ps,
        ).is_high_tension(),
        tension < ps.tension_high_exit ==> !SocialPhase::next(
            effective_coherence,
            tension,
            prev,
            ps,
        ).is_high_tension(),
{
}

/// No two phases share a tint.
pub proof fn lemma_tints_distinct(a: SocialPhase, b: SocialPhase)
    requires
        a != b,
    ensures
        a.tint() != b.tint(),
{
    assert(a.tint()[0] != b.tint()[0] || a.tint()[1] != b.tint()[1]);
}

} // verus!
