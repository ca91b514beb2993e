//! Configuration and transition smoothing for hierarchical trust mixing.
//!
//! When the cluster structure of a mixer changes, its output is blended
//! from the old structure to the new over a number of ticks. The blend
//! factor ramps linearly from zero to one.

use vstd::prelude::*;
use crate::units::ONE;

verus! {

/// The most clusters that a hierarchical mixer supports.
pub const MAX_CLUSTERS: usize = 32;

pub use crate::cluster::{CoherenceCluster, MAX_CLUSTER_SIZE};
pub use crate::hierarchical::HierarchicalMixer;

/// The most member contexts of one cluster.
pub const MAX_CONTEXTS_PER_CLUSTER: usize = 128;

/// The most contexts that a hierarchical mixer handles.
pub const MAX_TOTAL_CONTEXTS: usize = 4096;

/// Configuration of a hierarchical mixer.
#[derive(Clone, Copy, Debug, PartialEq, Eq, Structural)]
pub struct HierarchicalMixerConfig {
    /// Context count above which hierarchical mode is engaged.
    pub flat_threshold: usize,
    /// Most iterations of the projection within a cluster.
    pub sk_iterations_intra: usize,
    /// Most iterations of the projection between clusters.
    pub sk_iterations_inter: usize,
    /// Ticks over which the old structure is blended into the new.
    pub transition_blend_ticks: usize,
}

impl HierarchicalMixerConfig {
    /// Hierarchical above 50 contexts, 20 iterations each, 100 ticks of blending.
    pub open spec fn standard() -> HierarchicalMixerConfig {
        HierarchicalMixerConfig {
            flat_threshold: 50,
            sk_iterations_intra: 20,
            sk_iterations_inter: 20,
            transition_blend_ticks: 100,
        }
    }

    /// Whether the hierarchical path is to be used for this many active contexts.
    pub open spec fn wants_hierarchy(self, n_active: usize) -> bool {
        n_active > self.flat_threshold
    }

}

impl Default for HierarchicalMixerConfig {
    fn default() -> (config: Self)
        ensures
            config == HierarchicalMixerConfig::standard(),
    {
        HierarchicalMixerConfig {
            flat_threshold: 50,
            sk_iterations_intra: 20,
            sk_iterations_inter: 20,
            transition_blend_ticks: 100,
        }
    }
}

/// The mixing in use: flat for small fields, hierarchical for large ones.
pub enum MixingStrategy {
    /// The flat path: the caller mixes with one matrix over all contexts.
    Flat,
    /// The hierarchical path.
    Hierarchical(HierarchicalMixer),
}

impl MixingStrategy {
    /// The strategy for `n_active` active contexts: hierarchical, with a
    /// new mixer, above the flat threshold of the configuration, and flat
    /// otherwise.
    pub fn select(n_active: usize, config: HierarchicalMixerConfig) -> (strategy: Self)
        ensures
            strategy is Hierarchical == config.wants_hierarchy(n_active),
            strategy is Hierarchical ==> strategy->0.wf() && strategy->0.num_clusters == 0
                && strategy->0.config == config && !strategy->0.in_transition,
    {
        if n_active > config.flat_threshold {
            MixingStrategy::Hierarchical(HierarchicalMixer::new(config))
        } else {
            MixingStrategy::Flat
        }
    }

    /// Whether the hierarchical path is in use.
    pub fn is_hierarchical(&self) -> (hierarchical: bool)
        ensures
            hierarchical == (self is Hierarchical),
    {
        match self {
            MixingStrategy::Hierarchical(_) => true,
            MixingStrategy::Flat => false,
        }
    }

    /// Whether the flat path is in use.
    pub fn is_flat(&self) -> (flat: bool)
        ensures
            flat == (self is Flat),
    {
        match self {
            MixingStrategy::Flat => true,
            MixingStrategy::Hierarchical(_) => false,
        }
    }

    /// The mixer, if the hierarchical path is in use.
    pub fn hierarchical(&self) -> (mixer: Option<&HierarchicalMixer>)
        ensures
            mixer is Some == (self is Hierarchical),
            mixer is Some ==> *mixer->0 == self->0,
    {
        match self {
            MixingStrategy::Hierarchical(h) => Some(h),
            MixingStrategy::Flat => None,
        }
    }

    /// The mixer, mutably, if the hierarchical path is in use.
    pub fn hierarchical_mut(&mut self) -> (mixer: Option<&mut HierarchicalMixer>)
        ensures
            mixer is Some == (*old(self) is Hierarchical),
            mixer is Some ==> *mixer->0 == (*old(self))->0 && *final(self)
                == MixingStrategy::Hierarchical(*final(mixer->0)),
            mixer is None ==> *final(self) == *old(self),
    {
        match self {
            MixingStrategy::Hierarchical(h) => Some(h),
            MixingStrategy::Flat => None,
        }
    }
}

/// The blend factor after `transition_tick` of `blend_ticks` ticks:
/// their quotient, at most one; one outright when there is no blending.
pub open spec fn alpha_of(transition_tick: int, blend_ticks: int) -> int {
    if blend_ticks == 0 || transition_tick >= blend_ticks {
        ONE as int
    } else {
        transition_tick * ONE / blend_ticks
    }
}

/// The linear blend factor of a transition, in the unit interval.
pub fn blend_alpha(transition_tick: usize, blend_ticks: usize) -> (alpha: u32)
    ensures
        alpha == alpha_of(transition_tick as int, blend_ticks as int),
        alpha <= ONE,
{
    if blend_ticks == 0 || transition_tick >= blend_ticks {
        return ONE;
    }
    let tick: u128 = transition_tick as u128;
    let ticks: u128 = blend_ticks as u128;
    assert(tick * 1_000_000 < ticks * 1_000_000);
    let scaled: u128 = tick * 1_000_000 / ticks;
    assert(scaled < 1_000_000) by (nonlinear_arith)
        requires
            scaled == (tick * 1_000_000) as int / (ticks as int),
            0 <= tick < ticks,
    ;
    scaled as u32
}

/// The blend factor never falls as the transition goes on.
pub proof fn lemma_alpha_monotone(t1: int, t2: int, blend_ticks: int)
    requires
        0 <= t1 <= t2,
        0 <= blend_ticks,
    ensures
        0 <= alpha_of(t1, blend_ticks) <= alpha_of(t2, blend_ticks) <= ONE,
{
    if blend_ticks > 0 {
        if t2 < blend_ticks {
            assert(0 <= t1 * 1_000_000 / blend_ticks <= t2 * 1_000_000 / blend_ticks < 1_000_000)
                by (nonlinear_arith)
                requires
                    0 <= t1 <= t2 < blend_ticks,
            ;
        } else if t1 < blend_ticks {
            assert(0 <= t1 * 1_000_000 / blend_ticks < 1_000_000) by (nonlinear_arith)
                requires
                    0 <= t1 < blend_ticks,
            ;
        }
    }
}

} // verus!
