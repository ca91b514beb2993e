//! Per-context trust accumulators and the bounded trust field.
//!
//! An accumulator holds the trust earned in one context. It grows towards
//! one under positive interaction, drops under negative interaction, and
//! decays with disuse; an earned floor, which rises with the number of
//! positive interactions, bounds every loss.

use vstd::prelude::*;
use crate::units::{clamp_to_unit, clamp_unit, in_unit, HALF, ONE};

pub use crate::field::{CoherenceField, MAX_CONTEXTS};

verus! {

/// The earned floor after `count` positive interactions:
/// `0.5 * (1 - 1 / (1 + count / 20))`, which is `0.5 * count / (count + 20)`.
pub open spec fn floor_of(count: int) -> int {
    (HALF as int) * count / (count + 20)
}

/// The cold-start value for a given curiosity: `0.15 * curiosity`, in the unit interval.
pub open spec fn baseline_of(curiosity: int) -> int {
    clamp_unit(curiosity * 3 / 20)
}

/// What is left between a value and one.
pub open spec fn headroom_of(value: int) -> int {
    ONE - clamp_unit(value)
}

/// The gain of one positive interaction:
/// `0.02 * (0.5 + recovery_speed) * (1 - value)`, twice that when alone.
pub open spec fn gain_of(value: int, recovery_speed: int, alone: bool) -> int {
    if alone {
        headroom_of(value) * (HALF + recovery_speed) * 2 / 50_000_000
    } else {
        headroom_of(value) * (HALF + recovery_speed) / 50_000_000
    }
}

/// The drop of one negative interaction: `0.05 * (0.5 + startle_sensitivity)`.
pub open spec fn drop_of(startle_sensitivity: int) -> int {
    (HALF + startle_sensitivity) / 20
}

/// The loss of trust over `elapsed_ticks` of disuse: `0.0001` per tick.
pub open spec fn decay_of(elapsed_ticks: int) -> int {
    100 * elapsed_ticks
}

/// The larger of two integers.
pub open spec fn max_of(a: int, b: int) -> int {
    if a >= b {
        a
    } else {
        b
    }
}

/// One thing that can happen to an accumulator.
pub enum Interaction {
    /// A positive interaction.
    Positive { recovery_speed: u32, tick: u64, alone: bool },
    /// A negative interaction.
    Negative { startle_sensitivity: u32, tick: u64 },
    /// A period of disuse.
    Decay { elapsed_ticks: u64 },
}

impl Interaction {
    /// Whether this is a negative interaction.
    pub open spec fn is_negative(self) -> bool {
        self is Negative
    }

    /// Whether this is a positive interaction.
    pub open spec fn is_positive(self) -> bool {
        self is Positive
    }
}

/// Trust state of one context.
#[derive(Clone, Copy, Debug, PartialEq, Eq, Structural)]
pub struct CoherenceAccumulator {
    /// Accumulated trust, in the unit interval.
    pub value: u32,
    /// Number of positive interactions recorded, saturating.
    pub interaction_count: u32,
    /// Tick of the most recent interaction.
    pub last_interaction_tick: u64,
}

impl CoherenceAccumulator {
    /// Whether the value lies in the unit interval.
    pub open spec fn wf(self) -> bool {
        self.value <= ONE
    }

    /// The earned floor of this accumulator.
    pub open spec fn floor(self) -> int {
        floor_of(self.interaction_count as int)
    }

    /// The state after a positive interaction.
    pub open spec fn after_positive(self, recovery_speed: u32, tick: u64, alone: bool) -> Self {
        CoherenceAccumulator {
            value: clamp_unit(self.value + gain_of(self.value as int, recovery_speed as int, alone)) as u32,
            interaction_count: if self.interaction_count < u32::MAX {
                (self.interaction_count + 1) as u32
            } else {
                u32::MAX
            },
            last_interaction_tick: tick,
        }
    }

    /// The state after a negative interaction.
    pub open spec fn after_negative(self, startle_sensitivity: u32, tick: u64) -> Self {
        CoherenceAccumulator {
            value: clamp_unit(
                max_of(self.value - drop_of(startle_sensitivity as int), self.floor()),
            ) as u32,
            interaction_count: self.interaction_count,
            last_interaction_tick: tick,
        }
    }

    /// The state after a period of disuse.
    pub open spec fn after_decay(self, elapsed_ticks: u64) -> Self {
        CoherenceAccumulator {
            value: if self.value > self.floor() {
                clamp_unit(max_of(self.value - decay_of(elapsed_ticks as int), self.floor())) as u32
            } else {
                clamp_unit(self.value as int) as u32
            },
            interaction_count: self.interaction_count,
            last_interaction_tick: self.last_interaction_tick,
        }
    }

    /// The state after one interaction.
    pub open spec fn step(self, event: Interaction) -> Self {
        match event {
            Interaction::Positive { recovery_speed, tick, alone } => self.after_positive(
                recovery_speed,
                tick,
                alone,
            ),
            Interaction::Negative { startle_sensitivity, tick } => self.after_negative(
                startle_sensitivity,
                tick,
            ),
            Interaction::Decay { elapsed_ticks } => self.after_decay(elapsed_ticks),
        }
    }

    /// The state after a sequence of interactions, first to last.
    pub open spec fn run(self, events: Seq<Interaction>) -> Self
        decreases events.len(),
    {
        if events.len() == 0 {
            self
        } else {
            self.run(events.drop_last()).step(events.last())
        }
    }

    /// A fresh accumulator: no trust, no history.
    pub fn new() -> (acc: Self)
        ensures
            acc.value == 0,
            acc.interaction_count == 0,
            acc.last_interaction_tick == 0,
            acc.wf(),
    {
        CoherenceAccumulator { value: 0, interaction_count: 0, last_interaction_tick: 0 }
    }

    /// A fresh accumulator at the cold-start baseline for `curiosity`.
    pub fn new_with_baseline(curiosity: u32) -> (acc: Self)
        ensures
            acc.value == baseline_of(curiosity as int),
            acc.interaction_count == 0,
            acc.last_interaction_tick == 0,
            acc.wf(),
    {
        let value: u32 = clamp_to_unit(curiosity as u64 * 3 / 20);
        CoherenceAccumulator { value, interaction_count: 0, last_interaction_tick: 0 }
    }

    /// The least trust that the interaction history protects.
    pub fn earned_floor(&self) -> (floor: u32)
        ensures
            floor == self.floor(),
            floor < HALF,
    {
        let count: u64 = self.interaction_count as u64;
        proof {
            lemma_floor_bounds(count as int);
        }
        let floor: u64 = (HALF as u64) * count / (count + 20);
        floor as u32
    }

    /// Records a positive interaction: trust grows by a share of what is
    /// left to one, the count goes up by one, and the tick is noted.
    pub fn positive_interaction(&mut self, recovery_speed: u32, tick: u64, alone: bool)
        ensures
            *final(self) == old(self).after_positive(recovery_speed, tick, alone),
            final(self).wf(),
    {
        let capped: u32 = if self.value > ONE {
            ONE
        } else {
            self.value
        };
        let headroom: u64 = (ONE - capped) as u64;
        let factor: u64 = HALF as u64 + recovery_speed as u64;
        assert(headroom * factor <= 1_000_000 * 4_295_467_295) by (nonlinear_arith)
            requires
                0 <= headroom <= 1_000_000,
                0 <= factor <= 4_295_467_295,
        ;
        let product: u64 = headroom * factor;
        let gain: u64 = if alone {
            product * 2 / 50_000_000
        } else {
            product / 50_000_000
        };
        assert(gain == gain_of(self.value as int, recovery_speed as int, alone));
        self.value = clamp_to_unit(self.value as u64 + gain);
        self.interaction_count = self.interaction_count.saturating_add(1);
        self.last_interaction_tick = tick;
    }

    /// Records a negative interaction: trust drops, but not below the
    /// earned floor, and the tick is noted.
    pub fn negative_interaction(&mut self, startle_sensitivity: u32, tick: u64)
        ensures
            *final(self) == old(self).after_negative(startle_sensitivity, tick),
            final(self).wf(),
    {
        let floor: u32 = self.earned_floor();
        let drop: u64 = (HALF as u64 + startle_sensitivity as u64) / 20;
        let value: u64 = self.value as u64;
        let lowered: u64 = if drop >= value {
            0
        } else {
            value - drop
        };
        let kept: u64 = if lowered >= floor as u64 {
            lowered
        } else {
            floor as u64
        };
        self.value = clamp_to_unit(kept);
        self.last_interaction_tick = tick;
    }

    /// Applies decay for `elapsed_ticks` of disuse: trust above the earned
    /// floor sinks towards it and stops there.
    pub fn decay(&mut self, elapsed_ticks: u64)
        ensures
            *final(self) == old(self).after_decay(elapsed_ticks),
            final(self).wf(),
    {
        let floor: u32 = self.earned_floor();
        if self.value > floor {
            let loss: u128 = 100u128 * (elapsed_ticks as u128);
            let value: u128 = self.value as u128;
            let lowered: u128 = if loss >= value {
                0
            } else {
                value - loss
            };
            let kept: u128 = if lowered >= floor as u128 {
                lowered
            } else {
                floor as u128
            };
            self.value = if kept > ONE as u128 {
                ONE
            } else {
                kept as u32
            };
        } else {
            self.value = if self.value > ONE {
                ONE
            } else {
                self.value
            };
        }
    }

    /// Applies one interaction.
    pub fn apply(&mut self, event: &Interaction)
        ensures
            *final(self) == old(self).step(*event),
            final(self).wf(),
    {
        match event {
            Interaction::Positive { recovery_speed, tick, alone } => {
                self.positive_interaction(*recovery_speed, *tick, *alone);
            },
            Interaction::Negative { startle_sensitivity, tick } => {
                self.negative_interaction(*startle_sensitivity, *tick);
            },
            Interaction::Decay { elapsed_ticks } => {
                self.decay(*elapsed_ticks);
            },
        }
    }
}

impl Default for CoherenceAccumulator {
    fn default() -> (acc: Self)
        ensures
            acc.value == 0,
            acc.interaction_count == 0,
            acc.last_interaction_tick == 0,
    {
        CoherenceAccumulator::new()
    }
}

/// The earned floor is never negative and stays below one half.
pub proof fn lemma_floor_bounds(count: int)
    requires
        0 <= count,
    ensures
        0 <= floor_of(count) < HALF,
        count == 0 ==> floor_of(count) == 0,
{
    let n = (HALF as int) * count;
    let d = count + 20;
    assert(0 <= n / d < 500_000) by (nonlinear_arith)
        requires
            n == 500_000 * count,
            d == count + 20,
            0 <= count,
    ;
}

/// The earned floor never falls as the count of positive interactions rises.
pub proof fn lemma_floor_monotone(c1: int, c2: int)
    requires
        0 <= c1 <= c2,
    ensures
        floor_of(c1) <= floor_of(c2),
{
    let q1 = floor_of(c1);
    let q2 = floor_of(c2);
    lemma_floor_bounds(c1);
    lemma_floor_bounds(c2);
    // q1 * (c1 + 20) <= 500_000 * c1 and 500_000 * c2 < (q2 + 1) * (c2 + 20)
    assert(q1 <= q2) by (nonlinear_arith)
        requires
            0 <= c1 <= c2,
            q1 == (500_000 * c1) / (c1 + 20),
            q2 == (500_000 * c2) / (c2 + 20),
            0 <= q1 < 500_000,
            0 <= q2 < 500_000,
    {
        let d1 = c1 + 20;
        let d2 = c2 + 20;
        assert(q1 * d1 <= 500_000 * c1);
        assert(500_000 * c2 < (q2 + 1) * d2);
        // 500_000 * c1 * d2 <= 500_000 * c2 * d1, because c1 * (c2 + 20) <= c2 * (c1 + 20)
        assert(c1 * d2 <= c2 * d1);
        if q1 > q2 {
            assert(q1 >= q2 + 1);
            assert(q1 * d1 * d2 >= (q2 + 1) * d1 * d2);
            assert(q1 * d1 * d2 <= 500_000 * c1 * d2);
            assert(500_000 * c1 * d2 <= 500_000 * c2 * d1);
            assert(500_000 * c2 * d1 < (q2 + 1) * d2 * d1);
            assert(false);
        }
    }
}

/// From a well-formed accumulator, every state reached along
/// any sequence of interactions has its value in the unit interval.
pub proof fn lemma_run_bounded(acc: CoherenceAccumulator, events: Seq<Interaction>, n: int)
    requires
        acc.wf(),
        0 <= n <= events.len(),
    ensures
        acc.run(events.take(n)).wf(),
        in_unit(acc.run(events.take(n)).value as int),
    decreases n,
{
    if n > 0 {
        assert(events.take(n).drop_last() =~= events.take(n - 1));
        lemma_run_bounded(acc, events, n - 1);
    }
}

/// Negative interactions leave the count as it is, and
/// once one of them has been applied (or if the value started at or above
/// the floor) the value is at or above the earned floor of that count.
pub proof fn lemma_floor_protection(acc: CoherenceAccumulator, events: Seq<Interaction>)
    requires
        forall|i: int| 0 <= i < events.len() ==> (#[trigger] events[i]).is_negative(),
        events.len() > 0 || acc.value >= acc.floor(),
    ensures
        acc.run(events).interaction_count == acc.interaction_count,
        acc.run(events).value >= floor_of(acc.interaction_count as int),
    decreases events.len(),
{
    lemma_floor_bounds(acc.interaction_count as int);
    if events.len() > 0 {
        let before = events.drop_last();
        lemma_run_keeps_count(acc, before);
    }
}

/// Negative interactions and decay never change the interaction count.
pub proof fn lemma_run_keeps_count(acc: CoherenceAccumulator, events: Seq<Interaction>)
    requires
        forall|i: int| 0 <= i < events.len() ==> !(#[trigger] events[i]).is_positive(),
    ensures
        acc.run(events).interaction_count == acc.interaction_count,
    decreases events.len(),
{
    if events.len() > 0 {
        lemma_run_keeps_count(acc, events.drop_last());
    }
}

/// Decay moves the value towards the earned floor and never across it, and
/// does nothing to a value that is at or below the floor.
pub proof fn lemma_decay_towards_floor(acc: CoherenceAccumulator, elapsed_ticks: u64)
    requires
        acc.wf(),
    ensures
        acc.value > acc.floor() ==> acc.floor() <= acc.after_decay(elapsed_ticks).value
            <= acc.value,
        acc.value <= acc.floor() ==> acc.after_decay(elapsed_ticks).value == acc.value,
{
    lemma_floor_bounds(acc.interaction_count as int);
}

/// A positive interaction raises the value exactly when its gain is
/// at least one step of the fixed-point scale, which it is whenever at
/// least a ten-thousandth is left to one; and it never lowers the value.
pub proof fn lemma_positive_growth(
    acc: CoherenceAccumulator,
    recovery_speed: u32,
    tick: u64,
    alone: bool,
)
    requires
        acc.wf(),
    ensures
        acc.after_positive(recovery_speed, tick, alone).value >= acc.value,
        acc.after_positive(recovery_speed, tick, alone).value > acc.value <==> gain_of(
            acc.value as int,
            recovery_speed as int,
            alone,
        ) >= 1,
        acc.value + 100 <= ONE ==> acc.after_positive(recovery_speed, tick, alone).value
            > acc.value,
{
    let h = headroom_of(acc.value as int);
    let f = HALF + recovery_speed;
    assert(0 <= h * f) by (nonlinear_arith)
        requires
            0 <= h,
            0 <= f,
    ;
    if acc.value + 100 <= ONE {
        assert(h * f >= 50_000_000) by (nonlinear_arith)
            requires
                h >= 100,
                f >= 500_000,
        ;
    }
    if gain_of(acc.value as int, recovery_speed as int, alone) >= 1 {
        assert(h >= 1) by (nonlinear_arith)
            requires
                0 <= h,
                0 <= f,
                h * f >= 1,
        ;
    }
}

/// With a recovery speed in the unit interval, a value below one
/// stays below one after a positive interaction.
pub proof fn lemma_growth_never_saturates(
    acc: CoherenceAccumulator,
    recovery_speed: u32,
    tick: u64,
    alone: bool,
)
    requires
        acc.value < ONE,
        recovery_speed <= ONE,
    ensures
        acc.after_positive(recovery_speed, tick, alone).value < ONE,
{
    let h = headroom_of(acc.value as int);
    let f = HALF + recovery_speed;
    assert(h * f * 2 < h * 50_000_000 && 0 <= h * f) by (nonlinear_arith)
        requires
            1 <= h,
            0 <= f <= 1_500_000,
    ;
}

/// The nearer the value is to one, the smaller the gain of
/// a positive interaction, and strictly smaller once the two values are a
/// ten-thousandth apart.
pub proof fn lemma_gain_shrinks(v1: u32, v2: u32, recovery_speed: u32, alone: bool)
    requires
        v1 <= v2 <= ONE,
    ensures
        gain_of(v2 as int, recovery_speed as int, alone) <= gain_of(
            v1 as int,
            recovery_speed as int,
            alone,
        ),
        v1 + 100 <= v2 ==> gain_of(v2 as int, recovery_speed as int, alone) < gain_of(
            v1 as int,
            recovery_speed as int,
            alone,
        ),
{
    let h1 = headroom_of(v1 as int);
    let h2 = headroom_of(v2 as int);
    let f = HALF + recovery_speed;
    assert(0 <= h2 * f <= h1 * f) by (nonlinear_arith)
        requires
            0 <= h2 <= h1,
            0 <= f,
    ;
    if v1 + 100 <= v2 {
        assert(h2 * f + 50_000_000 <= h1 * f) by (nonlinear_arith)
            requires
                0 <= h2,
                h2 + 100 <= h1,
                500_000 <= f,
        ;
    }
}

/// The asymptote is never reached: along any run of positive interactions
/// with recovery speeds in the unit interval, a value that starts below one
/// stays below one, never falls, and the count rises by the length of the
/// run until it saturates.
pub proof fn lemma_positive_run(acc: CoherenceAccumulator, events: Seq<Interaction>)
    requires
        acc.value < ONE,
        forall|i: int|
            0 <= i < events.len() ==> (#[trigger] events[i]) is Positive
                && events[i]->recovery_speed <= ONE,
    ensures
        acc.value <= acc.run(events).value < ONE,
        acc.run(events).interaction_count == if acc.interaction_count + events.len() <= u32::MAX {
            (acc.interaction_count + events.len()) as u32
        } else {
            u32::MAX
        },
    decreases events.len(),
{
    if events.len() > 0 {
        let before = events.drop_last();
        lemma_positive_run(acc, before);
        let reached = acc.run(before);
        let last = events.last();
        lemma_growth_never_saturates(
            reached,
            last->recovery_speed,
            last->Positive_tick,
            last->alone,
        );
        lemma_positive_growth(reached, last->recovery_speed, last->Positive_tick, last->alone);
    }
}

} // verus!
