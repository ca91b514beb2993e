//! A six-dimensional reference vocabulary for a small two-wheeled robot.
//!
//! Each sensor dimension is a band with two or three levels; a level's
//! quantised feature is `0`, `32767` (one half, rounded down) or `65535`.

use vstd::prelude::*;
use crate::vocabulary::{ContextKey, SensorVocabulary};

verus! {

/// The quantised feature of the lowest level of a band.
pub const LEVEL_LOW: u16 = 0;

/// The quantised feature of the middle level of a band: one half, rounded down.
pub const LEVEL_MID: u16 = 32767;

/// The quantised feature of the highest level of a band.
pub const LEVEL_HIGH: u16 = 65535;

/// Ambient light level.
#[derive(Clone, Copy, Debug, PartialEq, Eq, Hash, Structural)]
pub enum BrightnessBand {
    /// Very low ambient light.
    Dark,
    /// Moderate ambient light.
    Dim,
    /// High ambient light.
    Bright,
}

/// Ambient sound level.
#[derive(Clone, Copy, Debug, PartialEq, Eq, Hash, Structural)]
pub enum NoiseBand {
    /// Very low ambient noise.
    Quiet,
    /// Moderate ambient noise.
    Moderate,
    /// High ambient noise.
    Loud,
}

/// Nearby presence.
#[derive(Clone, Copy, Debug, PartialEq, Eq, Hash, Structural)]
pub enum PresenceSignature {
    /// Nobody in sensor range.
    Absent,
    /// Somebody in the outer detection zone.
    Far,
    /// Somebody in the inner detection zone.
    Close,
}

/// Motion of the robot itself.
#[derive(Clone, Copy, Debug, PartialEq, Eq, Hash, Structural)]
pub enum MotionContext {
    /// Stationary.
    Static,
    /// Moving below the speed threshold.
    Slow,
    /// Moving above the speed threshold.
    Fast,
}

/// Orientation relative to upright.
#[derive(Clone, Copy, Debug, PartialEq, Eq, Hash, Structural)]
pub enum Orientation {
    /// Tilt within the upright range.
    Upright,
    /// Tilted beyond the upright range.
    Tilted,
}

/// Period of the day.
#[derive(Clone, Copy, Debug, PartialEq, Eq, Hash, Structural)]
pub enum TimePeriod {
    /// Daytime.
    Day,
    /// Evening.
    Evening,
    /// Night.
    Night,
}

impl BrightnessBand {
    /// The quantised feature of this level.
    pub open spec fn level(self) -> u16 {
        match self {
            BrightnessBand::Dark => LEVEL_LOW,
            BrightnessBand::Dim => LEVEL_MID,
            BrightnessBand::Bright => LEVEL_HIGH,
        }
    }
}

impl NoiseBand {
    /// The quantised feature of this level.
    pub open spec fn level(self) -> u16 {
        match self {
            NoiseBand::Quiet => LEVEL_LOW,
            NoiseBand::Moderate => LEVEL_MID,
            NoiseBand::Loud => LEVEL_HIGH,
        }
    }
}

impl PresenceSignature {
    /// The quantised feature of this level.
    pub open spec fn level(self) -> u16 {
        match self {
            PresenceSignature::Absent => LEVEL_LOW,
            PresenceSignature::Far => LEVEL_MID,
            PresenceSignature::Close => LEVEL_HIGH,
        }
    }
}

impl MotionContext {
    /// The quantised feature of this level.
    pub open spec fn level(self) -> u16 {
        match self {
            MotionContext::Static => LEVEL_LOW,
            MotionContext::Slow => LEVEL_MID,
            MotionContext::Fast => LEVEL_HIGH,
        }
    }
}

impl Orientation {
    /// The quantised feature of this level.
    pub open spec fn level(self) -> u16 {
        match self {
            Orientation::Upright => LEVEL_LOW,
            Orientation::Tilted => LEVEL_HIGH,
        }
    }
}

impl TimePeriod {
    /// The quantised feature of this level.
    pub open spec fn level(self) -> u16 {
        match self {
            TimePeriod::Day => LEVEL_LOW,
            TimePeriod::Evening => LEVEL_MID,
            TimePeriod::Night => LEVEL_HIGH,
        }
    }
}

/// One snapshot of the six sensor dimensions.
#[derive(Clone, Copy, Debug, PartialEq, Eq, Hash, Structural)]
pub struct MbotSensors {
    /// Ambient light level.
    pub brightness: BrightnessBand,
    /// Ambient sound level.
    pub noise: NoiseBand,
    /// Nearby presence.
    pub presence: PresenceSignature,
    /// Motion of the robot.
    pub motion: MotionContext,
    /// Orientation of the robot.
    pub orientation: Orientation,
    /// Period of the day.
    pub time_period: TimePeriod,
}

impl MbotSensors {
    /// The quantised feature vector of this snapshot: one level per dimension.
    pub open spec fn features(&self) -> Seq<u16> {
        seq![
            self.brightness.level(),
            self.noise.level(),
            self.presence.level(),
            self.motion.level(),
            self.orientation.level(),
            self.time_period.level(),
        ]
    }

    /// The context key of this snapshot.
    pub fn context_key(self) -> (key: MbotContextKey)
        ensures
            key.snapshot() == self,
            key.features() == self.features(),
    {
        let features: [u16; 6] = self.to_feature_vec();
        ContextKey::with_features(self, features)
    }
}

impl SensorVocabulary<6> for MbotSensors {
    fn to_feature_vec(&self) -> (v: [u16; 6])
        ensures
            v@ == self.features(),
    {
        let b: u16 = match self.brightness {
            BrightnessBand::Dark => LEVEL_LOW,
            BrightnessBand::Dim => LEVEL_MID,
            BrightnessBand::Bright => LEVEL_HIGH,
        };
        let n: u16 = match self.noise {
            NoiseBand::Quiet => LEVEL_LOW,
            NoiseBand::Moderate => LEVEL_MID,
            NoiseBand::Loud => LEVEL_HIGH,
        };
        let p: u16 = match self.presence {
            PresenceSignature::Absent => LEVEL_LOW,
            PresenceSignature::Far => LEVEL_MID,
            PresenceSignature::Close => LEVEL_HIGH,
        };
        let m: u16 = match self.motion {
            MotionContext::Static => LEVEL_LOW,
            MotionContext::Slow => LEVEL_MID,
            MotionContext::Fast => LEVEL_HIGH,
        };
        let o: u16 = match self.orientation {
            Orientation::Upright => LEVEL_LOW,
            Orientation::Tilted => LEVEL_HIGH,
        };
        let t: u16 = match self.time_period {
            TimePeriod::Day => LEVEL_LOW,
            TimePeriod::Evening => LEVEL_MID,
            TimePeriod::Night => LEVEL_HIGH,
        };
        let v: [u16; 6] = [b, n, p, m, o, t];
        assert(v@ =~= self.features());
        v
    }
}

/// The context key of the reference vocabulary.
pub type MbotContextKey = ContextKey<MbotSensors, 6>;

/// Two snapshots with the same feature vector are the same snapshot: the
/// feature vector identifies the context.
pub proof fn lemma_mbot_features_injective(a: MbotSensors, b: MbotSensors)
    requires
        a.features() == b.features(),
    ensures
        a == b,
{
    assert(a.features()[0] == b.features()[0]);
    assert(a.features()[1] == b.features()[1]);
    assert(a.features()[2] == b.features()[2]);
    assert(a.features()[3] == b.features()[3]);
    assert(a.features()[4] == b.features()[4]);
    assert(a.features()[5] == b.features()[5]);
}

} // verus!
