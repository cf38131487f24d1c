//! Movement and vision capabilities as bit flags.

use vstd::prelude::*;

verus! {

/// One movement capability, or one of the sentinels `Nothing` (nothing
/// permitted) and `Any` (every capability).
#[derive(Clone, Copy, Debug, PartialEq, Eq, Structural, Hash)]
pub enum MovementType {
    Nothing,
    Walk,
    Swim,
    Fly,
    Phase,
    Any,
}

impl MovementType {
    pub open spec fn spec_mask(self) -> u8 {
        match self {
            MovementType::Nothing => 0,
            MovementType::Walk => 1,
            MovementType::Swim => 2,
            MovementType::Fly => 4,
            MovementType::Phase => 8,
            MovementType::Any => 0xff,
        }
    }

    /// The flag bits of this capability.
    pub fn as_u8(self) -> (r: u8)
        ensures
            r == self.spec_mask(),
    {
        match self {
            MovementType::Nothing => 0,
            MovementType::Walk => 1,
            MovementType::Swim => 2,
            MovementType::Fly => 4,
            MovementType::Phase => 8,
            MovementType::Any => 0xff,
        }
    }
}

/// One vision capability, or one of the sentinels `Nothing` (nothing) and `Any`
/// (every capability).
#[derive(Clone, Copy, Debug, PartialEq, Eq, Structural, Hash)]
pub enum VisionType {
    Nothing,
    Blind,
    BlackAndWhite,
    Colored,
    Infrared,
    XRay,
    Any,
}

/// The flag of a blind viewer.
pub const BLIND: u8 = 1;

impl VisionType {
    pub open spec fn spec_mask(self) -> u8 {
        match self {
            VisionType::Nothing => 0,
            VisionType::Blind => BLIND,
            VisionType::BlackAndWhite => 2,
            VisionType::Colored => 4,
            VisionType::Infrared => 8,
            VisionType::XRay => 16,
            VisionType::Any => 0xff,
        }
    }

    /// The flag bits of this capability.
    pub fn as_u8(self) -> (r: u8)
        ensures
            r == self.spec_mask(),
    {
        match self {
            VisionType::Nothing => 0,
            VisionType::Blind => BLIND,
            VisionType::BlackAndWhite => 2,
            VisionType::Colored => 4,
            VisionType::Infrared => 8,
            VisionType::XRay => 16,
            VisionType::Any => 0xff,
        }
    }
}

} // verus!
