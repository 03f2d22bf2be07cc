//! How well NPCs see.
use vstd::prelude::*;

use crate::float_bits::{F32Bits, F32_ONE};
use crate::region::RegionId;

verus! {

/// How well NPCs see.
#[derive(Clone, Debug)]
pub struct PerceptionConfig {
    /// Width of the field of view, in degrees.
    pub fov_deg: F32Bits,
    pub sight_radius_m: F32Bits,
    /// How much of a target has to be visible for it to be seen.
    pub exposure_required: F32Bits,
    /// Whether it counts what stands in between.
    pub los_enabled: bool,
    /// Heights above the ground at which a target is looked for.
    pub sample_heights_m: Vec<F32Bits>,
    /// How visible a target is behind what hides and does not block.
    pub concealment_visibility: F32Bits,
    pub eye_height_m: F32Bits,
}

/// The bit pattern of `110.0`.
pub const USUAL_FOV_DEG: u32 = 0x42dc_0000;

/// The bit pattern of `80.0`.
pub const USUAL_SIGHT_RADIUS_M: u32 = 0x42a0_0000;

/// The bit pattern of `0.33`.
pub const USUAL_EXPOSURE: u32 = 0x3ea8_f5c3;

/// The bit pattern of `0.2`, the height of the feet.
pub const FEET_M: u32 = 0x3e4c_cccd;

/// The bit pattern of `1.0`, the height of the torso.
pub const TORSO_M: u32 = 0x3f80_0000;

/// The bit pattern of `1.7`, the height of the head.
pub const HEAD_M: u32 = 0x3fd9_999a;

/// The bit pattern of `0.5`.
pub const USUAL_CONCEALMENT: u32 = 0x3f00_0000;

/// The bit pattern of `1.6`.
pub const USUAL_EYE_HEIGHT_M: u32 = 0x3fcc_cccd;

impl Default for PerceptionConfig {
    fn default() -> (r: Self)
        ensures
            r.fov_deg.0 == USUAL_FOV_DEG,
            r.sight_radius_m.0 == USUAL_SIGHT_RADIUS_M,
            r.exposure_required.0 == USUAL_EXPOSURE,
            r.los_enabled,
            r.sample_heights_m@ == seq![F32Bits(FEET_M), F32Bits(TORSO_M), F32Bits(HEAD_M)],
            r.concealment_visibility.0 == USUAL_CONCEALMENT,
            r.eye_height_m.0 == USUAL_EYE_HEIGHT_M,
    {
        let heights = vec![F32Bits(FEET_M), F32Bits(TORSO_M), F32Bits(HEAD_M)];
        assert(heights@ =~= seq![F32Bits(FEET_M), F32Bits(TORSO_M), F32Bits(HEAD_M)]);
        PerceptionConfig {
            fov_deg: F32Bits(USUAL_FOV_DEG),
            sight_radius_m: F32Bits(USUAL_SIGHT_RADIUS_M),
            exposure_required: F32Bits(USUAL_EXPOSURE),
            los_enabled: true,
            sample_heights_m: heights,
            concealment_visibility: F32Bits(USUAL_CONCEALMENT),
            eye_height_m: F32Bits(USUAL_EYE_HEIGHT_M),
        }
    }
}

/// Tells how much of a target is visible from somewhere.
pub trait LosProvider {
    /// How much of what stands at `to` is visible from `from`, from zero to
    /// one.
    fn exposure(
        &self,
        from: [F32Bits; 3],
        to: [F32Bits; 3],
        region: RegionId,
        config: &PerceptionConfig,
    ) -> F32Bits;

    /// True only if everything is visible, so that there is no need to ask.
    fn is_pass_through_on_current_thread(&self) -> (r: bool)
        default_ensures
            !r,
    {
        false
    }
}

/// Sees everything.
#[derive(Clone, Copy, Debug, PartialEq, Eq, Structural)]
pub struct AlwaysVisibleLos;

impl LosProvider for AlwaysVisibleLos {
    fn exposure(
        &self,
        from: [F32Bits; 3],
        to: [F32Bits; 3],
        region: RegionId,
        config: &PerceptionConfig,
    ) -> (r: F32Bits)
        ensures
            r == F32Bits(F32_ONE),
    {
        F32Bits(F32_ONE)
    }

    fn is_pass_through_on_current_thread(&self) -> (r: bool)
        ensures
            r,
    {
        true
    }
}

} // verus!
