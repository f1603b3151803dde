//! Simulated ambient light, for where no sensor may be read.

use vstd::prelude::*;

use crate::auto_brightness::AMBIENT_LIGHT_SENSOR_MAX;
use crate::filesystem::DryDevice;

verus! {

/// How far the simulated light moves at a time.
pub const SPOOF_STEP: u32 = 5;

/// The direction in which the simulated light moves.
#[derive(Clone, Copy, Debug, PartialEq, Eq, Structural)]
pub struct AmbientLightSpoof {
    pub increasing: bool,
}

impl AmbientLightSpoof {
    /// The direction at the start of the program: upwards.
    pub fn new() -> (r: Self)
        ensures
            r.increasing,
    {
        AmbientLightSpoof { increasing: true }
    }

    /// Whether the light can move in its direction.
    pub open spec fn can_step(self, ambient_light: u32) -> bool {
        if self.increasing {
            ambient_light <= u32::MAX - SPOOF_STEP
        } else {
            ambient_light >= SPOOF_STEP
        }
    }

    /// The light after one move.
    pub open spec fn light_after(self, ambient_light: u32) -> int {
        if self.increasing {
            ambient_light + SPOOF_STEP
        } else {
            ambient_light - SPOOF_STEP
        }
    }

    /// The direction after one move: down from the sensor's highest reading
    /// on, up from zero on.
    pub open spec fn increasing_after(self, ambient_light: u32) -> bool {
        if self.increasing {
            self.light_after(ambient_light) < AMBIENT_LIGHT_SENSOR_MAX
        } else {
            self.light_after(ambient_light) == 0
        }
    }

    /// Whether the light is on one of the steps between zero and the sensor's
    /// highest reading, and not at the end that it moves towards.
    pub open spec fn between_ends(self, ambient_light: u32) -> bool {
        &&& ambient_light % SPOOF_STEP == 0
        &&& ambient_light <= AMBIENT_LIGHT_SENSOR_MAX
        &&& self.increasing ==> ambient_light < AMBIENT_LIGHT_SENSOR_MAX
        &&& !self.increasing ==> ambient_light > 0
    }

    /// Moves the light one step, and turns round at the ends.
    pub fn step(&mut self, dry: &mut DryDevice)
        requires
            old(self).can_step(old(dry).ambient_light),
        ensures
            final(dry).ambient_light == old(self).light_after(old(dry).ambient_light),
            final(dry).backlight == old(dry).backlight,
            final(self).increasing == old(self).increasing_after(old(dry).ambient_light),
    {
        if self.increasing {
            dry.ambient_light = dry.ambient_light + SPOOF_STEP;
            if dry.ambient_light >= AMBIENT_LIGHT_SENSOR_MAX {
                self.increasing = false;
            }
        } else {
            dry.ambient_light = dry.ambient_light - SPOOF_STEP;
            if dry.ambient_light == 0 {
                self.increasing = true;
            }
        }
    }
}

/// The light at the start of the program is between the ends, moving upwards,
/// and stays between them: it can always move on.
pub proof fn law_simulated_light_stays_between_ends(spoof: AmbientLightSpoof, ambient_light: u32)
    requires
        spoof.between_ends(ambient_light),
    ensures
        (AmbientLightSpoof { increasing: true }).between_ends(50),
        spoof.can_step(ambient_light),
        0 <= spoof.light_after(ambient_light) <= AMBIENT_LIGHT_SENSOR_MAX,
        (AmbientLightSpoof { increasing: spoof.increasing_after(ambient_light) }).between_ends(
            spoof.light_after(ambient_light) as u32,
        ),
{
}

/// The simulated light moves by five at a time: up until it has reached 70,
/// then down until it has reached zero. It cannot move only where it would
/// leave the range of its type.
pub proof fn law_simulated_light_moves_by_five(spoof: AmbientLightSpoof, ambient_light: u32)
    ensures
        spoof.increasing ==> {
            &&& spoof.light_after(ambient_light) == ambient_light + 5
            &&& spoof.increasing_after(ambient_light) <==> ambient_light + 5 < 70
            &&& spoof.can_step(ambient_light) <==> ambient_light + 5 <= 0xffff_ffff
        },
        !spoof.increasing ==> {
            &&& spoof.light_after(ambient_light) == ambient_light - 5
            &&& spoof.increasing_after(ambient_light) <==> ambient_light == 5
            &&& spoof.can_step(ambient_light) <==> ambient_light >= 5
        },
        spoof.between_ends(ambient_light) <==> ambient_light % 5 == 0 && (if spoof.increasing {
            ambient_light < 70
        } else {
            0 < ambient_light <= 70
        }),
{
}

}
