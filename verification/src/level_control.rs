//! The level of the light.

use std::sync::Arc;

use vstd::prelude::*;

use crate::brightness::{backlight_value, scaled_brightness};
use crate::error::Error;
use crate::filesystem::{file_text, FilesystemManager};
use crate::ratio::{
    law_level_survives_ratio, law_only_level_zero_is_dark, level_ratio, ratio_level, Ratio,
};
use crate::shared::{read_as, read_ratio, store_ratio, stored, SharedRatios};

verus! {

/// The lowest level of the light.
pub const MIN_LEVEL: u8 = 1;

/// The highest level of the light.
pub const MAX_LEVEL: u8 = 254;

/// The fastest rate, in levels per second, at which the light changes.
pub const FASTEST_RATE: u8 = 50;

/// The highest brightness of a device that does not tell its own.
pub const FALLBACK_MAX_BRIGHTNESS: u32 = 255;

/// What a change of the level needs next.
#[derive(Clone, Copy, Debug)]
pub enum LevelStep {
    /// The text of the file of the highest brightness, which is to be handed
    /// to `max_backlight_read` with these values.
    ReadMaxBacklight { level: u8, matter: Ratio, ambient: Ratio },
    /// This brightness is to be written; how that went is to be handed to
    /// `backlight_written` with the level.
    WriteBacklight { level: u8, brightness: u32 },
    /// Nothing: the change is over, with this result.
    Finished(Result<Option<u8>, ()>),
}

/// The level of the light and what it is at the start of the device.
#[derive(Debug)]
pub struct LevelControlDeviceLogic {
    pub start_up_current_level: Option<u8>,
    pub max_brightness: u32,
    pub filesystem_manager: Arc<FilesystemManager>,
}

/// The highest brightness that a device is taken to have, given the text of
/// its file.
pub open spec fn detected_max_brightness(
    filesystem_manager: FilesystemManager,
    max_file: Option<Seq<char>>,
) -> u32 {
    match filesystem_manager.max_backlight(max_file) {
        Ok(max) => max,
        Err(_) => FALLBACK_MAX_BRIGHTNESS,
    }
}

/// Detects the highest brightness of a device, from the text of its file.
pub fn detect_max_brightness(
    filesystem_manager: &FilesystemManager,
    max_file: Option<&str>,
) -> (r: u32)
    ensures
        r == detected_max_brightness(*filesystem_manager, file_text(max_file)),
{
    match filesystem_manager.get_max_backlight(max_file) {
        Ok(max) => max,
        Err(_) => FALLBACK_MAX_BRIGHTNESS,
    }
}

impl LevelControlDeviceLogic {
    /// A light whose highest brightness comes from the text of its file.
    pub fn new(filesystem_manager: Arc<FilesystemManager>, max_file: Option<&str>) -> (r: Self)
        ensures
            r.start_up_current_level is None,
            r.max_brightness == detected_max_brightness(*filesystem_manager, file_text(max_file)),
            r.filesystem_manager == filesystem_manager,
    {
        let max_brightness: u32 = detect_max_brightness(&filesystem_manager, max_file);
        LevelControlDeviceLogic {
            start_up_current_level: None,
            max_brightness,
            filesystem_manager,
        }
    }

    /// What follows once the highest brightness is known.
    pub open spec fn step_after_max(
        &self,
        level: u8,
        matter: u32,
        ambient: u32,
        file: Option<Seq<char>>,
    ) -> LevelStep {
        match self.filesystem_manager.mapped_brightness(matter, ambient, file) {
            Ok(brightness) => LevelStep::WriteBacklight {
                level,
                brightness: backlight_value(brightness),
            },
            Err(_) => LevelStep::Finished(Err(())),
        }
    }

    /// Starts to set the level: its ratio is stored for the rest of the device
    /// to use. The level zero needs no file.
    pub fn set_device_level(&self, ratios: &mut SharedRatios, level: u8) -> (r: LevelStep)
        ensures
            stored(old(ratios).matter, final(ratios).matter, level_ratio(level)),
            final(ratios).matter matches Some(ratio) ==> ratio_level(ratio@) == level,
            final(ratios).ambient == old(ratios).ambient,
            final(ratios).previous == old(ratios).previous,
            level == 0 ==> r == (LevelStep::WriteBacklight { level, brightness: 0 }),
            level != 0 ==> (r matches LevelStep::ReadMaxBacklight { level: l, matter, ambient }
                && l == level && matter@ == level_ratio(level) && ambient@ == read_as(
                old(ratios).ambient,
            )),
    {
        let ambient: Ratio = read_ratio(ratios.ambient);
        let matter: Ratio = Ratio::of_level(level);
        ratios.matter = store_ratio(ratios.matter, matter);
        proof {
            law_only_level_zero_is_dark(level);
            law_level_survives_ratio(level);
        }
        if matter.is_zero() {
            proof {
                crate::brightness::lemma_zero_is_dark();
            }
            self.max_backlight_read(level, matter, ambient, None)
        } else {
            LevelStep::ReadMaxBacklight { level, matter, ambient }
        }
    }

    /// Goes on once the file of the highest brightness was read.
    pub fn max_backlight_read(
        &self,
        level: u8,
        matter: Ratio,
        ambient: Ratio,
        max_file: Option<&str>,
    ) -> (r: LevelStep)
        requires
            self.filesystem_manager.can_scale(matter@, file_text(max_file)),
        ensures
            r == self.step_after_max(level, matter@, ambient@, file_text(max_file)),
    {
        match self.filesystem_manager.map_matter_and_ambient_light_to_brightness(
            matter.float(),
            ambient.float(),
            max_file,
        ) {
            Ok(brightness) => LevelStep::WriteBacklight { level, brightness: brightness.to_u32() },
            Err(_) => LevelStep::Finished(Err(())),
        }
    }

    /// Ends the change once the brightness was written, or failed to be.
    pub fn backlight_written(&self, level: u8, written: bool) -> (r: Result<Option<u8>, ()>)
        ensures
            written ==> r == Ok::<Option<u8>, ()>(Some(level)),
            !written ==> r == Err::<Option<u8>, ()>(()),
    {
        if written {
            Ok(Some(level))
        } else {
            Err(())
        }
    }

    /// The level of the light; none where its ratio cannot be reached.
    pub fn current_level(&self, ratios: &SharedRatios) -> (r: Option<u8>)
        ensures
            r == (match ratios.matter {
                Some(ratio) => Some(ratio_level(ratio@)),
                None => None,
            }),
    {
        match ratios.matter {
            Some(ratio) => Some(ratio.to_level()),
            None => None,
        }
    }

    /// The level that the light is to have at the start of the device.
    pub fn start_up_current_level(&self) -> (r: Result<Option<u8>, Error>)
        ensures
            r == Ok::<Option<u8>, Error>(self.start_up_current_level),
    {
        Ok(self.start_up_current_level)
    }

    /// Sets the level that the light is to have at the start of the device.
    pub fn set_start_up_current_level(&mut self, value: Option<u8>) -> (r: Result<(), Error>)
        ensures
            r is Ok,
            final(self).start_up_current_level == value,
            final(self).max_brightness == old(self).max_brightness,
            final(self).filesystem_manager == old(self).filesystem_manager,
    {
        self.start_up_current_level = value;
        Ok(())
    }
}

/// The highest brightness that a device is taken to have is the one that it
/// tells, or 255.
pub proof fn law_detected_highest_is_what_the_device_tells(
    filesystem_manager: FilesystemManager,
    file: Option<Seq<char>>,
)
    ensures
        filesystem_manager.max_backlight(file) matches Ok(max) ==> detected_max_brightness(
            filesystem_manager,
            file,
        ) == max,
        filesystem_manager.max_backlight(file) is Err ==> detected_max_brightness(
            filesystem_manager,
            file,
        ) == 255,
{
}

/// Once the file of the highest brightness was read, the scaled brightness is
/// written without its fraction; the change fails where the highest is needed
/// and not known.
pub proof fn law_level_writes_the_scaled_brightness(
    level_control: LevelControlDeviceLogic,
    level: u8,
    matter: u32,
    ambient: u32,
    file: Option<Seq<char>>,
)
    ensures
        ({
            let dark = matter == 0 || 0x8000_0000 <= matter <= 0xff80_0000;
            let step = level_control.step_after_max(level, matter, ambient, file);
            &&& dark ==> step == (LevelStep::WriteBacklight { level, brightness: 0 })
            &&& !dark ==> step == (match level_control.filesystem_manager.max_backlight(file) {
                Ok(max) => LevelStep::WriteBacklight {
                    level,
                    brightness: backlight_value(scaled_brightness(matter, ambient, max)),
                },
                Err(_) => LevelStep::Finished(Err(())),
            })
        }),
{
    crate::brightness::lemma_zero_is_dark();
}

/// The levels of the light run from 1 to 254, by 50 a second at most.
pub proof fn law_limits_of_the_level()
    ensures
        MIN_LEVEL == 1,
        MAX_LEVEL == 254,
        FASTEST_RATE == 50,
{
}

}
