//! The on/off switch of the light.

use std::sync::Arc;

use vstd::prelude::*;

use crate::brightness::{backlight_value, scaled_brightness};
use crate::filesystem::{file_text, DryDevice, FilesystemManager};
use crate::level_control::{detect_max_brightness, detected_max_brightness};
use crate::persistent_state::{decoded, encoded, OnOffPersistentState, StartUpOnOffEnum};
use crate::ratio::Ratio;
use crate::shared::{read_as, read_ratio, store_ratio, stored, SharedRatios};

verus! {

/// What a switch of the light needs next.
#[derive(Clone, Copy, Debug)]
pub enum OnOffStep {
    /// The text of the file of the highest brightness, which is to be handed
    /// to `max_backlight_read` with these values.
    ReadMaxBacklight { matter: Ratio, ambient: Ratio },
    /// This brightness is to be written; how that went is to be handed to
    /// `backlight_written`.
    WriteBacklight { brightness: u32 },
    /// This byte is to be saved; how that went is to be handed to
    /// `state_saved`.
    SaveState { byte: u8 },
    /// Nothing: the switch is over.
    Finished,
}

/// The on/off switch and what it does at the start of the device.
#[derive(Debug)]
pub struct OnOffDeviceLogic {
    pub start_up_on_off: Option<StartUpOnOffEnum>,
    pub max_brightness: u32,
    pub filesystem_manager: Arc<FilesystemManager>,
}

impl OnOffDeviceLogic {
    /// A switch whose highest brightness comes from the text of its file, and
    /// its state from the byte that was saved, if there is one.
    pub fn new(
        filesystem_manager: Arc<FilesystemManager>,
        max_file: Option<&str>,
        saved: Option<u8>,
    ) -> (r: Self)
        requires
            saved matches Some(byte) ==> decoded(byte) is Ok,
        ensures
            r.start_up_on_off == (match saved {
                Some(byte) => decoded(byte)->Ok_0.start_up_on_off,
                None => None,
            }),
            r.max_brightness == detected_max_brightness(*filesystem_manager, file_text(max_file)),
            r.filesystem_manager == filesystem_manager,
    {
        let max_brightness: u32 = detect_max_brightness(&filesystem_manager, max_file);
        let state: OnOffPersistentState = match saved {
            Some(byte) => match OnOffPersistentState::from_bytes(byte) {
                Ok(state) => state,
                Err(_) => OnOffPersistentState::default(),
            },
            None => OnOffPersistentState::default(),
        };
        OnOffDeviceLogic {
            start_up_on_off: state.start_up_on_off,
            max_brightness,
            filesystem_manager,
        }
    }

    /// The byte of the state. Whether the light is on is not kept, since it is
    /// read from the backlight.
    pub open spec fn state_byte(&self) -> nat {
        encoded(OnOffPersistentState { on_off: false, start_up_on_off: self.start_up_on_off })
    }

    /// The byte to save; there is none where no file may be touched.
    pub fn save_state(&self) -> (r: Option<u8>)
        ensures
            r is Some <==> !self.filesystem_manager.no_filesystem,
            r matches Some(byte) ==> byte == self.state_byte(),
            r matches Some(byte) ==> (decoded(byte) matches Ok(state) && state.start_up_on_off
                == self.start_up_on_off),
    {
        if self.filesystem_manager.no_filesystem {
            return None;
        }
        Some(OnOffPersistentState::to_bytes_from_values(false, self.start_up_on_off))
    }

    /// Whether the light is on: its brightness, from the text of its file, is
    /// known and not zero.
    pub fn on_off(&self, dry: &DryDevice, file: Option<&str>) -> (r: bool)
        ensures
            r == (self.filesystem_manager.backlight(*dry, file_text(file)) matches Ok(brightness)
                && brightness > 0),
    {
        match self.filesystem_manager.read_backlight(dry, file) {
            Ok(brightness) => brightness > 0,
            Err(_) => false,
        }
    }

    /// The brightness to switch on to, once the highest is known: the highest
    /// itself where the ratios cannot be scaled.
    pub open spec fn brightness_after_max(
        &self,
        matter: u32,
        ambient: u32,
        file: Option<Seq<char>>,
    ) -> u32 {
        match self.filesystem_manager.mapped_brightness(matter, ambient, file) {
            Ok(brightness) => backlight_value(brightness),
            Err(_) => self.max_brightness,
        }
    }

    /// What follows once the backlight was written, or failed to be: the state
    /// is saved all the same, unless no file may be touched.
    pub open spec fn step_after_write(&self, written: bool) -> OnOffStep {
        if self.filesystem_manager.no_filesystem {
            OnOffStep::Finished
        } else {
            OnOffStep::SaveState { byte: self.state_byte() as u8 }
        }
    }

    /// What follows once the state was saved, or failed to be: nothing.
    pub open spec fn step_after_save(&self, saved: bool) -> OnOffStep {
        OnOffStep::Finished
    }

    /// Starts to switch the light. Off keeps the light's ratio for the next
    /// time it is switched on and makes it dark; on goes back to the ratio
    /// that was kept.
    pub fn set_on_off(&self, ratios: &mut SharedRatios, on: bool) -> (r: OnOffStep)
        ensures
            final(ratios).ambient == old(ratios).ambient,
            final(ratios).matter == old(ratios).matter,
            on ==> final(ratios).previous == old(ratios).previous,
            !on ==> stored(
                old(ratios).previous,
                final(ratios).previous,
                read_as(old(ratios).matter),
            ),
            !on || read_as(old(ratios).previous) == 0 ==> r == (OnOffStep::WriteBacklight {
                brightness: 0,
            }),
            on && read_as(old(ratios).previous) != 0 ==> (r matches OnOffStep::ReadMaxBacklight {
                matter,
                ambient,
            } && matter@ == read_as(old(ratios).previous) && ambient@ == read_as(
                old(ratios).ambient,
            )),
    {
        let ambient: Ratio = read_ratio(ratios.ambient);
        let matter: Ratio = read_ratio(ratios.previous);
        if on {
            if matter.is_zero() {
                proof {
                    crate::brightness::lemma_zero_is_dark();
                }
                self.max_backlight_read(matter, ambient, None)
            } else {
                OnOffStep::ReadMaxBacklight { matter, ambient }
            }
        } else {
            ratios.previous = store_ratio(ratios.previous, read_ratio(ratios.matter));
            OnOffStep::WriteBacklight { brightness: 0 }
        }
    }

    /// Goes on once the file of the highest brightness was read.
    pub fn max_backlight_read(
        &self,
        matter: Ratio,
        ambient: Ratio,
        max_file: Option<&str>,
    ) -> (r: OnOffStep)
        requires
            self.filesystem_manager.can_scale(matter@, file_text(max_file)),
        ensures
            r == (OnOffStep::WriteBacklight {
                brightness: self.brightness_after_max(matter@, ambient@, file_text(max_file)),
            }),
    {
        let brightness: u32 = match self.filesystem_manager.map_matter_and_ambient_light_to_brightness(
            matter.float(),
            ambient.float(),
            max_file,
        ) {
            Ok(brightness) => brightness.to_u32(),
            Err(_) => self.max_brightness,
        };
        OnOffStep::WriteBacklight { brightness }
    }

    /// Goes on once the brightness was written, or failed to be.
    pub fn backlight_written(&self, written: bool) -> (r: OnOffStep)
        ensures
            r == self.step_after_write(written),
    {
        match self.save_state() {
            Some(byte) => OnOffStep::SaveState { byte },
            None => OnOffStep::Finished,
        }
    }

    /// Ends the switch once the state was saved, or failed to be.
    pub fn state_saved(&self, saved: bool) -> (r: OnOffStep)
        ensures
            r == self.step_after_save(saved),
    {
        OnOffStep::Finished
    }

    /// What the light does at the start of the device.
    pub fn start_up_on_off(&self) -> (r: Option<StartUpOnOffEnum>)
        ensures
            r == self.start_up_on_off,
    {
        self.start_up_on_off
    }

    /// Sets what the light does at the start of the device; the byte that
    /// comes back is to be saved. There is none where no file may be touched.
    pub fn set_start_up_on_off(&mut self, value: Option<StartUpOnOffEnum>) -> (r: Option<u8>)
        ensures
            final(self).start_up_on_off == value,
            final(self).max_brightness == old(self).max_brightness,
            final(self).filesystem_manager == old(self).filesystem_manager,
            r is Some <==> !old(self).filesystem_manager.no_filesystem,
            r matches Some(byte) ==> byte == encoded(
                OnOffPersistentState { on_off: false, start_up_on_off: value },
            ),
            r matches Some(byte) ==> (decoded(byte) matches Ok(state) && state.start_up_on_off
                == value),
    {
        self.start_up_on_off = value;
        self.save_state()
    }
}

/// A light that is switched on has the scaled brightness without its fraction,
/// or the highest that was detected where the highest is needed and cannot be
/// told now; one whose kept ratio is at most zero stays dark.
pub proof fn law_switching_on_writes_the_scaled_brightness(
    on_off: OnOffDeviceLogic,
    matter: u32,
    ambient: u32,
    file: Option<Seq<char>>,
)
    ensures
        ({
            let dark = matter == 0 || 0x8000_0000 <= matter <= 0xff80_0000;
            let brightness = on_off.brightness_after_max(matter, ambient, file);
            &&& dark ==> brightness == 0
            &&& !dark ==> brightness == (match on_off.filesystem_manager.max_backlight(file) {
                Ok(max) => backlight_value(scaled_brightness(matter, ambient, max)),
                Err(_) => on_off.max_brightness,
            })
        }),
{
    crate::brightness::lemma_zero_is_dark();
}

/// The byte that is saved has its lowest bit clear, and above it what the light
/// does at the start.
pub proof fn law_saved_byte_holds_the_start_up_behaviour(on_off: OnOffDeviceLogic)
    ensures
        on_off.state_byte() == (match on_off.start_up_on_off {
            Some(StartUpOnOffEnum::Off) => 0nat,
            Some(StartUpOnOffEnum::On) => 2,
            Some(StartUpOnOffEnum::Toggle) => 4,
            None => 6,
        }),
{
}

/// What follows a write does not depend on how it went: the byte is saved, or
/// nothing is where no file may be touched. Nothing follows the save.
pub proof fn law_outcome_of_the_write_does_not_matter(
    on_off: OnOffDeviceLogic,
    written: bool,
    saved: bool,
)
    ensures
        on_off.filesystem_manager.no_filesystem ==> on_off.step_after_write(written)
            == OnOffStep::Finished,
        !on_off.filesystem_manager.no_filesystem ==> (on_off.step_after_write(
            written,
        ) matches OnOffStep::SaveState { byte } && byte == on_off.state_byte()),
        on_off.step_after_save(saved) == OnOffStep::Finished,
{
}

}
