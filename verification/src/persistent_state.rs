//! The state of the on/off switch as it is kept between runs: one byte.

use vstd::prelude::*;

use crate::error::Error;

verus! {

/// The name of the file, among the temporary files, that holds the byte.
pub const STORAGE_FILE_NAME: &'static str = "rs-matter-on-off-state";

/// What the light does at the start of the device.
#[derive(Clone, Copy, Debug, PartialEq, Eq, Structural)]
pub enum StartUpOnOffEnum {
    Off,
    On,
    Toggle,
}

/// The state of the switch.
#[derive(Clone, Copy, Debug, PartialEq, Eq, Structural)]
pub struct OnOffPersistentState {
    pub on_off: bool,
    pub start_up_on_off: Option<StartUpOnOffEnum>,
}

/// The number, in two bits, of what the light does at the start.
pub open spec fn start_up_code(start_up_on_off: Option<StartUpOnOffEnum>) -> nat {
    match start_up_on_off {
        Some(StartUpOnOffEnum::Off) => 0,
        Some(StartUpOnOffEnum::On) => 1,
        Some(StartUpOnOffEnum::Toggle) => 2,
        None => 3,
    }
}

/// The byte of a state: whether the light is on in the lowest bit, and what it
/// does at the start in the two bits above.
pub open spec fn encoded(state: OnOffPersistentState) -> nat {
    2 * start_up_code(state.start_up_on_off) + (if state.on_off { 1nat } else { 0nat })
}

/// The state of a byte; a failure where no state has that byte.
pub open spec fn decoded(data: u8) -> Result<OnOffPersistentState, Error> {
    let on_off = data % 2 == 1;
    match data / 2 {
        0 => Ok(OnOffPersistentState { on_off, start_up_on_off: Some(StartUpOnOffEnum::Off) }),
        1 => Ok(OnOffPersistentState { on_off, start_up_on_off: Some(StartUpOnOffEnum::On) }),
        2 => Ok(OnOffPersistentState { on_off, start_up_on_off: Some(StartUpOnOffEnum::Toggle) }),
        3 => Ok(OnOffPersistentState { on_off, start_up_on_off: None }),
        _ => Err(Error::Failure),
    }
}

impl Default for OnOffPersistentState {
    /// The state where none is kept.
    fn default() -> (r: Self)
        ensures
            r == (OnOffPersistentState { on_off: false, start_up_on_off: None }),
    {
        OnOffPersistentState { on_off: false, start_up_on_off: None }
    }
}

impl OnOffPersistentState {
    /// The byte of a state.
    pub fn to_bytes_from_values(
        on_off: bool,
        start_up_on_off: Option<StartUpOnOffEnum>,
    ) -> (r: u8)
        ensures
            r == encoded(OnOffPersistentState { on_off, start_up_on_off }),
    {
        let on_off: u8 = if on_off {
            1
        } else {
            0
        };
        let start_up_on_off: u8 = match start_up_on_off {
            Some(StartUpOnOffEnum::Off) => 0,
            Some(StartUpOnOffEnum::On) => 1,
            Some(StartUpOnOffEnum::Toggle) => 2,
            None => 3,
        };
        assert(start_up_on_off <= 3 ==> start_up_on_off << 1 == 2 * start_up_on_off)
            by (bit_vector);
        on_off + (start_up_on_off << 1)
    }

    /// The state of a byte; a failure where no state has that byte.
    pub fn from_bytes(data: u8) -> (r: Result<Self, Error>)
        ensures
            r == decoded(data),
    {
        assert(data & 1 == data % 2) by (bit_vector);
        assert(data >> 1 == data / 2) by (bit_vector);
        Ok(
            OnOffPersistentState {
                on_off: data & 1 != 0,
                start_up_on_off: match data >> 1 {
                    0 => Some(StartUpOnOffEnum::Off),
                    1 => Some(StartUpOnOffEnum::On),
                    2 => Some(StartUpOnOffEnum::Toggle),
                    3 => None,
                    _ => return Err(Error::Failure),
                },
            },
        )
    }
}

/// The byte of a state gives the state back.
pub proof fn law_state_survives_byte(state: OnOffPersistentState)
    ensures
        encoded(state) < 8,
        decoded(encoded(state) as u8) == Ok::<OnOffPersistentState, Error>(state),
{
}

/// The bytes below eight are the bytes of a state, and no others are.
pub proof fn law_bytes_of_states(data: u8)
    ensures
        decoded(data) is Ok <==> data < 8,
        decoded(data) matches Ok(state) ==> encoded(state) == data,
{
}

/// The lowest bit of the byte tells whether the light is on, and the two bits
/// above it what the light does at the start: off, on, toggle, or nothing.
pub proof fn law_layout_of_the_byte(state: OnOffPersistentState)
    ensures
        encoded(state) % 2 == 1 <==> state.on_off,
        encoded(state) / 2 == 0 <==> state.start_up_on_off == Some(StartUpOnOffEnum::Off),
        encoded(state) / 2 == 1 <==> state.start_up_on_off == Some(StartUpOnOffEnum::On),
        encoded(state) / 2 == 2 <==> state.start_up_on_off == Some(StartUpOnOffEnum::Toggle),
        encoded(state) / 2 == 3 <==> state.start_up_on_off is None,
{
}

/// Different states have different bytes.
pub proof fn law_states_are_told_apart(a: OnOffPersistentState, b: OnOffPersistentState)
    ensures
        encoded(a) == encoded(b) <==> a == b,
{
}

/// The name of the file of the byte.
pub proof fn law_name_of_the_file()
    ensures
        STORAGE_FILE_NAME@ == "rs-matter-on-off-state"@,
{
}

}
