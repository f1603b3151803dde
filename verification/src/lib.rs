//! Device logic of a dimmable light that drives a Linux backlight and follows
//! the ambient light.

pub mod ambient_spoof;
pub mod args;
pub mod auto_brightness;
pub mod binary32;
pub mod brightness;
pub mod error;
pub mod filesystem;
pub mod float;
pub mod laws;
pub mod level_control;
pub mod on_off;
pub mod persistent_state;
pub mod ratio;
pub mod rounding;
pub mod shared;
pub mod text;
