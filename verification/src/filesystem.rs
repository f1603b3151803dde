//! The attribute files of the backlight and of the ambient light sensor, and
//! what stands for them when no file may be touched.

use vstd::prelude::*;
use vstd::string::*;

use crate::binary32::Binary32;
use crate::brightness::{scale_brightness, scaled_brightness, MIN_BRIGHTNESS};
use crate::error::Error;
use crate::float::{at_most_zero, Float};
use crate::text::{
    decimal_number, decimal_text, format_number, is_white_space, law_written_number_reads_back,
    parse_number, trim,
};

verus! {

/// The directory of the backlight.
pub const BACKLIGHT_DEVICE_PATH: &'static str = "/sys/class/backlight/intel_backlight";

/// The file, in the directory of the backlight, of the brightness it has.
pub const BRIGHTNESS_FILE: &'static str = "brightness";

/// The file, in the directory of the backlight, of its highest brightness.
pub const MAX_BRIGHTNESS_FILE: &'static str = "max_brightness";

/// The file of the ambient light sensor.
pub const AMBIENT_LIGHT_SENSOR_PATH: &'static str = "/sys/bus/iio/devices/iio:device0/in_illuminance_raw";

/// The highest brightness where no file may be touched.
pub const BACKLIGHT_MAX_VALUE_DRY: u32 = 1000;

/// A value that the kernel offers as a file.
#[derive(Clone, Copy, Debug, PartialEq, Eq, Structural)]
pub enum Attribute {
    MaxBacklight,
    Backlight,
    AmbientLight,
}

/// Where the file of an attribute is.
pub open spec fn attribute_path(attribute: Attribute) -> Seq<char> {
    match attribute {
        Attribute::MaxBacklight => BACKLIGHT_DEVICE_PATH@ + "/"@ + MAX_BRIGHTNESS_FILE@,
        Attribute::Backlight => BACKLIGHT_DEVICE_PATH@ + "/"@ + BRIGHTNESS_FILE@,
        Attribute::AmbientLight => AMBIENT_LIGHT_SENSOR_PATH@,
    }
}

/// The text of a file; none where the file could not be read.
pub open spec fn file_text(file: Option<&str>) -> Option<Seq<char>> {
    match file {
        Some(text) => Some(text@),
        None => None,
    }
}

/// The text that a file holds once it was written; none where it was not.
pub open spec fn written_text(text: Option<String>) -> Option<Seq<char>> {
    match text {
        Some(text) => Some(text@),
        None => None,
    }
}

/// The number in a file: a failure where the file could not be read or does
/// not hold one.
pub open spec fn file_number(file: Option<Seq<char>>) -> Result<u32, Error> {
    match file {
        Some(text) => match decimal_number(trim(text)) {
            Some(n) => Ok(n),
            None => Err(Error::Failure),
        },
        None => Err(Error::Failure),
    }
}

/// The values that stand for the files where no file may be touched.
#[derive(Clone, Copy, Debug, PartialEq, Eq, Structural)]
pub struct DryDevice {
    pub backlight: u32,
    pub ambient_light: u32,
}

impl DryDevice {
    /// The values at the start of the program.
    pub fn new() -> (r: DryDevice)
        ensures
            r == (DryDevice { backlight: 100, ambient_light: 50 }),
    {
        DryDevice { backlight: 100, ambient_light: 50 }
    }
}

/// Reads and writes the attributes, through their files or without them.
#[derive(Clone, Copy, Debug, PartialEq, Eq, Structural)]
pub struct FilesystemManager {
    pub no_filesystem: bool,
}

/// Parses the number in a file.
fn parse_file(file: Option<&str>) -> (r: Result<u32, Error>)
    ensures
        r == file_number(file_text(file)),
{
    match file {
        Some(text) => match parse_number(text) {
            Some(n) => Ok(n),
            None => Err(Error::Failure),
        },
        None => Err(Error::Failure),
    }
}

impl FilesystemManager {
    /// The highest brightness, given what its file holds.
    pub open spec fn max_backlight(self, file: Option<Seq<char>>) -> Result<u32, Error> {
        if self.no_filesystem {
            Ok(BACKLIGHT_MAX_VALUE_DRY)
        } else {
            file_number(file)
        }
    }

    /// The present brightness, given what its file holds.
    pub open spec fn backlight(self, dry: DryDevice, file: Option<Seq<char>>) -> Result<u32, Error> {
        if self.no_filesystem {
            Ok(dry.backlight)
        } else {
            file_number(file)
        }
    }

    /// The reading of the ambient light sensor, given what its file holds.
    pub open spec fn ambient_light(
        self,
        dry: DryDevice,
        file: Option<Seq<char>>,
    ) -> Result<u32, Error> {
        if self.no_filesystem {
            Ok(dry.ambient_light)
        } else {
            file_number(file)
        }
    }

    /// Whether a brightness can be scaled: the range above the lowest
    /// brightness is not negative, where it is asked for.
    pub open spec fn can_scale(self, matter: u32, file: Option<Seq<char>>) -> bool {
        !at_most_zero(matter) ==> (self.max_backlight(file) matches Ok(max) ==> max >= MIN_BRIGHTNESS)
    }

    /// The pattern of the brightness that two ratios give.
    pub open spec fn mapped_brightness(
        self,
        matter: u32,
        ambient: u32,
        file: Option<Seq<char>>,
    ) -> Result<u32, Error> {
        if at_most_zero(matter) {
            Ok(0)
        } else {
            match self.max_backlight(file) {
                Ok(max) => Ok(scaled_brightness(matter, ambient, max)),
                Err(e) => Err(e),
            }
        }
    }

    /// The file to open for an attribute, if any file may be opened.
    pub fn attribute_file(&self, attribute: Attribute) -> (r: Option<String>)
        ensures
            r is Some <==> !self.no_filesystem,
            r matches Some(path) ==> path@ == attribute_path(attribute),
    {
        if self.no_filesystem {
            return None;
        }
        let path: String = match attribute {
            Attribute::MaxBacklight => BACKLIGHT_DEVICE_PATH.to_owned().concat("/").concat(
                MAX_BRIGHTNESS_FILE,
            ),
            Attribute::Backlight => BACKLIGHT_DEVICE_PATH.to_owned().concat("/").concat(
                BRIGHTNESS_FILE,
            ),
            Attribute::AmbientLight => AMBIENT_LIGHT_SENSOR_PATH.to_owned(),
        };
        Some(path)
    }

    /// The highest brightness, from the text of its file.
    pub fn get_max_backlight(&self, file: Option<&str>) -> (r: Result<u32, Error>)
        ensures
            r == self.max_backlight(file_text(file)),
    {
        if self.no_filesystem {
            return Ok(BACKLIGHT_MAX_VALUE_DRY);
        }
        parse_file(file)
    }

    /// Sets the brightness. The text that comes back is what the brightness
    /// file is to hold; there is none where no file may be touched.
    pub fn write_backlight(&self, dry: &mut DryDevice, brightness: u32) -> (r: Option<String>)
        ensures
            r is Some <==> !self.no_filesystem,
            r matches Some(text) ==> text@ == decimal_text(brightness as nat),
            *final(dry) == (if self.no_filesystem {
                DryDevice { backlight: brightness, ambient_light: old(dry).ambient_light }
            } else {
                *old(dry)
            }),
            self.backlight(*final(dry), written_text(r)) == Ok::<u32, Error>(brightness),
    {
        proof {
            law_written_number_reads_back(Seq::empty(), brightness, Seq::empty());
            let text = decimal_text(brightness as nat);
            assert(Seq::<char>::empty() + text + Seq::<char>::empty() == text);
        }
        if self.no_filesystem {
            dry.backlight = brightness;
            return None;
        }
        Some(format_number(brightness))
    }

    /// The present brightness, from the text of its file.
    pub fn read_backlight(&self, dry: &DryDevice, file: Option<&str>) -> (r: Result<u32, Error>)
        ensures
            r == self.backlight(*dry, file_text(file)),
    {
        if self.no_filesystem {
            return Ok(dry.backlight);
        }
        parse_file(file)
    }

    /// The reading of the ambient light sensor, from the text of its file.
    pub fn read_ambient_light_sensor(&self, dry: &DryDevice, file: Option<&str>) -> (r: Result<
        u32,
        Error,
    >)
        ensures
            r == self.ambient_light(*dry, file_text(file)),
    {
        if self.no_filesystem {
            return Ok(dry.ambient_light);
        }
        parse_file(file)
    }

    /// Scales the light's own ratio and that of the ambient light to a
    /// brightness. The highest brightness comes from the text of its file,
    /// which a ratio of the light that is not above zero does without.
    pub fn map_matter_and_ambient_light_to_brightness(
        &self,
        matter: Float,
        ambient: Float,
        max_file: Option<&str>,
    ) -> (r: Result<Float, Error>)
        requires
            self.can_scale(matter@, file_text(max_file)),
        ensures
            match r {
                Ok(brightness) => self.mapped_brightness(matter@, ambient@, file_text(max_file))
                    == Ok::<u32, Error>(brightness@),
                Err(e) => self.mapped_brightness(matter@, ambient@, file_text(max_file))
                    == Err::<u32, Error>(e),
            },
    {
        if matter.is_at_most_zero() {
            return Ok(Float::from_number(Binary32::zero()));
        }
        match self.get_max_backlight(max_file) {
            Ok(max) => Ok(scale_brightness(matter, ambient, max)),
            Err(e) => Err(e),
        }
    }
}

/// With the files, the highest brightness, the present one and the reading of
/// the sensor are each the number that the attribute's file holds, whatever
/// white space is around it.
pub proof fn law_files_hold_the_numbers(
    filesystem_manager: FilesystemManager,
    dry: DryDevice,
    before: Seq<char>,
    n: u32,
    after: Seq<char>,
)
    requires
        !filesystem_manager.no_filesystem,
        forall|i: int| 0 <= i < before.len() ==> is_white_space(#[trigger] before[i]),
        forall|i: int| 0 <= i < after.len() ==> is_white_space(#[trigger] after[i]),
    ensures
        ({
            let file = Some(before + decimal_text(n as nat) + after);
            &&& filesystem_manager.max_backlight(file) == Ok::<u32, Error>(n)
            &&& filesystem_manager.backlight(dry, file) == Ok::<u32, Error>(n)
            &&& filesystem_manager.ambient_light(dry, file) == Ok::<u32, Error>(n)
        }),
{
    law_written_number_reads_back(before, n, after);
}

/// With the files, what is read is the number of the text exactly where the
/// text is one; a text that is none fails, and so does a file that could not
/// be read.
pub proof fn law_files_without_a_number_fail(
    filesystem_manager: FilesystemManager,
    dry: DryDevice,
    text: Seq<char>,
    n: u32,
)
    requires
        !filesystem_manager.no_filesystem,
    ensures
        filesystem_manager.max_backlight(Some(text)) == Ok::<u32, Error>(n) <==> decimal_number(
            trim(text),
        ) == Some(n),
        filesystem_manager.backlight(dry, Some(text)) == Ok::<u32, Error>(n) <==> decimal_number(
            trim(text),
        ) == Some(n),
        filesystem_manager.ambient_light(dry, Some(text)) == Ok::<u32, Error>(n)
            <==> decimal_number(trim(text)) == Some(n),
        decimal_number(trim(text)) is None ==> {
            &&& filesystem_manager.max_backlight(Some(text)) == Err::<u32, Error>(Error::Failure)
            &&& filesystem_manager.backlight(dry, Some(text)) == Err::<u32, Error>(Error::Failure)
            &&& filesystem_manager.ambient_light(dry, Some(text)) == Err::<u32, Error>(
                Error::Failure,
            )
        },
        filesystem_manager.max_backlight(None) == Err::<u32, Error>(Error::Failure),
        filesystem_manager.backlight(dry, None) == Err::<u32, Error>(Error::Failure),
        filesystem_manager.ambient_light(dry, None) == Err::<u32, Error>(Error::Failure),
{
}

/// Without the files, the highest brightness is 1000, and the others are what
/// stands for them.
pub proof fn law_values_without_files(
    filesystem_manager: FilesystemManager,
    dry: DryDevice,
    file: Option<Seq<char>>,
)
    requires
        filesystem_manager.no_filesystem,
    ensures
        filesystem_manager.max_backlight(file) == Ok::<u32, Error>(1000),
        filesystem_manager.backlight(dry, file) == Ok::<u32, Error>(dry.backlight),
        filesystem_manager.ambient_light(dry, file) == Ok::<u32, Error>(dry.ambient_light),
{
}

/// The text of a file is handed on as it is.
pub proof fn law_text_of_a_file_is_kept(text: &str)
    ensures
        file_text(Some(text)) == Some(text@),
        file_text(None) is None,
{
}

/// Where the attributes' files are.
pub proof fn law_files_of_the_attributes()
    ensures
        attribute_path(Attribute::MaxBacklight)
            == "/sys/class/backlight/intel_backlight/max_brightness"@,
        attribute_path(Attribute::Backlight) == "/sys/class/backlight/intel_backlight/brightness"@,
        attribute_path(Attribute::AmbientLight)
            == "/sys/bus/iio/devices/iio:device0/in_illuminance_raw"@,
{
    reveal_strlit("/sys/class/backlight/intel_backlight");
    reveal_strlit("/");
    reveal_strlit("brightness");
    reveal_strlit("max_brightness");
    reveal_strlit("/sys/class/backlight/intel_backlight/max_brightness");
    reveal_strlit("/sys/class/backlight/intel_backlight/brightness");
    assert(attribute_path(Attribute::MaxBacklight)
        =~= "/sys/class/backlight/intel_backlight/max_brightness"@);
    assert(attribute_path(Attribute::Backlight)
        =~= "/sys/class/backlight/intel_backlight/brightness"@);
}

/// A brightness cannot be scaled only where the light's ratio is not at most
/// zero and the highest brightness is known and below five.
pub proof fn law_scaling_needs_a_range(
    filesystem_manager: FilesystemManager,
    matter: u32,
    file: Option<Seq<char>>,
)
    ensures
        filesystem_manager.can_scale(matter, file) <==> {
            ||| matter == 0
            ||| 0x8000_0000 <= matter <= 0xff80_0000
            ||| filesystem_manager.max_backlight(file) is Err
            ||| filesystem_manager.max_backlight(file)->Ok_0 >= 5
        },
{
}

/// A light whose ratio is at most zero is dark, whatever the file holds; every
/// other one has the brightness scaled to the highest, and fails where that is
/// not known.
pub proof fn law_brightness_is_scaled_to_the_highest(
    filesystem_manager: FilesystemManager,
    matter: u32,
    ambient: u32,
    file: Option<Seq<char>>,
)
    ensures
        ({
            let dark = matter == 0 || 0x8000_0000 <= matter <= 0xff80_0000;
            let brightness = filesystem_manager.mapped_brightness(matter, ambient, file);
            &&& dark ==> brightness == Ok::<u32, Error>(0)
            &&& !dark && filesystem_manager.max_backlight(file) is Err ==> brightness == Err::<
                u32,
                Error,
            >(Error::Failure)
            &&& !dark ==> (filesystem_manager.max_backlight(file) matches Ok(max) ==> brightness
                == Ok::<u32, Error>(scaled_brightness(matter, ambient, max)))
        }),
{
}

}
