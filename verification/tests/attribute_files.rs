use matter_backlight::error::Error;
use matter_backlight::filesystem::{Attribute, DryDevice, FilesystemManager};
use matter_backlight::float::Float;
use matter_backlight::ratio::Ratio;
use matter_backlight::text::{format_number, parse_number};

const FILES: FilesystemManager = FilesystemManager { no_filesystem: false };
const DRY: FilesystemManager = FilesystemManager { no_filesystem: true };

#[test]
fn numbers_parse_as_the_standard_library_does() {
    let texts = vec![
        "0", "7", "1000", "1000\n", " 42 ", "\t42\r\n", "+5", "++5", "+", "-", "-5", "-0", "",
        " ", "\n", "4 2", "4_2", "0x10", "1.5", "4294967295", "4294967296", "99999999999999999999",
        "0000000000000000000000000000012", "+4294967295\n", "+ 5", "\u{a0}9\u{3000}", "\u{200b}9",
        "\u{663}", "9\u{0}", "007",
    ];
    for text in texts {
        assert_eq!(parse_number(text), text.trim().parse::<u32>().ok(), "{:?}", text);
    }
    assert_eq!(parse_number(" +0042\n"), Some(42));
}

#[test]
fn every_character_is_trimmed_as_the_standard_library_does() {
    for c in '\u{0}'..=char::MAX {
        if c as u32 > 0x3100 && c as u32 % 97 != 0 {
            continue;
        }
        let text = format!("{}7{}", c, c);
        assert_eq!(parse_number(&text), text.trim().parse::<u32>().ok(), "{:?}", c);
    }
}

#[test]
fn numbers_format_as_the_standard_library_does() {
    for n in [0, 1, 9, 10, 11, 99, 100, 101, 500, 1000, 65535, 4294967295_u32] {
        assert_eq!(format_number(n), n.to_string());
    }
    assert_eq!(format_number(1000), "1000");
}

#[test]
fn number_written_reads_back() {
    for n in [0, 5, 10, 255, 1000, 96000, u32::MAX] {
        let text = format_number(n);
        assert_eq!(parse_number(&text), Some(n));
        assert_eq!(parse_number(&format!("\n {}\n", text)), Some(n));
    }
}

#[test]
fn attributes_have_their_files() {
    assert_eq!(
        FILES.attribute_file(Attribute::MaxBacklight).as_deref(),
        Some("/sys/class/backlight/intel_backlight/max_brightness")
    );
    assert_eq!(
        FILES.attribute_file(Attribute::Backlight).as_deref(),
        Some("/sys/class/backlight/intel_backlight/brightness")
    );
    assert_eq!(
        FILES.attribute_file(Attribute::AmbientLight).as_deref(),
        Some("/sys/bus/iio/devices/iio:device0/in_illuminance_raw")
    );
}

#[test]
fn without_filesystem_no_file_is_named_or_needed() {
    let dry = DryDevice::new();
    for attribute in [Attribute::MaxBacklight, Attribute::Backlight, Attribute::AmbientLight] {
        assert_eq!(DRY.attribute_file(attribute), None);
    }
    for file in [None, Some("7"), Some("junk")] {
        assert_eq!(DRY.get_max_backlight(file), Ok(1000));
        assert_eq!(DRY.read_backlight(&dry, file), Ok(100));
        assert_eq!(DRY.read_ambient_light_sensor(&dry, file), Ok(50));
    }
}

#[test]
fn files_give_numbers_or_failures() {
    let dry = DryDevice::new();
    assert_eq!(FILES.get_max_backlight(Some("96000\n")), Ok(96000));
    assert_eq!(FILES.read_backlight(&dry, Some("17\n")), Ok(17));
    assert_eq!(FILES.read_ambient_light_sensor(&dry, Some("3\n")), Ok(3));
    for file in [None, Some(""), Some("junk"), Some("-1")] {
        assert_eq!(FILES.get_max_backlight(file), Err(Error::Failure));
        assert_eq!(FILES.read_backlight(&dry, file), Err(Error::Failure));
        assert_eq!(FILES.read_ambient_light_sensor(&dry, file), Err(Error::Failure));
    }
}

#[test]
fn brightness_written_is_read_with_files() {
    let mut dry = DryDevice::new();
    let text = FILES.write_backlight(&mut dry, 321).unwrap();
    assert_eq!(text, "321");
    assert_eq!(dry, DryDevice::new());
    assert_eq!(FILES.read_backlight(&dry, Some(&format!("{}\n", text))), Ok(321));
}

#[test]
fn brightness_written_is_read_without_files() {
    let mut dry = DryDevice::new();
    assert_eq!(DRY.write_backlight(&mut dry, 321), None);
    assert_eq!(dry, DryDevice { backlight: 321, ambient_light: 50 });
    assert_eq!(DRY.read_backlight(&dry, None), Ok(321));
}

/// The brightness that the formula gives on the machine's own numbers.
fn expected_brightness(matter: f32, ambient: f32, max: u32) -> f32 {
    if matter <= 0.0 {
        return 0.0;
    }
    let scaled = 5.0 + (matter * ambient * ((max - 5) as f32));
    if scaled < 5.0 {
        5.0
    } else if scaled > max as f32 {
        max as f32
    } else {
        scaled
    }
}

#[test]
fn brightness_follows_the_formula() {
    for max in [5, 6, 255, 1000, 19393, 96000, 16777217, 16777219, u32::MAX] {
        let text = max.to_string();
        for level in (0..=255_u8).step_by(3) {
            for other in [0, 1, 17, 128, 254, 255_u8] {
                let matter = Ratio::of_level(level);
                let ambient = Ratio::of_level(other);
                let brightness = FILES
                    .map_matter_and_ambient_light_to_brightness(
                        matter.float(),
                        ambient.float(),
                        Some(&text),
                    )
                    .unwrap();
                let expected =
                    expected_brightness(level as f32 / 255.0, other as f32 / 255.0, max);
                assert_eq!(brightness.to_bits(), expected.to_bits());
                assert_eq!(brightness.to_u32(), expected as u32);
            }
        }
    }
}

#[test]
fn brightness_has_exact_values() {
    let full = Ratio::full();
    let half = Ratio::of_level(128);
    let map = |matter: Ratio, ambient: Ratio| {
        DRY.map_matter_and_ambient_light_to_brightness(matter.float(), ambient.float(), None)
            .unwrap()
            .to_u32()
    };
    assert_eq!(map(full, full), 1000);
    assert_eq!(map(half, full), 504);
    assert_eq!(map(half, half), 255);
    assert_eq!(map(full, Ratio::of_level(0)), 5);
    assert_eq!(map(Ratio::of_level(1), Ratio::of_level(1)), 5);
    assert_eq!(map(Ratio::of_level(0), full), 0);
}

#[test]
fn brightness_never_falls_when_a_ratio_rises() {
    let mut last = 0;
    for level in 0..=255_u8 {
        let brightness = DRY
            .map_matter_and_ambient_light_to_brightness(
                Ratio::of_level(level).float(),
                Ratio::of_level(200).float(),
                None,
            )
            .unwrap()
            .to_u32();
        assert!(brightness >= last);
        assert!(level == 0 || (5..=1000).contains(&brightness));
        last = brightness;
    }
}

#[test]
fn highest_brightness_can_be_exceeded_where_it_rounds_up() {
    let brightness = FILES
        .map_matter_and_ambient_light_to_brightness(
            Ratio::full().float(),
            Ratio::full().float(),
            Some("16777219"),
        )
        .unwrap();
    assert_eq!(brightness.to_u32(), 16777220);
}

#[test]
fn brightness_fails_without_a_highest() {
    let full = Ratio::full().float();
    for file in [None, Some("junk")] {
        let brightness = FILES.map_matter_and_ambient_light_to_brightness(full, full, file);
        assert!(matches!(brightness, Err(Error::Failure)));
        let dark = FILES
            .map_matter_and_ambient_light_to_brightness(Ratio::of_level(0).float(), full, file)
            .unwrap();
        assert_eq!(dark.to_u32(), 0);
    }
}

#[test]
fn ratios_beyond_the_limits_are_clamped() {
    let map = |matter: f32, ambient: f32| {
        let brightness = DRY.map_matter_and_ambient_light_to_brightness(
            Float::from_bits(matter.to_bits()),
            Float::from_bits(ambient.to_bits()),
            None,
        );
        f32::from_bits(brightness.unwrap().to_bits())
    };
    assert_eq!(map(2.0, 1.0), 1000.0);
    assert_eq!(map(0.5, -1.0), 5.0);
    assert_eq!(map(0.5, 0.0), 5.0);
    assert_eq!(map(0.0, 1.0), 0.0);
    assert_eq!(map(-0.5, 1.0), 0.0);
    assert_eq!(map(-0.0, 1.0), 0.0);
    assert_eq!(map(f32::INFINITY, 1.0), 1000.0);
    assert_eq!(map(f32::NEG_INFINITY, 1.0), 0.0);
    assert_eq!(map(f32::MAX, f32::MAX), 1000.0);
    assert_eq!(map(1.0, f32::NEG_INFINITY), 5.0);
    assert!(map(f32::INFINITY, 0.0).is_nan());
    assert!(map(f32::NAN, 1.0).is_nan());
    assert_eq!(map(f32::NEG_INFINITY, f32::NAN), 0.0);
}

#[test]
fn brightness_of_any_ratio_is_what_the_hardware_computes() {
    let ratios = [
        0.0,
        1e-45,
        1e-20,
        0.003,
        0.2,
        0.5,
        1.0,
        1.0000001,
        2.0,
        255.0,
        1e20,
        3e38,
        f32::MAX,
        f32::INFINITY,
        f32::NAN,
    ];
    for a in ratios {
        for b in ratios {
            for (matter, ambient) in [(a, b), (-a, b), (a, -b), (-a, -b)] {
                for max in [5_u32, 6, 255, 1000, 16777217, u32::MAX] {
                    let text = max.to_string();
                    let brightness = FILES
                        .map_matter_and_ambient_light_to_brightness(
                            Float::from_bits(matter.to_bits()),
                            Float::from_bits(ambient.to_bits()),
                            Some(&text),
                        )
                        .unwrap();
                    let expected = expected_brightness(matter, ambient, max);
                    let found = f32::from_bits(brightness.to_bits());
                    assert!(found == expected || (found.is_nan() && expected.is_nan()));
                    assert_eq!(brightness.to_u32(), expected as u32);
                }
            }
        }
    }
}
