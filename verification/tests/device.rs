use std::sync::Arc;

use matter_backlight::ambient_spoof::AmbientLightSpoof;
use matter_backlight::args::{parse_args, Args};
use matter_backlight::auto_brightness::{max_backlight_read, AutoBrightness, AutoStep};
use matter_backlight::error::Error;
use matter_backlight::filesystem::{DryDevice, FilesystemManager};
use matter_backlight::level_control::{LevelControlDeviceLogic, LevelStep};
use matter_backlight::on_off::{OnOffDeviceLogic, OnOffStep};
use matter_backlight::persistent_state::{OnOffPersistentState, StartUpOnOffEnum};
use matter_backlight::ratio::Ratio;
use matter_backlight::shared::SharedRatios;

fn files() -> Arc<FilesystemManager> {
    Arc::new(FilesystemManager { no_filesystem: false })
}

fn dry() -> Arc<FilesystemManager> {
    Arc::new(FilesystemManager { no_filesystem: true })
}

fn bits(ratio: Option<Ratio>) -> u32 {
    ratio.unwrap().number().to_bits()
}

/// Sets a level, with the highest brightness that the text tells, and returns
/// what is written.
fn set_level(
    logic: &LevelControlDeviceLogic,
    ratios: &mut SharedRatios,
    level: u8,
    max: Option<&str>,
) -> Option<u32> {
    let mut step = logic.set_device_level(ratios, level);
    if let LevelStep::ReadMaxBacklight { level, matter, ambient } = step {
        step = logic.max_backlight_read(level, matter, ambient, max);
    }
    match step {
        LevelStep::WriteBacklight { level: l, brightness } => {
            assert_eq!(l, level);
            Some(brightness)
        }
        LevelStep::Finished(result) => {
            assert_eq!(result, Err(()));
            None
        }
        LevelStep::ReadMaxBacklight { .. } => panic!("asked twice"),
    }
}

/// Switches the light and returns what is written. The steps end with one save,
/// after the write, or with none where no file may be touched.
fn switch(
    logic: &OnOffDeviceLogic,
    ratios: &mut SharedRatios,
    on: bool,
    max: Option<&str>,
) -> u32 {
    let mut step = logic.set_on_off(ratios, on);
    if let OnOffStep::ReadMaxBacklight { matter, ambient } = step {
        step = logic.max_backlight_read(matter, ambient, max);
    }
    let brightness = match step {
        OnOffStep::WriteBacklight { brightness } => brightness,
        other => panic!("{:?}", other),
    };
    for written in [false, true] {
        match (logic.backlight_written(written), logic.save_state()) {
            (OnOffStep::SaveState { byte }, Some(saved)) => {
                assert_eq!(byte, saved);
                for saved in [false, true] {
                    assert!(matches!(logic.state_saved(saved), OnOffStep::Finished));
                }
            }
            (OnOffStep::Finished, None) => assert!(logic.filesystem_manager.no_filesystem),
            other => panic!("{:?}", other),
        }
    }
    brightness
}

#[test]
fn options_are_found_anywhere() {
    let parse = |args: &[&str]| {
        let args: Vec<String> = args.iter().map(|a| a.to_string()).collect();
        parse_args(&args)
    };
    assert_eq!(parse(&[]), Args { no_filesystem: false, no_als_spoof: false });
    assert_eq!(parse(&["light"]), Args { no_filesystem: false, no_als_spoof: false });
    assert_eq!(
        parse(&["light", "--no-als-spoof", "x", "--no-filesystem"]),
        Args { no_filesystem: true, no_als_spoof: true }
    );
    assert_eq!(
        parse(&["light", "--no-filesystem=1", "--NO-ALS-SPOOF"]),
        Args { no_filesystem: false, no_als_spoof: false }
    );
    assert_eq!(
        parse(&["--no-filesystem"]),
        Args { no_filesystem: true, no_als_spoof: false }
    );
}

#[test]
fn ambient_light_is_simulated_only_without_files() {
    for no_filesystem in [false, true] {
        for no_als_spoof in [false, true] {
            let args = Args { no_filesystem, no_als_spoof };
            assert_eq!(args.spoofs_ambient_light(), no_filesystem && !no_als_spoof);
        }
    }
}

#[test]
fn simulated_light_swings_between_the_ends() {
    let mut device = DryDevice::new();
    let mut spoof = AmbientLightSpoof::new();
    let mut seen: Vec<u32> = Vec::new();
    for _ in 0..22 {
        spoof.step(&mut device);
        assert!(device.ambient_light <= 70);
        seen.push(device.ambient_light);
    }
    assert_eq!(
        seen,
        vec![
            55, 60, 65, 70, 65, 60, 55, 50, 45, 40, 35, 30, 25, 20, 15, 10, 5, 0, 5, 10, 15, 20
        ]
    );
    assert_eq!(device.backlight, 100);
}

#[test]
fn state_survives_its_byte() {
    let starts = [
        (Some(StartUpOnOffEnum::Off), 0),
        (Some(StartUpOnOffEnum::On), 2),
        (Some(StartUpOnOffEnum::Toggle), 4),
        (None, 6),
    ];
    for (start_up_on_off, byte) in starts {
        for on_off in [false, true] {
            let data = OnOffPersistentState::to_bytes_from_values(on_off, start_up_on_off);
            assert_eq!(data, byte + on_off as u8);
            assert_eq!(
                OnOffPersistentState::from_bytes(data),
                Ok(OnOffPersistentState { on_off, start_up_on_off })
            );
        }
    }
}

#[test]
fn other_bytes_are_no_state() {
    for data in 0..=255_u8 {
        match OnOffPersistentState::from_bytes(data) {
            Ok(state) => {
                assert!(data < 8);
                let back = OnOffPersistentState::to_bytes_from_values(
                    state.on_off,
                    state.start_up_on_off,
                );
                assert_eq!(back, data);
            }
            Err(error) => {
                assert!(data >= 8);
                assert_eq!(error, Error::Failure);
            }
        }
    }
    assert_eq!(
        OnOffPersistentState::default(),
        OnOffPersistentState { on_off: false, start_up_on_off: None }
    );
}

#[test]
fn highest_brightness_is_detected() {
    assert_eq!(LevelControlDeviceLogic::new(dry(), None).max_brightness, 1000);
    assert_eq!(LevelControlDeviceLogic::new(files(), Some("19393\n")).max_brightness, 19393);
    assert_eq!(LevelControlDeviceLogic::new(files(), None).max_brightness, 255);
    assert_eq!(LevelControlDeviceLogic::new(files(), Some("?")).max_brightness, 255);
    assert_eq!(OnOffDeviceLogic::new(files(), Some("19393\n"), None).max_brightness, 19393);
    assert_eq!(OnOffDeviceLogic::new(files(), None, None).max_brightness, 255);
}

#[test]
fn start_up_level_is_kept() {
    let mut logic = LevelControlDeviceLogic::new(dry(), None);
    assert_eq!(logic.start_up_current_level(), Ok(None));
    assert_eq!(logic.set_start_up_current_level(Some(77)), Ok(()));
    assert_eq!(logic.start_up_current_level(), Ok(Some(77)));
}

#[test]
fn level_that_was_set_is_the_current_level() {
    let logic = LevelControlDeviceLogic::new(dry(), None);
    let mut ratios = SharedRatios::new();
    assert_eq!(logic.current_level(&ratios), Some(255));
    for level in 0..=255_u8 {
        let brightness = set_level(&logic, &mut ratios, level, None).unwrap();
        assert_eq!(logic.current_level(&ratios), Some(level));
        assert_eq!(brightness == 0, level == 0);
        assert_eq!(logic.backlight_written(level, true), Ok(Some(level)));
        assert_eq!(logic.backlight_written(level, false), Err(()));
    }
}

#[test]
fn level_zero_asks_for_no_file() {
    let logic = LevelControlDeviceLogic::new(files(), None);
    let mut ratios = SharedRatios::new();
    let step = logic.set_device_level(&mut ratios, 0);
    assert!(matches!(step, LevelStep::WriteBacklight { level: 0, brightness: 0 }));
    let step = logic.set_device_level(&mut ratios, 1);
    assert!(matches!(step, LevelStep::ReadMaxBacklight { level: 1, .. }));
}

#[test]
fn level_fails_without_a_highest_brightness() {
    let logic = LevelControlDeviceLogic::new(files(), Some("1000"));
    let mut ratios = SharedRatios::new();
    assert_eq!(set_level(&logic, &mut ratios, 9, None), None);
    assert_eq!(set_level(&logic, &mut ratios, 9, Some("none")), None);
    // The level was stored all the same.
    assert_eq!(logic.current_level(&ratios), Some(9));
}

#[test]
fn level_uses_the_ambient_light() {
    let logic = LevelControlDeviceLogic::new(files(), Some("1000"));
    let mut ratios = SharedRatios::new();
    ratios.ambient = Some(Ratio::of_level(128));
    assert_eq!(set_level(&logic, &mut ratios, 128, Some("1000\n")), Some(255));
    assert_eq!(bits(ratios.ambient), (128.0_f32 / 255.0).to_bits());
    assert_eq!(bits(ratios.previous), 1.0_f32.to_bits());
}

#[test]
fn poisoned_ratios_read_as_full_and_are_not_stored() {
    let level = LevelControlDeviceLogic::new(dry(), None);
    let on_off = OnOffDeviceLogic::new(dry(), None, None);
    let mut ratios = SharedRatios::poisoned();
    assert_eq!(set_level(&level, &mut ratios, 255, None), Some(1000));
    assert_eq!(level.current_level(&ratios), None);
    assert_eq!(switch(&on_off, &mut ratios, true, None), 1000);
    assert_eq!(switch(&on_off, &mut ratios, false, None), 0);
    assert!(ratios.previous.is_none() && ratios.matter.is_none() && ratios.ambient.is_none());
    ratios.previous = Some(Ratio::of_level(3));
    assert_eq!(switch(&on_off, &mut ratios, false, None), 0);
    assert_eq!(bits(ratios.previous), 1.0_f32.to_bits());
}

#[test]
fn off_and_on_restores_the_brightness() {
    let level = LevelControlDeviceLogic::new(dry(), None);
    let on_off = OnOffDeviceLogic::new(dry(), None, None);
    let mut ratios = SharedRatios::new();
    for l in [1, 42, 128, 200, 254] {
        let before = set_level(&level, &mut ratios, l, None).unwrap();
        assert_eq!(switch(&on_off, &mut ratios, false, None), 0);
        assert_eq!(switch(&on_off, &mut ratios, true, None), before);
        assert_eq!(level.current_level(&ratios), Some(l));
    }
}

#[test]
fn on_without_an_off_uses_the_full_ratio() {
    let on_off = OnOffDeviceLogic::new(dry(), None, None);
    let level = LevelControlDeviceLogic::new(dry(), None);
    let mut ratios = SharedRatios::new();
    set_level(&level, &mut ratios, 10, None);
    assert_eq!(switch(&on_off, &mut ratios, true, None), 1000);
}

#[test]
fn on_falls_back_to_the_detected_highest() {
    let on_off = OnOffDeviceLogic::new(files(), Some("640"), None);
    let mut ratios = SharedRatios::new();
    assert_eq!(switch(&on_off, &mut ratios, true, None), 640);
    assert_eq!(switch(&on_off, &mut ratios, true, Some("800\n")), 800);
    ratios.previous = Some(Ratio::of_level(0));
    assert_eq!(switch(&on_off, &mut ratios, true, None), 0);
}

#[test]
fn light_is_on_where_its_brightness_is_not_zero() {
    let on_off = OnOffDeviceLogic::new(files(), Some("640"), None);
    let device = DryDevice::new();
    assert!(on_off.on_off(&device, Some("5\n")));
    assert!(!on_off.on_off(&device, Some("0\n")));
    assert!(!on_off.on_off(&device, Some("five")));
    assert!(!on_off.on_off(&device, None));
    let on_off = OnOffDeviceLogic::new(dry(), None, None);
    assert!(on_off.on_off(&device, None));
    assert!(!on_off.on_off(&DryDevice { backlight: 0, ambient_light: 50 }, None));
}

#[test]
fn start_up_behaviour_is_saved_and_loaded() {
    for start in [
        None,
        Some(StartUpOnOffEnum::Off),
        Some(StartUpOnOffEnum::On),
        Some(StartUpOnOffEnum::Toggle),
    ] {
        let mut on_off = OnOffDeviceLogic::new(files(), None, None);
        assert_eq!(on_off.start_up_on_off(), None);
        let byte = on_off.set_start_up_on_off(start).unwrap();
        assert_eq!(Some(byte), on_off.save_state());
        assert_eq!(byte % 2, 0);
        let loaded = OnOffDeviceLogic::new(dry(), None, Some(byte));
        assert_eq!(loaded.start_up_on_off(), start);
    }
    let loaded = OnOffDeviceLogic::new(dry(), None, Some(3));
    assert_eq!(loaded.start_up_on_off(), Some(StartUpOnOffEnum::On));
}

#[test]
fn ambient_light_is_smoothed_as_on_the_hardware() {
    let manager = files();
    let device = DryDevice::new();
    let mut ratios = SharedRatios::new();
    let mut auto = AutoBrightness::new(&manager, &device, Some("13\n"));
    let mut smoothed = 13.0_f32;
    let mut sensor: u32 = 13;
    for i in 0..600_u32 {
        sensor = match i {
            0..=50 => (sensor * 7 + 11) % 150,
            51..=60 => u32::MAX - i,
            _ => 0,
        };
        let step = auto
            .sensor_read(&manager, &device, &mut ratios, Some(&sensor.to_string()))
            .unwrap();
        smoothed = 0.2 * (sensor as f32) + (1.0 - 0.2) * smoothed;
        let ratio = 1.0_f32.min(smoothed / 70.0);
        assert_eq!(bits(ratios.ambient), ratio.to_bits());
        match step {
            AutoStep::ReadMaxBacklight { matter, ambient } => {
                assert_eq!(matter.number().to_bits(), 1.0_f32.to_bits());
                assert_eq!(ambient.number().to_bits(), ratio.to_bits());
                let brightness = max_backlight_read(&manager, matter, ambient, Some("1000"));
                let expected = (5.0 + ratio * 995.0) as u32;
                assert_eq!(brightness, Ok(expected));
            }
            AutoStep::WriteBacklight { .. } => panic!("no file was asked for"),
        }
    }
}

#[test]
fn steady_light_gives_its_share() {
    let manager = dry();
    let device = DryDevice { backlight: 100, ambient_light: 35 };
    let mut ratios = SharedRatios::new();
    let mut auto = AutoBrightness::new(&manager, &device, None);
    for _ in 0..5 {
        auto.sensor_read(&manager, &device, &mut ratios, None).unwrap();
        assert_eq!(bits(ratios.ambient), 0.5_f32.to_bits());
    }
}

#[test]
fn bright_light_is_capped() {
    let manager = dry();
    let device = DryDevice { backlight: 100, ambient_light: 70 };
    let mut ratios = SharedRatios::new();
    ratios.ambient = Some(Ratio::of_level(0));
    let mut auto = AutoBrightness::new(&manager, &device, None);
    auto.sensor_read(&manager, &device, &mut ratios, None).unwrap();
    assert_eq!(bits(ratios.ambient), 1.0_f32.to_bits());
}

#[test]
fn failed_reading_changes_nothing() {
    let manager = files();
    let device = DryDevice::new();
    let mut ratios = SharedRatios::new();
    ratios.ambient = Some(Ratio::of_level(5));
    let mut auto = AutoBrightness::new(&manager, &device, None);
    let result = auto.sensor_read(&manager, &device, &mut ratios, Some("dim"));
    assert!(matches!(result, Err(Error::Failure)));
    assert_eq!(bits(ratios.ambient), (5.0_f32 / 255.0).to_bits());
    // The average started from zero and still is.
    auto.sensor_read(&manager, &device, &mut ratios, Some("0")).unwrap();
    assert_eq!(bits(ratios.ambient), 0);
}

#[test]
fn ambient_light_does_not_wake_a_dark_light() {
    let manager = files();
    let device = DryDevice::new();
    let mut ratios = SharedRatios::new();
    ratios.matter = Some(Ratio::of_level(0));
    let mut auto = AutoBrightness::new(&manager, &device, Some("70"));
    let step = auto.sensor_read(&manager, &device, &mut ratios, Some("70")).unwrap();
    assert!(matches!(step, AutoStep::WriteBacklight { brightness: 0 }));
    assert_eq!(max_backlight_read(&manager, Ratio::full(), Ratio::full(), None), Err(Error::Failure));
}

#[test]
fn higher_level_is_not_darker() {
    let logic = LevelControlDeviceLogic::new(files(), Some("937"));
    let mut ratios = SharedRatios::new();
    let mut before: u32 = 0;
    for level in 0..=255u8 {
        let brightness = set_level(&logic, &mut ratios, level, Some("937")).unwrap();
        assert!(before <= brightness);
        before = brightness;
    }
    assert_eq!(before, 937);
}

#[test]
fn light_that_is_switched_on_is_on() {
    let level = LevelControlDeviceLogic::new(files(), Some("937"));
    let on_off = OnOffDeviceLogic::new(files(), Some("937"), None);
    let mut ratios = SharedRatios::new();
    for l in 0..=255u8 {
        set_level(&level, &mut ratios, l, Some("937"));
        assert_eq!(switch(&on_off, &mut ratios, false, Some("937")), 0);
        assert_eq!(switch(&on_off, &mut ratios, true, Some("937")) > 0, l != 0);
    }
}

#[test]
fn following_the_ambient_light_keeps_the_level() {
    let manager = dry();
    let logic = LevelControlDeviceLogic::new(manager.clone(), None);
    let device = DryDevice { backlight: 100, ambient_light: 35 };
    let mut ratios = SharedRatios::new();
    set_level(&logic, &mut ratios, 128, None);
    let mut auto = AutoBrightness::new(&manager, &device, None);
    let followed = match auto.sensor_read(&manager, &device, &mut ratios, None) {
        Ok(AutoStep::ReadMaxBacklight { matter, ambient }) => {
            max_backlight_read(&manager, matter, ambient, None)
        }
        other => panic!("{:?}", other),
    };
    assert_eq!(followed, Ok(254));
    assert_eq!(set_level(&logic, &mut ratios, 128, None), Some(254));
}

#[test]
fn state_is_saved_whatever_came_of_the_write() {
    let mut on_off = OnOffDeviceLogic::new(files(), None, None);
    on_off.set_start_up_on_off(Some(StartUpOnOffEnum::Toggle));
    for written in [false, true] {
        assert!(matches!(
            on_off.backlight_written(written),
            OnOffStep::SaveState { byte: 4 }
        ));
    }
    assert!(matches!(on_off.state_saved(false), OnOffStep::Finished));
    assert!(matches!(on_off.state_saved(true), OnOffStep::Finished));
}

#[test]
fn nothing_is_saved_where_no_file_may_be_touched() {
    let mut on_off = OnOffDeviceLogic::new(dry(), None, None);
    assert_eq!(on_off.save_state(), None);
    assert_eq!(on_off.set_start_up_on_off(Some(StartUpOnOffEnum::On)), None);
    assert_eq!(on_off.start_up_on_off(), Some(StartUpOnOffEnum::On));
    for written in [false, true] {
        assert!(matches!(on_off.backlight_written(written), OnOffStep::Finished));
    }
}
