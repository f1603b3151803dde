//! What holds of the device as a whole.

use vstd::math::abs;
use vstd::prelude::*;

use crate::auto_brightness::followed_brightness;
use crate::binary32::from_integer;
use crate::brightness::{
    backlight_value, law_brightness_monotone, law_brightness_within_limits,
    law_written_value_is_accurate, law_written_value_within_limits, lemma_bound_times,
    lemma_brightness_steps, lemma_zero_is_dark, scaled_brightness, MIN_BRIGHTNESS,
};
use crate::filesystem::{law_files_hold_the_numbers, DryDevice, FilesystemManager};
use crate::level_control::{
    law_level_writes_the_scaled_brightness, LevelControlDeviceLogic, LevelStep,
};
use crate::on_off::{OnOffDeviceLogic, OnOffStep};
use crate::persistent_state::decoded;
use crate::ratio::{
    law_level_ratio_is_accurate, law_level_ratio_is_monotone, law_level_survives_ratio,
    law_only_level_zero_is_dark, lemma_level_ratio_rounds, lemma_one_bits,
    lemma_ratio_at_most_one, level_ratio, ratio_level, ONE_BITS,
};
use crate::rounding::{one, units};
use crate::shared::{read_as, stored, SharedRatios};
use crate::text::{decimal_text, is_white_space, law_written_number_reads_back};

verus! {

/// The level that was set is the level that the light has: `after` are the
/// shared ratios that setting the level leaves behind.
pub proof fn law_level_set_is_current_level(
    before: SharedRatios,
    after: SharedRatios,
    level: u8,
)
    requires
        before.matter is Some,
        stored(before.matter, after.matter, level_ratio(level)),
    ensures
        after.matter matches Some(ratio) && ratio_level(ratio@) == level,
{
    law_level_survives_ratio(level);
}

/// A light that is switched off and on again goes back to the brightness that
/// setting its level gave, as long as the ambient light is the same and the
/// highest brightness is known. `set` are the shared ratios once the level was
/// set, `off` those once the light was switched off.
pub proof fn law_off_and_on_restores_brightness(
    level_control: LevelControlDeviceLogic,
    on_off: OnOffDeviceLogic,
    set: SharedRatios,
    off: SharedRatios,
    level: u8,
    max_file: Option<Seq<char>>,
)
    requires
        level_control.filesystem_manager == on_off.filesystem_manager,
        set.matter matches Some(ratio) && ratio@ == level_ratio(level),
        set.previous is Some,
        stored(set.previous, off.previous, read_as(set.matter)),
        off.ambient == set.ambient,
        level == 0 || on_off.filesystem_manager.max_backlight(max_file) is Ok,
    ensures
        read_as(off.previous) == level_ratio(level),
        level_control.step_after_max(
            level,
            level_ratio(level),
            read_as(set.ambient),
            max_file,
        ) == (LevelStep::WriteBacklight {
            level,
            brightness: on_off.brightness_after_max(
                read_as(off.previous),
                read_as(off.ambient),
                max_file,
            ),
        }),
{
    law_only_level_zero_is_dark(level);
}

/// The brightness that was written is the brightness that is read, with the
/// files, whatever white space the kernel puts behind the number, and without
/// them. `before` is what stands for the files, `after` what is left of it.
pub proof fn law_brightness_written_is_read(
    filesystem_manager: FilesystemManager,
    before: DryDevice,
    after: DryDevice,
    brightness: u32,
    blank: Seq<char>,
)
    requires
        after == (if filesystem_manager.no_filesystem {
            DryDevice { backlight: brightness, ambient_light: before.ambient_light }
        } else {
            before
        }),
        forall|i: int| 0 <= i < blank.len() ==> is_white_space(#[trigger] blank[i]),
    ensures
        filesystem_manager.backlight(after, Some(decimal_text(brightness as nat) + blank)) == Ok::<
            u32,
            crate::error::Error,
        >(brightness),
{
    law_written_number_reads_back(Seq::empty(), brightness, blank);
    assert(Seq::<char>::empty() + decimal_text(brightness as nat) == decimal_text(
        brightness as nat,
    ));
}

/// Setting a level writes zero for the level zero, and for every other level
/// a brightness between the lowest and the highest: the light is on exactly
/// where its level is not zero. The highest is exceeded only where it is no
/// binary32 number and the nearest one is larger.
pub proof fn law_level_gives_brightness_within_limits(
    level_control: LevelControlDeviceLogic,
    level: u8,
    ambient: u32,
    max_file: Option<Seq<char>>,
    max: u32,
)
    requires
        ambient <= ONE_BITS,
        level_control.filesystem_manager.max_backlight(max_file) == Ok::<u32, crate::error::Error>(
            max,
        ),
        max >= MIN_BRIGHTNESS,
    ensures
        level_control.step_after_max(
            level,
            level_ratio(level),
            ambient,
            max_file,
        ) matches LevelStep::WriteBacklight { level: l, brightness } && l == level && (brightness
            == 0 <==> level == 0) && (level != 0 ==> brightness >= MIN_BRIGHTNESS) && (brightness
            <= max || units(from_integer(max as nat)) > max * one()),
{
    law_only_level_zero_is_dark(level);
    lemma_level_ratio_rounds(level);
    lemma_zero_is_dark();
    law_written_value_within_limits(level_ratio(level), ambient, max);
}

/// Where no file may be touched, nothing that is read depends on what a file
/// holds.
pub proof fn law_no_filesystem_needs_no_file(
    filesystem_manager: FilesystemManager,
    dry: DryDevice,
    file_a: Option<Seq<char>>,
    file_b: Option<Seq<char>>,
    matter: u32,
    ambient: u32,
)
    requires
        filesystem_manager.no_filesystem,
    ensures
        filesystem_manager.max_backlight(file_a) == filesystem_manager.max_backlight(file_b),
        filesystem_manager.backlight(dry, file_a) == filesystem_manager.backlight(dry, file_b),
        filesystem_manager.ambient_light(dry, file_a) == filesystem_manager.ambient_light(
            dry,
            file_b,
        ),
        filesystem_manager.mapped_brightness(matter, ambient, file_a)
            == filesystem_manager.mapped_brightness(matter, ambient, file_b),
        filesystem_manager.can_scale(matter, file_a),
{
}

/// A light that is switched on is on, unless the ratio that was kept for it is
/// zero; so a light that was switched off at a level other than zero comes
/// back on.
pub proof fn law_switched_on_light_is_on(
    on_off: OnOffDeviceLogic,
    matter: u32,
    ambient: u32,
    max_file: Option<Seq<char>>,
    max: u32,
)
    requires
        matter <= ONE_BITS,
        ambient <= ONE_BITS,
        on_off.filesystem_manager.max_backlight(max_file) == Ok::<u32, crate::error::Error>(max),
        max >= MIN_BRIGHTNESS,
    ensures
        on_off.brightness_after_max(matter, ambient, max_file) > 0 <==> matter != 0,
{
    lemma_zero_is_dark();
    law_written_value_within_limits(matter, ambient, max);
}

/// A higher level never dims the light, nor does more ambient light.
pub proof fn law_higher_level_is_not_darker(
    level_control: LevelControlDeviceLogic,
    level_a: u8,
    level_b: u8,
    ambient_a: u32,
    ambient_b: u32,
    max_file: Option<Seq<char>>,
    max: u32,
)
    requires
        level_a <= level_b,
        ambient_a <= ambient_b <= ONE_BITS,
        level_control.filesystem_manager.max_backlight(max_file) == Ok::<u32, crate::error::Error>(
            max,
        ),
        max >= MIN_BRIGHTNESS,
    ensures
        level_control.step_after_max(
            level_a,
            level_ratio(level_a),
            ambient_a,
            max_file,
        ) matches LevelStep::WriteBacklight { brightness: a, .. } && level_control.step_after_max(
            level_b,
            level_ratio(level_b),
            ambient_b,
            max_file,
        ) matches LevelStep::WriteBacklight { brightness: b, .. } && a <= b,
{
    if level_a < level_b {
        law_level_ratio_is_monotone(level_a, level_b);
    }
    lemma_level_ratio_rounds(level_a);
    lemma_level_ratio_rounds(level_b);
    lemma_brightness_steps(level_ratio(level_a), ambient_a, max);
    lemma_brightness_steps(level_ratio(level_b), ambient_b, max);
    law_brightness_within_limits(level_ratio(level_a), ambient_a, max);
    law_brightness_within_limits(level_ratio(level_b), ambient_b, max);
    law_brightness_monotone(
        level_ratio(level_a),
        level_ratio(level_b),
        ambient_a,
        ambient_b,
        max,
    );
}

/// Following the ambient light writes what setting the level writes for the
/// same ambient light, and fails where that fails.
pub proof fn law_following_keeps_the_level(
    level_control: LevelControlDeviceLogic,
    level: u8,
    ambient: u32,
    max_file: Option<Seq<char>>,
)
    ensures
        level_control.step_after_max(level, level_ratio(level), ambient, max_file) == (
        match followed_brightness(
            *level_control.filesystem_manager,
            level_ratio(level),
            ambient,
            max_file,
        ) {
            Ok(brightness) => LevelStep::WriteBacklight { level, brightness },
            Err(_) => LevelStep::Finished(Err(())),
        }),
{
}

/// What is left to do before a switch of the light is over.
pub open spec fn steps_left(step: OnOffStep) -> nat {
    match step {
        OnOffStep::ReadMaxBacklight { .. } => 3,
        OnOffStep::WriteBacklight { .. } => 2,
        OnOffStep::SaveState { .. } => 1,
        OnOffStep::Finished => 0,
    }
}

/// The steps of a switch of the light from one of them on, given what the file
/// of the highest brightness holds and whether the write and the save succeed.
pub open spec fn steps_from(
    on_off: OnOffDeviceLogic,
    step: OnOffStep,
    max_file: Option<Seq<char>>,
    written: bool,
    saved: bool,
) -> Seq<OnOffStep>
    decreases steps_left(step),
{
    seq![step] + (match step {
        OnOffStep::ReadMaxBacklight { matter, ambient } => steps_from(
            on_off,
            OnOffStep::WriteBacklight {
                brightness: on_off.brightness_after_max(matter@, ambient@, max_file),
            },
            max_file,
            written,
            saved,
        ),
        OnOffStep::WriteBacklight { .. } => steps_from(
            on_off,
            on_off.step_after_write(written),
            max_file,
            written,
            saved,
        ),
        OnOffStep::SaveState { .. } => steps_from(
            on_off,
            on_off.step_after_save(saved),
            max_file,
            written,
            saved,
        ),
        OnOffStep::Finished => seq![],
    })
}

/// A switch of the light writes one brightness and then saves the state once,
/// whether the write succeeds or not, and ends whether the save succeeds or
/// not. Where no file may be touched, nothing is saved.
pub proof fn law_switch_saves_once_after_the_write(
    on_off: OnOffDeviceLogic,
    step: OnOffStep,
    max_file: Option<Seq<char>>,
    written: bool,
    saved: bool,
)
    requires
        step is ReadMaxBacklight || step is WriteBacklight,
    ensures
        ({
            let write = match step {
                OnOffStep::ReadMaxBacklight { matter, ambient } => OnOffStep::WriteBacklight {
                    brightness: on_off.brightness_after_max(matter@, ambient@, max_file),
                },
                _ => step,
            };
            let end = if on_off.filesystem_manager.no_filesystem {
                seq![write, OnOffStep::Finished]
            } else {
                seq![
                    write,
                    OnOffStep::SaveState { byte: on_off.state_byte() as u8 },
                    OnOffStep::Finished,
                ]
            };
            steps_from(on_off, step, max_file, written, saved) == (if step is ReadMaxBacklight {
                seq![step] + end
            } else {
                end
            })
        }),
{
    reveal_with_fuel(steps_from, 4);
}

/// The byte that is saved is one that the switch can be made from, and gives
/// back what the light does at the start of the device.
pub proof fn law_saved_state_is_loaded(on_off: OnOffDeviceLogic)
    ensures
        decoded(on_off.state_byte() as u8) matches Ok(state) && state.start_up_on_off
            == on_off.start_up_on_off,
{
}

/// Setting a level writes `5 + level / 255 * ambient * (max - 5)` without its
/// fraction, where `max` is the number that the file of the highest brightness
/// holds, save for an error of one part in two to the power of 20 of that.
pub proof fn law_level_writes_its_share_of_the_range(
    level_control: LevelControlDeviceLogic,
    level: u8,
    ambient: u32,
    before: Seq<char>,
    max: u32,
    after: Seq<char>,
)
    requires
        !level_control.filesystem_manager.no_filesystem,
        level > 0,
        ambient <= 0x3f80_0000,
        max >= 5,
        forall|i: int| 0 <= i < before.len() ==> is_white_space(#[trigger] before[i]),
        forall|i: int| 0 <= i < after.len() ==> is_white_space(#[trigger] after[i]),
    ensures
        level_control.step_after_max(
            level,
            level_ratio(level),
            ambient,
            Some(before + decimal_text(max as nat) + after),
        ) matches LevelStep::WriteBacklight { level: l, brightness } && {
            let exact = 255 * 5 * one() + level * units(ambient) * (max - 5);
            &&& l == level
            &&& 1048576 * (255 * brightness * one() - exact) <= 255 * max * one()
            &&& 1048576 * (exact - 255 * (brightness + 1) * one()) <= 255 * max * one()
        },
{
    let file = Some(before + decimal_text(max as nat) + after);
    let dry = DryDevice { backlight: 0, ambient_light: 0 };
    law_files_hold_the_numbers(*level_control.filesystem_manager, dry, before, max, after);
    law_only_level_zero_is_dark(level);
    lemma_level_ratio_rounds(level);
    law_level_writes_the_scaled_brightness(
        level_control,
        level,
        level_ratio(level),
        ambient,
        file,
    );
    law_written_value_is_accurate(level_ratio(level), ambient, max);
    law_level_ratio_is_accurate(level);
    lemma_ratio_at_most_one(ambient);
    lemma_one_bits();
    let w = backlight_value(
        scaled_brightness(level_ratio(level), ambient, max),
    );
    lemma_share_of_level_error(
        one() as int,
        level as int,
        units(level_ratio(level)) as int,
        units(ambient) as int,
        max as int,
        w as int,
    );
}

/// How the error of the level's ratio adds to that of the brightness.
proof fn lemma_share_of_level_error(u: int, level: int, r: int, a: int, max: int, w: int)
    requires
        u > 0,
        0 <= level <= 255,
        0 <= a <= u,
        max >= 5,
        8388608 * abs(255 * r - level * u) <= level * u,
        2097152 * (w * u * u - (5 * u * u + r * a * (max - 5))) <= max * u * u,
        2097152 * ((5 * u * u + r * a * (max - 5)) - (w + 1) * u * u) <= max * u * u,
    ensures
        1048576 * (255 * w * u - (255 * 5 * u + level * a * (max - 5))) <= 255 * max * u,
        1048576 * ((255 * 5 * u + level * a * (max - 5)) - 255 * (w + 1) * u) <= 255 * max * u,
{
    let m = max - 5;
    let d = 8388608 * (255 * r - level * u);
    let f = a * m;
    assert(level * u <= 255 * u) by (nonlinear_arith)
        requires
            level <= 255,
            u > 0,
    ;
    assert(0 <= f <= max * u) by (nonlinear_arith)
        requires
            f == a * m,
            0 <= a <= u,
            0 <= m <= max,
    ;
    lemma_bound_times(d, 255 * u, f);
    assert((255 * u) * f <= 255 * (max * u * u)) by (nonlinear_arith)
        requires
            0 <= f <= max * u,
            u > 0,
    ;
    assert(d * f == 8388608 * (255 * (r * a * m) - (level * a * m) * u)) by (nonlinear_arith)
        requires
            d == 8388608 * (255 * r - level * u),
            f == a * m,
    ;
    let x = 255 * w * u - (255 * 5 * u + level * a * m);
    let y = (255 * 5 * u + level * a * m) - 255 * (w + 1) * u;
    assert(x * u == 255 * (w * u * u) - 255 * (5 * u * u) - (level * a * m) * u)
        by (nonlinear_arith)
        requires
            x == 255 * w * u - (255 * 5 * u + level * a * m),
    ;
    assert(y * u == 255 * (5 * u * u) + (level * a * m) * u - 255 * ((w + 1) * u * u))
        by (nonlinear_arith)
        requires
            y == (255 * 5 * u + level * a * m) - 255 * (w + 1) * u,
    ;
    let t = 255 * max * u;
    assert(t * u == 255 * (max * u * u)) by (nonlinear_arith)
        requires
            t == 255 * max * u,
    ;
    assert(1048576 * (x * u) <= t * u);
    assert(1048576 * (y * u) <= t * u);
    assert(1048576 * x <= t) by (nonlinear_arith)
        requires
            1048576 * (x * u) <= t * u,
            u > 0,
    ;
    assert(1048576 * y <= t) by (nonlinear_arith)
        requires
            1048576 * (y * u) <= t * u,
            u > 0,
    ;
}

}
