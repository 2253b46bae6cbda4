//! Meridian presets: a line for each setting, kept as plain text.

use crate::number::{decimal, write_decimal};
use crate::snapshot::{join_with, joined_with};
use crate::text::{strings, text_of};
use vstd::prelude::*;
use vstd::string::*;

verus! {

/// How many settings a preset holds.
pub const SETTING_COUNT: usize = 40;

/// The names of the settings, in the order in which they are written.
pub open spec fn setting_names() -> Seq<Seq<char>> {
    seq![
        "hpf_freq"@,
        "lpf_freq"@,
        "bass_gain"@,
        "lo_mid_gain"@,
        "mid_gain"@,
        "high_gain"@,
        "excite_gain"@,
        "eq_freq_1"@,
        "eq_freq_2"@,
        "eq_freq_3"@,
        "eq_freq_4"@,
        "eq_freq_5"@,
        "tilt_gain"@,
        "warmth_drive"@,
        "warmth_mix"@,
        "excite_amount"@,
        "excite_blend"@,
        "excite_freq"@,
        "comp_threshold"@,
        "comp_mix"@,
        "comp_attack"@,
        "comp_release"@,
        "comp_character"@,
        "comp_makeup"@,
        "inflate_effect"@,
        "inflate_curve"@,
        "stereo_width"@,
        "pan"@,
        "output_gain"@,
        "cut_slope"@,
        "bass_slope"@,
        "lo_mid_slope"@,
        "mid_slope"@,
        "high_slope"@,
        "excite_slope"@,
        "mono_active"@,
        "delta_active"@,
        "bypass_active"@,
        "inflate_band_split"@,
        "inflate_clip"@,
    ]
}

/// The name of the setting at position `i`.
pub fn setting_name(i: usize) -> (r: &'static str)
    requires
        i < SETTING_COUNT,
    ensures
        r@ == setting_names()[i as int],
        r@ == match i {
            0 => "hpf_freq"@,
            1 => "lpf_freq"@,
            2 => "bass_gain"@,
            3 => "lo_mid_gain"@,
            4 => "mid_gain"@,
            5 => "high_gain"@,
            6 => "excite_gain"@,
            7 => "eq_freq_1"@,
            8 => "eq_freq_2"@,
            9 => "eq_freq_3"@,
            10 => "eq_freq_4"@,
            11 => "eq_freq_5"@,
            12 => "tilt_gain"@,
            13 => "warmth_drive"@,
            14 => "warmth_mix"@,
            15 => "excite_amount"@,
            16 => "excite_blend"@,
            17 => "excite_freq"@,
            18 => "comp_threshold"@,
            19 => "comp_mix"@,
            20 => "comp_attack"@,
            21 => "comp_release"@,
            22 => "comp_character"@,
            23 => "comp_makeup"@,
            24 => "inflate_effect"@,
            25 => "inflate_curve"@,
            26 => "stereo_width"@,
            27 => "pan"@,
            28 => "output_gain"@,
            29 => "cut_slope"@,
            30 => "bass_slope"@,
            31 => "lo_mid_slope"@,
            32 => "mid_slope"@,
            33 => "high_slope"@,
            34 => "excite_slope"@,
            35 => "mono_active"@,
            36 => "delta_active"@,
            37 => "bypass_active"@,
            38 => "inflate_band_split"@,
            _ => "inflate_clip"@,
        },
{
    match i {
        0 => "hpf_freq",
        1 => "lpf_freq",
        2 => "bass_gain",
        3 => "lo_mid_gain",
        4 => "mid_gain",
        5 => "high_gain",
        6 => "excite_gain",
        7 => "eq_freq_1",
        8 => "eq_freq_2",
        9 => "eq_freq_3",
        10 => "eq_freq_4",
        11 => "eq_freq_5",
        12 => "tilt_gain",
        13 => "warmth_drive",
        14 => "warmth_mix",
        15 => "excite_amount",
        16 => "excite_blend",
        17 => "excite_freq",
        18 => "comp_threshold",
        19 => "comp_mix",
        20 => "comp_attack",
        21 => "comp_release",
        22 => "comp_character",
        23 => "comp_makeup",
        24 => "inflate_effect",
        25 => "inflate_curve",
        26 => "stereo_width",
        27 => "pan",
        28 => "output_gain",
        29 => "cut_slope",
        30 => "bass_slope",
        31 => "lo_mid_slope",
        32 => "mid_slope",
        33 => "high_slope",
        34 => "excite_slope",
        35 => "mono_active",
        36 => "delta_active",
        37 => "bypass_active",
        38 => "inflate_band_split",
        _ => "inflate_clip",
    }
}

/// The line of a setting.
pub open spec fn setting_line(name: Seq<char>, value: Seq<char>) -> Seq<char> {
    name + "="@ + value
}

/// The lines of a preset.
pub open spec fn setting_lines(values: Seq<Seq<char>>) -> Seq<Seq<char>> {
    Seq::new(values.len(), |i: int| setting_line(setting_names()[i], values[i]))
}

/// The preset for the settings, whose values are given as they are written.
pub fn preset_text(values: &Vec<String>) -> (r: String)
    requires
        values.len() == SETTING_COUNT,
    ensures
        r@ == joined_with(setting_lines(strings(values@)), "\n"@),
        r@ == joined_with(
            Seq::new(40, |i: int| setting_names()[i] + "="@ + values@[i]@),
            "\n"@,
        ),
{
    let mut ls: Vec<String> = Vec::new();
    let mut i: usize = 0;
    while i < values.len()
        invariant
            i <= values.len(),
            values.len() == SETTING_COUNT,
            ls.len() == i,
            forall|k: int|
                0 <= k < i ==> (#[trigger] ls@[k])@ == setting_line(
                    setting_names()[k],
                    values@[k]@,
                ),
        decreases values.len() - i,
    {
        let mut s: String = setting_name(i).to_owned();
        s.append("=");
        s.append(values[i].as_str());
        ls.push(s);
        i += 1;
    }
    assert(strings(ls@) == setting_lines(strings(values@)));
    assert(strings(ls@) == Seq::new(40, |i: int| setting_names()[i] + "="@ + values@[i]@));
    join_with(&ls, "\n")
}

/// The name of the file for a preset that is saved so many seconds after the
/// beginning of 1970.
pub fn preset_file_name(seconds: u64) -> (r: String)
    ensures
        r@ == "meridian_preset_"@ + decimal(seconds as nat) + ".txt"@,
{
    let mut s: String = "meridian_preset_".to_owned();
    s.append(text_of(&write_decimal(seconds)).as_str());
    s.append(".txt");
    s
}

/// The settings are written in their fixed order, each under its own name.
pub proof fn law_settings_are_named(i: usize)
    requires
        i < 40,
    ensures
        setting_names().len() == 40,
        setting_names()[i as int] == match i {
            0 => "hpf_freq"@,
            1 => "lpf_freq"@,
            2 => "bass_gain"@,
            3 => "lo_mid_gain"@,
            4 => "mid_gain"@,
            5 => "high_gain"@,
            6 => "excite_gain"@,
            7 => "eq_freq_1"@,
            8 => "eq_freq_2"@,
            9 => "eq_freq_3"@,
            10 => "eq_freq_4"@,
            11 => "eq_freq_5"@,
            12 => "tilt_gain"@,
            13 => "warmth_drive"@,
            14 => "warmth_mix"@,
            15 => "excite_amount"@,
            16 => "excite_blend"@,
            17 => "excite_freq"@,
            18 => "comp_threshold"@,
            19 => "comp_mix"@,
            20 => "comp_attack"@,
            21 => "comp_release"@,
            22 => "comp_character"@,
            23 => "comp_makeup"@,
            24 => "inflate_effect"@,
            25 => "inflate_curve"@,
            26 => "stereo_width"@,
            27 => "pan"@,
            28 => "output_gain"@,
            29 => "cut_slope"@,
            30 => "bass_slope"@,
            31 => "lo_mid_slope"@,
            32 => "mid_slope"@,
            33 => "high_slope"@,
            34 => "excite_slope"@,
            35 => "mono_active"@,
            36 => "delta_active"@,
            37 => "bypass_active"@,
            38 => "inflate_band_split"@,
            _ => "inflate_clip"@,
        },
{
}

} // verus!
