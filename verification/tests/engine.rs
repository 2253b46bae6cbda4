//! What the plugins decide from block to block.

use lx_plugins::equilibrium_engine::{
    auto_gain_follows, listen_is_ready, loud_ends, loud_offset, loud_runs, loud_step, param_update,
    uses_high_cut, FloorCache, ListenStep, Listening, PreMaster, Switches,
};
use lx_plugins::meridian_engine::{
    band_shape, curve_changed, slope_choice, stages, BandShape, EqBand, FilterSettings,
    SlopeChoice, StageSettings,
};
use lx_plugins::meridian_preset::{preset_file_name, preset_text, setting_name, SETTING_COUNT};
use lx_plugins::number::{parse_u32, reads_as_float, write_decimal, write_padded};
use lx_plugins::ring::{push_history, FrameBuffer, Ring};
use lx_plugins::single::Single;
use lx_plugins::snap::{
    delta_in_phase, mono_in_phase, snap_sample, snap_step, snap_threshold, strip_mono_in_phase,
    SnapMode, SnapSample,
};

fn f(x: f32) -> Single {
    Single::from_bits(x.to_bits())
}

fn value(s: Single) -> f32 {
    f32::from_bits(s.bits)
}

#[test]
fn numbers_compare_as_floats_do() {
    let xs = [
        f32::NEG_INFINITY, -90.0, -1.0, -1e-40, -0.0, 0.0, 1e-45, 0.5, 1.0, 3.4e38, f32::INFINITY, f32::NAN,
    ];
    for a in xs {
        for b in xs {
            assert_eq!(f(a).below(f(b)), a < b);
            assert_eq!(f(a).above(f(b)), a > b);
            assert_eq!(f(a).at_most(f(b)), a <= b);
            assert_eq!(f(a).same(f(b)), a == b);
        }
        assert_eq!(f(a).nan(), a.is_nan());
    }
    assert_eq!(value(f(5.0).clamp(f(-1.0), f(2.0))), 2.0);
    assert_eq!(value(f(-5.0).clamp(f(-1.0), f(2.0))), -1.0);
    assert_eq!(value(f(0.5).clamp(f(-1.0), f(2.0))), 0.5);
}

#[test]
fn floats_are_recognised_as_they_are_parsed() {
    for s in ["1", "-1.5", "+.5", "5.", "1e5", "1E-5", "inf", "-Infinity", "NaN", "1.5e+3", "007"] {
        let v: Vec<char> = s.chars().collect();
        assert!(reads_as_float(&v), "{s}");
        assert!(s.parse::<f32>().is_ok(), "{s}");
    }
    for s in ["", ".", "+", "e5", "1e", "1.5x", " 1", "1_0", "--1", "infin", "1e+", "0x10"] {
        let v: Vec<char> = s.chars().collect();
        assert!(!reads_as_float(&v), "{s}");
        assert!(s.parse::<f32>().is_err(), "{s}");
    }
}

#[test]
fn integers_are_read_and_written() {
    for s in ["0", "+7", "007", "4294967295", "4294967296", "-1", "", "+", "1 ", "99999999999999"] {
        let v: Vec<char> = s.chars().collect();
        assert_eq!(parse_u32(&v), s.parse::<u32>().ok(), "{s}");
    }
    let text = |v: Vec<char>| -> String { v.into_iter().collect() };
    assert_eq!(text(write_decimal(0)), "0");
    assert_eq!(text(write_decimal(18446744073709551615)), "18446744073709551615");
    assert_eq!(text(write_padded(7, 3)), "007");
    assert_eq!(text(write_padded(1234, 3)), "1234");
}

#[test]
fn a_ring_remembers_the_last() {
    let mut r: Ring<i32> = Ring::new(4, 0);
    assert_eq!(r.len(), 4);
    r.push_block(&vec![1, 2, 3, 4, 5, 6]);
    assert_eq!(r.recent(0), 6);
    assert_eq!(r.recent(3), 3);
    assert_eq!(r.latest(3), vec![4, 5, 6]);
    assert_eq!(r.delay(7, 2), 5);
    assert_eq!(r.delay(8, 0), 8);
    r.clear(9);
    assert_eq!(r.latest(4), vec![9, 9, 9, 9]);
}

#[test]
fn frames_fill_up() {
    let mut b: FrameBuffer<i32> = FrameBuffer::new(4, 0);
    assert!(!b.push(1));
    assert!(!b.push(2));
    assert!(!b.push(3));
    assert!(b.push(4));
    assert_eq!(b.frame(), &vec![1, 2, 3, 4]);
    assert!(!b.push(5));
    let mut o: FrameBuffer<i32> = FrameBuffer::new(4, 0);
    let full: Vec<bool> = (1..=8).map(|i| o.push_overlapping(i)).collect();
    assert_eq!(full, vec![false, false, false, true, false, true, false, true]);
    assert_eq!(o.frame()[0..2].to_vec(), vec![7, 8]);
    b.fill(7);
    assert_eq!(b.frame(), &vec![7, 7, 7, 7]);
    assert!(!b.push(6));
    assert_eq!(b.frame(), &vec![7, 6, 7, 7]);
    b.clear(0);
    assert_eq!(b.frame(), &vec![0, 0, 0, 0]);
    let mut h = vec![1, 2, 3];
    push_history(&mut h, 3, 4);
    assert_eq!(h, vec![2, 3, 4]);
}

#[test]
fn a_snapshot_takes_three_captures() {
    let a = snap_step(1);
    let b = snap_step(a.next_phase);
    let c = snap_step(b.next_phase);
    assert!(a.mode == SnapMode::Stereo && b.mode == SnapMode::Mono && c.mode == SnapMode::Delta);
    assert!(!a.finished && !b.finished && c.finished);
    assert_eq!(c.next_phase, 0);
    assert_eq!(snap_threshold(1), 60);
    assert_eq!(snap_threshold(2), 30);
    assert_eq!(snap_threshold(3), 30);
    assert!(snap_sample(2) == SnapSample::Output);
    assert!(snap_sample(3) == SnapSample::Difference);
    assert!(snap_sample(0) == SnapSample::Zero);
    assert!(mono_in_phase(2, false) && mono_in_phase(3, true) && !mono_in_phase(1, false));
    assert!(strip_mono_in_phase(2, false) && !strip_mono_in_phase(3, true) && strip_mono_in_phase(1, true));
    assert!(delta_in_phase(3, false) && delta_in_phase(0, true) && !delta_in_phase(2, false));
}

fn switches(solo: [bool; 5]) -> Switches {
    Switches { solo, bypass: false, mono: false, delta: false, listen: true, auto_gain: true }
}

#[test]
fn soloed_bands_are_audible() {
    let c = param_update(&switches([false; 5]), 0, false);
    assert_eq!(c.audible, [true; 5]);
    let c = param_update(&switches([false, true, false, false, true]), 2, true);
    assert_eq!(c.audible, [false, true, false, false, true]);
    assert!(c.mono && !c.delta && c.listen && c.auto_gain && c.is_measuring && !c.bypass);
    let c = param_update(&switches([true; 5]), 3, false);
    assert!(!c.mono && c.delta);
}

#[test]
fn the_mono_floor_is_remade_when_it_changes() {
    let mut c = FloorCache { freq: f(-1.0), sample_rate: f(44100.0) };
    assert!(c.update(f(120.0), f(44100.0)));
    assert!(!c.update(f(120.0), f(44100.0)));
    assert!(c.update(f(120.0), f(48000.0)));
    assert!(!c.update(f(0.0), f(48000.0)));
    assert!(!c.update(f(120.0), f(48000.0)));
    assert!(!uses_high_cut(f(48000.0)));
    assert!(uses_high_cut(f(88200.0)));
}

#[test]
fn listening_forgets_when_it_ends() {
    let mut l = Listening { samples: 0 };
    assert!(l.step(false, 64) == ListenStep::Idle);
    assert!(l.step(true, 64) == ListenStep::Accumulate);
    assert!(l.step(true, 64) == ListenStep::Accumulate);
    assert_eq!(l.samples, 128);
    assert!(l.step(false, 64) == ListenStep::Forget);
    assert_eq!(l.samples, 0);
    assert!(!listen_is_ready(f(100.0)));
    assert!(listen_is_ready(f(101.0)));
}

#[test]
fn loudness_is_measured_for_a_while() {
    let s = loud_step(true, false);
    assert!(s.starts && !s.feeds);
    assert!(loud_runs(false, s.starts, loud_ends(s.feeds, 0, 10)));
    let s = loud_step(false, true);
    assert!(!loud_ends(s.feeds, 9, 10));
    assert!(loud_ends(s.feeds, 10, 10));
    assert!(!loud_runs(true, false, true));
    assert_eq!(value(loud_offset(f(6.0), f(2.0))), 2.0);
    assert_eq!(value(loud_offset(f(-30.0), f(2.0))), -24.0);
    assert_eq!(value(loud_offset(f(-3.0), f(2.0))), -3.0);
    assert!(auto_gain_follows(true, 64, f(0.1), f(0.2)));
    assert!(!auto_gain_follows(true, 64, f(1e-9), f(0.2)));
    assert!(!auto_gain_follows(true, 0, f(0.1), f(0.2)));
    assert!(!auto_gain_follows(false, 64, f(0.1), f(0.2)));
}

#[test]
fn the_pre_master_measures_then_holds() {
    let mut p = PreMaster::new();
    assert!(p.switch(true));
    assert!(!p.switch(true));
    p.measure(f(0.25), 64, 128);
    p.measure(f(0.5), 64, 128);
    p.measure(f(0.9), 64, 128);
    assert_eq!(value(p.measure_peak), 0.5);
    assert!(p.engage(128, f(0.01), f(1.4)));
    assert_eq!(value(p.gain), 1.4f32);
    assert!(!p.engage(128, f(0.01), f(3.0)));
    assert_eq!(value(p.gain), 1.4f32);
    assert!(p.switch(false));
    assert_eq!(value(p.gain), 1.0);
    let mut quiet = PreMaster::new();
    quiet.switch(true);
    quiet.measure(f(0.001), 128, 128);
    assert!(!quiet.engage(128, f(0.01), f(3.0)));
    assert_eq!(quiet.measure_count, 0);
    assert_eq!(value(quiet.gain), 1.0);
}

fn settings() -> FilterSettings {
    let band = |gain: f32, freq: f32| EqBand { gain: f(gain), slope: 1, freq: f(freq) };
    FilterSettings {
        hpf_freq: f(20.0),
        lpf_freq: f(20000.0),
        cut_slope: 0,
        bands: [band(0.0, 80.0), band(0.0, 250.0), band(0.0, 1000.0), band(0.0, 4000.0), band(0.0, 12000.0)],
        tilt_gain: f(0.0),
        excite_freq: f(3000.0),
        sample_rate: f(48000.0),
    }
}

#[test]
fn the_first_settings_make_every_filter() {
    let mut cache = FilterSettings::new();
    cache.sample_rate = f(48000.0);
    let plan = cache.update(&settings(), f(1.0), f(1.0));
    assert!(plan.cut.remake && plan.cut.reset_hpf && plan.cut.reset_lpf && !plan.cut.steep);
    assert_eq!(plan.bands, [true; 5]);
    assert!(plan.tilt && plan.excite);
    let plan = cache.update(&settings(), f(1.0), f(1.0));
    assert!(!plan.cut.remake && !plan.cut.reset_hpf && !plan.tilt && !plan.excite);
    assert_eq!(plan.bands, [false; 5]);
}

#[test]
fn only_changed_filters_are_remade() {
    let mut cache = settings();
    let mut now = settings();
    now.bands[2].gain = f(3.0);
    now.cut_slope = 1;
    let plan = cache.update(&now, f(1.0), f(1.0));
    assert_eq!(plan.bands, [false, false, true, false, false]);
    assert!(plan.cut.remake && plan.cut.steep && !plan.cut.reset_hpf && !plan.cut.reset_lpf);
    assert!(!plan.tilt && !plan.excite);
    let mut jump = now;
    jump.hpf_freq = f(100.0);
    let plan = cache.update(&jump, f(5.0), f(1.0));
    assert!(plan.cut.remake && !plan.cut.reset_hpf && !plan.cut.reset_lpf);
    // Three octaves, then four, then more than four.
    for (freq, ratio, clears) in [(800.0, 8.0, false), (50.0, 16.0, false), (900.0, 18.0, true)] {
        jump.hpf_freq = f(freq);
        let plan = cache.update(&jump, f(ratio), f(1.0));
        assert!(plan.cut.remake);
        assert_eq!(plan.cut.reset_hpf, clears);
        assert!(!plan.cut.reset_lpf);
    }
    jump.lpf_freq = f(1000.0);
    let plan = cache.update(&jump, f(1.0), f(20.0));
    assert!(!plan.cut.reset_hpf && plan.cut.reset_lpf);
    let mut rate = jump;
    rate.sample_rate = f(96000.0);
    let plan = cache.update(&rate, f(1.0), f(1.0));
    assert_eq!(plan.bands, [true; 5]);
    assert!(plan.cut.remake && plan.tilt && plan.excite && !plan.cut.reset_hpf);
}

#[test]
fn the_curve_is_drawn_anew_when_it_changes() {
    let drawn = settings();
    assert!(curve_changed(None, &drawn));
    assert!(!curve_changed(Some(&drawn), &settings()));
    let mut now = settings();
    now.excite_freq = f(5000.0);
    assert!(!curve_changed(Some(&drawn), &now));
    now.bands[4].slope = 2;
    assert!(curve_changed(Some(&drawn), &now));
}

#[test]
fn stages_and_shapes() {
    let off = StageSettings {
        excite_amount: f(0.0),
        excite_blend: f(0.0),
        warmth_drive: f(0.0),
        warmth_mix: f(0.0),
        inflate_effect: f(0.0),
    };
    let s = stages(&off);
    assert!(!s.excite && !s.warmth && !s.inflate);
    let mut on = off;
    on.excite_blend = f(1.0);
    on.inflate_effect = f(0.1);
    let s = stages(&on);
    assert!(s.excite && !s.warmth && s.inflate);
    assert!(band_shape(0) == BandShape::LowShelf);
    assert!(band_shape(2) == BandShape::Peak);
    assert!(band_shape(4) == BandShape::HighShelf);
    assert!(slope_choice(0) == SlopeChoice::Gentle);
    assert!(slope_choice(1) == SlopeChoice::Medium);
    assert!(slope_choice(2) == SlopeChoice::Steep);
}

#[test]
fn a_preset_has_a_line_for_each_setting() {
    let values: Vec<String> = (0..SETTING_COUNT).map(|i| i.to_string()).collect();
    let text = preset_text(&values);
    let lines: Vec<&str> = text.split('\n').collect();
    assert_eq!(lines.len(), SETTING_COUNT);
    assert_eq!(lines[0], "hpf_freq=0");
    assert_eq!(lines[28], "output_gain=28");
    assert_eq!(lines[39], "inflate_clip=39");
    assert_eq!(setting_name(27), "pan");
    assert_eq!(preset_file_name(1751328000), "meridian_preset_1751328000.txt");
}
