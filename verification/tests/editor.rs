//! What the editors decide on each tick.

use lx_plugins::editor::{
    analyzer_snap_label, applies_offset, changed_bool, changed_curve, changed_f32, changed_i32, changed_str,
    fmt_db, input_db_text, input_meter_line, input_peak_text, keeps_in_file_name, mode_status,
    mono_floor_text, offset_on_end, parse_number, rest_label, running_label, safe_file_name,
    save_name, shows_masking, snap_blink, starts_auto_loud, vault_is_set, vault_path_of, CurveBand,
    CurveKey, PeakHold, PeakHolds, SnapButton, SnapTick, TickCache,
};
use lx_plugins::equilibrium_snapshot::{snap_markdown, spectrum_bin, EquilibriumSnapshot, SpectrumRow};
use lx_plugins::pending::PendingPresets;
use lx_plugins::single::Single;
use lx_plugins::snapshot::{join_with, snap_filename};
use lx_plugins::vault::{config_with_preset, preset_save_dir, startup_scan, PluginConfig};

fn f(x: f32) -> Single {
    Single::from_bits(x.to_bits())
}

/// Process semantics: 0 = own-only, 1 = hybrid (own + relays), 2 = relay-only.
#[test]
fn mode_labels_match_process_semantics() {
    assert_eq!(mode_status(0), "Own bus");
    assert_eq!(mode_status(1), "Own + Relays");
    assert_eq!(mode_status(2), "Relays");
}

#[test]
fn an_unknown_mode_has_no_label() {
    assert_eq!(mode_status(3), "?");
}

#[test]
fn only_changes_are_shown() {
    let mut b = None;
    assert!(changed_bool(&mut b, false));
    assert!(!changed_bool(&mut b, false));
    assert!(changed_bool(&mut b, true));
    assert_eq!(b, Some(true));
    let mut x = f(f32::NAN);
    assert!(changed_f32(&mut x, f(1.0)));
    assert!(!changed_f32(&mut x, f(1.0)));
    let mut z = f(0.0);
    assert!(!changed_f32(&mut z, f(-0.0)));
    assert!(changed_f32(&mut z, f(f32::NAN)));
    assert!(changed_f32(&mut z, f(f32::NAN)));
    let mut i = 3;
    assert!(!changed_i32(&mut i, 3));
    assert!(changed_i32(&mut i, -1));
    let mut s = "a".to_string();
    assert!(!changed_str(&mut s, "a"));
    assert!(changed_str(&mut s, "ä"));
    assert_eq!(s, "ä");
}

#[test]
fn ticks_come_at_their_interval() {
    let mut t = TickCache::new(100);
    assert!(t.due(100));
    assert!(!t.due(132));
    assert!(t.due(133));
    assert!(!t.due(0));
}

#[test]
fn a_peak_is_held_for_ninety_ticks() {
    let mut m = PeakHold::new(f(-90.0));
    m.take(f(-3.0), f(-90.5));
    for _ in 0..90 {
        m.take(f(-20.0), f(-3.5));
        assert_eq!(m.hold.bits, f(-3.0).bits);
    }
    m.take(f(-20.0), f(-3.5));
    assert_eq!(m.hold.bits, f(-3.5).bits);
}

#[test]
fn held_peaks_do_not_fall() {
    let mut h = PeakHolds::new(f(-90.0));
    h.take(f(-3.0), f(-3.0), f(-6.0));
    h.take(f(-4.0), f(-9.0), f(-4.0));
    assert_eq!(h.both.bits, f(-3.0).bits);
    assert_eq!(h.left.bits, f(-3.0).bits);
    assert_eq!(h.right.bits, f(-4.0).bits);
}

#[test]
fn readings() {
    assert_eq!(fmt_db(f(-60.0), "-60.0"), "-inf");
    assert_eq!(fmt_db(f(-59.9), "-59.9"), "-59.9");
    assert_eq!(input_db_text(f(-90.0), "-90.0"), "--");
    assert_eq!(input_db_text(f(-3.0), "-3.0"), "-3.0 dB");
    assert_eq!(input_meter_line(f(-90.0), "-90.0"), "in: —");
    assert_eq!(input_meter_line(f(-3.0), "-3.0"), "in: -3.0 dB");
    assert_eq!(input_peak_text(f(-91.0), "-91.0"), "");
    assert_eq!(input_peak_text(f(-1.0), "-1.0"), "pk -1.0 dB");
    assert_eq!(mono_floor_text(f(0.4), "0"), "off");
    assert_eq!(mono_floor_text(f(0.5), "1"), "1 Hz");
}

#[test]
fn typed_numbers() {
    assert_eq!(parse_number(" 3,5 "), Some("3.5".to_string()));
    assert_eq!(parse_number("-1e2"), Some("-1e2".to_string()));
    assert_eq!(parse_number("3.5 dB"), None);
    assert_eq!(parse_number(""), None);
    assert_eq!(parse_number("1,2,3"), None);
}

#[test]
fn typed_paths_and_names() {
    assert_eq!(vault_path_of("  /a b "), Some("/a b".to_string()));
    assert_eq!(vault_path_of(" \t"), None);
    assert!(vault_is_set(&Some("x".to_string())));
    assert!(!vault_is_set(&Some("".to_string())));
    assert!(!vault_is_set(&None));
    assert_eq!(safe_file_name("Größe 1/2: a_b-c*"), "Größe 12 a_b-c");
    assert!(keeps_in_file_name('-', false));
    assert!(!keeps_in_file_name('/', false));
    assert!(keeps_in_file_name('é', true));
    assert_eq!(save_name("  ", 12), "User Preset 12");
    assert_eq!(save_name(" Rock ", 12), "Rock");
}

#[test]
fn the_snapshot_button_blinks() {
    let mut b = SnapButton::new();
    assert!(b.tick(false) == SnapTick::Nothing);
    for i in 1..=7 {
        assert!(b.tick(true) == SnapTick::Running(true), "{i}");
    }
    assert!(b.tick(true) == SnapTick::Running(false));
    assert!(b.tick(false) == SnapTick::Ended);
    assert!(b.tick(false) == SnapTick::Nothing);
    assert_eq!(running_label(true), "ANALYZE...");
    assert_eq!(running_label(false), "ANALYZE· · ·");
    assert_eq!(rest_label(true), "SNAP");
    assert_eq!(rest_label(false), "SET VAULT");
    assert_eq!(snap_blink(0, true), (71, false));
    assert_eq!(snap_blink(1, false), (0, true));
    assert_eq!(snap_blink(0, false), (0, false));
    assert_eq!(analyzer_snap_label(3, true), "ANALYZE...");
    assert_eq!(analyzer_snap_label(0, true), "SNAP");
    assert_eq!(analyzer_snap_label(0, false), "SET VAULT");
}

#[test]
fn switches() {
    assert!(shows_masking(true, 1, false));
    assert!(!shows_masking(true, 1, true));
    assert!(shows_masking(true, 2, true));
    assert!(!shows_masking(true, 0, false));
    assert!(!shows_masking(false, 2, false));
    assert!(starts_auto_loud(false, false));
    assert!(!starts_auto_loud(true, false));
    assert!(!starts_auto_loud(false, true));
    assert!(applies_offset(false, f(0.06)));
    assert!(!applies_offset(false, f(0.05)));
    assert!(!applies_offset(true, f(3.0)));
    assert_eq!(offset_on_end(true, false, f(0.02)), (true, true));
    assert_eq!(offset_on_end(true, false, f(0.01)), (true, false));
    assert_eq!(offset_on_end(true, true, f(3.0)), (false, false));
    assert_eq!(offset_on_end(false, false, f(3.0)), (false, false));
}

#[test]
fn only_the_current_scan_is_taken_over() {
    let mut p: PendingPresets<u32> = PendingPresets::new();
    assert!(p.drain().is_none());
    let first = p.bump_generation();
    let second = p.bump_generation();
    assert_eq!((first, second), (1, 2));
    p.complete(first, vec![1]);
    assert!(p.drain().is_none());
    p.complete(second, vec![2, 3]);
    assert_eq!(p.drain(), Some(&vec![2, 3]));
    assert!(p.drain().is_none());
    // The result stays until the next scan.
    assert_eq!(p.presets, Some((second, vec![2, 3])));
    p.ready = true;
    assert_eq!(p.drain(), Some(&vec![2, 3]));
    p.generation = u32::MAX;
    assert_eq!(p.bump_generation(), 0);
}

#[test]
fn the_next_snapshot_is_new() {
    let names = |v: &[&str]| -> Vec<String> { v.iter().map(|s| s.to_string()).collect() };
    assert_eq!(snap_filename(&names(&[])), "SNAPSHOT-001.md");
    assert_eq!(
        snap_filename(&names(&["SNAPSHOT-007.md", "SNAPSHOT-+12.md", "SNAPSHOT-x.md", "note.md", "SNAPSHOT-3.txt"])),
        "SNAPSHOT-013.md"
    );
    assert_eq!(snap_filename(&names(&["SNAPSHOT-999.md"])), "SNAPSHOT-1000.md");
    assert_eq!(snap_filename(&names(&["SNAPSHOT-4294967296.md"])), "SNAPSHOT-001.md");
    assert_eq!(join_with(&names(&["a", "b", "c"]), ", "), "a, b, c");
    assert_eq!(join_with(&names(&[]), ", "), "");
}

#[test]
fn the_vault_is_not_forgotten() {
    let config = PluginConfig {
        vault_path: Some("/vault".to_string()),
        last_preset: Some("Rock".to_string()),
    };
    let r = config_with_preset(&config, &None, "  ");
    assert_eq!(r.vault_path, Some("/vault".to_string()));
    assert_eq!(r.last_preset, Some("Rock".to_string()));
    let r = config_with_preset(&config, &Some(" ".to_string()), "Jazz");
    assert_eq!(r.vault_path, None);
    assert_eq!(r.last_preset, Some("Jazz".to_string()));
    assert_eq!(preset_save_dir(&Some("/v".to_string()), "/own"), "/v");
    assert_eq!(preset_save_dir(&Some("".to_string()), "/own"), "/own");
    assert_eq!(preset_save_dir(&None, "/own"), "/own");
    assert_eq!(startup_scan(&None, &Some("/own".to_string())), Some("/own".to_string()));
    assert_eq!(startup_scan(&Some("/v".to_string()), &None), Some("/v".to_string()));
    assert_eq!(startup_scan(&None, &None), None);
}

#[test]
fn equilibrium_snapshot_file() {
    let row = |hz: &str, db: &str| SpectrumRow { freq: hz.to_string(), level: db.to_string() };
    let s = EquilibriumSnapshot {
        stereo: vec![row("100", "-20.0"), row("200", "-30.0")],
        mono: vec![row("100", "-21.0")],
        delta: vec![],
        band_levels: ["-1.0", "-2.0", "-3.0", "-4.0", "-5.0"].iter().map(|s| s.to_string()).collect(),
        correlation: "0.90".to_string(),
        peak_l: "-3.0".to_string(),
        peak_r: "-4.0".to_string(),
    };
    let md = snap_markdown(&s);
    assert!(md.starts_with("---\nplugin: equilibrium\ntype: snapshot\n---\n\n# Equilibrium Snapshot\n"));
    assert!(md.contains("| Peak | -3.0 dB | -4.0 dB |\n| Korrelation | 0.90 | |\n"));
    assert!(md.contains("## Spektrum — Stereo\n| Hz | dB |\n|----|-----|\n| 100 | -20.0 |\n| 200 | -30.0 |\n\n## Spektrum — Mono\n"));
    assert!(md.ends_with("| Low | -1.0 dB |\n| Bass | -2.0 dB |\n| Mid | -3.0 dB |\n| Hi-Mid | -4.0 dB |\n| High | -5.0 dB |\n"));
    assert_eq!(spectrum_bin(5, 10), 5);
    assert_eq!(spectrum_bin(15, 10), 9);
    assert_eq!(spectrum_bin(3, 0), 0);
}

#[test]
fn a_curve_is_drawn_when_its_settings_change() {
    let band = CurveBand { type_code: 1, freq: f(105.0), gain: f(0.0), q: f(0.7) };
    let key = CurveKey { bands: [band; 5], sample_rate: f(48000.0) };
    let mut drawn = None;
    assert!(changed_curve(&mut drawn, key));
    assert!(!changed_curve(&mut drawn, key));
    let mut other = key;
    other.bands[4].q = f(0.8);
    assert!(changed_curve(&mut drawn, other));
    assert!(!changed_curve(&mut drawn, other));
    other.sample_rate = f(44100.0);
    assert!(changed_curve(&mut drawn, other));
}
