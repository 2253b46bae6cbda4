//! What the analyzer finds, holds, publishes and draws.

use aura_dsp::analysis::{spectrum_physical_db, spectrum_tilt_db, SPECTRUM_BINS};
use lx_plugins::hold::{
    format_masking_text, format_resonance_text, panel_text, window_is_over, HeldPeaks,
};
use lx_plugins::lucent_engine::{
    analyze_mode, analyzed_samples, frame_plan, publish_frame, updates_mean, AnalyzeMode,
};
use lx_plugins::lucent_snapshot::{snap_markdown, Finding, LucentSnapshot};
use lx_plugins::masking::{track_has_masking_signal, MaskTrack, MaskingAnalyzer};
use lx_plugins::path::{
    bar_bins, build_area, build_curve, build_trace, drawn_bins, gr_envelope_path, mask_bars_path, relay_color,
    res_marker_cmds, Bar, Marker, PathPoint,
};
use lx_plugins::peaks::{
    active_tracks, attribute_contributors, attribute_contributors_into, contributor_names, offer,
    sort_strongest_first, suppress_harmonics, suppress_harmonics_in_place, take_top,
    AttributedPeak, NamedPeak, NamedTrack, RelayTrack, CONTRIB_NONE, CONTRIB_OWN,
    MAX_PEAK_CONTRIBS, MAX_RES_PEAKS, RELAY_MASK_DRIVEN,
};
use lx_plugins::registry::Findings;
use lx_plugins::relay_state::RelaySlot;
use lx_plugins::resonance::{bandwidth_edges, PeakMeasure, PeakTracker, SensitivityThresholds};
use lx_plugins::single::Single;

fn f(x: f32) -> Single {
    Single::from_bits(x.to_bits())
}

fn value(s: Single) -> f32 {
    f32::from_bits(s.bits)
}

fn list(v: &[(usize, f32)]) -> Vec<(usize, Single)> {
    v.iter().map(|&(b, s)| (b, f(s))).collect()
}

fn plain(v: &[(usize, Single)]) -> Vec<(usize, f32)> {
    v.iter().map(|&(b, s)| (b, value(s))).collect()
}

fn levels(v: &[f32]) -> Vec<Single> {
    v.iter().map(|&x| f(x)).collect()
}

/// The physical levels of a displayed spectrum.
fn physical(spectrum: &[f32], sample_rate: f32) -> Vec<Single> {
    let bin_hz = sample_rate / (spectrum.len() as f32 * 2.0);
    spectrum
        .iter()
        .enumerate()
        .map(|(j, &db)| f(spectrum_physical_db(db, j as f32 * bin_hz)))
        .collect()
}

/// Half the critical band around each bin, in bins.
fn half_windows(n: usize, sample_rate: f32) -> Vec<usize> {
    let bin_hz = sample_rate / (n as f32 * 2.0);
    (0..n)
        .map(|j| {
            let freq = j as f32 * bin_hz;
            let erb_hz = 24.7 * (4.37 * freq / 1000.0 + 1.0);
            (erb_hz / 2.0 / bin_hz).round() as usize
        })
        .collect()
}

fn tilted_silent_spectrum(sample_rate: f32) -> Vec<f32> {
    let fft_size = (SPECTRUM_BINS * 2) as f32;
    (0..SPECTRUM_BINS)
        .map(|j| {
            let freq = j as f32 * sample_rate / fft_size;
            (-90.0 + spectrum_tilt_db(freq)).clamp(-90.0, 12.0)
        })
        .collect()
}

#[test]
fn silent_tilted_relays_do_not_mask() {
    let sr = 48_000.0;
    let silent = tilted_silent_spectrum(sr);
    let relays = vec![
        MaskTrack { slot: 0, levels: physical(&silent, sr) },
        MaskTrack { slot: 1, levels: physical(&silent, sr) },
    ];
    let mut analyzer = MaskingAnalyzer::new(SPECTRUM_BINS);
    analyzer.compute_masking(None, &relays, 0, f(-70.0), &half_windows(SPECTRUM_BINS, sr), 4);
    analyzer.fill_peaks_above_floor(f(-70.0));
    assert!(
        analyzer.peaks_above_floor().is_empty(),
        "tilted silence must not register as masking"
    );
}

#[test]
fn lib_silent_tilted_relays_do_not_mask() {
    let sr = 48_000.0;
    let silent = tilted_silent_spectrum(sr);
    let relays = vec![
        MaskTrack { slot: 0, levels: physical(&silent, sr) },
        MaskTrack { slot: 1, levels: physical(&silent, sr) },
    ];
    let mut analyzer = MaskingAnalyzer::new(SPECTRUM_BINS);
    analyzer.compute_masking(None, &relays, 0, f(-70.0), &half_windows(SPECTRUM_BINS, sr), 4);
    assert!(
        analyzer.top_peaks(3, f(-70.0)).is_empty(),
        "tilted silence must not register as masking"
    );
}

#[test]
fn collision_reports_contributor_ids() {
    let sr = 48_000.0;
    let mut peak = [-90.0f32; SPECTRUM_BINS];
    peak[100] = 0.0;
    let relays = vec![MaskTrack { slot: 0, levels: physical(&peak, sr) }];
    let own = physical(&peak, sr);
    let mut analyzer = MaskingAnalyzer::new(SPECTRUM_BINS);
    analyzer.compute_masking(Some(&own), &relays, 0, f(-70.0), &half_windows(SPECTRUM_BINS, sr), 0);
    analyzer.fill_peaks_above_floor(f(-70.0));
    let peaks = analyzer.peaks_above_floor();
    assert!(
        peaks.iter().any(|p| {
            let ids = p.ids_slice();
            ids.contains(&CONTRIB_OWN) && ids.contains(&0)
        }),
        "collision should id Own + SHM slot 0, got {peaks:?}"
    );
}

#[test]
fn physical_db_undoes_tilted_silence() {
    let sr = 48_000.0;
    let fft_size = (SPECTRUM_BINS * 2) as f32;
    let freq = 983.0 * sr / fft_size;
    let displayed = -90.0 + spectrum_tilt_db(freq);
    let physical = spectrum_physical_db(displayed, freq);
    assert!(
        physical < -80.0,
        "physical level should sit at noise floor, got {physical}"
    );
}

#[test]
fn a_collision_is_as_loud_as_the_quieter_track() {
    let mut a = vec![-90.0f32; 64];
    let mut b = vec![-90.0f32; 64];
    a[10] = -12.0;
    b[10] = -20.0;
    let relays = vec![
        MaskTrack { slot: 3, levels: levels(&a) },
        MaskTrack { slot: 5, levels: levels(&b) },
    ];
    let windows = vec![2usize; 64];
    let mut analyzer = MaskingAnalyzer::new(64);
    analyzer.compute_masking(None, &relays, 0, f(-70.0), &windows, 0);
    assert_eq!(value(analyzer.masking_map[10]), -20.0);
    assert_eq!(value(analyzer.masking_map[12]), -20.0);
    assert_eq!(value(analyzer.masking_map[13]), -90.0);
    let top = analyzer.top_peaks(2, f(-70.0));
    assert_eq!(top.len(), 2);
    assert_eq!(top[0].bin, 8);
    assert_eq!(top[0].ids_slice(), &[3u8, 5u8][..]);
    let names: Vec<String> = ["a", "b", "c", "Kick", "e", "Bass"].iter().map(|s| s.to_string()).collect();
    assert_eq!(contributor_names(&top[0], &names), vec!["Kick".to_string(), "Bass".to_string()]);
    assert_eq!(contributor_names(&top[0], &names[..4].to_vec()), vec!["Kick".to_string()]);
}

#[test]
fn a_brief_collision_is_not_shown() {
    let mut a = vec![-90.0f32; 32];
    a[10] = -12.0;
    let relays = vec![
        MaskTrack { slot: 0, levels: levels(&a) },
        MaskTrack { slot: 1, levels: levels(&a) },
    ];
    let windows = vec![2usize; 32];
    let mut analyzer = MaskingAnalyzer::new(32);
    for _ in 0..4 {
        analyzer.compute_masking(None, &relays, 0, f(-70.0), &windows, 4);
        analyzer.fill_peaks_above_floor(f(-70.0));
        assert!(analyzer.peaks_above_floor().is_empty());
    }
    analyzer.compute_masking(None, &relays, 0, f(-70.0), &windows, 4);
    analyzer.fill_peaks_above_floor(f(-70.0));
    assert_eq!(analyzer.peaks_above_floor().len(), 5);
}

#[test]
fn a_relay_that_is_off_does_not_mask() {
    let mut a = vec![-90.0f32; 32];
    a[10] = -12.0;
    let relays = vec![
        MaskTrack { slot: 0, levels: levels(&a) },
        MaskTrack { slot: 1, levels: levels(&a) },
    ];
    let windows = vec![2usize; 32];
    let mut analyzer = MaskingAnalyzer::new(32);
    analyzer.compute_masking(None, &relays, RELAY_MASK_DRIVEN | 1, f(-70.0), &windows, 0);
    assert_eq!(value(analyzer.masking_map[10]), -90.0);
    analyzer.compute_masking(None, &relays, RELAY_MASK_DRIVEN | 3, f(-70.0), &windows, 0);
    assert_eq!(value(analyzer.masking_map[10]), -12.0);
    // Without the driven bit every relay is on.
    analyzer.compute_masking(None, &relays, 0, f(-70.0), &windows, 0);
    assert_eq!(value(analyzer.masking_map[10]), -12.0);
    assert!(track_has_masking_signal(&relays[0].levels));
    assert!(!track_has_masking_signal(&levels(&[-90.0, -90.0])));
    assert!(!track_has_masking_signal(&levels(&[])));
}

#[test]
fn peaks_name_their_contributors() {
    let mut p = AttributedPeak::new(7, f(2.5));
    assert_eq!(p.ids_slice().len(), 0);
    p.push_id(CONTRIB_NONE);
    assert_eq!(p.ids_slice().len(), 0);
    for i in 0..12u8 {
        p.push_id(i);
    }
    assert_eq!(p.ids_slice().len(), MAX_PEAK_CONTRIBS);
    assert_eq!(p.ids_slice()[7], 7);
    let d = AttributedPeak::default();
    assert_eq!(d.bin, 0);
    assert_eq!(d.ids, [CONTRIB_NONE; 8]);
}

#[test]
fn contributors_are_the_loud_tracks() {
    let tracks = vec![
        RelayTrack { slot: 0, bins: levels(&[-69.0, -90.0]) },
        RelayTrack { slot: 2, bins: levels(&[-70.0, -20.0]) },
        RelayTrack { slot: 4, bins: levels(&[-10.0]) },
    ];
    let peaks = list(&[(0, 3.0), (1, 2.0)]);
    let r = attribute_contributors_into(&peaks, &tracks, 0);
    assert_eq!(r[0].ids_slice(), &[0u8, 4][..]);
    assert_eq!(r[1].ids_slice(), &[2u8][..]);
    let r = attribute_contributors_into(&peaks, &tracks, RELAY_MASK_DRIVEN | 1 << 4);
    assert_eq!(r[0].ids_slice(), &[4u8][..]);
    assert_eq!(active_tracks(&tracks, 0), vec![0, 1, 2]);
    assert_eq!(active_tracks(&tracks, RELAY_MASK_DRIVEN | 1 << 4 | 1), vec![0, 2]);
    assert_eq!(active_tracks(&tracks, RELAY_MASK_DRIVEN), Vec::<usize>::new());
    let many = list(&[(0, 1.0); 20]);
    assert_eq!(attribute_contributors_into(&many, &tracks, 0).len(), MAX_RES_PEAKS);
    let named = vec![
        NamedTrack { name: "Kick".to_string(), bins: levels(&[-69.0, -90.0]) },
        NamedTrack { name: "Bass".to_string(), bins: levels(&[-10.0]) },
    ];
    let r = attribute_contributors(&peaks, &named);
    assert_eq!(r[0].names, vec!["Kick".to_string(), "Bass".to_string()]);
    assert_eq!(r[1].names.len(), 0);
    assert_eq!(value(r[1].score), 2.0);
}

#[test]
fn a_full_list_keeps_the_strongest() {
    let mut kept: Vec<(usize, Single)> = Vec::new();
    for (bin, score) in [(1usize, 5.0f32), (2, 1.0), (3, 3.0), (4, 2.0), (5, 0.5)] {
        offer(&mut kept, 3, (bin, f(score)));
    }
    assert_eq!(plain(&kept), vec![(1, 5.0), (4, 2.0), (3, 3.0)]);
    assert_eq!(plain(&sort_strongest_first(&kept)), vec![(1, 5.0), (3, 3.0), (4, 2.0)]);
}

#[test]
fn sorting_keeps_the_order_of_equals() {
    let l = list(&[(1, 2.0), (2, 7.0), (3, 2.0), (4, 7.0)]);
    assert_eq!(plain(&sort_strongest_first(&l)), vec![(2, 7.0), (4, 7.0), (1, 2.0), (3, 2.0)]);
    assert_eq!(plain(&take_top(&l, 3)), vec![(2, 7.0), (4, 7.0), (1, 2.0)]);
    assert_eq!(take_top(&l, 9).len(), 4);
}

#[test]
fn overtones_are_dropped() {
    let mut spectrum = vec![-90.0f32; 128];
    spectrum[10] = -10.0;
    spectrum[21] = -12.0;
    spectrum[32] = -6.0;
    spectrum[47] = -20.0;
    let raised: Vec<f32> = spectrum.iter().map(|x| x + 3.0).collect();
    let mut peaks = list(&[(10, 9.0), (21, 8.0), (32, 7.0), (47, 6.0)]);
    let s = levels(&spectrum);
    let r = levels(&raised);
    // Bin 21 lies near twice bin 10; bin 32 is louder by more than the margin;
    // bin 47 lies near no multiple of bin 10.
    assert_eq!(plain(&suppress_harmonics(&s, &r, &peaks)), vec![(10, 9.0), (32, 7.0), (47, 6.0)]);
    suppress_harmonics_in_place(&s, &r, &mut peaks);
    assert_eq!(plain(&peaks), vec![(10, 9.0), (32, 7.0), (47, 6.0)]);
    let mut outside = list(&[(10, 9.0), (500, 1.0)]);
    suppress_harmonics_in_place(&s, &r, &mut outside);
    assert_eq!(plain(&outside), vec![(10, 9.0)]);
}

#[test]
fn a_dropped_peak_is_no_fundamental_in_place() {
    let mut spectrum = vec![-90.0f32; 64];
    spectrum[10] = -10.0;
    spectrum[22] = -10.0;
    spectrum[44] = -10.0;
    let raised: Vec<f32> = spectrum.iter().map(|x| x + 3.0).collect();
    let peaks = list(&[(10, 3.0), (22, 2.0), (44, 1.0)]);
    let s = levels(&spectrum);
    let r = levels(&raised);
    assert_eq!(plain(&suppress_harmonics(&s, &r, &peaks)), vec![(10, 3.0)]);
    let mut kept = list(&[(10, 3.0), (22, 2.0), (44, 1.0)]);
    suppress_harmonics_in_place(&s, &r, &mut kept);
    assert_eq!(plain(&kept), vec![(10, 3.0), (44, 1.0)]);
}

fn thresholds() -> SensitivityThresholds {
    SensitivityThresholds {
        contrast_min_db: f(5.5),
        flatness_max: f(0.675),
        floor_db: f(-75.0),
        score_min: f(2.5),
        persistence_min: 12,
        masking_floor_db: f(-70.0),
        min_q: f(4.0),
    }
}

fn measures(n: usize, contrast: f32) -> Vec<PeakMeasure> {
    vec![PeakMeasure { contrast: f(contrast), flatness: f(0.1), q: f(20.0) }; n]
}

#[test]
fn peaks_pass_every_gate() {
    let mut spectrum = vec![-90.0f32; 16];
    spectrum[5] = -20.0;
    spectrum[9] = -80.0;
    let s = levels(&spectrum);
    let mut t = PeakTracker::new(16);
    t.find_peaks_into(&s, &measures(16, 8.0), &thresholds());
    assert_eq!(plain(&t.peaks), vec![(5, 8.0)]);
    assert_eq!(plain(&t.find_peaks(&s, &measures(16, 8.0), &thresholds())), vec![(5, 8.0)]);
    assert_eq!(t.find_peaks(&s, &measures(16, 5.0), &thresholds()).len(), 0);
    let mut noisy = measures(16, 8.0);
    noisy[5].flatness = f(0.9);
    assert_eq!(t.find_peaks(&s, &noisy, &thresholds()).len(), 0);
    let mut broad = measures(16, 8.0);
    broad[5].q = f(3.9);
    assert_eq!(t.find_peaks(&s, &broad, &thresholds()).len(), 0);
    assert_eq!(t.find_peaks(&levels(&[]), &measures(0, 8.0), &thresholds()).len(), 0);
    assert_eq!(t.find_peaks(&levels(&[-1.0]), &measures(1, 8.0), &thresholds()).len(), 0);
}

#[test]
fn edges_of_a_peak() {
    let s = levels(&[-30.0, -9.0, -8.0, -7.0, -9.5, -40.0, -7.0]);
    assert_eq!(bandwidth_edges(&s, 3, f(-10.0)), (1, 4));
    let flat = levels(&[0.0; 100]);
    assert_eq!(bandwidth_edges(&flat, 50, f(-3.0)), (26, 74));
    assert_eq!(bandwidth_edges(&flat, 3, f(-3.0)), (0, 27));
}

#[test]
fn resonances_last() {
    let mut spectrum = vec![-90.0f32; 16];
    spectrum[5] = -20.0;
    let raised: Vec<f32> = spectrum.iter().map(|x| x + 3.0).collect();
    let (s, r) = (levels(&spectrum), levels(&raised));
    let mut t = PeakTracker::new(16);
    for frame in 1..=13u32 {
        t.observe(&s, &r, &measures(16, 8.0), &thresholds());
        assert_eq!(t.persistence[5], frame);
        let mut scores = vec![f(0.0); 16];
        scores[5] = f(4.0);
        t.fill_resonance(scores, &thresholds());
        let found = plain(t.res_peaks());
        if frame <= 12 {
            assert!(found.is_empty());
        } else {
            assert_eq!(found, vec![(5, 4.0)]);
            assert_eq!(plain(&t.resonance_peaks(&thresholds())), vec![(5, 4.0)]);
        }
    }
    assert_eq!(value(t.last_prominence[5]), 8.0);
    for _ in 0..60 {
        t.update(&list(&[(5, 8.0)]));
    }
    assert_eq!(t.persistence[5], 40);
    t.update(&list(&[]));
    assert_eq!(t.persistence[5], 39);
}

#[test]
fn at_most_sixteen_resonances() {
    let n = 200;
    let mut t = PeakTracker::new(n);
    let all: Vec<(usize, Single)> = (1..n - 1).map(|k| (k, f(9.0))).collect();
    for _ in 0..20 {
        t.update(&all);
    }
    let scores: Vec<Single> = (0..n).map(|k| f(3.0 + k as f32)).collect();
    t.fill_resonance(scores, &thresholds());
    let found = plain(t.res_peaks());
    assert_eq!(found.len(), 16);
    assert_eq!(found[0], (198, 201.0));
    assert_eq!(found[15], (183, 186.0));
    assert_eq!(plain(&t.resonance_peaks(&thresholds())), found);
}

fn peak(bin: usize, score: f32, names: &[&str]) -> NamedPeak {
    NamedPeak { bin, score: f(score), names: names.iter().map(|s| s.to_string()).collect() }
}

#[test]
fn the_strongest_finding_is_held() {
    let mut h = HeldPeaks::new();
    assert!(h.is_empty());
    h.hold_all(&vec![peak(4, 2.0, &["Kick"]), peak(9, 5.0, &[]), peak(4, 3.0, &["Bass"]), peak(4, 1.0, &["Hat"])]);
    assert_eq!(plain(&h.strongest_held(3)), vec![(9, 5.0), (4, 3.0)]);
    assert_eq!(h.names_of(4), vec!["Bass".to_string()]);
    assert_eq!(h.names_of(5).len(), 0);
    h.hold_own(&list(&[(4, 8.0), (1, 1.0), (2, 0.5)]));
    assert_eq!(plain(&h.strongest_held(3)), vec![(4, 8.0), (9, 5.0), (1, 1.0)]);
    assert_eq!(h.names_of(4).len(), 0);
    h.max_hold(4, f(8.0), &vec!["Late".to_string()]);
    assert_eq!(h.names_of(4).len(), 0);
    h.clear();
    assert!(h.is_empty());
    assert!(!window_is_over(499));
    assert!(window_is_over(500));
}

fn finding(hz: &str, amount: &str, names: &[&str]) -> Finding {
    Finding {
        hz: hz.to_string(),
        amount: amount.to_string(),
        names: names.iter().map(|s| s.to_string()).collect(),
    }
}

#[test]
fn panels_list_what_was_found() {
    assert_eq!(format_resonance_text(&vec![], &vec![]), "No resonances detected");
    assert_eq!(
        format_resonance_text(
            &vec![finding("120", "4.2", &[])],
            &vec![finding("440", "3.0", &[]), finding("880", "2.5", &["Kick", "Bass"])],
        ),
        "Own: 120 Hz 4.2\nGroup: 440 Hz 3.0\nGroup: 880 Hz 2.5 (Kick, Bass)"
    );
    let one = vec![finding("440", "-20.5", &["Kick", "Bass"]), finding("90", "-30.0", &[])];
    assert_eq!(format_masking_text(0, &one, false), "Standalone — no masking");
    assert_eq!(format_masking_text(1, &vec![], false), "No masking detected");
    assert_eq!(format_masking_text(1, &one, true), "No masking detected");
    assert_eq!(format_masking_text(2, &one, false), "440 Hz  -20.5 dB (Kick-Bass)\n90 Hz  -30.0 dB");
    assert_eq!(panel_text(true, "x".to_string()), "x");
    assert_eq!(panel_text(false, "x".to_string()), "Off");
}

#[test]
fn lucent_snapshot_file() {
    let s = LucentSnapshot {
        instance_name: "  Mix: \"A\" ".to_string(),
        res_own: vec![finding("120", "4.20", &[])],
        res_relay: vec![finding("440", "3.00", &["Kick", "Bass"])],
        masking: vec![finding("90", "-30.0", &["Kick", "Own"])],
        sample_rate: "48000".to_string(),
        sensitivity_pct: "50".to_string(),
        mode: 1,
    };
    let md = snap_markdown(&s);
    assert!(md.starts_with("---\nplugin: lucent\nname: \"Mix: \\\"A\\\"\"\ntype: snapshot\nsample_rate: 48000\nanalyze_mode: hybrid\nsensitivity_pct: 50\n---\n\n# Lucent Snapshot — Mix: \"A\"\n\n"));
    assert!(md.contains("| Own (Mix: \"A\") | 120 | 4.20 | |\n| Group | 440 | 3.00 | Kick, Bass |\n\n## Masking\n"));
    assert!(md.ends_with("| 90 | -30.0 | Kick / Own |\n"));
    let empty = LucentSnapshot {
        instance_name: " ".to_string(),
        res_own: vec![],
        res_relay: vec![],
        masking: vec![],
        sample_rate: "44100".to_string(),
        sensitivity_pct: "0".to_string(),
        mode: 0,
    };
    let md = snap_markdown(&empty);
    assert!(md.contains("\nname: Lucent\n"));
    assert!(md.contains("analyze_mode: standalone"));
    assert!(md.contains("## Resonance\n_No resonances detected at current sensitivity._\n\n## Masking\n_Standalone — no masking._\n"));
}

#[test]
fn findings_are_kept_by_instance() {
    let mut all = Findings::new();
    all.publish_resonance(1, &list(&[(3, 2.0)]), &vec![AttributedPeak::new(4, f(1.0))]);
    all.publish_masking(1, &vec![AttributedPeak::new(9, f(-20.0))]);
    assert_eq!(all.read_resonance(2).own.len(), 0);
    assert_eq!(plain(&all.read_resonance(1).own), vec![(3, 2.0)]);
    assert_eq!(all.read_resonance(1).relay[0].bin, 4);
    assert_eq!(all.read_masking(1)[0].bin, 9);
    all.remove_resonance(1);
    all.remove_masking(1);
    assert_eq!(all.read_resonance(1).own.len(), 0);
    assert_eq!(all.read_masking(1).len(), 0);
    let feeds: Vec<RelaySlot> = (0..10)
        .map(|i| RelaySlot { slot: i, name: format!("R{i}"), bins: levels(&[-1.0]) })
        .collect();
    all.publish_relays(5, &feeds);
    let read = all.read_relays(5);
    assert_eq!(read.len(), 8);
    assert_eq!(read[7].name, "R7");
    all.remove_relays(5);
    assert_eq!(all.read_relays(5).len(), 0);
}

#[test]
fn a_mode_publishes_what_it_analyzes() {
    let own = list(&[(3, 2.0)]);
    let group = vec![AttributedPeak::new(4, f(1.0))];
    let masking = vec![AttributedPeak::new(9, f(-20.0))];
    let feeds = vec![RelaySlot { slot: 1, name: "Kick".to_string(), bins: levels(&[-1.0]) }];
    for (setting, has_own, has_relays) in [(0i64, true, false), (1, true, true), (2, false, true)] {
        let mode = analyze_mode(setting);
        let plan = frame_plan(mode);
        assert_eq!(plan.search_own, has_own);
        assert_eq!(plan.shows_own, has_own);
        assert_eq!(plan.search_relays, has_relays);
        assert_eq!(plan.masks, has_relays);
        assert_eq!(plan.masks_own, has_own && has_relays);
        let mut all = Findings::new();
        publish_frame(&mut all, 7, mode, &own, &group, &masking, &feeds);
        assert_eq!(all.read_resonance(7).own.len() == 1, has_own);
        assert_eq!(all.read_resonance(7).relay.len() == 1, has_relays);
        assert_eq!(all.read_masking(7).len() == 1, has_relays);
        assert_eq!(all.read_relays(7).len() == 1, has_relays);
        assert_eq!(all.read_masking(8).len(), 0);
    }
    assert!(analyze_mode(5) == AnalyzeMode::Relay);
}

fn point(x: &str, y: &str) -> PathPoint {
    PathPoint { x: x.to_string(), y: y.to_string() }
}

#[test]
fn curves_are_drawn() {
    let pts = vec![point("0.0", "5.0"), point("1.5", "6.0"), point("3.0", "7.0")];
    assert_eq!(build_curve(&pts, false, "102.0", "502.0"), "M 0.0 5.0 L 1.5 6.0 L 3.0 7.0");
    assert_eq!(
        build_curve(&pts, true, "102.0", "502.0"),
        "M -2.0 102.0 L 0.0 5.0 L 1.5 6.0 L 3.0 7.0 L 3.0 102.0 L 502.0 102.0 Z"
    );
    assert_eq!(build_curve(&vec![point("1.0", "2.0")], true, "b", "e"), "");
    assert_eq!(build_trace(&vec![point("1.0", "2.0")]), "M 1.0 2.0");
    assert_eq!(build_trace(&vec![]), "");
    assert_eq!(
        gr_envelope_path(&pts, "2.0", "58.0"),
        "M 2.0 2.0 L 0.0 5.0 L 1.5 6.0 L 3.0 7.0 L 3.0 58.0 L 2.0 58.0 Z"
    );
    assert_eq!(gr_envelope_path(&vec![point("1.0", "2.0")], "2.0", "58.0"), "");
    assert_eq!(build_area(&pts, "140.0"), "M 0.0 140.0 L 0.0 5.0 L 1.5 6.0 L 3.0 7.0 L 3.0 140.0 Z");
    assert_eq!(build_area(&vec![], "140.0"), "");
}

#[test]
fn bars_and_markers_are_drawn() {
    let freqs = levels(&[0.0, 19.9, 20.0, 500.0, 20000.0, 20001.0, 30000.0]);
    assert_eq!(drawn_bins(&freqs), vec![2, 3, 4]);
    let map = levels(&[-10.0, -10.0, -89.0, -88.9, -20.0, -10.0, -10.0]);
    assert_eq!(bar_bins(&map, &freqs), vec![3, 4]);
    assert_eq!(bar_bins(&levels(&[-1.0]), &freqs).len(), 0);
    let bar = Bar { left: "1.0".to_string(), right: "2.0".to_string(), top: "3.0".to_string(), bottom: "9".to_string() };
    assert_eq!(mask_bars_path(&vec![bar]), "M 1.0 3.0 L 2.0 3.0 L 2.0 9 L 1.0 9 Z ");
    assert_eq!(mask_bars_path(&vec![]), "");
    let m = Marker { x: "7.0".to_string(), left: "3.0".to_string(), right: "11.0".to_string(), bottom: "100".to_string() };
    assert_eq!(res_marker_cmds(&m), "M 7.0 0 L 7.0 100 M 7.0 0 L 11.0 4 L 7.0 8 L 3.0 4 Z");
    assert_eq!(relay_color(0), (255, 153, 51));
    assert_eq!(relay_color(11), (178, 102, 204));
}

#[test]
fn long_blocks_and_silence_are_left_out() {
    assert_eq!(analyzed_samples(512), 512);
    assert_eq!(analyzed_samples(8192), 8192);
    assert_eq!(analyzed_samples(9000), 8192);
    assert!(updates_mean(f(-79.9)));
    assert!(!updates_mean(f(-80.0)));
    assert!(!updates_mean(f(f32::NAN)));
}

#[test]
fn a_lasting_collision_is_shown_between_own_and_relay() {
    let mut a = vec![-90.0f32; 32];
    a[10] = -12.0;
    let own = levels(&a);
    let relays = vec![MaskTrack { slot: 200, levels: levels(&a) }];
    let mut analyzer = MaskingAnalyzer::new(32);
    for k in 1..=40u32 {
        analyzer.compute_masking(Some(&own), &relays, 0, f(-70.0), &vec![2usize; 32], 30);
        let shown = value(analyzer.masking_map[10]);
        assert_eq!(shown, if k > 30 { -12.0 } else { -90.0 });
    }
}
