//! Preset files: reading, writing, and the lists that are made of them.

use lx_plugins::aether::{
    band_filter, band_type_label, build_profile_md, harman_flat_profile, parse_aether_preset,
    realism_label, AetherBand, AetherProfile, BandFilter,
};
use lx_plugins::aether_vault;
use lx_plugins::autoeq::parse_autoeq;
use lx_plugins::equilibrium::{
    export_preset_to_markdown, format_pan_str, pan_of, parse_frontmatter_list, parse_pan_str,
    parse_preset_from_markdown, Frontmatter, Pan, Profile,
};
use lx_plugins::equilibrium_vault;
use lx_plugins::single::Single;

fn num(s: &str) -> f32 {
    s.parse().unwrap()
}

fn f(x: f32) -> Single {
    Single::from_bits(x.to_bits())
}

const AUTOEQ: &str = "Preamp: -7.13 dB\nFilter 1: ON LSC Fc 105.0 Hz Gain 3.3 dB Q 0.70\nFilter 2: ON PK Fc 118.4 Hz Gain -3.3 dB Q 0.45\nFilter 3: OFF PK Fc 200.0 Hz Gain 1.0 dB Q 1.00\nFilter 4: ON HSC Fc 10000.0 Hz Gain 2.0 dB Q 0.70\n";

#[test]
fn parses_autoeq() {
    let p = parse_autoeq(AUTOEQ);
    assert!((num(&p.preamp) + 7.13).abs() < 1e-3);
    assert_eq!(p.filters.len(), 3);
    assert_eq!(p.filters[0].type_code, 1);
    assert_eq!(p.filters[2].type_code, 3);
}

#[test]
fn autoeq_keeps_every_number_of_a_filter() {
    let p = parse_autoeq(AUTOEQ);
    assert_eq!(num(&p.filters[0].freq), 105.0);
    assert_eq!(num(&p.filters[0].gain), 3.3);
    assert_eq!(num(&p.filters[0].q), 0.7);
    assert_eq!(p.filters[1].type_code, 2);
    assert_eq!(num(&p.filters[1].gain), -3.3);
    assert_eq!(num(&p.filters[2].freq), 10000.0);
}

#[test]
fn autoeq_without_lines_is_flat() {
    let p = parse_autoeq("");
    assert_eq!(num(&p.preamp), 0.0);
    assert_eq!(p.filters.len(), 0);
    let p = parse_autoeq("nothing here\r\nPreamp: loud\r\nFilter 1: ON PK Fc x Hz Gain 1 dB Q 1\r\n");
    assert_eq!(num(&p.preamp), 0.0);
    assert_eq!(p.filters.len(), 0);
}

#[test]
fn joined_autoeq_texts_give_both_profiles() {
    let second = "Preamp: -2.5 dB\nFilter 9: ON PK Fc 60 Hz Gain 1 dB Q 1\n";
    let p = parse_autoeq(&format!("{AUTOEQ}\n{second}"));
    assert_eq!(p.filters.len(), 4);
    assert_eq!(p.filters[3].freq, "60");
    assert_eq!(num(&p.preamp), -2.5);
    let p = parse_autoeq(&format!("{}\r\n{}", "Preamp: -7.13 dB", "Filter 1: OFF"));
    assert_eq!(num(&p.preamp), -7.13);
    assert_eq!(p.filters.len(), 0);
}

fn sample_profile() -> AetherProfile {
    let band = |t: i32, freq: &str, gain: &str, q: &str| AetherBand {
        type_code: t,
        freq: freq.to_string(),
        gain: gain.to_string(),
        q: q.to_string(),
    };
    AetherProfile {
        name: "HD 600".to_string(),
        bands: vec![
            band(1, "105.0", "3.3", "0.70"),
            band(2, "118.4", "-3.3", "0.45"),
            band(0, "1200.0", "0.0", "1.00"),
            band(2, "4000.0", "1.5", "2.00"),
            band(3, "10000.0", "2.0", "0.70"),
        ],
        cf_angle: "45.0".to_string(),
        cf_amount: "30.0".to_string(),
        cf_realism: 2,
        blend: "80.0".to_string(),
        gain: "-1.5".to_string(),
    }
}

#[test]
fn aether_preset_reads_back() {
    let p = sample_profile();
    let md = build_profile_md(&p);
    let r = parse_aether_preset(&md, Some("aether")).unwrap();
    assert_eq!(r.name, "");
    for i in 0..5 {
        assert_eq!(r.bands[i].type_code, p.bands[i].type_code);
        assert_eq!(r.bands[i].freq, p.bands[i].freq);
        assert_eq!(r.bands[i].gain, p.bands[i].gain);
        assert_eq!(r.bands[i].q, p.bands[i].q);
    }
    assert_eq!(r.cf_angle, "45.0");
    assert_eq!(r.cf_amount, "30.0");
    assert_eq!(r.cf_realism, 2);
    assert_eq!(r.blend, "80.0");
    assert_eq!(r.gain, "-1.5");
}

#[test]
fn aether_preset_of_another_plugin_is_refused() {
    let md = build_profile_md(&sample_profile());
    assert!(parse_aether_preset(&md, Some("equilibrium")).is_none());
    assert!(parse_aether_preset(&md, None).is_none());
}

#[test]
fn aether_preset_without_a_band_is_refused() {
    let md = build_profile_md(&sample_profile());
    let part: Vec<&str> = md.lines().filter(|l| !l.contains("EQ3 Gain")).collect();
    assert!(part.len() < md.lines().count());
    assert!(parse_aether_preset(&part.join("\n"), Some("aether")).is_none());
}

#[test]
fn aether_labels_are_read_in_any_case() {
    let md = build_profile_md(&sample_profile()).replace("Blend", "BLEND").replace("Crossfeed", "CROSSFEED");
    let r = parse_aether_preset(&md, Some("aether")).unwrap();
    assert_eq!(r.blend, "80.0");
    assert_eq!(r.cf_angle, "45.0");
}

#[test]
fn aether_label_outside_ascii_is_lowered_too() {
    let plain = build_profile_md(&sample_profile());
    let md = plain.replace("| EQ1 Freq |", "| EQ1 FREQ \u{c4} |");
    assert_ne!(md, plain);
    let r = parse_aether_preset(&md, Some("aether")).unwrap();
    assert_eq!(r.bands[0].freq, "105.0");
    let md = plain.replace("| Blend |", "| BLEND\u{c4} |");
    assert_ne!(md, plain);
    let r = parse_aether_preset(&md, Some("aether")).unwrap();
    assert_eq!(r.blend, "100.0");
}

#[test]
fn aether_heading_names_the_preset() {
    let md = format!("# My Phones\n{}", build_profile_md(&sample_profile()));
    let r = parse_aether_preset(&md, Some("aether")).unwrap();
    assert_eq!(r.name, "My Phones");
}

#[test]
fn aether_labels() {
    assert_eq!(band_type_label(1), "LSC");
    assert_eq!(band_type_label(2), "PK");
    assert_eq!(band_type_label(3), "HSC");
    assert_eq!(band_type_label(7), "OFF");
    assert_eq!(realism_label(0), "STANDARD");
    assert_eq!(realism_label(1), "LIFELIKE");
    assert_eq!(realism_label(2), "HYPERREAL");
    assert!(band_filter(1) == BandFilter::LowShelf);
    assert!(band_filter(2) == BandFilter::Peak);
    assert!(band_filter(3) == BandFilter::HighShelf);
    assert!(band_filter(-1) == BandFilter::Flat);
}

#[test]
fn harman_flat_is_flat() {
    let p = harman_flat_profile();
    assert_eq!(p.name, "Harman Flat");
    assert_eq!(p.bands.len(), 5);
    assert!(p.bands.iter().all(|b| num(&b.gain) == 0.0));
    assert_eq!(num(&p.bands[0].freq), 105.0);
    assert_eq!(num(&p.bands[4].freq), 10000.0);
    assert_eq!(num(&p.blend), 100.0);
}

fn aether_file(path: &str, stem: &str, content: &str) -> aether_vault::PresetFile {
    aether_vault::PresetFile {
        path: path.to_string(),
        stem: Some(stem.to_string()),
        is_md: true,
        content: Some(content.to_string()),
        plugin: Some("aether".to_string()),
    }
}

#[test]
fn aether_scan_takes_presets_only() {
    let md = build_profile_md(&sample_profile());
    let mut other = aether_file("/v/c.md", "c", &md);
    other.plugin = Some("lucent".to_string());
    let mut text = aether_file("/v/d.txt", "d", &md);
    text.is_md = false;
    let mut gone = aether_file("/v/e.md", "e", &md);
    gone.content = None;
    let files = vec![aether_file("/v/a.md", "a", &md), aether_file("/v/b.md", "b", "# b"), other, text, gone];
    let found = aether_vault::scan_aether_presets(&files);
    assert_eq!(found.len(), 1);
    assert_eq!(found[0].name, "a");
    assert_eq!(found[0].path, "/v/a.md");
    assert_eq!(found[0].profile.name, "a");
}

#[test]
fn aether_vault_comes_before_the_own_directory() {
    let md = build_profile_md(&sample_profile());
    let quiet = md.replace("-1.5", "-9.5");
    let vault = vec![aether_file("/v/a.md", "a", &md)];
    let local = vec![aether_file("/l/a.md", "a", &quiet), aether_file("/l/z.md", "z", &quiet)];
    let all = aether_vault::scan_vault(&vault, &local);
    assert_eq!(all.len(), 2);
    assert_eq!(all[0].path, "/v/a.md");
    assert_eq!(all[1].path, "/l/z.md");
    let names = aether_vault::merge_preset_names(&all);
    assert_eq!(names, vec!["Harman Flat".to_string(), "a".to_string(), "z".to_string()]);
    assert_eq!(aether_vault::find_profile("a", &all, None).unwrap().gain, "-1.5");
    assert_eq!(aether_vault::find_profile("Harman Flat", &all, None).unwrap().gain, "0.0");
    assert!(aether_vault::find_profile("nobody", &all, None).is_none());
    let own = aether_vault::find_profile("mine", &all, parse_aether_preset(&md, Some("aether"))).unwrap();
    assert_eq!(own.name, "mine");
}

#[test]
fn aether_saved_preset_is_found() {
    let mut ui = aether_vault::VaultUiState::new(Some("/vault".to_string()));
    assert_eq!(ui.names, aether_vault::default_preset_names());
    let entry = aether_vault::PresetEntry {
        name: "HD 600".to_string(),
        path: "/vault/HD 600.md".to_string(),
        profile: sample_profile(),
    };
    let scan = ui.saved(entry).unwrap();
    assert_eq!(scan.path, "/vault");
    assert_eq!(scan.generation, 1);
    assert_eq!(aether_vault::find_profile("HD 600", &ui.cache, None).unwrap().blend, "80.0");
    assert!(aether_vault::has_name(&ui.names, "HD 600"));
    assert!(!aether_vault::has_name(&ui.names, "HD 650"));
}

#[test]
fn aether_stale_scan_is_dropped() {
    let mut ui = aether_vault::VaultUiState::new(None);
    let first = ui.set_path("  /a ", &None).unwrap();
    let second = ui.set_path("/b", &None).unwrap();
    assert_eq!(first.path, "/a");
    assert_eq!(ui.vault_path, Some("/b".to_string()));
    let md = build_profile_md(&sample_profile());
    ui.pending.complete(first.generation, aether_vault::scan_aether_presets(&vec![aether_file("/a/x.md", "x", &md)]));
    assert!(!ui.drain());
    assert_eq!(ui.cache.len(), 0);
    ui.pending.complete(second.generation, aether_vault::scan_aether_presets(&vec![aether_file("/b/y.md", "y", &md)]));
    assert!(ui.drain());
    assert_eq!(ui.cache.len(), 1);
    assert_eq!(ui.names.last().unwrap(), "y");
    assert!(!ui.drain());
    assert!(ui.pending.presets.is_some());
    assert!(ui.set_path("   ", &None).is_none());
    assert_eq!(ui.vault_path, None);
    assert_eq!(ui.names, vec!["Harman Flat".to_string()]);
    assert_eq!(ui.set_path("", &Some("/own".to_string())).unwrap().path, "/own");
}

#[test]
fn aether_startup() {
    let last = Some("Kept".to_string());
    assert_eq!(aether_vault::startup_name(&last, &None), "Kept");
    assert_eq!(aether_vault::startup_name(&None, &Some(sample_profile())), "HD 600");
    assert_eq!(aether_vault::startup_name(&None, &None), "");
    assert!(aether_vault::startup_profile("", Some(sample_profile()), None).is_none());
    assert_eq!(aether_vault::startup_profile("HD 600", Some(sample_profile()), None).unwrap().gain, "-1.5");
    assert_eq!(aether_vault::startup_profile("Harman Flat", Some(sample_profile()), None).unwrap().gain, "0.0");
    assert!(aether_vault::startup_profile("Other", Some(sample_profile()), None).is_none());
}

fn front() -> Frontmatter {
    Frontmatter {
        plugin: Some("equilibrium".to_string()),
        version: Some("3".to_string()),
        source: None,
    }
}

fn texts(v: [&str; 5]) -> Vec<String> {
    v.iter().map(|s| s.to_string()).collect()
}

fn eq_profile() -> Profile {
    equilibrium_vault::profile_for_save(
        "Rock",
        texts(["1.5", "-2.0", "0.0", "3.5", "-0.5"]),
        texts(["1.0", "2.0", "3.0", "4.0", "5.0"]),
        vec![Pan::Center, Pan::Left("20".to_string()), Pan::Right("35".to_string()), Pan::Center, Pan::Center],
        texts(["0", "50", "100", "120", "150"]),
        "120".to_string(),
    )
}

#[test]
fn equilibrium_preset_reads_back() {
    let p = eq_profile();
    let md = export_preset_to_markdown(&p);
    let r = parse_preset_from_markdown(&md, &front()).unwrap();
    assert_eq!(r.bands, p.bands);
    assert_eq!(r.tolerances, p.tolerances);
    assert_eq!(r.widths, p.widths);
    assert_eq!(r.mono_floor_hz, "120");
    assert!(matches!(&r.pans[0], Pan::Center));
    assert!(matches!(&r.pans[1], Pan::Left(n) if n == "20"));
    assert!(matches!(&r.pans[2], Pan::Right(n) if n == "35"));
    assert_eq!(r.name, "Unnamed");
    assert_eq!(r.version, 3);
    assert_eq!(r.source, "manual");
    assert_eq!(r.tags.len(), 0);
}

#[test]
fn equilibrium_preset_of_another_plugin_is_refused() {
    let md = export_preset_to_markdown(&eq_profile());
    let mut other = front();
    other.plugin = Some("aether".to_string());
    assert!(parse_preset_from_markdown(&md, &other).is_none());
    other.plugin = None;
    assert!(parse_preset_from_markdown(&md, &other).is_none());
}

#[test]
fn equilibrium_preset_without_a_band_is_refused() {
    let md = export_preset_to_markdown(&eq_profile());
    let part: Vec<&str> = md.lines().filter(|l| !l.contains("0 - 80 Hz")).collect();
    assert_eq!(part.len() + 1, md.lines().count());
    assert!(parse_preset_from_markdown(&part.join("\n"), &front()).is_none());
}

#[test]
fn equilibrium_name_notes_and_tags_are_read() {
    let body = export_preset_to_markdown(&eq_profile());
    let md = format!(
        "---\nplugin: equilibrium\ntags:\n  - loud\n  - rock\nsource: x\n---\n**Preset Name:** Big Room\n**Notes:** keep it\n{}",
        body.replace("---\nplugin: equilibrium\ntype: preset\n---\n", "")
    );
    let r = parse_preset_from_markdown(&md, &front()).unwrap();
    assert_eq!(r.name, "Big Room");
    assert_eq!(r.notes, "keep it");
    assert_eq!(r.tags, vec!["loud".to_string(), "rock".to_string()]);
    assert_eq!(parse_frontmatter_list("tags:\n- a\n", "tags").len(), 0);
}

#[test]
fn equilibrium_version_that_is_no_number_is_one() {
    let md = export_preset_to_markdown(&eq_profile());
    let mut fm = front();
    fm.version = Some("two".to_string());
    fm.source = Some("measured".to_string());
    let r = parse_preset_from_markdown(&md, &fm).unwrap();
    assert_eq!(r.version, 1);
    assert_eq!(r.source, "measured");
}

fn cell(s: &str) -> Vec<char> {
    s.chars().collect()
}

#[test]
fn pans_are_read_and_written() {
    assert!(matches!(parse_pan_str(&cell(" C ")), Pan::Center));
    assert!(matches!(parse_pan_str(&cell("CENTER")), Pan::Center));
    assert!(matches!(parse_pan_str(&cell("l 20 %")), Pan::Left(n) if n == "20"));
    assert!(matches!(parse_pan_str(&cell("R35%")), Pan::Right(n) if n == "35"));
    assert!(matches!(parse_pan_str(&cell("X 3")), Pan::Center));
    assert!(matches!(parse_pan_str(&cell("L much")), Pan::Center));
    assert_eq!(format_pan_str(&Pan::Center), "C");
    assert_eq!(format_pan_str(&pan_of(f(-0.2), "20".to_string())), "L 20%");
    assert_eq!(format_pan_str(&pan_of(f(0.35), "35".to_string())), "R 35%");
    assert_eq!(format_pan_str(&pan_of(f(0.009), "1".to_string())), "C");
    assert_eq!(format_pan_str(&pan_of(f(-0.01), "1".to_string())), "L 1%");
}

fn eq_file(path: &str, stem: &str, content: &str) -> equilibrium_vault::PresetFile {
    equilibrium_vault::PresetFile {
        path: path.to_string(),
        stem: Some(stem.to_string()),
        is_file: true,
        is_md: true,
        content: Some(content.to_string()),
        front: front(),
    }
}

#[test]
fn equilibrium_list_begins_with_pink_noise() {
    let md = export_preset_to_markdown(&eq_profile());
    let files = vec![
        eq_file("/l/Rock.md", "Rock", &md),
        eq_file("/l/SNAPSHOT-001.md", "SNAPSHOT-001", &md),
        eq_file("/l/Rock.md", "Rock", &md),
        eq_file("/v/Jazz.md", "Jazz", &md),
        eq_file("/v/bad.md", "bad", "nothing"),
    ];
    let list = equilibrium_vault::load_presets(&files);
    let names = equilibrium_vault::preset_names(&list);
    assert_eq!(names, vec!["Pink Noise".to_string(), "Rock".to_string(), "Jazz".to_string()]);
    assert_eq!(list[0].path, None);
    assert_eq!(list[1].path, Some("/l/Rock.md".to_string()));
    assert_eq!(list[1].preset.bands[0], "1.5");
    assert_eq!(equilibrium_vault::find_preset(&list, "Jazz"), Some(2));
    assert_eq!(equilibrium_vault::find_preset(&list, "Pop"), None);
    assert_eq!(equilibrium_vault::startup_index(&list, &Some("Rock".to_string())), 1);
    assert_eq!(equilibrium_vault::startup_index(&list, &Some("Pop".to_string())), 0);
    assert_eq!(equilibrium_vault::startup_index(&list, &None), 0);
    assert!(list[0].preset.bands.iter().all(|b| num(b) == 0.0));
    assert_eq!(list[0].preset.tolerances[2], "3.5");
}

#[test]
fn equilibrium_pink_noise() {
    let p = equilibrium_vault::pink_noise_preset();
    assert_eq!(p.name, "Pink Noise");
    assert_eq!(num(&p.widths[0]), 100.0);
    assert_eq!(num(&p.mono_floor_hz), 0.0);
    let d = Profile::default();
    assert_eq!(d.version, 2);
    assert_eq!(d.source, "manual");
}
