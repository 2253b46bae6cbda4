//! The presets of Equilibrium: pink noise, and those in the vault.

use crate::equilibrium::{
    default_profile, pan_texts, parse_preset_from_markdown, preset_of, Frontmatter, Pan, PanText,
    Profile, ProfileText,
};
use crate::text::{chars_of, has_prefix, opt_string, same_text, starts_with, strings};
use vstd::prelude::*;
use vstd::string::*;

verus! {

/// What the plugin takes from a preset.
pub struct EqPreset {
    pub name: String,
    pub bands: Vec<String>,
    pub tolerances: Vec<String>,
    pub pans: Vec<Pan>,
    pub widths: Vec<String>,
    pub mono_floor_hz: String,
}

/// What such a preset holds.
pub struct PresetText {
    pub name: Seq<char>,
    pub bands: Seq<Seq<char>>,
    pub tolerances: Seq<Seq<char>>,
    pub pans: Seq<PanText>,
    pub widths: Seq<Seq<char>>,
    pub mono_floor_hz: Seq<char>,
}

impl View for EqPreset {
    type V = PresetText;

    open spec fn view(&self) -> PresetText {
        PresetText {
            name: self.name@,
            bands: strings(self.bands@),
            tolerances: strings(self.tolerances@),
            pans: pan_texts(self.pans@),
            widths: strings(self.widths@),
            mono_floor_hz: self.mono_floor_hz@,
        }
    }
}

/// A preset in the list: its name, its file if it has one, and what it holds.
pub struct PresetEntry {
    pub name: String,
    pub path: Option<String>,
    pub preset: EqPreset,
}

/// What an entry holds.
pub struct EntryText {
    pub name: Seq<char>,
    pub path: Option<Seq<char>>,
    pub preset: PresetText,
}

impl View for PresetEntry {
    type V = EntryText;

    open spec fn view(&self) -> EntryText {
        EntryText { name: self.name@, path: opt_string(self.path), preset: self.preset@ }
    }
}

/// The entries that a list holds.
pub open spec fn entries(v: Seq<PresetEntry>) -> Seq<EntryText> {
    Seq::new(v.len(), |i: int| v[i]@)
}

/// The built-in preset: every band level at zero, which pink noise reads flat at.
pub open spec fn pink_noise() -> PresetText {
    let d = default_profile();
    PresetText {
        name: "Pink Noise"@,
        bands: d.bands,
        tolerances: d.tolerances,
        pans: d.pans,
        widths: d.widths,
        mono_floor_hz: d.mono_floor_hz,
    }
}

/// The built-in preset.
pub fn pink_noise_preset() -> (r: EqPreset)
    ensures
        r@ == pink_noise(),
        r.name@ == "Pink Noise"@,
        forall|i: int| 0 <= i < 5 ==> #[trigger] r@.bands[i] == "0.0"@,
        r@.tolerances == seq!["1.5"@, "2.0"@, "3.5"@, "4.5"@, "4.5"@],
        forall|i: int| 0 <= i < 5 ==> #[trigger] r@.pans[i] == PanText::Center,
        forall|i: int| 0 <= i < 5 ==> #[trigger] r@.widths[i] == "100.0"@,
        r.mono_floor_hz@ == "0.0"@,
{
    let d: Profile = Profile::default();
    EqPreset {
        name: "Pink Noise".to_owned(),
        bands: d.bands,
        tolerances: d.tolerances,
        pans: d.pans,
        widths: d.widths,
        mono_floor_hz: d.mono_floor_hz,
    }
}

/// A preset with the given settings and nothing else said.
pub fn profile_for_save(
    name: &str,
    bands: Vec<String>,
    tolerances: Vec<String>,
    pans: Vec<Pan>,
    widths: Vec<String>,
    mono_floor_hz: String,
) -> (r: Profile)
    ensures
        r@ == (ProfileText {
            name: name@,
            bands: strings(bands@),
            tolerances: strings(tolerances@),
            pans: pan_texts(pans@),
            widths: strings(widths@),
            mono_floor_hz: mono_floor_hz@,
            ..default_profile()
        }),
{
    let d: Profile = Profile::default();
    Profile {
        name: name.to_owned(),
        bands,
        tolerances,
        pans,
        widths,
        mono_floor_hz,
        tags: d.tags,
        version: d.version,
        notes: d.notes,
        source: d.source,
    }
}

// ─── Scanning ────────────────────────────────────────────────────────────────

/// A file of a directory: its path, its name without extension, whether it is a
/// file and its extension is `md`, what it holds if it could be read, and the
/// fields of its frontmatter.
pub struct PresetFile {
    pub path: String,
    pub stem: Option<String>,
    pub is_file: bool,
    pub is_md: bool,
    pub content: Option<String>,
    pub front: Frontmatter,
}

/// A preset that was found: its name, its file, and what it holds.
pub struct FoundText {
    pub name: Seq<char>,
    pub path: Seq<char>,
    pub profile: ProfileText,
}

/// A preset that was found.
pub struct Found {
    pub name: String,
    pub path: String,
    pub profile: Profile,
}

impl View for Found {
    type V = FoundText;

    open spec fn view(&self) -> FoundText {
        FoundText { name: self.name@, path: self.path@, profile: self.profile@ }
    }
}

/// The presets that a list holds.
pub open spec fn found_texts(v: Seq<Found>) -> Seq<FoundText> {
    Seq::new(v.len(), |i: int| v[i]@)
}

/// The name of a file without its extension.
pub open spec fn stem_of(f: PresetFile) -> Seq<char> {
    match opt_string(f.stem) {
        Some(s) => s,
        None => ""@,
    }
}

/// Whether a file may be a preset: a markdown file that is not a snapshot.
pub open spec fn may_be_preset(f: PresetFile) -> bool {
    f.is_file && f.is_md && !has_prefix(stem_of(f), "SNAPSHOT-"@)
}

/// The preset that a file holds, under the name of the file.
pub open spec fn preset_in(f: PresetFile) -> Option<FoundText> {
    match opt_string(f.content) {
        Some(content) => match preset_of(content, f.front@) {
            Some(p) => Some(
                FoundText {
                    name: stem_of(f),
                    path: f.path@,
                    profile: ProfileText { name: stem_of(f), ..p },
                },
            ),
            None => None,
        },
        None => None,
    }
}

/// The paths of the first `n` files that may be presets, each once.
pub open spec fn seen_paths(files: Seq<PresetFile>, n: int) -> Seq<Seq<char>>
    decreases n,
{
    if n <= 0 {
        seq![]
    } else {
        let had = seen_paths(files, n - 1);
        let f = files[n - 1];
        if may_be_preset(f) && !had.contains(f.path@) {
            had.push(f.path@)
        } else {
            had
        }
    }
}

/// The presets among the first `n` files, in order; no file is read twice.
pub open spec fn presets_in(files: Seq<PresetFile>, n: int) -> Seq<FoundText>
    decreases n,
{
    if n <= 0 {
        seq![]
    } else {
        let had = presets_in(files, n - 1);
        let f = files[n - 1];
        if may_be_preset(f) && !seen_paths(files, n - 1).contains(f.path@) {
            match preset_in(f) {
                Some(p) => had.push(p),
                None => had,
            }
        } else {
            had
        }
    }
}

fn read_preset(f: &PresetFile, stem: &str) -> (r: Option<Found>)
    requires
        stem@ == stem_of(*f),
    ensures
        match r {
            Some(p) => preset_in(*f) == Some(p@),
            None => preset_in(*f) is None,
        },
{
    match &f.content {
        Some(content) => match parse_preset_from_markdown(content.as_str(), &f.front) {
            Some(p) => {
                let mut profile = p;
                profile.name = stem.to_owned();
                Some(Found { name: stem.to_owned(), path: f.path.clone(), profile })
            },
            None => None,
        },
        None => None,
    }
}

fn has_path(paths: &Vec<String>, path: &str) -> (r: bool)
    ensures
        r == strings(paths@).contains(path@),
{
    let mut i: usize = 0;
    let ghost all = strings(paths@);
    while i < paths.len()
        invariant
            i <= paths.len(),
            all == strings(paths@),
            forall|k: int| 0 <= k < i ==> all[k] != path@,
        decreases paths.len() - i,
    {
        assert(all[i as int] == paths@[i as int]@);
        if same_text(paths[i].as_str(), path) {
            return true;
        }
        i += 1;
    }
    false
}

/// The presets among some files, in order: those of the plugin's own directory
/// come first, and then those of the vault.
pub fn list_custom_presets(files: &Vec<PresetFile>) -> (r: Vec<Found>)
    ensures
        found_texts(r@) == presets_in(files@, files.len() as int),
        r.len() == presets_in(files@, files.len() as int).len(),
        forall|i: int|
            0 <= i < r.len() ==> {
                let p = #[trigger] r@[i];
                let said = presets_in(files@, files.len() as int)[i];
                p.name@ == said.name && p.path@ == said.path && p.profile@ == said.profile
            },
{
    let mut r: Vec<Found> = Vec::new();
    let mut seen: Vec<String> = Vec::new();
    let mut i: usize = 0;
    assert(found_texts(r@) == Seq::<FoundText>::empty());
    assert(strings(seen@) == Seq::<Seq<char>>::empty());
    while i < files.len()
        invariant
            i <= files.len(),
            strings(seen@) == seen_paths(files@, i as int),
            found_texts(r@) == presets_in(files@, i as int),
        decreases files.len() - i,
    {
        let f = &files[i];
        let stem: String = match &f.stem {
            Some(s) => s.clone(),
            None => "".to_owned(),
        };
        if f.is_file && f.is_md && !starts_with(&chars_of(stem.as_str()), "SNAPSHOT-") && !has_path(
            &seen,
            f.path.as_str(),
        ) {
            let ghost had_seen = seen@;
            seen.push(f.path.clone());
            assert(strings(seen@) == strings(had_seen).push(f.path@));
            if let Some(p) = read_preset(f, stem.as_str()) {
                let ghost had = r@;
                let ghost t = p@;
                r.push(p);
                assert(found_texts(r@) == found_texts(had).push(t));
            }
        }
        i += 1;
    }
    assert forall|k: int| 0 <= k < r.len() implies {
        let p = #[trigger] r@[k];
        let said = presets_in(files@, files.len() as int)[k];
        p.name@ == said.name && p.path@ == said.path && p.profile@ == said.profile
    } by {
        assert(found_texts(r@)[k] == r@[k]@);
    }
    r
}

/// No snapshot is listed as a preset, and every preset bears the name of its file.
pub proof fn law_presets_bear_file_names(files: Seq<PresetFile>, n: int, i: int)
    requires
        0 <= n <= files.len(),
        0 <= i < presets_in(files, n).len(),
    ensures
        exists|k: int|
            0 <= k < n && may_be_preset(#[trigger] files[k]) && preset_in(files[k]) == Some(
                presets_in(files, n)[i],
            ),
        presets_in(files, n)[i].profile.name == presets_in(files, n)[i].name,
    decreases n,
{
    if n > 0 {
        let had = presets_in(files, n - 1);
        if i < had.len() {
            law_presets_bear_file_names(files, n - 1, i);
        } else {
            assert(may_be_preset(files[n - 1]));
        }
    }
}

// ─── The list ────────────────────────────────────────────────────────────────

/// An entry for a preset that was found.
pub open spec fn entry_for(f: FoundText) -> EntryText {
    EntryText {
        name: f.name,
        path: Some(f.path),
        preset: PresetText {
            name: f.name,
            bands: f.profile.bands,
            tolerances: f.profile.tolerances,
            pans: f.profile.pans,
            widths: f.profile.widths,
            mono_floor_hz: f.profile.mono_floor_hz,
        },
    }
}

/// The list of presets: pink noise, and then those that were found.
pub open spec fn listed(found: Seq<FoundText>) -> Seq<EntryText> {
    seq![EntryText { name: "Pink Noise"@, path: None, preset: pink_noise() }] + found.map_values(
        |f: FoundText| entry_for(f),
    )
}

/// The list of presets.
pub fn load_presets(files: &Vec<PresetFile>) -> (r: Vec<PresetEntry>)
    ensures
        entries(r@) == listed(presets_in(files@, files.len() as int)),
        r.len() == presets_in(files@, files.len() as int).len() + 1,
        r@[0].name@ == "Pink Noise"@ && r@[0].path is None,
        forall|i: int|
            1 <= i < r.len() ==> {
                let e = #[trigger] r@[i];
                let said = presets_in(files@, files.len() as int)[i - 1];
                &&& e.name@ == said.name
                &&& opt_string(e.path) == Some(said.path)
                &&& e.preset.name@ == said.name
                &&& strings(e.preset.bands@) == said.profile.bands
                &&& strings(e.preset.tolerances@) == said.profile.tolerances
                &&& pan_texts(e.preset.pans@) == said.profile.pans
                &&& strings(e.preset.widths@) == said.profile.widths
                &&& e.preset.mono_floor_hz@ == said.profile.mono_floor_hz
            },
{
    let found = list_custom_presets(files);
    let total: usize = found.len();
    let ghost all = found_texts(found@);
    let mut r: Vec<PresetEntry> = Vec::new();
    r.push(
        PresetEntry { name: "Pink Noise".to_owned(), path: None, preset: pink_noise_preset() },
    );
    assert(entries(r@) == listed(Seq::<FoundText>::empty()));
    let mut rest = found;
    let mut reversed: Vec<Found> = Vec::new();
    while rest.len() > 0
        invariant
            rest.len() + reversed.len() == all.len(),
            found_texts(rest@) == all.take(rest.len() as int),
            forall|j: int|
                0 <= j < reversed.len() ==> (#[trigger] reversed@[j])@ == all[all.len() - 1 - j],
        decreases rest.len(),
    {
        let ghost had = rest@;
        if let Some(f) = rest.pop() {
            assert(found_texts(had)[had.len() - 1] == f@);
            reversed.push(f);
        }
        assert(found_texts(rest@) == all.take(rest.len() as int));
    }
    let mut n: usize = 0;
    while reversed.len() > 0
        invariant
            n + reversed.len() == all.len(),
            all.len() == total,
            forall|j: int|
                0 <= j < reversed.len() ==> (#[trigger] reversed@[j])@ == all[all.len() - 1 - j],
            entries(r@) == listed(all.take(n as int)),
        decreases reversed.len(),
    {
        let ghost had = reversed@;
        if let Some(f) = reversed.pop() {
            let ghost t = f@;
            assert(t == all[n as int]);
            let preset = EqPreset {
                name: f.name.clone(),
                bands: f.profile.bands,
                tolerances: f.profile.tolerances,
                pans: f.profile.pans,
                widths: f.profile.widths,
                mono_floor_hz: f.profile.mono_floor_hz,
            };
            let ghost before = r@;
            let e = PresetEntry { name: f.name, path: Some(f.path), preset };
            let ghost et = e@;
            r.push(e);
            n += 1;
            proof {
                assert(et == entry_for(t));
                assert(entries(r@) == entries(before).push(et));
                assert(all.take(n as int) == all.take(n - 1).push(t));
                assert(listed(all.take(n as int)) == listed(all.take(n - 1)).push(entry_for(t)));
            }
        }
    }
    assert(all.take(n as int) == all);
    proof {
        assert(entries(r@)[0] == r@[0]@);
        assert forall|i: int| 1 <= i < r.len() implies {
            let e = #[trigger] r@[i];
            let said = all[i - 1];
            &&& e.name@ == said.name
            &&& opt_string(e.path) == Some(said.path)
            &&& e.preset.name@ == said.name
            &&& strings(e.preset.bands@) == said.profile.bands
            &&& strings(e.preset.tolerances@) == said.profile.tolerances
            &&& pan_texts(e.preset.pans@) == said.profile.pans
            &&& strings(e.preset.widths@) == said.profile.widths
            &&& e.preset.mono_floor_hz@ == said.profile.mono_floor_hz
        } by {
            assert(entries(r@)[i] == r@[i]@);
            law_found_presets_are_listed(all, i - 1);
        }
    }
    r
}

/// The names in a list of presets.
pub fn preset_names(list: &Vec<PresetEntry>) -> (r: Vec<String>)
    ensures
        strings(r@) == Seq::new(list@.len(), |i: int| list@[i].name@),
{
    let mut r: Vec<String> = Vec::new();
    let mut i: usize = 0;
    while i < list.len()
        invariant
            i <= list.len(),
            r.len() == i,
            forall|k: int| 0 <= k < i ==> (#[trigger] r@[k])@ == list@[k].name@,
        decreases list.len() - i,
    {
        r.push(list[i].name.clone());
        i += 1;
    }
    assert(strings(r@) == Seq::new(list@.len(), |i: int| list@[i].name@));
    r
}

/// Where the first entry with a name stands, counted from `i`; the number of
/// entries if none has it.
pub open spec fn entry_index(es: Seq<EntryText>, name: Seq<char>, i: int) -> int
    decreases es.len() - i,
{
    if i >= es.len() {
        es.len() as int
    } else if es[i].name == name {
        i
    } else {
        entry_index(es, name, i + 1)
    }
}

/// Where a preset stands in the list.
pub fn find_preset(list: &Vec<PresetEntry>, name: &str) -> (r: Option<usize>)
    ensures
        match r {
            Some(i) => i < list.len() && i == entry_index(entries(list@), name@, 0) && list@[i as int].name@
                == name@,
            None => entry_index(entries(list@), name@, 0) == list.len(),
        },
        r is Some ==> forall|k: int| 0 <= k < r->0 ==> (#[trigger] list@[k]).name@ != name@,
        r is None ==> forall|k: int| 0 <= k < list.len() ==> (#[trigger] list@[k]).name@ != name@,
{
    let mut i: usize = 0;
    let ghost es = entries(list@);
    while i < list.len()
        invariant
            i <= list.len(),
            es == entries(list@),
            entry_index(es, name@, 0) == entry_index(es, name@, i as int),
            forall|k: int| 0 <= k < i ==> (#[trigger] list@[k]).name@ != name@,
        decreases list.len() - i,
    {
        assert(es[i as int].name == list@[i as int].name@);
        if same_text(list[i].name.as_str(), name) {
            return Some(i);
        }
        i += 1;
    }
    None
}

/// The preset that an editor opens with: the one that is remembered if it is in
/// the list, else the first.
pub fn startup_index(list: &Vec<PresetEntry>, last: &Option<String>) -> (r: usize)
    ensures
        r == match opt_string(*last) {
            Some(n) => if entry_index(entries(list@), n, 0) < list.len() {
                entry_index(entries(list@), n, 0)
            } else {
                0
            },
            None => 0,
        },
        list.len() > 0 ==> r < list.len(),
        *last is None ==> r == 0,
        *last is Some && r > 0 ==> list@[r as int].name@ == (*last)->0@ && forall|k: int|
            0 <= k < r ==> (#[trigger] list@[k]).name@ != (*last)->0@,
        *last is Some && r == 0 ==> forall|k: int|
            1 <= k < list.len() && (#[trigger] list@[k]).name@ == (*last)->0@ ==> list@[0].name@ == (
            *last)->0@,
{
    match last {
        Some(n) => match find_preset(list, n.as_str()) {
            Some(i) => i,
            None => 0,
        },
        None => 0,
    }
}

/// The list begins with pink noise, whatever the directories hold, so that
/// there is always a preset to open with.
pub proof fn law_pink_noise_is_first(found: Seq<FoundText>)
    ensures
        listed(found).len() == found.len() + 1,
        listed(found)[0].name == "Pink Noise"@,
        listed(found)[0].preset == pink_noise(),
{
}

/// A file is a preset just when it is a markdown file, its name does not begin
/// with `SNAPSHOT-`, and it holds one. The preset has the name of the file, its
/// path, and else what the file holds.
pub proof fn law_preset_files(f: PresetFile)
    ensures
        may_be_preset(f) <==> f.is_file && f.is_md && !(f.stem is Some && f.stem->0@.len() >= 9
            && f.stem->0@.take(9) == "SNAPSHOT-"@),
        preset_in(f) is Some <==> f.content is Some && preset_of(f.content->0@, f.front@) is Some,
        preset_in(f) is Some ==> {
            let e = preset_in(f)->0;
            let p = preset_of(f.content->0@, f.front@)->0;
            &&& e.path == f.path@
            &&& f.stem is Some ==> e.name == f.stem->0@
            &&& f.stem is None ==> e.name.len() == 0
            &&& e.profile == (ProfileText { name: e.name, ..p })
        },
{
    reveal_strlit("SNAPSHOT-");
    reveal_strlit("");
    let s = stem_of(f);
    if s.len() >= 9 {
        assert(s.take(9) == s.subrange(0, 9));
    }
}

/// Whether no earlier file that may be a preset has the path of file `i`.
pub open spec fn is_first_with_path(files: Seq<PresetFile>, i: int) -> bool {
    forall|j: int|
        0 <= j < i && may_be_preset(#[trigger] files[j]) ==> files[j].path@ != files[i].path@
}

proof fn lemma_seen_paths(files: Seq<PresetFile>, n: int, path: Seq<char>)
    requires
        0 <= n <= files.len(),
    ensures
        seen_paths(files, n).contains(path) <==> exists|j: int|
            0 <= j < n && may_be_preset(#[trigger] files[j]) && files[j].path@ == path,
    decreases n,
{
    if n > 0 {
        lemma_seen_paths(files, n - 1, path);
        let had = seen_paths(files, n - 1);
        let now = seen_paths(files, n);
        let f = files[n - 1];
        if had.contains(path) {
            let k = choose|k: int| 0 <= k < had.len() && had[k] == path;
            assert(now[k] == path);
        }
        if may_be_preset(f) && f.path@ == path && !had.contains(path) {
            assert(now == had.push(path));
            assert(now[had.len() as int] == path);
        }
        if now.contains(path) && !had.contains(path) {
            let k = choose|k: int| 0 <= k < now.len() && now[k] == path;
            assert(k == had.len());
            assert(may_be_preset(files[n - 1]));
        }
        if exists|j: int| 0 <= j < n && may_be_preset(#[trigger] files[j]) && files[j].path@ == path {
            let j = choose|j: int|
                0 <= j < n && may_be_preset(#[trigger] files[j]) && files[j].path@ == path;
            if j == n - 1 {
                assert(now.contains(path));
            }
        }
    }
}

/// Every preset in the list is that of a file that may be one, the first with
/// its path, and later presets are those of later files.
pub proof fn law_presets_come_from_files(files: Seq<PresetFile>, n: int, k: int) -> (i: int)
    requires
        0 <= n <= files.len(),
        0 <= k < presets_in(files, n).len(),
    ensures
        0 <= i < n,
        may_be_preset(files[i]),
        is_first_with_path(files, i),
        preset_in(files[i]) == Some(presets_in(files, n)[k]),
        presets_in(files, i).len() == k,
    decreases n,
{
    if n <= 0 {
        0
    } else if k < presets_in(files, n - 1).len() {
        law_presets_come_from_files(files, n - 1, k)
    } else {
        lemma_seen_paths(files, n - 1, files[n - 1].path@);
        n - 1
    }
}

/// Every file that is a preset is in the list, unless an earlier one has its
/// path.
pub proof fn law_every_preset_is_in_the_list(files: Seq<PresetFile>, n: int, i: int) -> (k: int)
    requires
        0 <= i < n <= files.len(),
        may_be_preset(files[i]),
        is_first_with_path(files, i),
        preset_in(files[i]) is Some,
    ensures
        0 <= k < presets_in(files, n).len(),
        preset_in(files[i]) == Some(presets_in(files, n)[k]),
    decreases n,
{
    if i == n - 1 {
        lemma_seen_paths(files, n - 1, files[n - 1].path@);
        presets_in(files, n - 1).len() as int
    } else {
        law_every_preset_is_in_the_list(files, n - 1, i)
    }
}

/// After pink noise the list holds what was found, in order, each with its name,
/// its file and its settings.
pub proof fn law_found_presets_are_listed(found: Seq<FoundText>, i: int)
    requires
        0 <= i < found.len(),
    ensures
        ({
            let e = listed(found)[i + 1];
            &&& e.name == found[i].name
            &&& e.path == Some(found[i].path)
            &&& e.preset.name == found[i].name
            &&& e.preset.bands == found[i].profile.bands
            &&& e.preset.tolerances == found[i].profile.tolerances
            &&& e.preset.pans == found[i].profile.pans
            &&& e.preset.widths == found[i].profile.widths
            &&& e.preset.mono_floor_hz == found[i].profile.mono_floor_hz
        }),
        listed(found)[0].path is None,
{
}

} // verus!
