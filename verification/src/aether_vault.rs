//! The presets of Aether: the built-in one, those in the vault, and what the
//! editor shows of them.

use crate::aether::{
    harman_flat, harman_flat_profile, opt_profile, parse_aether_preset, preset_of, AetherProfile,
    ProfileText,
};
use crate::editor::vault_path_of;
use crate::pending::{next_generation, taken_over, PendingPresets};
use crate::text::{opt_string, same_text, strings, trimmed};
use crate::vault::copy_opt;
use vstd::prelude::*;
use vstd::string::*;

verus! {

// ─── Entries ─────────────────────────────────────────────────────────────────

/// A preset that was found: its name, its file, and what it holds.
pub struct PresetEntry {
    pub name: String,
    pub path: String,
    pub profile: AetherProfile,
}

/// What an entry holds.
pub struct EntryText {
    pub name: Seq<char>,
    pub path: Seq<char>,
    pub profile: ProfileText,
}

impl View for PresetEntry {
    type V = EntryText;

    open spec fn view(&self) -> EntryText {
        EntryText { name: self.name@, path: self.path@, profile: self.profile@ }
    }
}

/// The entries that a list holds.
pub open spec fn entries(v: Seq<PresetEntry>) -> Seq<EntryText> {
    Seq::new(v.len(), |i: int| v[i]@)
}

/// Whether an entry has the given name.
pub open spec fn is_listed(es: Seq<EntryText>, name: Seq<char>) -> bool {
    exists|i: int| 0 <= i < es.len() && (#[trigger] es[i]).name == name
}

impl PresetEntry {
    /// The same entry once more.
    pub fn copy(&self) -> (r: PresetEntry)
        ensures
            r@ == self@,
    {
        PresetEntry {
            name: self.name.clone(),
            path: self.path.clone(),
            profile: self.profile.copy(),
        }
    }
}

// ─── Names ───────────────────────────────────────────────────────────────────

/// The names of the built-in presets.
pub open spec fn builtin_names() -> Seq<Seq<char>> {
    seq!["Harman Flat"@]
}

/// The built-in names and then those of the first `n` entries, each once.
pub open spec fn merged_names(es: Seq<EntryText>, n: int) -> Seq<Seq<char>>
    decreases n,
{
    if n <= 0 {
        builtin_names()
    } else {
        let had = merged_names(es, n - 1);
        if had.contains(es[n - 1].name) {
            had
        } else {
            had.push(es[n - 1].name)
        }
    }
}

/// The names of the built-in presets.
pub fn default_preset_names() -> (r: Vec<String>)
    ensures
        strings(r@) == builtin_names(),
        r.len() == 1,
        r@[0]@ == "Harman Flat"@,
{
    let mut r: Vec<String> = Vec::new();
    r.push("Harman Flat".to_owned());
    assert(strings(r@) == builtin_names());
    r
}

/// Whether one of the names is `name`.
pub fn has_name(names: &Vec<String>, name: &str) -> (r: bool)
    ensures
        r == strings(names@).contains(name@),
{
    let mut i: usize = 0;
    let ghost all = strings(names@);
    while i < names.len()
        invariant
            i <= names.len(),
            all == strings(names@),
            forall|k: int| 0 <= k < i ==> all[k] != name@,
        decreases names.len() - i,
    {
        assert(all[i as int] == names@[i as int]@);
        if same_text(names[i].as_str(), name) {
            return true;
        }
        i += 1;
    }
    false
}

fn push_name(names: &mut Vec<String>, name: &str)
    ensures
        strings(final(names)@) == strings(old(names)@).push(name@),
{
    let ghost had = names@;
    names.push(name.to_owned());
    assert(strings(names@) == strings(had).push(name@));
}

/// The names to show: the built-in ones first, then those that were found.
pub fn merge_preset_names(scanned: &Vec<PresetEntry>) -> (r: Vec<String>)
    ensures
        strings(r@) == merged_names(entries(scanned@), scanned.len() as int),
{
    let mut names = default_preset_names();
    let mut i: usize = 0;
    while i < scanned.len()
        invariant
            i <= scanned.len(),
            strings(names@) == merged_names(entries(scanned@), i as int),
        decreases scanned.len() - i,
    {
        let ghost es = entries(scanned@);
        assert(es[i as int].name == scanned@[i as int].name@);
        if !has_name(&names, scanned[i].name.as_str()) {
            push_name(&mut names, scanned[i].name.as_str());
        }
        i += 1;
    }
    names
}

/// Whether no text stands in a list twice.
pub open spec fn no_text_twice(names: Seq<Seq<char>>) -> bool {
    forall|i: int, j: int| 0 <= i < j < names.len() ==> #[trigger] names[i] != #[trigger] names[j]
}

/// The names that are shown begin with the built-in ones, hold the name of
/// every preset that was found, and hold none twice.
pub proof fn law_names_are_complete(es: Seq<EntryText>, n: int)
    requires
        0 <= n <= es.len(),
    ensures
        merged_names(es, n).len() >= 1,
        merged_names(es, n)[0] == "Harman Flat"@,
        no_text_twice(merged_names(es, n)),
        forall|i: int| 0 <= i < n ==> merged_names(es, n).contains((#[trigger] es[i]).name),
    decreases n,
{
    if n > 0 {
        law_names_are_complete(es, n - 1);
        let had = merged_names(es, n - 1);
        let new = merged_names(es, n);
        if !had.contains(es[n - 1].name) {
            assert(new[had.len() as int] == es[n - 1].name);
        }
        assert forall|i: int| 0 <= i < n implies new.contains((#[trigger] es[i]).name) by {
            if i < n - 1 {
                let k = choose|k: int| 0 <= k < had.len() && had[k] == es[i].name;
                assert(new[k] == es[i].name);
            }
        }
    }
}

// ─── Scanning ────────────────────────────────────────────────────────────────

/// A file of a directory: its path, its name without extension, whether its
/// extension is `md`, what it holds if it could be read, and the plugin that
/// its frontmatter names.
pub struct PresetFile {
    pub path: String,
    pub stem: Option<String>,
    pub is_md: bool,
    pub content: Option<String>,
    pub plugin: Option<String>,
}

/// A profile under a name: its own, or if it has none the given one.
pub open spec fn named_profile(p: ProfileText, name: Seq<char>) -> ProfileText {
    if p.name.len() == 0 {
        ProfileText { name, ..p }
    } else {
        p
    }
}

/// The entry that a file gives, if it is a preset.
pub open spec fn entry_of(f: PresetFile) -> Option<EntryText> {
    if !f.is_md {
        None
    } else {
        match opt_string(f.content) {
            Some(content) => match preset_of(content, opt_string(f.plugin)) {
                Some(p) => {
                    let stem = match opt_string(f.stem) {
                        Some(s) => s,
                        None => "Unnamed"@,
                    };
                    let named = named_profile(p, stem);
                    Some(EntryText { name: named.name, path: f.path@, profile: named })
                },
                None => None,
            },
            None => None,
        }
    }
}

/// The entries that the first `n` files give, in order.
pub open spec fn entries_of(files: Seq<PresetFile>, n: int) -> Seq<EntryText>
    decreases n,
{
    if n <= 0 {
        seq![]
    } else {
        match entry_of(files[n - 1]) {
            Some(e) => entries_of(files, n - 1).push(e),
            None => entries_of(files, n - 1),
        }
    }
}

/// `scanned` and then those of the first `n` further entries whose names are
/// not listed yet.
pub open spec fn with_unlisted(scanned: Seq<EntryText>, more: Seq<EntryText>, n: int) -> Seq<EntryText>
    decreases n,
{
    if n <= 0 {
        scanned
    } else {
        let had = with_unlisted(scanned, more, n - 1);
        if is_listed(had, more[n - 1].name) {
            had
        } else {
            had.push(more[n - 1])
        }
    }
}

fn read_entry(f: &PresetFile) -> (r: Option<PresetEntry>)
    ensures
        match r {
            Some(e) => entry_of(*f) == Some(e@),
            None => entry_of(*f) is None,
        },
{
    if !f.is_md {
        return None;
    }
    let plugin: Option<&str> = match &f.plugin {
        Some(p) => Some(p.as_str()),
        None => None,
    };
    let parsed = match &f.content {
        Some(content) => parse_aether_preset(content.as_str(), plugin),
        None => None,
    };
    match parsed {
        Some(mut p) => {
            if p.name.as_str().is_empty() {
                p.name = match &f.stem {
                    Some(s) => s.clone(),
                    None => "Unnamed".to_owned(),
                };
            }
            let name = p.name.clone();
            Some(PresetEntry { name, path: f.path.clone(), profile: p })
        },
        None => None,
    }
}

/// The presets among the files of a directory, in order.
pub fn scan_aether_presets(files: &Vec<PresetFile>) -> (r: Vec<PresetEntry>)
    ensures
        entries(r@) == entries_of(files@, files.len() as int),
        r.len() == entries_of(files@, files.len() as int).len(),
        forall|i: int|
            0 <= i < r.len() ==> {
                let e = #[trigger] r@[i];
                let said = entries_of(files@, files.len() as int)[i];
                e.name@ == said.name && e.path@ == said.path && e.profile@ == said.profile
            },
{
    let mut r: Vec<PresetEntry> = Vec::new();
    let mut i: usize = 0;
    assert(entries(r@) == Seq::<EntryText>::empty());
    while i < files.len()
        invariant
            i <= files.len(),
            entries(r@) == entries_of(files@, i as int),
        decreases files.len() - i,
    {
        if let Some(e) = read_entry(&files[i]) {
            let ghost had = r@;
            let ghost et = e@;
            r.push(e);
            assert(entries(r@) == entries(had).push(et));
        }
        i += 1;
    }
    assert forall|k: int| 0 <= k < r.len() implies {
        let e = #[trigger] r@[k];
        let said = entries_of(files@, files.len() as int)[k];
        e.name@ == said.name && e.path@ == said.path && e.profile@ == said.profile
    } by {
        assert(entries(r@)[k] == r@[k]@);
    }
    r
}

/// Where the first entry with a name stands; the number of entries if none has it.
pub open spec fn entry_index(es: Seq<EntryText>, name: Seq<char>, i: int) -> int
    decreases es.len() - i,
{
    if i >= es.len() {
        es.len() as int
    } else if es[i].name == name {
        i
    } else {
        entry_index(es, name, i + 1)
    }
}

fn find_entry(list: &Vec<PresetEntry>, name: &str) -> (r: usize)
    ensures
        r == entry_index(entries(list@), name@, 0),
        r <= list.len(),
        r < list.len() ==> list@[r as int].name@ == name@,
        r < list.len() <==> is_listed(entries(list@), name@),
{
    let mut i: usize = 0;
    let ghost es = entries(list@);
    while i < list.len() && !same_text(list[i].name.as_str(), name)
        invariant
            i <= list.len(),
            es == entries(list@),
            forall|k: int| 0 <= k < i ==> (#[trigger] es[k]).name != name@,
            entry_index(es, name@, 0) == entry_index(es, name@, i as int),
        decreases list.len() - i,
    {
        assert(es[i as int].name == list@[i as int].name@);
        i += 1;
    }
    if i < list.len() {
        assert(es[i as int].name == list@[i as int].name@);
    }
    i
}

/// The presets of the vault, and those of the plugin's own directory whose
/// names the vault does not have.
pub fn scan_vault(vault: &Vec<PresetFile>, local: &Vec<PresetFile>) -> (r: Vec<PresetEntry>)
    ensures
        ({
            let more = entries_of(local@, local.len() as int);
            entries(r@) == with_unlisted(
                entries_of(vault@, vault.len() as int),
                more,
                more.len() as int,
            )
        }),
{
    let mut r = scan_aether_presets(vault);
    let more = scan_aether_presets(local);
    let ghost start = entries(r@);
    let mut i: usize = 0;
    while i < more.len()
        invariant
            i <= more.len(),
            entries(r@) == with_unlisted(start, entries(more@), i as int),
        decreases more.len() - i,
    {
        assert(entries(more@)[i as int] == more@[i as int]@);
        if find_entry(&r, more[i].name.as_str()) >= r.len() {
            let ghost had = r@;
            let e = more[i].copy();
            let ghost et = e@;
            r.push(e);
            assert(entries(r@) == entries(had).push(et));
        }
        i += 1;
    }
    r
}

/// The presets of the vault come first and as they were found, and those of the
/// plugin's own directory are listed by their names in any case.
pub proof fn law_vault_presets_come_first(scanned: Seq<EntryText>, more: Seq<EntryText>, n: int)
    requires
        0 <= n <= more.len(),
    ensures
        with_unlisted(scanned, more, n).len() >= scanned.len(),
        with_unlisted(scanned, more, n).take(scanned.len() as int) == scanned,
        forall|i: int| 0 <= i < n ==> is_listed(with_unlisted(scanned, more, n), (#[trigger] more[i]).name),
    decreases n,
{
    let new = with_unlisted(scanned, more, n);
    if n <= 0 {
        assert(new.take(scanned.len() as int) == scanned);
    } else {
        law_vault_presets_come_first(scanned, more, n - 1);
        let had = with_unlisted(scanned, more, n - 1);
        assert(new.take(scanned.len() as int) == had.take(scanned.len() as int));
        if !is_listed(had, more[n - 1].name) {
            assert(new[had.len() as int].name == more[n - 1].name);
        }
        assert forall|i: int| 0 <= i < n implies is_listed(new, (#[trigger] more[i]).name) by {
            if i < n - 1 {
                let k = choose|k: int| 0 <= k < had.len() && (#[trigger] had[k]).name == more[i].name;
                assert(new[k].name == more[i].name);
            }
        }
    }
}

/// The profile with a name: the built-in one, else the first that was found
/// under it, else the one that a file of that name in the plugin's own
/// directory holds.
pub open spec fn profile_named(
    name: Seq<char>,
    es: Seq<EntryText>,
    local: Option<ProfileText>,
) -> Option<ProfileText> {
    let i = entry_index(es, name, 0);
    if name == "Harman Flat"@ {
        Some(harman_flat())
    } else if i < es.len() {
        Some(es[i].profile)
    } else {
        match local {
            Some(p) => Some(named_profile(p, name)),
            None => None,
        }
    }
}

/// The profile with a name.
pub fn find_profile(name: &str, cache: &Vec<PresetEntry>, local: Option<AetherProfile>) -> (r: Option<
    AetherProfile,
>)
    ensures
        opt_profile(r) == profile_named(name@, entries(cache@), opt_profile(local)),
{
    if same_text(name, "Harman Flat") {
        return Some(harman_flat_profile());
    }
    let i: usize = find_entry(cache, name);
    if i < cache.len() {
        assert(entries(cache@)[i as int].profile == cache@[i as int].profile@);
        return Some(cache[i].profile.copy());
    }
    match local {
        Some(mut p) => {
            if p.name.as_str().is_empty() {
                p.name = name.to_owned();
            }
            Some(p)
        },
        None => None,
    }
}

// ─── Editor ──────────────────────────────────────────────────────────────────

/// What the editor knows of the vault.
pub struct VaultUiState {
    pub vault_path: Option<String>,
    pub names: Vec<String>,
    pub cache: Vec<PresetEntry>,
    pub pending: PendingPresets<PresetEntry>,
    pub scanning_for: Option<String>,
}

/// A scan to start: the directory, and the generation it belongs to.
pub struct Scan {
    pub path: String,
    pub generation: u32,
}

/// Whether `scan` is the scan of `path`, started in the generation after `before`.
pub open spec fn is_scan_of(scan: Option<Scan>, path: Option<Seq<char>>, before: u32) -> bool {
    match path {
        Some(p) => scan is Some && scan->0.path@ == p && scan->0.generation == next_generation(before),
        None => scan is None,
    }
}

/// What the cache holds after a preset has been saved: in place of the entry
/// with its name, or at the end.
pub open spec fn with_saved(es: Seq<EntryText>, e: EntryText) -> Seq<EntryText> {
    let i = entry_index(es, e.name, 0);
    if i < es.len() {
        es.update(i, e)
    } else {
        es.push(e)
    }
}

impl VaultUiState {
    /// An editor that shows the built-in presets.
    pub fn new(vault_path: Option<String>) -> (r: VaultUiState)
        ensures
            opt_string(r.vault_path) == opt_string(vault_path),
            opt_string(r.scanning_for) == opt_string(vault_path),
            strings(r.names@) == builtin_names(),
            r.cache.len() == 0,
            r.pending.generation == 0,
            r.pending.ready == false,
            r.pending.presets is None,
    {
        let scanning_for = copy_opt(&vault_path);
        VaultUiState {
            vault_path,
            names: default_preset_names(),
            cache: Vec::new(),
            pending: PendingPresets::new(),
            scanning_for,
        }
    }

    /// Takes the vault path that was typed. With a path the vault is scanned;
    /// without one only the built-in presets are left, and the plugin's own
    /// directory is scanned if it is there.
    pub fn set_path(&mut self, field: &str, local: &Option<String>) -> (r: Option<Scan>)
        ensures
            trimmed(field@).len() > 0 ==> {
                &&& opt_string(final(self).vault_path) == Some(trimmed(field@))
                &&& opt_string(final(self).scanning_for) == Some(trimmed(field@))
                &&& final(self).names == old(self).names
                &&& final(self).cache == old(self).cache
                &&& is_scan_of(r, Some(trimmed(field@)), old(self).pending.generation)
            },
            trimmed(field@).len() == 0 ==> {
                &&& final(self).vault_path is None
                &&& final(self).scanning_for is None
                &&& strings(final(self).names@) == builtin_names()
                &&& final(self).cache.len() == 0
                &&& is_scan_of(r, opt_string(*local), old(self).pending.generation)
            },
            r is Some <==> trimmed(field@).len() > 0 || *local is Some,
            trimmed(field@).len() > 0 ==> r->0.path@ == trimmed(field@),
            trimmed(field@).len() == 0 && *local is Some ==> r->0.path@ == (*local)->0@,
            r is Some ==> r->0.generation == if old(self).pending.generation == 0xffff_ffff {
                0
            } else {
                old(self).pending.generation + 1
            },
            r is Some ==> {
                &&& final(self).pending.generation == r->0.generation
                &&& !final(self).pending.ready
                &&& final(self).pending.presets is None
            },
            r is None ==> final(self).pending == old(self).pending,
    {
        match vault_path_of(field) {
            Some(path) => {
                let generation: u32 = self.pending.bump_generation();
                self.vault_path = Some(path.clone());
                self.scanning_for = Some(path.clone());
                Some(Scan { path, generation })
            },
            None => {
                self.vault_path = None;
                self.names = default_preset_names();
                self.cache = Vec::new();
                self.scanning_for = None;
                match local {
                    Some(path) => {
                        let generation: u32 = self.pending.bump_generation();
                        Some(Scan { path: path.clone(), generation })
                    },
                    None => None,
                }
            },
        }
    }

    /// Takes a preset that has been saved, and has the vault scanned again.
    pub fn saved(&mut self, entry: PresetEntry) -> (r: Option<Scan>)
        ensures
            entries(final(self).cache@) == with_saved(entries(old(self).cache@), entry@),
            strings(final(self).names@) == if strings(old(self).names@).contains(entry@.name) {
                strings(old(self).names@)
            } else {
                strings(old(self).names@).push(entry@.name)
            },
            opt_string(final(self).vault_path) == opt_string(old(self).vault_path),
            ({
                let vault = match opt_string(old(self).vault_path) {
                    Some(p) => if p.len() > 0 {
                        Some(p)
                    } else {
                        None
                    },
                    None => None,
                };
                &&& is_scan_of(r, vault, old(self).pending.generation)
                &&& opt_string(final(self).scanning_for) == if vault is Some {
                    vault
                } else {
                    opt_string(old(self).scanning_for)
                }
            }),
            r is Some <==> old(self).vault_path is Some && (old(self).vault_path->0)@.len() > 0,
            r is Some ==> r->0.path@ == (old(self).vault_path->0)@ && r->0.generation == if old(self).pending.generation == 0xffff_ffff {
                0
            } else {
                old(self).pending.generation + 1
            },
            r is Some ==> {
                &&& final(self).pending.generation == r->0.generation
                &&& !final(self).pending.ready
                &&& final(self).pending.presets is None
            },
            r is None ==> final(self).pending == old(self).pending,
    {
        let ghost e = entry@;
        if !has_name(&self.names, entry.name.as_str()) {
            push_name(&mut self.names, entry.name.as_str());
        }
        let i: usize = find_entry(&self.cache, entry.name.as_str());
        let ghost had = self.cache@;
        if i < self.cache.len() {
            self.cache.set(i, entry);
            assert(entries(self.cache@) == entries(had).update(i as int, e));
        } else {
            self.cache.push(entry);
            assert(entries(self.cache@) == entries(had).push(e));
        }
        let vault: Option<String> = match &self.vault_path {
            Some(p) => if !p.as_str().is_empty() {
                Some(p.clone())
            } else {
                None
            },
            None => None,
        };
        match vault {
            Some(path) => {
                let generation: u32 = self.pending.bump_generation();
                self.scanning_for = Some(path.clone());
                Some(Scan { path, generation })
            },
            None => None,
        }
    }

    /// Takes over what a scan has found, and says whether there was anything.
    pub fn drain(&mut self) -> (r: bool)
        ensures
            r == (taken_over(old(self).pending) is Some),
            r <==> old(self).pending.ready && old(self).pending.presets is Some && (
            old(self).pending.presets->0).0 == old(self).pending.generation,
            r ==> entries(final(self).cache@) == entries((old(self).pending.presets->0).1@),
            r ==> {
                &&& entries(final(self).cache@) == entries(taken_over(old(self).pending)->0@)
                &&& strings(final(self).names@) == merged_names(
                    entries(final(self).cache@),
                    final(self).cache.len() as int,
                )
            },
            !r ==> final(self).cache == old(self).cache && final(self).names == old(self).names,
            final(self).vault_path == old(self).vault_path,
            final(self).scanning_for == old(self).scanning_for,
            final(self).pending.generation == old(self).pending.generation,
            !final(self).pending.ready,
            final(self).pending.presets == old(self).pending.presets,
    {
        let taken: Option<Vec<PresetEntry>> = match self.pending.drain() {
            Some(scanned) => Some(copy_entries(scanned)),
            None => None,
        };
        match taken {
            Some(scanned) => {
                self.names = merge_preset_names(&scanned);
                self.cache = scanned;
                true
            },
            None => false,
        }
    }
}

/// The entries of a list once more.
fn copy_entries(list: &Vec<PresetEntry>) -> (r: Vec<PresetEntry>)
    ensures
        entries(r@) == entries(list@),
{
    let mut r: Vec<PresetEntry> = Vec::new();
    let mut i: usize = 0;
    while i < list.len()
        invariant
            i <= list.len(),
            r.len() == i,
            forall|k: int| 0 <= k < i ==> (#[trigger] r@[k])@ == list@[k]@,
        decreases list.len() - i,
    {
        r.push(list[i].copy());
        i += 1;
    }
    assert(entries(r@) == entries(list@));
    r
}

/// The name to show when an editor opens: the preset that is remembered, else
/// the one of the profile that was used last, else none.
pub fn startup_name(last: &Option<String>, cached: &Option<AetherProfile>) -> (r: String)
    ensures
        r@ == match opt_string(*last) {
            Some(n) => n,
            None => match opt_profile(*cached) {
                Some(p) => p.name,
                None => ""@,
            },
        },
{
    match last {
        Some(n) => n.clone(),
        None => match cached {
            Some(p) => p.name.clone(),
            None => "".to_owned(),
        },
    }
}

/// The profile to restore when an editor opens: the one that was used last if
/// it has the name, else the one with the name. Without a name nothing is
/// restored.
pub fn startup_profile(
    name: &str,
    cached: Option<AetherProfile>,
    local: Option<AetherProfile>,
) -> (r: Option<AetherProfile>)
    ensures
        opt_profile(r) == if name@.len() == 0 {
            None
        } else if cached is Some && cached->0@.name == name@ {
            opt_profile(cached)
        } else {
            profile_named(name@, Seq::<EntryText>::empty(), opt_profile(local))
        },
{
    if name.is_empty() {
        return None;
    }
    if let Some(p) = cached {
        if same_text(p.name.as_str(), name) {
            return Some(p);
        }
    }
    let none: Vec<PresetEntry> = Vec::new();
    assert(entries(none@) == Seq::<EntryText>::empty());
    find_profile(name, &none, local)
}

/// A preset that has just been saved is found under its name.
pub proof fn law_saved_preset_is_found(es: Seq<EntryText>, e: EntryText, local: Option<ProfileText>)
    requires
        e.name != "Harman Flat"@,
    ensures
        profile_named(e.name, with_saved(es, e), local) == Some(e.profile),
{
    let i = entry_index(es, e.name, 0);
    lemma_entry_index(es, e.name, 0);
    let new = with_saved(es, e);
    if i < es.len() {
        assert forall|k: int| 0 <= k < i implies (#[trigger] new[k]).name != e.name by {
            assert(new[k] == es[k]);
        }
        lemma_entry_index_is(new, e.name, 0, i);
    } else {
        assert forall|k: int| 0 <= k < es.len() implies (#[trigger] new[k]).name != e.name by {
            assert(new[k] == es[k]);
        }
        lemma_entry_index_is(new, e.name, 0, es.len() as int);
    }
}

proof fn lemma_entry_index(es: Seq<EntryText>, name: Seq<char>, i: int)
    requires
        0 <= i,
    ensures
        ({
            let k = entry_index(es, name, i);
            &&& i < es.len() ==> i <= k <= es.len()
            &&& k < es.len() ==> i <= k && es[k].name == name
            &&& forall|m: int| i <= m < k && m < es.len() ==> (#[trigger] es[m]).name != name
        }),
    decreases es.len() - i,
{
    if i < es.len() && es[i].name != name {
        lemma_entry_index(es, name, i + 1);
    }
}

proof fn lemma_entry_index_is(es: Seq<EntryText>, name: Seq<char>, i: int, k: int)
    requires
        0 <= i <= k < es.len(),
        es[k].name == name,
        forall|m: int| i <= m < k ==> (#[trigger] es[m]).name != name,
    ensures
        entry_index(es, name, i) == k,
    decreases k - i,
{
    if i < k {
        assert(es[i].name != name);
        lemma_entry_index_is(es, name, i + 1, k);
    }
}

/// Every name that is shown after the built-in one is that of a preset that was
/// found, the first with the name, and the names come in the order in which
/// their first presets were found.
pub proof fn law_names_were_found(es: Seq<EntryText>, n: int, k: int) -> (i: int)
    requires
        0 <= n <= es.len(),
        1 <= k < merged_names(es, n).len(),
    ensures
        0 <= i < n,
        merged_names(es, n)[k] == es[i].name,
        forall|j: int| 0 <= j < i ==> (#[trigger] es[j]).name != es[i].name,
        merged_names(es, i + 1).len() == k + 1,
    decreases n,
{
    if n <= 0 {
        0
    } else {
        let had = merged_names(es, n - 1);
        if k < had.len() {
            law_names_were_found(es, n - 1, k)
        } else {
            law_names_are_complete(es, n - 1);
            assert forall|j: int| 0 <= j < n - 1 implies (#[trigger] es[j]).name != es[n - 1].name by {
                assert(had.contains(es[j].name));
            }
            n - 1
        }
    }
}

/// A file gives an entry just when its extension is `md`, it could be read, and
/// it holds a preset. The entry has the name of the preset, or if it has none
/// that of the file, its path, and else what the preset holds.
pub proof fn law_preset_files_give_entries(f: PresetFile)
    ensures
        entry_of(f) is Some <==> f.is_md && f.content is Some && preset_of(
            f.content->0@,
            opt_string(f.plugin),
        ) is Some,
        entry_of(f) is Some ==> {
            let e = entry_of(f)->0;
            let p = preset_of(f.content->0@, opt_string(f.plugin))->0;
            &&& e.path == f.path@
            &&& e.name == e.profile.name
            &&& p.name.len() > 0 ==> e.name == p.name
            &&& p.name.len() == 0 && f.stem is Some ==> e.name == f.stem->0@
            &&& p.name.len() == 0 && f.stem is None ==> e.name == "Unnamed"@
            &&& e.profile.bands == p.bands
            &&& e.profile.cf_angle == p.cf_angle
            &&& e.profile.cf_amount == p.cf_amount
            &&& e.profile.cf_realism == p.cf_realism
            &&& e.profile.blend == p.blend
            &&& e.profile.gain == p.gain
        },
{
}

/// Every entry is that of a file, and later entries are those of later files.
pub proof fn law_entries_come_from_files(files: Seq<PresetFile>, n: int, k: int) -> (i: int)
    requires
        0 <= n <= files.len(),
        0 <= k < entries_of(files, n).len(),
    ensures
        0 <= i < n,
        entry_of(files[i]) == Some(entries_of(files, n)[k]),
        entries_of(files, i).len() == k,
    decreases n,
{
    if n <= 0 {
        0
    } else if k < entries_of(files, n - 1).len() {
        law_entries_come_from_files(files, n - 1, k)
    } else {
        n - 1
    }
}

/// Every file that gives an entry is listed with it.
pub proof fn law_every_preset_file_is_listed(files: Seq<PresetFile>, n: int, i: int) -> (k: int)
    requires
        0 <= i < n <= files.len(),
        entry_of(files[i]) is Some,
    ensures
        0 <= k < entries_of(files, n).len(),
        entry_of(files[i]) == Some(entries_of(files, n)[k]),
    decreases n,
{
    if i == n - 1 {
        entries_of(files, n - 1).len() as int
    } else {
        law_every_preset_file_is_listed(files, n - 1, i)
    }
}

/// What is listed beyond the presets of the vault are presets of the plugin's
/// own directory, under names that the vault does not have, and the first with
/// the name.
pub proof fn law_only_unlisted_presets_are_added(
    scanned: Seq<EntryText>,
    more: Seq<EntryText>,
    n: int,
    k: int,
) -> (i: int)
    requires
        0 <= n <= more.len(),
        scanned.len() <= k < with_unlisted(scanned, more, n).len(),
    ensures
        0 <= i < n,
        with_unlisted(scanned, more, n)[k] == more[i],
        forall|j: int| 0 <= j < scanned.len() ==> (#[trigger] scanned[j]).name != more[i].name,
        forall|j: int| 0 <= j < i ==> (#[trigger] more[j]).name != more[i].name,
    decreases n,
{
    if n <= 0 {
        0
    } else {
        let had = with_unlisted(scanned, more, n - 1);
        if k < had.len() {
            law_only_unlisted_presets_are_added(scanned, more, n - 1, k)
        } else {
            law_vault_presets_come_first(scanned, more, n - 1);
            let e = more[n - 1];
            assert forall|j: int| 0 <= j < scanned.len() implies (#[trigger] scanned[j]).name
                != e.name by {
                assert(had.take(scanned.len() as int)[j] == had[j]);
            }
            assert forall|j: int| 0 <= j < n - 1 implies (#[trigger] more[j]).name != e.name by {
                assert(is_listed(had, more[j].name));
            }
            n - 1
        }
    }
}

/// The built-in name always stands for the built-in profile; another for the
/// first entry under it; and one that is not listed for the file of that name,
/// which takes the name if it has none.
pub proof fn law_profiles_are_found_in_order(
    name: Seq<char>,
    es: Seq<EntryText>,
    local: Option<ProfileText>,
    i: int,
)
    ensures
        name == "Harman Flat"@ ==> profile_named(name, es, local) == Some(harman_flat()),
        name != "Harman Flat"@ && 0 <= i < es.len() && es[i].name == name && (forall|j: int|
            0 <= j < i ==> (#[trigger] es[j]).name != name) ==> profile_named(name, es, local) == Some(
            es[i].profile,
        ),
        name != "Harman Flat"@ && (forall|j: int| 0 <= j < es.len() ==> (#[trigger] es[j]).name != name)
            ==> {
            let r = profile_named(name, es, local);
            &&& local is None ==> r is None
            &&& local is Some && local->0.name.len() > 0 ==> r == local
            &&& local is Some && local->0.name.len() == 0 ==> r == Some(
                ProfileText { name, ..local->0 },
            )
        },
{
    lemma_entry_index(es, name, 0);
    if 0 <= i < es.len() && es[i].name == name && (forall|j: int|
        0 <= j < i ==> (#[trigger] es[j]).name != name) {
        lemma_entry_index_is(es, name, 0, i);
    }
}

/// Saving a preset changes no entry with another name: it takes the place of the
/// first with its name, or comes last.
pub proof fn law_saving_leaves_the_others(es: Seq<EntryText>, e: EntryText, i: int)
    requires
        0 <= i < es.len(),
    ensures
        with_saved(es, e).len() == es.len() || with_saved(es, e).len() == es.len() + 1,
        es[i].name != e.name ==> with_saved(es, e)[i] == es[i],
        es[i].name == e.name && (forall|j: int| 0 <= j < i ==> (#[trigger] es[j]).name != e.name)
            ==> with_saved(es, e) == es.update(i, e),
        (forall|j: int| 0 <= j < es.len() ==> (#[trigger] es[j]).name != e.name) ==> with_saved(es, e)
            == es.push(e),
{
    lemma_entry_index(es, e.name, 0);
    if es[i].name == e.name && (forall|j: int| 0 <= j < i ==> (#[trigger] es[j]).name != e.name) {
        lemma_entry_index_is(es, e.name, 0, i);
    }
}

} // verus!
