//! Equilibrium presets: spectral balance and stereo settings kept as markdown.

use crate::document::{
    is_blank, is_clean, is_line, is_number_char, join_lines, joined, law_lines_read_back,
    lemma_first_cell, lemma_no_text, lemma_number_chars, lemma_some_cell, lemma_trim,
    lemma_trim_clean, push_line,
};
use crate::number::{is_float, lemma_plain_number, parse_u32, parsed_u32, reads_as_float};
use crate::single::Single;
use crate::text::{
    ascii_lower, ascii_lower_char, cells, chars_of, contains, digit, find, first_at, has_prefix, has_text,
    is_ascii_text, is_digit, is_text, is_white, lemma_word_len_is, lines, lower, lowercased,
    occurs_at, opt_string, part, remove_all, same_ignoring_case, split_lines, split_trimmed,
    split_words, starts_with, strings, text_of, texts, trim, trim_end_char, trim_end_of, trimmed,
    trimmed_cells, without, words,
};
use vstd::prelude::*;
use vstd::string::*;

verus! {

// ─── Types ───────────────────────────────────────────────────────────────────

/// Where a band stands between left and right: at the centre, or so many
/// percent to one side, as it is written.
pub enum Pan {
    Center,
    Left(String),
    Right(String),
}

/// What a pan holds.
pub enum PanText {
    Center,
    Left(Seq<char>),
    Right(Seq<char>),
}

impl View for Pan {
    type V = PanText;

    open spec fn view(&self) -> PanText {
        match self {
            Pan::Center => PanText::Center,
            Pan::Left(n) => PanText::Left(n@),
            Pan::Right(n) => PanText::Right(n@),
        }
    }
}

/// The pans that a list holds.
pub open spec fn pan_texts(v: Seq<Pan>) -> Seq<PanText> {
    Seq::new(v.len(), |i: int| v[i]@)
}

/// A preset. Its numbers are kept as they are written.
pub struct Profile {
    pub name: String,
    pub bands: Vec<String>,
    pub tolerances: Vec<String>,
    pub pans: Vec<Pan>,
    pub widths: Vec<String>,
    pub mono_floor_hz: String,
    pub tags: Vec<String>,
    pub version: u32,
    pub notes: String,
    pub source: String,
}

/// What a preset holds.
pub struct ProfileText {
    pub name: Seq<char>,
    pub bands: Seq<Seq<char>>,
    pub tolerances: Seq<Seq<char>>,
    pub pans: Seq<PanText>,
    pub widths: Seq<Seq<char>>,
    pub mono_floor_hz: Seq<char>,
    pub tags: Seq<Seq<char>>,
    pub version: u32,
    pub notes: Seq<char>,
    pub source: Seq<char>,
}

impl View for Profile {
    type V = ProfileText;

    open spec fn view(&self) -> ProfileText {
        ProfileText {
            name: self.name@,
            bands: strings(self.bands@),
            tolerances: strings(self.tolerances@),
            pans: pan_texts(self.pans@),
            widths: strings(self.widths@),
            mono_floor_hz: self.mono_floor_hz@,
            tags: strings(self.tags@),
            version: self.version,
            notes: self.notes@,
            source: self.source@,
        }
    }
}

/// Whether a pan is a number to one side, or the centre.
pub open spec fn is_pan(p: PanText) -> bool {
    match p {
        PanText::Center => true,
        PanText::Left(n) => is_float(n),
        PanText::Right(n) => is_float(n),
    }
}

impl ProfileText {
    /// A preset has five bands, and every number in it is one.
    pub open spec fn wf(self) -> bool {
        &&& self.bands.len() == 5
        &&& self.tolerances.len() == 5
        &&& self.pans.len() == 5
        &&& self.widths.len() == 5
        &&& forall|i: int| 0 <= i < 5 ==> is_float(#[trigger] self.bands[i])
        &&& forall|i: int| 0 <= i < 5 ==> is_float(#[trigger] self.tolerances[i])
        &&& forall|i: int| 0 <= i < 5 ==> is_pan(#[trigger] self.pans[i])
        &&& forall|i: int| 0 <= i < 5 ==> is_float(#[trigger] self.widths[i])
        &&& is_float(self.mono_floor_hz)
    }
}

/// The fields of a file's frontmatter that a preset looks at.
pub struct Frontmatter {
    pub plugin: Option<String>,
    pub version: Option<String>,
    pub source: Option<String>,
}

/// What the frontmatter says.
pub struct FrontmatterText {
    pub plugin: Option<Seq<char>>,
    pub version: Option<Seq<char>>,
    pub source: Option<Seq<char>>,
}

impl View for Frontmatter {
    type V = FrontmatterText;

    open spec fn view(&self) -> FrontmatterText {
        FrontmatterText {
            plugin: opt_string(self.plugin),
            version: opt_string(self.version),
            source: opt_string(self.source),
        }
    }
}

/// The tolerances of a preset that names none.
pub open spec fn default_tolerances() -> Seq<Seq<char>> {
    seq!["1.5"@, "2.0"@, "3.5"@, "4.5"@, "4.5"@]
}

/// The same text five times.
pub open spec fn five(s: Seq<char>) -> Seq<Seq<char>> {
    seq![s, s, s, s, s]
}

/// Five centred pans.
pub open spec fn centred() -> Seq<PanText> {
    seq![PanText::Center, PanText::Center, PanText::Center, PanText::Center, PanText::Center]
}

/// A preset that says nothing.
pub open spec fn default_profile() -> ProfileText {
    ProfileText {
        name: "Unnamed"@,
        bands: five("0.0"@),
        tolerances: default_tolerances(),
        pans: centred(),
        widths: five("100.0"@),
        mono_floor_hz: "0.0"@,
        tags: seq![],
        version: 2,
        notes: ""@,
        source: "manual"@,
    }
}

fn make_five(s: &str) -> (r: Vec<String>)
    ensures
        strings(r@) == five(s@),
{
    let mut r: Vec<String> = Vec::new();
    r.push(s.to_owned());
    r.push(s.to_owned());
    r.push(s.to_owned());
    r.push(s.to_owned());
    r.push(s.to_owned());
    assert(strings(r@) == five(s@));
    r
}

fn make_tolerances() -> (r: Vec<String>)
    ensures
        strings(r@) == default_tolerances(),
{
    let mut r: Vec<String> = Vec::new();
    r.push("1.5".to_owned());
    r.push("2.0".to_owned());
    r.push("3.5".to_owned());
    r.push("4.5".to_owned());
    r.push("4.5".to_owned());
    assert(strings(r@) == default_tolerances());
    r
}

fn make_centred() -> (r: Vec<Pan>)
    ensures
        pan_texts(r@) == centred(),
{
    let mut r: Vec<Pan> = Vec::new();
    r.push(Pan::Center);
    r.push(Pan::Center);
    r.push(Pan::Center);
    r.push(Pan::Center);
    r.push(Pan::Center);
    assert(pan_texts(r@) == centred());
    r
}

impl Default for Profile {
    fn default() -> (r: Profile)
        ensures
            r@ == default_profile(),
            r.name@ == "Unnamed"@,
            forall|i: int| 0 <= i < 5 ==> #[trigger] r@.bands[i] == "0.0"@,
            r@.bands.len() == 5,
            r@.tolerances == seq!["1.5"@, "2.0"@, "3.5"@, "4.5"@, "4.5"@],
            forall|i: int| 0 <= i < 5 ==> (#[trigger] r@.pans[i]) is Center,
            r@.pans.len() == 5,
            forall|i: int| 0 <= i < 5 ==> #[trigger] r@.widths[i] == "100.0"@,
            r@.widths.len() == 5,
            r.mono_floor_hz@ == "0.0"@,
            r.tags.len() == 0,
            r.version == 2,
            r.notes@ == ""@,
            r.source@ == "manual"@,
    {
        let tags: Vec<String> = Vec::new();
        assert(strings(tags@) == Seq::<Seq<char>>::empty());
        Profile {
            name: "Unnamed".to_owned(),
            bands: make_five("0.0"),
            tolerances: make_tolerances(),
            pans: make_centred(),
            widths: make_five("100.0"),
            mono_floor_hz: "0.0".to_owned(),
            tags,
            version: 2,
            notes: "".to_owned(),
            source: "manual".to_owned(),
        }
    }
}

// ─── Reading ─────────────────────────────────────────────────────────────────

/// The percentage that follows the letter of a pan.
pub open spec fn percent_after(s: Seq<char>) -> Seq<char> {
    trimmed(trim_end_char(trimmed(s.skip(1)), '%'))
}

/// The pan that a cell names: `C` or `center`, `L` or `R` with a percentage, in
/// any case; everything else is the centre.
pub open spec fn pan_named(cell: Seq<char>) -> PanText {
    let s = trimmed(cell);
    if ascii_lower(s) == "c"@ || ascii_lower(s) == "center"@ {
        PanText::Center
    } else if s.len() > 0 && (s[0] == 'L' || s[0] == 'l') && is_float(percent_after(s)) {
        PanText::Left(percent_after(s))
    } else if s.len() > 0 && (s[0] == 'R' || s[0] == 'r') && is_float(percent_after(s)) {
        PanText::Right(percent_after(s))
    } else {
        PanText::Center
    }
}

/// The pan that a cell names.
pub fn parse_pan_str(cell: &Vec<char>) -> (r: Pan)
    ensures
        r@ == pan_named(cell@),
        r is Center <==> r@ is Center,
        r is Left ==> r@ == PanText::Left(r->Left_0@),
        r is Right ==> r@ == PanText::Right(r->Right_0@),
        ({
            let s = trimmed(cell@);
            let n = trimmed(trim_end_char(trimmed(s.skip(1)), '%'));
            &&& s.len() > 0 && (s[0] == 'L' || s[0] == 'l') && is_float(n) ==> r@ == PanText::Left(n)
            &&& s.len() > 0 && (s[0] == 'R' || s[0] == 'r') && is_float(n) ==> r@ == PanText::Right(n)
            &&& !(s.len() > 0 && (s[0] == 'L' || s[0] == 'l' || s[0] == 'R' || s[0] == 'r')
                && is_float(n)) ==> r@ == PanText::Center
        }),
{
    proof {
        law_pan_is_read(cell@);
    }
    let s = trim(cell);
    let c = chars_of("c");
    let center = chars_of("center");
    proof {
        reveal_strlit("c");
        reveal_strlit("center");
        assert(ascii_lower("c"@) == "c"@);
        assert(ascii_lower("center"@) == "center"@);
    }
    if same_ignoring_case(&s, &c) || same_ignoring_case(&s, &center) {
        return Pan::Center;
    }
    if s.len() > 0 {
        let rest = part(&s, 1, s.len());
        assert(rest@ == s@.skip(1));
        let n = trim(&trim_end_of(&trim(&rest), '%'));
        if reads_as_float(&n) {
            if s[0] == 'L' || s[0] == 'l' {
                return Pan::Left(text_of(&n));
            }
            if s[0] == 'R' || s[0] == 'r' {
                return Pan::Right(text_of(&n));
            }
        }
    }
    Pan::Center
}

/// A hundredth, below which a pan counts as the centre.
pub const PAN_CENTER_BITS: u32 = 0x3c23_d70a;

/// The same to the other side.
pub const PAN_CENTER_LEFT_BITS: u32 = 0xbc23_d70a;

/// The pan of a position between left and right, of which `percent` is the
/// size in percent as it is written.
pub fn pan_of(position: Single, percent: String) -> (r: Pan)
    ensures
        r@ == if (Single { bits: 0xbc23_d70a }).lt(position) && position.lt(
            Single { bits: 0x3c23_d70a },
        ) {
            PanText::Center
        } else if position.lt(Single { bits: 0 }) {
            PanText::Left(percent@)
        } else {
            PanText::Right(percent@)
        },
{
    if position.above(Single { bits: PAN_CENTER_LEFT_BITS }) && position.below(
        Single { bits: PAN_CENTER_BITS },
    ) {
        Pan::Center
    } else if position.below(Single { bits: 0 }) {
        Pan::Left(percent)
    } else {
        Pan::Right(percent)
    }
}

/// The items of the list `key` in the frontmatter, from line `i` on.
pub open spec fn list_from(ls: Seq<Seq<char>>, key: Seq<char>, i: int, in_list: bool) -> Seq<Seq<char>>
    decreases ls.len() - i,
{
    if i >= ls.len() {
        seq![]
    } else {
        let t = trimmed(ls[i]);
        if t == "---"@ {
            seq![]
        } else if has_prefix(t, key + ":"@) {
            list_from(ls, key, i + 1, true)
        } else if !in_list {
            list_from(ls, key, i + 1, false)
        } else if has_prefix(t, "- "@) {
            seq![trimmed(t.skip(2))] + list_from(ls, key, i + 1, true)
        } else if has_text(t, ":"@) {
            seq![]
        } else {
            list_from(ls, key, i + 1, true)
        }
    }
}

/// The items of the list `key` in the frontmatter of a file. A frontmatter
/// stands between two lines `---`, of which the first begins the file.
pub open spec fn frontmatter_list(content: Seq<char>, key: Seq<char>) -> Seq<Seq<char>> {
    let ls = lines(content);
    if ls.len() > 0 && trimmed(ls[0]) == "---"@ {
        list_from(ls, key, 1, false)
    } else {
        seq![]
    }
}

/// The items of the list `key` in the frontmatter of a file.
pub fn parse_frontmatter_list(content: &str, key: &str) -> (r: Vec<String>)
    ensures
        strings(r@) == frontmatter_list(content@, key@),
{
    let mut r: Vec<String> = Vec::new();
    let chars = chars_of(content);
    let ls = split_lines(&chars);
    let ghost all = lines(content@);
    if ls.len() == 0 {
        return r;
    }
    assert(all[0] == ls@[0]@);
    if !is_text(&trim(&ls[0]), "---") {
        return r;
    }
    let mut head: String = key.to_owned();
    head.append(":");
    let mut in_list: bool = false;
    let mut i: usize = 1;
    assert(strings(r@) == Seq::<Seq<char>>::empty());
    assert(strings(r@) + list_from(all, key@, 1, false) == frontmatter_list(content@, key@));
    while i < ls.len()
        invariant
            1 <= i <= ls.len(),
            texts(ls@) == all,
            head@ == key@ + ":"@,
            strings(r@) + list_from(all, key@, i as int, in_list) == frontmatter_list(
                content@,
                key@,
            ),
        decreases ls.len() - i,
    {
        let t = trim(&ls[i]);
        proof {
            assert(all[i as int] == ls@[i as int]@);
            reveal_strlit("- ");
        }
        if is_text(&t, "---") {
            return r;
        }
        if starts_with(&t, head.as_str()) {
            in_list = true;
        } else if in_list {
            if starts_with(&t, "- ") {
                let item = trim(&part(&t, 2, t.len()));
                assert(item@ == trimmed(t@.skip(2)));
                let ghost had = r@;
                let item_text = text_of(&item);
                r.push(item_text);
                proof {
                    assert(strings(r@) == strings(had).push(item@));
                    let rest = list_from(all, key@, i + 1, true);
                    assert(strings(had).push(item@) + rest == strings(had) + (seq![item@] + rest));
                }
            } else if contains(&t, ":") {
                return r;
            }
        }
        i += 1;
    }
    r
}

/// What has been read so far of a preset.
pub struct Reading {
    pub name: Seq<char>,
    pub notes: Seq<char>,
    pub bands: Seq<Seq<char>>,
    pub tolerances: Seq<Seq<char>>,
    pub pans: Seq<PanText>,
    pub widths: Seq<Seq<char>>,
    pub mono_floor_hz: Seq<char>,
    pub has_bands: Seq<bool>,
    pub in_stereo_table: bool,
}

/// Nothing read yet.
pub open spec fn nothing_read() -> Reading {
    Reading {
        name: ""@,
        notes: ""@,
        bands: five("0.0"@),
        tolerances: default_tolerances(),
        pans: centred(),
        widths: five("100.0"@),
        mono_floor_hz: "0.0"@,
        has_bands: seq![false, false, false, false, false],
        in_stereo_table: false,
    }
}

/// The band that a lowercase label names.
pub open spec fn band_named(label: Seq<char>) -> Option<int> {
    if label == "sub"@ {
        Some(0)
    } else if label == "bass"@ {
        Some(1)
    } else if label == "mid"@ {
        Some(2)
    } else if label == "presence"@ || label == "high mid"@ || label == "high-mid"@ || label
        == "pres"@ {
        Some(3)
    } else if label == "air"@ || label == "high"@ {
        Some(4)
    } else {
        None
    }
}

/// Where `p` stands first in `s`.
pub open spec fn first_position(s: Seq<char>, p: Seq<char>) -> int {
    choose|i: int| first_at(s, p, i)
}

/// What follows the marker on a line, without emphasis marks.
pub open spec fn marked_text(t: Seq<char>, marker: Seq<char>) -> Seq<char> {
    trimmed(without(t.skip(first_position(t, marker) + marker.len()), "**"@))
}

/// `r` after a row of the stereo table.
pub open spec fn with_stereo_row(r: Reading, row: Seq<Seq<char>>) -> Reading {
    if row.len() >= 4 && !has_text(row[1], "Band"@) && !has_text(row[1], "---"@) {
        match band_named(lowercased(row[1])) {
            Some(b) => {
                let width = trim_end_char(row[3], '%');
                Reading {
                    pans: r.pans.update(b, pan_named(row[2])),
                    widths: if is_float(width) {
                        r.widths.update(b, width)
                    } else {
                        r.widths
                    },
                    ..r
                }
            },
            None => r,
        }
    } else {
        r
    }
}

/// `r` after a row of the balance table.
pub open spec fn with_balance_row(r: Reading, row: Seq<Seq<char>>) -> Reading {
    if row.len() >= 4 {
        match band_named(lowercased(row[1])) {
            Some(b) => {
                let level = is_float(row[3]);
                let tolerance = row.len() >= 5 && is_float(row[4]);
                Reading {
                    bands: if level {
                        r.bands.update(b, row[3])
                    } else {
                        r.bands
                    },
                    has_bands: if level {
                        r.has_bands.update(b, true)
                    } else {
                        r.has_bands
                    },
                    tolerances: if tolerance {
                        r.tolerances.update(b, row[4])
                    } else {
                        r.tolerances
                    },
                    ..r
                }
            },
            None => r,
        }
    } else {
        r
    }
}

/// `r` after what a line says by its marker, heading or row.
pub open spec fn with_marked(r: Reading, t: Seq<char>) -> Reading {
    if has_text(t, "**Preset Name:**"@) {
        Reading { name: marked_text(t, "**Preset Name:**"@), ..r }
    } else if has_text(t, "**Notizen:**"@) {
        Reading { notes: marked_text(t, "**Notizen:**"@), ..r }
    } else if has_text(t, "**Notes:**"@) {
        Reading { notes: marked_text(t, "**Notes:**"@), ..r }
    } else if has_text(t, "## Stereo Settings"@) || has_text(t, "## Stereo-Einstellungen"@) {
        Reading { in_stereo_table: true, ..r }
    } else if has_text(t, "## Mono Floor"@) {
        Reading { in_stereo_table: false, ..r }
    } else if has_prefix(t, "|"@) && r.in_stereo_table {
        with_stereo_row(r, trimmed_cells(t, '|'))
    } else if has_prefix(t, "|"@) {
        with_balance_row(r, trimmed_cells(t, '|'))
    } else {
        r
    }
}

/// Whether a line gives the mono floor: outside the tables and headings, it
/// holds a digit and begins with a number.
pub open spec fn is_floor_line(t: Seq<char>) -> bool {
    &&& exists|i: int| 0 <= i < t.len() && is_digit(#[trigger] t[i])
    &&& !has_prefix(t, "|"@)
    &&& !has_text(t, "#"@)
    &&& words(t).len() > 0
    &&& is_float(words(t)[0])
}

/// `r` after a line.
pub open spec fn with_line(r: Reading, line: Seq<char>) -> Reading {
    let t = trimmed(line);
    let r1 = with_marked(r, t);
    if !r1.in_stereo_table && is_floor_line(t) {
        Reading { mono_floor_hz: words(t)[0], ..r1 }
    } else {
        r1
    }
}

/// What a list of lines gives.
pub open spec fn read_lines(ls: Seq<Seq<char>>) -> Reading
    decreases ls.len(),
{
    if ls.len() == 0 {
        nothing_read()
    } else {
        with_line(read_lines(ls.drop_last()), ls.last())
    }
}

/// Whether every band has got a level.
pub open spec fn has_all_bands(r: Reading) -> bool {
    forall|i: int| 0 <= i < 5 ==> r.has_bands[i] == true
}

/// The preset that a file holds: its frontmatter must name the plugin
/// `equilibrium`, and every band must have a level.
pub open spec fn preset_of(content: Seq<char>, front: FrontmatterText) -> Option<ProfileText> {
    let r = read_lines(lines(content));
    if front.plugin == Some("equilibrium"@) && has_all_bands(r) {
        Some(
            ProfileText {
                name: if r.name.len() == 0 {
                    "Unnamed"@
                } else {
                    r.name
                },
                bands: r.bands,
                tolerances: r.tolerances,
                pans: r.pans,
                widths: r.widths,
                mono_floor_hz: r.mono_floor_hz,
                tags: frontmatter_list(content, "tags"@),
                version: match front.version {
                    Some(v) => match parsed_u32(v) {
                        Some(n) => n,
                        None => 1,
                    },
                    None => 1,
                },
                notes: r.notes,
                source: match front.source {
                    Some(s) => s,
                    None => "manual"@,
                },
            },
        )
    } else {
        None
    }
}

/// The fields of a preset while it is read.
struct Reader {
    name: String,
    notes: String,
    bands: Vec<String>,
    tolerances: Vec<String>,
    pans: Vec<Pan>,
    widths: Vec<String>,
    mono_floor_hz: String,
    has_bands: Vec<bool>,
    in_stereo_table: bool,
}

/// Replaces one text of a list.
fn put_text(v: &mut Vec<String>, i: usize, t: &Vec<char>)
    requires
        i < old(v).len(),
    ensures
        final(v).len() == old(v).len(),
        strings(final(v)@) == strings(old(v)@).update(i as int, t@),
{
    let ghost had = v@;
    let s = text_of(t);
    v.set(i, s);
    assert(strings(v@) == strings(had).update(i as int, t@));
}

/// The band that a lowercase label names.
fn read_band(label: &Vec<char>) -> (r: Option<usize>)
    ensures
        match r {
            Some(b) => b < 5 && band_named(label@) == Some(b as int),
            None => band_named(label@) is None,
        },
{
    if is_text(label, "sub") {
        Some(0)
    } else if is_text(label, "bass") {
        Some(1)
    } else if is_text(label, "mid") {
        Some(2)
    } else if is_text(label, "presence") || is_text(label, "high mid") || is_text(label, "high-mid")
        || is_text(label, "pres") {
        Some(3)
    } else if is_text(label, "air") || is_text(label, "high") {
        Some(4)
    } else {
        None
    }
}

/// What follows the marker on a line.
fn read_marked(t: &Vec<char>, marker: &str) -> (r: Option<String>)
    ensures
        match r {
            Some(s) => has_text(t@, marker@) && s@ == marked_text(t@, marker@),
            None => !has_text(t@, marker@),
        },
{
    match find(t, marker) {
        Some(i) => {
            let m = chars_of(marker);
            proof {
                let p = first_position(t@, marker@);
                assert(first_at(t@, marker@, i as int));
                assert(first_at(t@, marker@, p));
                if p < i {
                    assert(!occurs_at(t@, marker@, p));
                } else if i < p {
                    assert(!occurs_at(t@, marker@, i as int));
                }
                reveal_strlit("**");
            }
            let end: usize = t.len();
            let skip: usize = m.len();
            assert(i + skip <= end);
            let rest = part(t, i + skip, end);
            assert(rest@ == t@.skip(i + marker@.len()));
            Some(text_of(&trim(&remove_all(&rest, "**"))))
        },
        None => None,
    }
}

/// The mono floor that a line gives.
fn read_floor(t: &Vec<char>) -> (r: Option<String>)
    ensures
        match r {
            Some(s) => is_floor_line(t@) && s@ == words(t@)[0],
            None => !is_floor_line(t@),
        },
{
    let mut i: usize = 0;
    while i < t.len() && !digit(t[i])
        invariant
            i <= t.len(),
            forall|k: int| 0 <= k < i ==> !is_digit(#[trigger] t@[k]),
        decreases t.len() - i,
    {
        i += 1;
    }
    if i == t.len() {
        return None;
    }
    assert(is_digit(t@[i as int]));
    if starts_with(t, "|") || contains(t, "#") {
        return None;
    }
    let ws = split_words(t);
    if ws.len() == 0 {
        return None;
    }
    assert(texts(ws@)[0] == ws@[0]@);
    if reads_as_float(&ws[0]) {
        Some(text_of(&ws[0]))
    } else {
        None
    }
}

impl Reader {
    spec fn model(&self) -> Reading {
        Reading {
            name: self.name@,
            notes: self.notes@,
            bands: strings(self.bands@),
            tolerances: strings(self.tolerances@),
            pans: pan_texts(self.pans@),
            widths: strings(self.widths@),
            mono_floor_hz: self.mono_floor_hz@,
            has_bands: self.has_bands@,
            in_stereo_table: self.in_stereo_table,
        }
    }

    spec fn wf(&self) -> bool {
        &&& self.bands.len() == 5
        &&& self.tolerances.len() == 5
        &&& self.pans.len() == 5
        &&& self.widths.len() == 5
        &&& self.has_bands.len() == 5
    }

    fn new() -> (r: Reader)
        ensures
            r.wf(),
            r.model() == nothing_read(),
    {
        let r = Reader {
            name: "".to_owned(),
            notes: "".to_owned(),
            bands: make_five("0.0"),
            tolerances: make_tolerances(),
            pans: make_centred(),
            widths: make_five("100.0"),
            mono_floor_hz: "0.0".to_owned(),
            has_bands: vec![false, false, false, false, false],
            in_stereo_table: false,
        };
        proof {
            assert(strings(r.bands@).len() == r.bands@.len());
            assert(strings(r.tolerances@).len() == r.tolerances@.len());
            assert(pan_texts(r.pans@).len() == r.pans@.len());
            assert(strings(r.widths@).len() == r.widths@.len());
            assert(r.has_bands@ == nothing_read().has_bands);
        }
        r
    }

    /// Takes a row of the stereo table.
    fn take_stereo_row(&mut self, row: &Vec<Vec<char>>)
        requires
            old(self).wf(),
        ensures
            final(self).wf(),
            final(self).model() == with_stereo_row(old(self).model(), texts(row@)),
    {
        if row.len() < 4 {
            return;
        }
        assert(texts(row@)[1] == row@[1]@);
        assert(texts(row@)[2] == row@[2]@);
        assert(texts(row@)[3] == row@[3]@);
        if contains(&row[1], "Band") || contains(&row[1], "---") {
            return;
        }
        let label = lower(&row[1]);
        if let Some(b) = read_band(&label) {
            let pan = parse_pan_str(&row[2]);
            let ghost had = self.pans@;
            let ghost p = pan@;
            self.pans.set(b, pan);
            assert(pan_texts(self.pans@) == pan_texts(had).update(b as int, p));
            let width = trim_end_of(&row[3], '%');
            if reads_as_float(&width) {
                put_text(&mut self.widths, b, &width);
            }
        }
    }

    /// Takes a row of the balance table.
    fn take_balance_row(&mut self, row: &Vec<Vec<char>>)
        requires
            old(self).wf(),
        ensures
            final(self).wf(),
            final(self).model() == with_balance_row(old(self).model(), texts(row@)),
    {
        if row.len() < 4 {
            return;
        }
        assert(texts(row@)[1] == row@[1]@);
        assert(texts(row@)[3] == row@[3]@);
        let label = lower(&row[1]);
        if let Some(b) = read_band(&label) {
            if reads_as_float(&row[3]) {
                put_text(&mut self.bands, b, &row[3]);
                self.has_bands.set(b, true);
            }
            if row.len() >= 5 {
                assert(texts(row@)[4] == row@[4]@);
                if reads_as_float(&row[4]) {
                    put_text(&mut self.tolerances, b, &row[4]);
                }
            }
        }
    }

    /// Takes what a line says by its marker, heading or row.
    fn take_marked(&mut self, t: &Vec<char>)
        requires
            old(self).wf(),
        ensures
            final(self).wf(),
            final(self).model() == with_marked(old(self).model(), t@),
    {
        if let Some(name) = read_marked(t, "**Preset Name:**") {
            self.name = name;
        } else if let Some(notes) = read_marked(t, "**Notizen:**") {
            self.notes = notes;
        } else if let Some(notes) = read_marked(t, "**Notes:**") {
            self.notes = notes;
        } else if contains(t, "## Stereo Settings") || contains(t, "## Stereo-Einstellungen") {
            self.in_stereo_table = true;
        } else if contains(t, "## Mono Floor") {
            self.in_stereo_table = false;
        } else if starts_with(t, "|") {
            let row = split_trimmed(t, '|');
            if self.in_stereo_table {
                self.take_stereo_row(&row);
            } else {
                self.take_balance_row(&row);
            }
        }
    }

    /// Takes a line.
    fn take_line(&mut self, line: &Vec<char>)
        requires
            old(self).wf(),
        ensures
            final(self).wf(),
            final(self).model() == with_line(old(self).model(), line@),
    {
        let t = trim(line);
        self.take_marked(&t);
        if !self.in_stereo_table {
            if let Some(floor) = read_floor(&t) {
                self.mono_floor_hz = floor;
            }
        }
    }

    /// Whether every band has got a level.
    fn complete(&self) -> (r: bool)
        requires
            self.wf(),
        ensures
            r == has_all_bands(self.model()),
    {
        let mut i: usize = 0;
        while i < 5
            invariant
                self.wf(),
                i <= 5,
                forall|k: int| 0 <= k < i ==> self.has_bands@[k] == true,
            decreases 5 - i,
        {
            if !self.has_bands[i] {
                proof {
                    let m = self.model();
                    assert(m.has_bands[i as int] == false);
                }
                return false;
            }
            i += 1;
        }
        true
    }
}

/// What an optional preset holds.
pub open spec fn opt_profile(p: Option<Profile>) -> Option<ProfileText> {
    match p {
        Some(p) => Some(p@),
        None => None,
    }
}

/// Reads a preset file, given the fields of its frontmatter.
pub fn parse_preset_from_markdown(content: &str, front: &Frontmatter) -> (r: Option<Profile>)
    ensures
        opt_profile(r) == preset_of(content@, front@),
        r is Some <==> preset_of(content@, front@) is Some,
        r is Some ==> {
            let p = r->0;
            let said = preset_of(content@, front@)->0;
            &&& p.name@ == said.name
            &&& strings(p.bands@) == said.bands
            &&& strings(p.tolerances@) == said.tolerances
            &&& pan_texts(p.pans@) == said.pans
            &&& strings(p.widths@) == said.widths
            &&& p.mono_floor_hz@ == said.mono_floor_hz
            &&& strings(p.tags@) == said.tags
            &&& p.notes@ == said.notes
            &&& front.plugin is Some && front.plugin->0@ == "equilibrium"@
            &&& front.source is Some ==> p.source@ == front.source->0@
            &&& front.source is None ==> p.source@ == "manual"@
            &&& front.version is Some && parsed_u32(front.version->0@) is Some ==> Some(p.version)
                == parsed_u32(front.version->0@)
            &&& front.version is None || parsed_u32(front.version->0@) is None ==> p.version == 1
        },
{
    match &front.plugin {
        Some(p) => {
            if !is_text(&chars_of(p.as_str()), "equilibrium") {
                return None;
            }
        },
        None => {
            return None;
        },
    }
    let tags = parse_frontmatter_list(content, "tags");
    let version: u32 = match &front.version {
        Some(v) => match parse_u32(&chars_of(v.as_str())) {
            Some(n) => n,
            None => 1,
        },
        None => 1,
    };
    let source: String = match &front.source {
        Some(s) => s.clone(),
        None => "manual".to_owned(),
    };
    let chars = chars_of(content);
    let ls = split_lines(&chars);
    let ghost all = lines(content@);
    let mut reader = Reader::new();
    let mut i: usize = 0;
    assert(all.take(0) == Seq::<Seq<char>>::empty());
    while i < ls.len()
        invariant
            i <= ls.len(),
            texts(ls@) == all,
            reader.wf(),
            reader.model() == read_lines(all.take(i as int)),
        decreases ls.len() - i,
    {
        proof {
            assert(all[i as int] == ls@[i as int]@);
            assert(all.take(i + 1).drop_last() == all.take(i as int));
            assert(all.take(i + 1).last() == all[i as int]);
        }
        reader.take_line(&ls[i]);
        i += 1;
    }
    assert(all.take(i as int) == all);
    if !reader.complete() {
        return None;
    }
    let name: String = if reader.name.as_str().is_empty() {
        "Unnamed".to_owned()
    } else {
        reader.name
    };
    Some(
        Profile {
            name,
            bands: reader.bands,
            tolerances: reader.tolerances,
            pans: reader.pans,
            widths: reader.widths,
            mono_floor_hz: reader.mono_floor_hz,
            tags,
            version,
            notes: reader.notes,
            source,
        },
    )
}

// ─── Writing ─────────────────────────────────────────────────────────────────

/// How a pan is written.
pub open spec fn pan_text(p: PanText) -> Seq<char> {
    match p {
        PanText::Center => "C"@,
        PanText::Left(n) => "L "@ + n + "%"@,
        PanText::Right(n) => "R "@ + n + "%"@,
    }
}

/// How a pan is written.
pub fn format_pan_str(pan: &Pan) -> (r: String)
    ensures
        r@ == pan_text(pan@),
        *pan is Center ==> r@ == "C"@,
        *pan is Left ==> r@ == "L "@ + pan->Left_0@ + "%"@,
        *pan is Right ==> r@ == "R "@ + pan->Right_0@ + "%"@,
{
    match pan {
        Pan::Center => "C".to_owned(),
        Pan::Left(n) => {
            let mut s: String = "L ".to_owned();
            s.append(n.as_str());
            s.append("%");
            s
        },
        Pan::Right(n) => {
            let mut s: String = "R ".to_owned();
            s.append(n.as_str());
            s.append("%");
            s
        },
    }
}

/// The name and frequency cells of band `b` in the balance table.
pub open spec fn balance_head(b: int) -> Seq<char> {
    if b == 0 {
        "| Sub      | 0 - 80 Hz     | "@
    } else if b == 1 {
        "| Bass     | 80 - 300 Hz   | "@
    } else if b == 2 {
        "| Mid      | 300 - 2000 Hz | "@
    } else if b == 3 {
        "| Presence | 2k - 6 kHz    | "@
    } else {
        "| Air      | > 6 kHz       | "@
    }
}

/// The row of band `b` in the balance table.
pub open spec fn balance_row(b: int, level: Seq<char>, tolerance: Seq<char>) -> Seq<char> {
    balance_head(b) + level + " | "@ + tolerance + " |"@
}

/// The name cell of band `b` in the stereo table.
pub open spec fn stereo_head(b: int) -> Seq<char> {
    if b == 0 {
        "| Sub | "@
    } else if b == 1 {
        "| Bass | "@
    } else if b == 2 {
        "| Mid | "@
    } else if b == 3 {
        "| Presence | "@
    } else {
        "| Air | "@
    }
}

/// The row of band `b` in the stereo table.
pub open spec fn stereo_row(b: int, pan: Seq<char>, width: Seq<char>) -> Seq<char> {
    stereo_head(b) + pan + " | "@ + width + "% |"@
}

/// The lines before the rows of the balance table.
pub open spec fn balance_header() -> Seq<Seq<char>> {
    seq![
        "---"@,
        "plugin: equilibrium"@,
        "type: preset"@,
        "---"@,
        ""@,
        "> Warning: Do NOT modify column names or table structure. Plugin requires exact format for import. Only the NUMBERS may be changed."@,
        ""@,
        "## Spektrale Balance (Baender)"@,
        ""@,
        "| Band | Frequenzbereich | Relativer Level (dB) | Toleranz (dB) |"@,
        "|---|---|---|---|"@,
    ]
}

/// `ls` and then the rows of the first `n` bands of the balance table.
pub open spec fn with_balance_rows(ls: Seq<Seq<char>>, p: ProfileText, n: int) -> Seq<Seq<char>>
    decreases n,
{
    if n <= 0 {
        ls
    } else {
        with_balance_rows(ls, p, n - 1).push(
            balance_row(n - 1, p.bands[n - 1], p.tolerances[n - 1]),
        )
    }
}

/// `ls` and then the lines before the rows of the stereo table.
pub open spec fn with_stereo_header(ls: Seq<Seq<char>>) -> Seq<Seq<char>> {
    ls.push(""@).push("## Stereo Settings"@).push(""@).push("| Band | Pan | Width |"@).push(
        "|---|---|---|"@,
    )
}

/// `ls` and then the rows of the first `n` bands of the stereo table.
pub open spec fn with_stereo_rows(ls: Seq<Seq<char>>, p: ProfileText, n: int) -> Seq<Seq<char>>
    decreases n,
{
    if n <= 0 {
        ls
    } else {
        with_stereo_rows(ls, p, n - 1).push(
            stereo_row(n - 1, pan_text(p.pans[n - 1]), p.widths[n - 1]),
        )
    }
}

/// `ls` and then the lines of the mono floor.
pub open spec fn with_floor_lines(ls: Seq<Seq<char>>, floor: Seq<char>) -> Seq<Seq<char>> {
    ls.push(""@).push("## Mono Floor"@).push(""@).push(floor + " Hz"@)
}

/// The lines of the file for a preset.
pub open spec fn preset_lines(p: ProfileText) -> Seq<Seq<char>> {
    let balance = with_balance_rows(balance_header(), p, 5);
    let stereo = with_stereo_rows(with_stereo_header(balance), p, 5);
    with_floor_lines(stereo, p.mono_floor_hz)
}

/// The file for a preset.
pub open spec fn preset_text(p: ProfileText) -> Seq<char> {
    joined(preset_lines(p))
}

fn balance_start(b: usize) -> (r: &'static str)
    ensures
        r@ == balance_head(b as int),
{
    if b == 0 {
        "| Sub      | 0 - 80 Hz     | "
    } else if b == 1 {
        "| Bass     | 80 - 300 Hz   | "
    } else if b == 2 {
        "| Mid      | 300 - 2000 Hz | "
    } else if b == 3 {
        "| Presence | 2k - 6 kHz    | "
    } else {
        "| Air      | > 6 kHz       | "
    }
}

fn stereo_start(b: usize) -> (r: &'static str)
    ensures
        r@ == stereo_head(b as int),
{
    if b == 0 {
        "| Sub | "
    } else if b == 1 {
        "| Bass | "
    } else if b == 2 {
        "| Mid | "
    } else if b == 3 {
        "| Presence | "
    } else {
        "| Air | "
    }
}

/// The markdown file for a preset whose numbers are written as the file shows them.
pub fn export_preset_to_markdown(profile: &Profile) -> (r: String)
    requires
        profile.bands.len() == 5,
        profile.tolerances.len() == 5,
        profile.pans.len() == 5,
        profile.widths.len() == 5,
    ensures
        r@ == preset_text(profile@),
        r@ == joined(preset_lines(profile@)),
{
    let mut ls: Vec<String> = Vec::new();
    push_line(&mut ls, "---");
    push_line(&mut ls, "plugin: equilibrium");
    push_line(&mut ls, "type: preset");
    push_line(&mut ls, "---");
    push_line(&mut ls, "");
    push_line(
        &mut ls,
        "> Warning: Do NOT modify column names or table structure. Plugin requires exact format for import. Only the NUMBERS may be changed.",
    );
    push_line(&mut ls, "");
    push_line(&mut ls, "## Spektrale Balance (Baender)");
    push_line(&mut ls, "");
    push_line(&mut ls, "| Band | Frequenzbereich | Relativer Level (dB) | Toleranz (dB) |");
    push_line(&mut ls, "|---|---|---|---|");
    assert(strings(ls@) == balance_header());
    let mut b: usize = 0;
    while b < 5
        invariant
            b <= 5,
            profile.bands.len() == 5,
            profile.tolerances.len() == 5,
            strings(ls@) == with_balance_rows(balance_header(), profile@, b as int),
        decreases 5 - b,
    {
        let mut s: String = balance_start(b).to_owned();
        s.append(profile.bands[b].as_str());
        s.append(" | ");
        s.append(profile.tolerances[b].as_str());
        s.append(" |");
        push_line(&mut ls, s.as_str());
        b += 1;
    }
    push_line(&mut ls, "");
    push_line(&mut ls, "## Stereo Settings");
    push_line(&mut ls, "");
    push_line(&mut ls, "| Band | Pan | Width |");
    push_line(&mut ls, "|---|---|---|");
    let ghost head = with_stereo_header(with_balance_rows(balance_header(), profile@, 5));
    let mut b: usize = 0;
    while b < 5
        invariant
            b <= 5,
            profile.pans.len() == 5,
            profile.widths.len() == 5,
            strings(ls@) == with_stereo_rows(head, profile@, b as int),
        decreases 5 - b,
    {
        let mut s: String = stereo_start(b).to_owned();
        s.append(format_pan_str(&profile.pans[b]).as_str());
        s.append(" | ");
        s.append(profile.widths[b].as_str());
        s.append("% |");
        push_line(&mut ls, s.as_str());
        b += 1;
    }
    push_line(&mut ls, "");
    push_line(&mut ls, "## Mono Floor");
    push_line(&mut ls, "");
    let mut floor: String = profile.mono_floor_hz.clone();
    floor.append(" Hz");
    push_line(&mut ls, floor.as_str());
    join_lines(&ls)
}

// ─── What is written is read back ────────────────────────────────────────────

/// A text without stars and hashes holds no marker and no heading.
proof fn lemma_quiet(t: Seq<char>)
    requires
        forall|i: int| 0 <= i < t.len() ==> t[i] != '*' && t[i] != '#',
    ensures
        !has_text(t, "**Preset Name:**"@),
        !has_text(t, "**Notizen:**"@),
        !has_text(t, "**Notes:**"@),
        !has_text(t, "## Stereo Settings"@),
        !has_text(t, "## Stereo-Einstellungen"@),
        !has_text(t, "## Mono Floor"@),
        !has_text(t, "#"@),
{
    reveal_strlit("**Preset Name:**");
    reveal_strlit("**Notizen:**");
    reveal_strlit("**Notes:**");
    reveal_strlit("## Stereo Settings");
    reveal_strlit("## Stereo-Einstellungen");
    reveal_strlit("## Mono Floor");
    reveal_strlit("#");
    lemma_no_text(t, "**Preset Name:**"@);
    lemma_no_text(t, "**Notizen:**"@);
    lemma_no_text(t, "**Notes:**"@);
    lemma_no_text(t, "## Stereo Settings"@);
    lemma_no_text(t, "## Stereo-Einstellungen"@);
    lemma_no_text(t, "## Mono Floor"@);
    lemma_no_text(t, "#"@);
}

/// A line without digits that is neither marked nor a heading nor a row changes nothing.
proof fn lemma_idle_line(t: Seq<char>)
    requires
        is_clean(t),
        forall|i: int| 0 <= i < t.len() ==> t[i] != '*' && t[i] != '#' && !is_digit(#[trigger] t[i]),
        t.len() > 0 ==> t[0] != '|',
    ensures
        forall|r: Reading| #[trigger] with_line(r, t) == r,
{
    reveal_strlit("|");
    lemma_trim_clean(t);
    lemma_quiet(t);
    assert(!has_prefix(t, "|"@)) by {
        if has_prefix(t, "|"@) {
            assert(t.subrange(0, 1)[0] == t[0]);
        }
    }
    assert(!is_floor_line(t));
}

/// A row is not a floor line, and its markers are those of its cells.
proof fn lemma_row_line(t: Seq<char>)
    requires
        t.len() > 0,
        t[0] == '|',
        t.last() == '|',
        forall|i: int| 0 <= i < t.len() ==> t[i] != '*' && t[i] != '#',
    ensures
        forall|r: Reading|
            #[trigger] with_line(r, t) == if r.in_stereo_table {
                with_stereo_row(r, trimmed_cells(t, '|'))
            } else {
                with_balance_row(r, trimmed_cells(t, '|'))
            },
{
    reveal_strlit("|");
    lemma_trim_clean(t);
    lemma_quiet(t);
    assert(t.subrange(0, 1) == "|"@);
    assert(has_prefix(t, "|"@));
}

/// A row whose label names no band changes nothing.
proof fn lemma_unknown_row(t: Seq<char>, label: Seq<char>, rest: Seq<char>)
    requires
        t == seq!['|'] + label + seq!['|'] + rest,
        rest.len() > 0,
        rest.last() == '|',
        forall|i: int| 0 <= i < t.len() ==> t[i] != '*' && t[i] != '#',
        forall|i: int| 0 <= i < label.len() ==> label[i] != '|',
        band_named(lowercased(trimmed(label))) is None,
    ensures
        forall|r: Reading| #[trigger] with_line(r, t) == r,
{
    let none = Seq::<char>::empty();
    let tail = label + seq!['|'] + rest;
    assert(t == none + seq!['|'] + tail);
    lemma_first_cell(none, tail, '|');
    lemma_first_cell(label, rest, '|');
    assert(cells(t, '|')[1] == label);
    assert(t.last() == rest.last());
    lemma_row_line(t);
}

/// The name of band `b`.
spec fn band_name(b: int) -> Seq<char> {
    if b == 0 {
        "Sub"@
    } else if b == 1 {
        "Bass"@
    } else if b == 2 {
        "Mid"@
    } else if b == 3 {
        "Presence"@
    } else {
        "Air"@
    }
}

/// The name of a band is read as the band.
proof fn lemma_band_name(b: int)
    requires
        0 <= b < 5,
    ensures
        is_clean(band_name(b)),
        band_name(b).len() > 0,
        forall|i: int|
            0 <= i < band_name(b).len() ==> band_name(b)[i] != '|' && band_name(b)[i] != '*' && band_name(
                b,
            )[i] != '#' && band_name(b)[i] != '\n',
        band_named(lowercased(band_name(b))) == Some(b),
        !has_text(band_name(b), "Band"@),
        !has_text(band_name(b), "---"@),
{
    reveal_strlit("Sub");
    reveal_strlit("Bass");
    reveal_strlit("Mid");
    reveal_strlit("Presence");
    reveal_strlit("Air");
    reveal_strlit("sub");
    reveal_strlit("bass");
    reveal_strlit("mid");
    reveal_strlit("presence");
    reveal_strlit("high mid");
    reveal_strlit("high-mid");
    reveal_strlit("pres");
    reveal_strlit("air");
    reveal_strlit("high");
    reveal_strlit("Band");
    reveal_strlit("---");
    let n = band_name(b);
    assert(is_ascii_text(n));
    assert(lowercased(n) == ascii_lower(n));
    lemma_no_text(n, "---"@);
    if b == 0 {
        assert(ascii_lower(n) == "sub"@);
        lemma_no_text(n, "Band"@);
    } else if b == 1 {
        assert(ascii_lower(n) == "bass"@);
        assert("bass"@[0] == 'b' && "sub"@[0] == 's');
        if has_text(n, "Band"@) {
            let i = choose|i: int| occurs_at(n, "Band"@, i);
            assert(n.subrange(i, i + 4)[2] == 's');
        }
    } else if b == 2 {
        assert(ascii_lower(n) == "mid"@);
        assert("mid"@[0] == 'm' && "sub"@[0] == 's' && "bass"@[0] == 'b');
        lemma_no_text(n, "Band"@);
    } else if b == 3 {
        assert(ascii_lower(n) == "presence"@);
        assert("presence"@.len() == 8 && "sub"@.len() == 3 && "bass"@.len() == 4 && "mid"@.len() == 3);
        lemma_no_text(n, "Band"@);
    } else {
        assert(ascii_lower(n) == "air"@);
        assert("air"@[0] == 'a' && "sub"@[0] == 's' && "bass"@[0] == 'b' && "mid"@[0] == 'm');
        assert("presence"@.len() == 8 && "high mid"@.len() == 8 && "high-mid"@.len() == 8
            && "pres"@.len() == 4);
        lemma_no_text(n, "Band"@);
    }
}

/// A number is clean and holds none of the marks of a table.
proof fn lemma_number_cell(s: Seq<char>)
    requires
        is_float(s),
    ensures
        s.len() > 0,
        is_clean(s),
        forall|i: int| 0 <= i < s.len() ==> is_number_char(s[i]) && !is_white(#[trigger] s[i]),
{
    lemma_number_chars(s);
    assert(is_number_char(s[0]) && is_number_char(s.last()));
}

/// The frequency cell of band `b` in the balance table.
spec fn range_cell(b: int) -> Seq<char> {
    if b == 0 {
        " 0 - 80 Hz     "@
    } else if b == 1 {
        " 80 - 300 Hz   "@
    } else if b == 2 {
        " 300 - 2000 Hz "@
    } else if b == 3 {
        " 2k - 6 kHz    "@
    } else {
        " > 6 kHz       "@
    }
}

/// The spaces after the name of band `b` in the balance table.
spec fn name_fill(b: int) -> Seq<char> {
    if b == 0 {
        "      "@
    } else if b == 1 {
        "     "@
    } else if b == 2 {
        "      "@
    } else if b == 3 {
        " "@
    } else {
        "      "@
    }
}

/// The start of a row of the balance table is two cells.
proof fn lemma_balance_head(b: int)
    requires
        0 <= b < 5,
    ensures
        balance_head(b) == seq!['|', ' '] + band_name(b) + name_fill(b) + seq!['|'] + range_cell(b)
            + seq!['|', ' '],
        is_blank(name_fill(b)),
        forall|i: int| 0 <= i < name_fill(b).len() ==> name_fill(b)[i] == ' ',
        forall|i: int|
            0 <= i < range_cell(b).len() ==> range_cell(b)[i] != '|' && range_cell(b)[i] != '*'
                && range_cell(b)[i] != '#' && range_cell(b)[i] != '\n',
{
    reveal_strlit("Sub");
    reveal_strlit("Bass");
    reveal_strlit("Mid");
    reveal_strlit("Presence");
    reveal_strlit("Air");
    reveal_strlit("      ");
    reveal_strlit("     ");
    reveal_strlit(" ");
    if b == 0 {
        reveal_strlit("| Sub      | 0 - 80 Hz     | ");
        reveal_strlit(" 0 - 80 Hz     ");
    } else if b == 1 {
        reveal_strlit("| Bass     | 80 - 300 Hz   | ");
        reveal_strlit(" 80 - 300 Hz   ");
    } else if b == 2 {
        reveal_strlit("| Mid      | 300 - 2000 Hz | ");
        reveal_strlit(" 300 - 2000 Hz ");
    } else if b == 3 {
        reveal_strlit("| Presence | 2k - 6 kHz    | ");
        reveal_strlit(" 2k - 6 kHz    ");
    } else {
        reveal_strlit("| Air      | > 6 kHz       | ");
        reveal_strlit(" > 6 kHz       ");
    }
    assert(balance_head(b) == seq!['|', ' '] + band_name(b) + name_fill(b) + seq!['|'] + range_cell(b)
        + seq!['|', ' ']);
}

/// The cells of a row of the balance table.
proof fn lemma_balance_cells(b: int, level: Seq<char>, tolerance: Seq<char>)
    requires
        0 <= b < 5,
        is_float(level),
        is_float(tolerance),
    ensures
        ({
            let row = trimmed_cells(balance_row(b, level, tolerance), '|');
            &&& row.len() >= 5
            &&& row[1] == band_name(b)
            &&& row[3] == level
            &&& row[4] == tolerance
        }),
{
    reveal_strlit(" | ");
    reveal_strlit(" |");
    lemma_number_cell(level);
    lemma_number_cell(tolerance);
    lemma_band_name(b);
    lemma_balance_head(b);
    let t = balance_row(b, level, tolerance);
    let none = Seq::<char>::empty();
    let sp = seq![' '];
    let bar = seq!['|'];
    let c1 = sp + band_name(b) + name_fill(b);
    let c2 = range_cell(b);
    let c3 = sp + level + sp;
    let c4 = sp + tolerance + sp;
    let t4 = c4 + bar + none;
    let t3 = c3 + bar + t4;
    let t2 = c2 + bar + t3;
    let t1 = c1 + bar + t2;
    assert(t == none + bar + t1);
    lemma_first_cell(none, t1, '|');
    lemma_first_cell(c1, t2, '|');
    lemma_first_cell(c2, t3, '|');
    lemma_first_cell(c3, t4, '|');
    lemma_first_cell(c4, none, '|');
    lemma_some_cell(none, '|');
    let c = cells(t, '|');
    assert(c[1] == c1 && c[3] == c3 && c[4] == c4);
    lemma_trim(sp, band_name(b), name_fill(b));
    lemma_trim(sp, level, sp);
    lemma_trim(sp, tolerance, sp);
}

/// The characters of a row of the balance table.
proof fn lemma_balance_chars(b: int, level: Seq<char>, tolerance: Seq<char>)
    requires
        0 <= b < 5,
        is_float(level),
        is_float(tolerance),
    ensures
        balance_row(b, level, tolerance).len() > 0,
        balance_row(b, level, tolerance)[0] == '|',
        balance_row(b, level, tolerance).last() == '|',
        forall|i: int|
            0 <= i < balance_row(b, level, tolerance).len() ==> {
                let c = #[trigger] balance_row(b, level, tolerance)[i];
                c != '*' && c != '#' && c != '\n'
            },
{
    reveal_strlit(" | ");
    reveal_strlit(" |");
    lemma_number_cell(level);
    lemma_number_cell(tolerance);
    lemma_band_name(b);
    lemma_balance_head(b);
    let t = balance_row(b, level, tolerance);
    let h = balance_head(b).len() as int;
    assert(balance_head(b)[0] == '|');
    assert(t[0] == balance_head(b)[0]);
    assert forall|i: int| 0 <= i < h implies {
        let c = #[trigger] balance_head(b)[i];
        c != '*' && c != '#' && c != '\n'
    } by {
        let n = 2 + band_name(b).len();
        let f = n + name_fill(b).len();
        if 2 <= i < n {
            assert(balance_head(b)[i] == band_name(b)[i - 2]);
        } else if n <= i < f {
            assert(balance_head(b)[i] == name_fill(b)[i - n]);
        } else if f < i < f + 1 + range_cell(b).len() {
            assert(balance_head(b)[i] == range_cell(b)[i - f - 1]);
        }
    }
    assert forall|i: int| 0 <= i < t.len() implies {
        let c = #[trigger] t[i];
        c != '*' && c != '#' && c != '\n'
    } by {
        let k = h + level.len() + 3;
        if i < h {
            assert(t[i] == balance_head(b)[i]);
        } else if i < h + level.len() {
            assert(t[i] == level[i - h]);
        } else if k <= i < k + tolerance.len() {
            assert(t[i] == tolerance[i - k]);
        }
    }
}

/// A row of the balance table is read as the level and tolerance of its band.
proof fn lemma_balance_row(b: int, level: Seq<char>, tolerance: Seq<char>)
    requires
        0 <= b < 5,
        is_float(level),
        is_float(tolerance),
    ensures
        is_line(balance_row(b, level, tolerance)),
        forall|r: Reading|
            !r.in_stereo_table ==> #[trigger] with_line(r, balance_row(b, level, tolerance)) == (Reading {
                bands: r.bands.update(b, level),
                has_bands: r.has_bands.update(b, true),
                tolerances: r.tolerances.update(b, tolerance),
                ..r
            }),
{
    lemma_balance_cells(b, level, tolerance);
    lemma_balance_chars(b, level, tolerance);
    lemma_band_name(b);
    lemma_row_line(balance_row(b, level, tolerance));
}

/// Taking the percent signs off a number that one follows gives the number.
proof fn lemma_percent(n: Seq<char>)
    requires
        is_float(n),
    ensures
        trim_end_char(n + seq!['%'], '%') == n,
{
    lemma_number_cell(n);
    let s = n + seq!['%'];
    assert(s.last() == '%');
    assert(s.drop_last() == n);
    assert(is_number_char(n.last()));
    assert(trim_end_char(n, '%') == n);
}

/// A pan that is written is clean, holds no mark of a table, and is read back.
proof fn lemma_pan_read(p: PanText)
    requires
        is_pan(p),
    ensures
        pan_text(p).len() > 0,
        is_clean(pan_text(p)),
        forall|i: int|
            0 <= i < pan_text(p).len() ==> {
                let c = #[trigger] pan_text(p)[i];
                c != '|' && c != '*' && c != '#' && c != '\n'
            },
        pan_named(pan_text(p)) == p,
{
    reveal_strlit("C");
    reveal_strlit("L ");
    reveal_strlit("R ");
    reveal_strlit("%");
    reveal_strlit("c");
    reveal_strlit("center");
    let s = pan_text(p);
    match p {
        PanText::Center => {
            lemma_trim_clean(s);
            assert(ascii_lower(s) == "c"@);
        },
        PanText::Left(n) => {
            assert(s == seq!['L', ' '] + n + seq!['%']);
            lemma_pan_side(s, 'L', n);
        },
        PanText::Right(n) => {
            assert(s == seq!['R', ' '] + n + seq!['%']);
            lemma_pan_side(s, 'R', n);
        },
    }
}

proof fn lemma_pan_side(s: Seq<char>, side: char, n: Seq<char>)
    requires
        side == 'L' || side == 'R',
        is_float(n),
        s == seq![side, ' '] + n + seq!['%'],
    ensures
        is_clean(s),
        forall|i: int|
            0 <= i < s.len() ==> {
                let c = #[trigger] s[i];
                c != '|' && c != '*' && c != '#' && c != '\n'
            },
        percent_after(s) == n,
        trimmed(s) == s,
        ascii_lower(s) != "c"@,
        ascii_lower(s) != "center"@,
        s[0] == side,
{
    reveal_strlit("c");
    reveal_strlit("center");
    lemma_number_cell(n);
    assert(s[0] == side && s.last() == '%');
    lemma_trim_clean(s);
    assert forall|i: int| 0 <= i < s.len() implies {
        let c = #[trigger] s[i];
        c != '|' && c != '*' && c != '#' && c != '\n'
    } by {
        if 2 <= i < 2 + n.len() {
            assert(s[i] == n[i - 2]);
        }
    }
    let u = n + seq!['%'];
    assert(s.skip(1) == seq![' '] + u + Seq::<char>::empty());
    assert(u[0] == n[0] && u.last() == '%');
    lemma_trim(seq![' '], u, Seq::<char>::empty());
    lemma_percent(n);
    lemma_trim_clean(n);
    assert(ascii_lower(s)[0] != 'c');
}

/// The start of a row of the stereo table is a cell.
proof fn lemma_stereo_head(b: int)
    requires
        0 <= b < 5,
    ensures
        stereo_head(b) == seq!['|', ' '] + band_name(b) + seq![' ', '|', ' '],
{
    reveal_strlit("Sub");
    reveal_strlit("Bass");
    reveal_strlit("Mid");
    reveal_strlit("Presence");
    reveal_strlit("Air");
    reveal_strlit("| Sub | ");
    reveal_strlit("| Bass | ");
    reveal_strlit("| Mid | ");
    reveal_strlit("| Presence | ");
    reveal_strlit("| Air | ");
    assert(stereo_head(b) == seq!['|', ' '] + band_name(b) + seq![' ', '|', ' ']);
}

/// A row of the stereo table is read as the pan and width of its band.
proof fn lemma_stereo_row(b: int, pan: PanText, width: Seq<char>)
    requires
        0 <= b < 5,
        is_pan(pan),
        is_float(width),
    ensures
        is_line(stereo_row(b, pan_text(pan), width)),
        forall|r: Reading|
            r.in_stereo_table ==> #[trigger] with_line(r, stereo_row(b, pan_text(pan), width)) == (Reading {
                pans: r.pans.update(b, pan),
                widths: r.widths.update(b, width),
                ..r
            }),
{
    reveal_strlit(" | ");
    reveal_strlit("% |");
    lemma_number_cell(width);
    lemma_pan_read(pan);
    lemma_band_name(b);
    lemma_stereo_head(b);
    let cell = pan_text(pan);
    let t = stereo_row(b, cell, width);
    let none = Seq::<char>::empty();
    let sp = seq![' '];
    let bar = seq!['|'];
    let w = width + seq!['%'];
    let c1 = sp + band_name(b) + sp;
    let c2 = sp + cell + sp;
    let c3 = sp + w + sp;
    let t3 = c3 + bar + none;
    let t2 = c2 + bar + t3;
    let t1 = c1 + bar + t2;
    assert(t == none + bar + t1);
    lemma_first_cell(none, t1, '|');
    lemma_first_cell(c1, t2, '|');
    lemma_first_cell(c2, t3, '|');
    assert forall|i: int| 0 <= i < c3.len() implies c3[i] != '|' by {
        if 1 <= i < 1 + width.len() {
            assert(c3[i] == width[i - 1]);
        }
    }
    lemma_first_cell(c3, none, '|');
    lemma_some_cell(none, '|');
    let c = cells(t, '|');
    assert(c[1] == c1 && c[2] == c2 && c[3] == c3);
    lemma_trim(sp, band_name(b), sp);
    lemma_trim(sp, cell, sp);
    assert(w[0] == width[0] && w.last() == '%');
    lemma_trim(sp, w, sp);
    lemma_percent(width);
    assert forall|i: int| 0 <= i < t.len() implies t[i] != '*' && t[i] != '#' && t[i] != '\n' by {
        let h = stereo_head(b).len() as int;
        let k = h + cell.len() + 3;
        if i < h {
            assert(t[i] == stereo_head(b)[i]);
        } else if i < h + cell.len() {
            assert(t[i] == cell[i - h]);
        } else if k <= i < k + width.len() {
            assert(t[i] == width[i - k]);
        }
    }
    assert(t[0] == '|' && t.last() == '|');
    lemma_row_line(t);
}

/// The lines before the rows of the balance table say nothing.
proof fn lemma_balance_header()
    ensures
        read_lines(balance_header()) == nothing_read(),
        forall|i: int| 0 <= i < balance_header().len() ==> is_line(#[trigger] balance_header()[i]),
{
    lemma_plain_lines();
    lemma_warning_line();
    lemma_balance_heading();
    lemma_heading_rows();
    let h = balance_header();
    let r = nothing_read();
    assert(h.take(0).len() == 0);
    assert(read_lines(h.take(0)) == r);
    assert(h.take(1).drop_last() == h.take(0) && h.take(1).last() == h[0]);
    assert(read_lines(h.take(1)) == r);
    assert(h.take(2).drop_last() == h.take(1) && h.take(2).last() == h[1]);
    assert(read_lines(h.take(2)) == r);
    assert(h.take(3).drop_last() == h.take(2) && h.take(3).last() == h[2]);
    assert(read_lines(h.take(3)) == r);
    assert(h.take(4).drop_last() == h.take(3) && h.take(4).last() == h[3]);
    assert(read_lines(h.take(4)) == r);
    assert(h.take(5).drop_last() == h.take(4) && h.take(5).last() == h[4]);
    assert(read_lines(h.take(5)) == r);
    assert(h.take(6).drop_last() == h.take(5) && h.take(6).last() == h[5]);
    assert(read_lines(h.take(6)) == r);
    assert(h.take(7).drop_last() == h.take(6) && h.take(7).last() == h[6]);
    assert(read_lines(h.take(7)) == r);
    assert(h.take(8).drop_last() == h.take(7) && h.take(8).last() == h[7]);
    assert(read_lines(h.take(8)) == r);
    assert(h.take(9).drop_last() == h.take(8) && h.take(9).last() == h[8]);
    assert(read_lines(h.take(9)) == r);
    assert(h.take(10).drop_last() == h.take(9) && h.take(10).last() == h[9]);
    assert(read_lines(h.take(10)) == r);
    assert(h.take(11).drop_last() == h.take(10) && h.take(11).last() == h[10]);
    assert(h.take(11) == h);
}

proof fn lemma_plain_lines()
    ensures
        is_line("---"@),
        is_line("plugin: equilibrium"@),
        is_line("type: preset"@),
        is_line(""@),
        forall|r: Reading| #[trigger] with_line(r, "---"@) == r,
        forall|r: Reading| #[trigger] with_line(r, "plugin: equilibrium"@) == r,
        forall|r: Reading| #[trigger] with_line(r, "type: preset"@) == r,
        forall|r: Reading| #[trigger] with_line(r, ""@) == r,
{
    reveal_strlit("---");
    reveal_strlit("plugin: equilibrium");
    reveal_strlit("type: preset");
    reveal_strlit("");
    lemma_idle_line("---"@);
    lemma_idle_line("plugin: equilibrium"@);
    lemma_idle_line("type: preset"@);
    lemma_idle_line(""@);
}

proof fn lemma_warning_line()
    ensures
        is_line(
            "> Warning: Do NOT modify column names or table structure. Plugin requires exact format for import. Only the NUMBERS may be changed."@,
        ),
        forall|r: Reading|
            #[trigger] with_line(
                r,
                "> Warning: Do NOT modify column names or table structure. Plugin requires exact format for import. Only the NUMBERS may be changed."@,
            ) == r,
{
    reveal_strlit(
        "> Warning: Do NOT modify column names or table structure. Plugin requires exact format for import. Only the NUMBERS may be changed.",
    );
    lemma_idle_line(
        "> Warning: Do NOT modify column names or table structure. Plugin requires exact format for import. Only the NUMBERS may be changed."@,
    );
}

/// A heading whose text goes on otherwise than `p` does not hold it.
proof fn lemma_other_heading(t: Seq<char>, p: Seq<char>, k: int)
    requires
        2 < k < p.len(),
        k < t.len(),
        t[0] == '#',
        t[1] == '#',
        forall|i: int| 2 <= i < t.len() ==> t[i] != '#',
        p[0] == '#',
        p[1] == '#',
        t[k] != p[k],
    ensures
        !has_text(t, p),
{
    if has_text(t, p) {
        let i = choose|i: int| occurs_at(t, p, i);
        assert(t.subrange(i, i + p.len())[0] == t[i]);
        assert(t.subrange(i, i + p.len())[1] == t[i + 1]);
        assert(t.subrange(i, i + p.len())[k] == t[i + k]);
    }
}

proof fn lemma_balance_heading()
    ensures
        is_line("## Spektrale Balance (Baender)"@),
        forall|r: Reading| #[trigger] with_line(r, "## Spektrale Balance (Baender)"@) == r,
{
    reveal_strlit("## Spektrale Balance (Baender)");
    reveal_strlit("## Stereo Settings");
    reveal_strlit("## Stereo-Einstellungen");
    reveal_strlit("## Mono Floor");
    reveal_strlit("|");
    let t = "## Spektrale Balance (Baender)"@;
    lemma_heading_line(t);
    lemma_other_heading(t, "## Stereo Settings"@, 4);
    lemma_other_heading(t, "## Stereo-Einstellungen"@, 4);
    lemma_other_heading(t, "## Mono Floor"@, 3);
}

/// A heading is neither a marked line, nor a row, nor a floor line.
proof fn lemma_heading_line(t: Seq<char>)
    requires
        t.len() > 0,
        t[0] == '#',
        is_clean(t),
        forall|i: int| 0 <= i < t.len() ==> t[i] != '*',
    ensures
        trimmed(t) == t,
        !has_text(t, "**Preset Name:**"@),
        !has_text(t, "**Notizen:**"@),
        !has_text(t, "**Notes:**"@),
        !has_prefix(t, "|"@),
        !is_floor_line(t),
{
    reveal_strlit("**Preset Name:**");
    reveal_strlit("**Notizen:**");
    reveal_strlit("**Notes:**");
    reveal_strlit("|");
    reveal_strlit("#");
    lemma_trim_clean(t);
    lemma_no_text(t, "**Preset Name:**"@);
    lemma_no_text(t, "**Notizen:**"@);
    lemma_no_text(t, "**Notes:**"@);
    assert(t.subrange(0, 1)[0] == '#');
    assert(t.subrange(0, 1) == "#"@);
    assert(occurs_at(t, "#"@, 0));
}

proof fn lemma_section_headings()
    ensures
        is_line("## Stereo Settings"@),
        is_line("## Mono Floor"@),
        forall|r: Reading|
            #[trigger] with_line(r, "## Stereo Settings"@) == (Reading { in_stereo_table: true, ..r }),
        forall|r: Reading|
            #[trigger] with_line(r, "## Mono Floor"@) == (Reading { in_stereo_table: false, ..r }),
{
    reveal_strlit("## Stereo Settings");
    reveal_strlit("## Stereo-Einstellungen");
    reveal_strlit("## Mono Floor");
    let s = "## Stereo Settings"@;
    let m = "## Mono Floor"@;
    lemma_heading_line(s);
    lemma_heading_line(m);
    assert(s.subrange(0, s.len() as int) == s);
    assert(occurs_at(s, s, 0));
    assert(m.subrange(0, m.len() as int) == m);
    assert(occurs_at(m, m, 0));
    lemma_other_heading(m, "## Stereo Settings"@, 3);
    lemma_other_heading(m, "## Stereo-Einstellungen"@, 3);
}

proof fn lemma_heading_rows()
    ensures
        is_line("| Band | Frequenzbereich | Relativer Level (dB) | Toleranz (dB) |"@),
        is_line("|---|---|---|---|"@),
        is_line("| Band | Pan | Width |"@),
        is_line("|---|---|---|"@),
        forall|r: Reading|
            #[trigger] with_line(
                r,
                "| Band | Frequenzbereich | Relativer Level (dB) | Toleranz (dB) |"@,
            ) == r,
        forall|r: Reading| #[trigger] with_line(r, "|---|---|---|---|"@) == r,
        forall|r: Reading| #[trigger] with_line(r, "| Band | Pan | Width |"@) == r,
        forall|r: Reading| #[trigger] with_line(r, "|---|---|---|"@) == r,
{
    reveal_strlit("| Band | Frequenzbereich | Relativer Level (dB) | Toleranz (dB) |");
    reveal_strlit("|---|---|---|---|");
    reveal_strlit("| Band | Pan | Width |");
    reveal_strlit("|---|---|---|");
    lemma_no_band_names();
    let band = seq![' ', 'B', 'a', 'n', 'd', ' '];
    let dash = seq!['-', '-', '-'];
    let t1 = "| Band | Frequenzbereich | Relativer Level (dB) | Toleranz (dB) |"@;
    let t2 = "|---|---|---|---|"@;
    let t3 = "| Band | Pan | Width |"@;
    let t4 = "|---|---|---|"@;
    assert(t1 == seq!['|'] + band + seq!['|'] + t1.skip(8));
    assert(t2 == seq!['|'] + dash + seq!['|'] + t2.skip(5));
    assert(t3 == seq!['|'] + band + seq!['|'] + t3.skip(8));
    assert(t4 == seq!['|'] + dash + seq!['|'] + t4.skip(5));
    lemma_unknown_row(t1, band, t1.skip(8));
    lemma_unknown_row(t2, dash, t2.skip(5));
    lemma_unknown_row(t3, band, t3.skip(8));
    lemma_unknown_row(t4, dash, t4.skip(5));
}

/// The label cells of the heading rows name no band.
proof fn lemma_no_band_names()
    ensures
        band_named(lowercased(trimmed(seq![' ', 'B', 'a', 'n', 'd', ' ']))) is None,
        band_named(lowercased(trimmed(seq!['-', '-', '-']))) is None,
{
    reveal_strlit("sub");
    reveal_strlit("bass");
    reveal_strlit("mid");
    reveal_strlit("presence");
    reveal_strlit("high mid");
    reveal_strlit("high-mid");
    reveal_strlit("pres");
    reveal_strlit("air");
    reveal_strlit("high");
    let band = seq!['B', 'a', 'n', 'd'];
    let dash = seq!['-', '-', '-'];
    lemma_trim(seq![' '], band, seq![' ']);
    assert(seq![' '] + band + seq![' '] == seq![' ', 'B', 'a', 'n', 'd', ' ']);
    lemma_trim_clean(dash);
    assert(is_ascii_text(band) && is_ascii_text(dash));
    assert(ascii_lower(band) == seq!['b', 'a', 'n', 'd']);
    assert(ascii_lower(dash) == dash);
    assert("bass"@[2] == 's' && "pres"@[0] == 'p' && "high"@[0] == 'h');
    assert("sub"@[0] == 's' && "mid"@[0] == 'm' && "air"@[0] == 'a');
}

/// Whether a number is written with a digit, as every finite one is.
pub open spec fn has_digit(s: Seq<char>) -> bool {
    exists|i: int| 0 <= i < s.len() && is_digit(#[trigger] s[i])
}

/// The line of the mono floor is read as the mono floor.
proof fn lemma_floor_line(floor: Seq<char>)
    requires
        is_float(floor),
        has_digit(floor),
    ensures
        is_line(floor + " Hz"@),
        forall|r: Reading|
            !r.in_stereo_table ==> #[trigger] with_line(r, floor + " Hz"@) == (Reading {
                mono_floor_hz: floor,
                ..r
            }),
{
    reveal_strlit(" Hz");
    reveal_strlit("|");
    lemma_number_cell(floor);
    let t = floor + " Hz"@;
    assert(t[0] == floor[0] && t.last() == 'z');
    assert forall|i: int| 0 <= i < t.len() implies t[i] != '*' && t[i] != '#' && t[i] != '\n' by {
        if i < floor.len() {
            assert(t[i] == floor[i]);
        }
    }
    lemma_trim_clean(t);
    lemma_quiet(t);
    assert(t.subrange(0, 1)[0] == floor[0]);
    assert(is_number_char(floor[0]));
    assert(!has_prefix(t, "|"@));
    let d = choose|i: int| 0 <= i < floor.len() && is_digit(#[trigger] floor[i]);
    assert(is_digit(t[d]));
    assert forall|i: int| 0 <= i < floor.len() implies !is_white(t[i]) by {
        assert(t[i] == floor[i]);
    }
    lemma_word_len_is(t, floor.len());
    assert(t.take(floor.len() as int) == floor);
    assert(words(t)[0] == floor);
    assert(is_floor_line(t));
}

/// The rows of the first `n` bands of the balance table are read as those bands.
proof fn lemma_balance_read(p: ProfileText, n: int)
    requires
        p.wf(),
        0 <= n <= 5,
    ensures
        ({
            let ls = with_balance_rows(balance_header(), p, n);
            let r = read_lines(ls);
            &&& r == (Reading {
                bands: r.bands,
                tolerances: r.tolerances,
                has_bands: r.has_bands,
                ..nothing_read()
            })
            &&& r.bands.len() == 5
            &&& r.tolerances.len() == 5
            &&& r.has_bands.len() == 5
            &&& forall|k: int| 0 <= k < n ==> r.bands[k] == p.bands[k]
            &&& forall|k: int| 0 <= k < n ==> r.tolerances[k] == p.tolerances[k]
            &&& forall|k: int| 0 <= k < n ==> r.has_bands[k] == true
            &&& forall|k: int| 0 <= k < ls.len() ==> is_line(#[trigger] ls[k])
        }),
    decreases n,
{
    if n == 0 {
        lemma_balance_header();
    } else {
        lemma_balance_read(p, n - 1);
        let had = with_balance_rows(balance_header(), p, n - 1);
        let ls = with_balance_rows(balance_header(), p, n);
        assert(is_float(p.bands[n - 1]) && is_float(p.tolerances[n - 1]));
        lemma_balance_row(n - 1, p.bands[n - 1], p.tolerances[n - 1]);
        assert(ls.drop_last() == had);
        assert(read_lines(ls) == with_line(read_lines(had), ls.last()));
    }
}

/// The lines before the rows of the stereo table open it.
proof fn lemma_stereo_header_read(ls: Seq<Seq<char>>)
    requires
        forall|k: int| 0 <= k < ls.len() ==> is_line(#[trigger] ls[k]),
    ensures
        read_lines(with_stereo_header(ls)) == (Reading { in_stereo_table: true, ..read_lines(ls) }),
        forall|k: int|
            0 <= k < with_stereo_header(ls).len() ==> is_line(#[trigger] with_stereo_header(ls)[k]),
{
    lemma_plain_lines();
    lemma_section_headings();
    lemma_heading_rows();
    let l1 = ls.push(""@);
    let l2 = l1.push("## Stereo Settings"@);
    let l3 = l2.push(""@);
    let l4 = l3.push("| Band | Pan | Width |"@);
    let l5 = l4.push("|---|---|---|"@);
    assert(l1.drop_last() == ls);
    assert(l2.drop_last() == l1);
    assert(l3.drop_last() == l2);
    assert(l4.drop_last() == l3);
    assert(l5.drop_last() == l4);
    assert(read_lines(l1) == with_line(read_lines(ls), l1.last()));
    assert(read_lines(l2) == with_line(read_lines(l1), l2.last()));
    assert(read_lines(l3) == with_line(read_lines(l2), l3.last()));
    assert(read_lines(l4) == with_line(read_lines(l3), l4.last()));
    assert(read_lines(l5) == with_line(read_lines(l4), l5.last()));
}

/// The rows of the first `n` bands of the stereo table are read as those bands.
proof fn lemma_stereo_read(ls: Seq<Seq<char>>, p: ProfileText, n: int)
    requires
        p.wf(),
        0 <= n <= 5,
        read_lines(ls).in_stereo_table,
        read_lines(ls).pans.len() == 5,
        read_lines(ls).widths.len() == 5,
        forall|k: int| 0 <= k < ls.len() ==> is_line(#[trigger] ls[k]),
    ensures
        ({
            let out = with_stereo_rows(ls, p, n);
            let r = read_lines(out);
            &&& r == (Reading { pans: r.pans, widths: r.widths, ..read_lines(ls) })
            &&& r.pans.len() == 5
            &&& r.widths.len() == 5
            &&& forall|k: int| 0 <= k < n ==> r.pans[k] == p.pans[k]
            &&& forall|k: int| 0 <= k < n ==> r.widths[k] == p.widths[k]
            &&& forall|k: int| 0 <= k < out.len() ==> is_line(#[trigger] out[k])
        }),
    decreases n,
{
    if n > 0 {
        lemma_stereo_read(ls, p, n - 1);
        let had = with_stereo_rows(ls, p, n - 1);
        let out = with_stereo_rows(ls, p, n);
        assert(is_pan(p.pans[n - 1]) && is_float(p.widths[n - 1]));
        lemma_stereo_row(n - 1, p.pans[n - 1], p.widths[n - 1]);
        assert(out.drop_last() == had);
        assert(read_lines(out) == with_line(read_lines(had), out.last()));
    }
}

/// The last lines close the stereo table and give the mono floor.
proof fn lemma_floor_read(ls: Seq<Seq<char>>, floor: Seq<char>)
    requires
        is_float(floor),
        has_digit(floor),
        forall|k: int| 0 <= k < ls.len() ==> is_line(#[trigger] ls[k]),
    ensures
        read_lines(with_floor_lines(ls, floor)) == (Reading {
            in_stereo_table: false,
            mono_floor_hz: floor,
            ..read_lines(ls)
        }),
        forall|k: int|
            0 <= k < with_floor_lines(ls, floor).len() ==> is_line(
                #[trigger] with_floor_lines(ls, floor)[k],
            ),
{
    lemma_plain_lines();
    lemma_section_headings();
    lemma_floor_line(floor);
    let l1 = ls.push(""@);
    let l2 = l1.push("## Mono Floor"@);
    let l3 = l2.push(""@);
    let l4 = l3.push(floor + " Hz"@);
    assert(l1.drop_last() == ls);
    assert(l2.drop_last() == l1);
    assert(l3.drop_last() == l2);
    assert(l4.drop_last() == l3);
    assert(read_lines(l1) == with_line(read_lines(ls), l1.last()));
    assert(read_lines(l2) == with_line(read_lines(l1), l2.last()));
    assert(read_lines(l3) == with_line(read_lines(l2), l3.last()));
    assert(read_lines(l4) == with_line(read_lines(l3), l4.last()));
}

/// The rows put after the header leave it at the front.
proof fn lemma_rows_keep_front(ls: Seq<Seq<char>>, p: ProfileText, n: int)
    requires
        0 <= n,
    ensures
        with_balance_rows(ls, p, n).len() == ls.len() + n,
        forall|k: int| 0 <= k < ls.len() ==> with_balance_rows(ls, p, n)[k] == ls[k],
        with_stereo_rows(ls, p, n).len() == ls.len() + n,
        forall|k: int| 0 <= k < ls.len() ==> with_stereo_rows(ls, p, n)[k] == ls[k],
    decreases n,
{
    if n > 0 {
        lemma_rows_keep_front(ls, p, n - 1);
    }
}

/// The frontmatter that is written has no list.
proof fn lemma_no_tags(ls: Seq<Seq<char>>)
    requires
        ls.len() >= 4,
        ls[0] == "---"@,
        ls[1] == "plugin: equilibrium"@,
        ls[2] == "type: preset"@,
        ls[3] == "---"@,
    ensures
        trimmed(ls[0]) == "---"@,
        list_from(ls, "tags"@, 1, false) == Seq::<Seq<char>>::empty(),
{
    reveal_strlit("---");
    reveal_strlit("plugin: equilibrium");
    reveal_strlit("type: preset");
    reveal_strlit("tags");
    reveal_strlit(":");
    lemma_trim_clean("---"@);
    lemma_trim_clean("plugin: equilibrium"@);
    lemma_trim_clean("type: preset"@);
    let head = "tags"@ + ":"@;
    assert("plugin: equilibrium"@.subrange(0, 5)[0] == 'p');
    assert("type: preset"@.subrange(0, 5)[1] == 'y');
    assert(head[0] == 't' && head[1] == 'a');
    assert("plugin: equilibrium"@[0] != "---"@[0]);
    assert("type: preset"@[0] != "---"@[0]);
    assert(list_from(ls, "tags"@, 3, false) == Seq::<Seq<char>>::empty());
    assert(list_from(ls, "tags"@, 2, false) == Seq::<Seq<char>>::empty());
}

/// Whether what has been read is well formed.
spec fn reading_wf(r: Reading) -> bool {
    &&& r.bands.len() == 5
    &&& r.tolerances.len() == 5
    &&& r.pans.len() == 5
    &&& r.widths.len() == 5
    &&& forall|i: int| 0 <= i < 5 ==> is_float(#[trigger] r.bands[i])
    &&& forall|i: int| 0 <= i < 5 ==> is_float(#[trigger] r.tolerances[i])
    &&& forall|i: int| 0 <= i < 5 ==> is_pan(#[trigger] r.pans[i])
    &&& forall|i: int| 0 <= i < 5 ==> is_float(#[trigger] r.widths[i])
    &&& is_float(r.mono_floor_hz)
}

/// The defaults are numbers.
proof fn lemma_defaults()
    ensures
        reading_wf(nothing_read()),
{
    reveal_strlit("0.0");
    reveal_strlit("1.5");
    reveal_strlit("2.0");
    reveal_strlit("3.5");
    reveal_strlit("4.5");
    reveal_strlit("100.0");
    lemma_plain_number("0.0"@, 1);
    lemma_plain_number("1.5"@, 1);
    lemma_plain_number("2.0"@, 1);
    lemma_plain_number("3.5"@, 1);
    lemma_plain_number("4.5"@, 1);
    lemma_plain_number("100.0"@, 3);
    let r = nothing_read();
    assert forall|i: int| 0 <= i < 5 implies is_float(#[trigger] r.bands[i]) by {
        assert(r.bands[i] == "0.0"@);
    }
    assert forall|i: int| 0 <= i < 5 implies is_float(#[trigger] r.widths[i]) by {
        assert(r.widths[i] == "100.0"@);
    }
}

proof fn lemma_read_wf(ls: Seq<Seq<char>>)
    ensures
        reading_wf(read_lines(ls)),
    decreases ls.len(),
{
    if ls.len() == 0 {
        lemma_defaults();
    } else {
        lemma_read_wf(ls.drop_last());
    }
}

/// A preset that can be read has five bands and a number in every place that
/// asks for one.
pub proof fn law_read_preset_is_complete(content: Seq<char>, front: FrontmatterText)
    requires
        preset_of(content, front) is Some,
    ensures
        preset_of(content, front)->0.wf(),
{
    lemma_read_wf(lines(content));
}

/// A preset that is written is read back with the same levels, tolerances,
/// pans, widths and mono floor. The name, the tags and the notes are not in
/// the text; version and source are those of the frontmatter.
pub proof fn law_preset_reads_back(p: ProfileText, front: FrontmatterText)
    requires
        p.wf(),
        has_digit(p.mono_floor_hz),
        front.plugin == Some("equilibrium"@),
    ensures
        ({
            let r = preset_of(preset_text(p), front);
            &&& r is Some
            &&& r->0.bands == p.bands
            &&& r->0.tolerances == p.tolerances
            &&& r->0.pans == p.pans
            &&& r->0.widths == p.widths
            &&& r->0.mono_floor_hz == p.mono_floor_hz
            &&& r->0.name == "Unnamed"@
            &&& r->0.tags == Seq::<Seq<char>>::empty()
            &&& r->0.notes == ""@
        }),
{
    reveal_strlit("");
    let balance = with_balance_rows(balance_header(), p, 5);
    lemma_balance_read(p, 5);
    let head = with_stereo_header(balance);
    lemma_stereo_header_read(balance);
    lemma_stereo_read(head, p, 5);
    let stereo = with_stereo_rows(head, p, 5);
    lemma_floor_read(stereo, p.mono_floor_hz);
    let ls = with_floor_lines(stereo, p.mono_floor_hz);
    assert(ls == preset_lines(p));
    law_lines_read_back(ls);
    lemma_rows_keep_front(balance_header(), p, 5);
    lemma_rows_keep_front(head, p, 5);
    assert forall|k: int| 0 <= k < 4 implies ls[k] == balance_header()[k] by {
        assert(balance[k] == balance_header()[k]);
        assert(head[k] == balance[k]);
        assert(stereo[k] == head[k]);
        assert(ls[k] == stereo[k]);
    }
    lemma_no_tags(ls);
    let r = read_lines(ls);
    assert(r.bands == p.bands);
    assert(r.tolerances == p.tolerances);
    assert(r.pans == p.pans);
    assert(r.widths == p.widths);
}

/// A preset that was read can be saved and read again, with the same levels,
/// tolerances, pans, widths and mono floor.
pub proof fn law_saving_keeps_what_was_read(
    content: Seq<char>,
    front: FrontmatterText,
    later: FrontmatterText,
)
    requires
        preset_of(content, front) is Some,
        has_digit(preset_of(content, front)->0.mono_floor_hz),
        later.plugin == Some("equilibrium"@),
    ensures
        ({
            let p = preset_of(content, front)->0;
            let r = preset_of(preset_text(p), later);
            &&& r is Some
            &&& r->0.bands == p.bands
            &&& r->0.tolerances == p.tolerances
            &&& r->0.pans == p.pans
            &&& r->0.widths == p.widths
            &&& r->0.mono_floor_hz == p.mono_floor_hz
        }),
{
    law_read_preset_is_complete(content, front);
    law_preset_reads_back(preset_of(content, front)->0, later);
}

// ─── What a line sets ────────────────────────────────────────────────────────

/// A pan is read to the side whose letter, large or small, it begins with, by
/// the number that follows, with or without percent signs; whatever else stands
/// in a cell is the centre.
pub proof fn law_pan_is_read(cell: Seq<char>)
    ensures
        ({
            let s = trimmed(cell);
            let n = trimmed(trim_end_char(trimmed(s.skip(1)), '%'));
            &&& s.len() > 0 && (s[0] == 'L' || s[0] == 'l') && is_float(n) ==> pan_named(cell)
                == PanText::Left(n)
            &&& s.len() > 0 && (s[0] == 'R' || s[0] == 'r') && is_float(n) ==> pan_named(cell)
                == PanText::Right(n)
            &&& !(s.len() > 0 && (s[0] == 'L' || s[0] == 'l' || s[0] == 'R' || s[0] == 'r')
                && is_float(n)) ==> pan_named(cell) == PanText::Center
        }),
{
    reveal_strlit("c");
    reveal_strlit("center");
    let s = trimmed(cell);
    if s.len() > 0 {
        assert(ascii_lower(s)[0] == ascii_lower_char(s[0]));
        assert("c"@[0] == 'c' && "center"@[0] == 'c');
    }
}

/// Whether a lowercase label names band `b`.
pub open spec fn is_name_of(label: Seq<char>, b: int) -> bool {
    ||| b == 0 && label == "sub"@
    ||| b == 1 && label == "bass"@
    ||| b == 2 && label == "mid"@
    ||| b == 3 && (label == "presence"@ || label == "high mid"@ || label == "high-mid"@ || label
        == "pres"@)
    ||| b == 4 && (label == "air"@ || label == "high"@)
}

proof fn lemma_name_of(label: Seq<char>, b: int)
    requires
        0 <= b < 5,
    ensures
        is_name_of(label, b) <==> band_named(label) == Some(b),
        band_named(label) is Some ==> 0 <= band_named(label)->0 < 5,
{
    reveal_strlit("sub");
    reveal_strlit("bass");
    reveal_strlit("mid");
    reveal_strlit("presence");
    reveal_strlit("high mid");
    reveal_strlit("high-mid");
    reveal_strlit("pres");
    reveal_strlit("air");
    reveal_strlit("high");
    assert("sub"@[0] == 's' && "bass"@[0] == 'b' && "mid"@[0] == 'm' && "presence"@[0] == 'p'
        && "high mid"@[0] == 'h' && "high-mid"@[0] == 'h' && "pres"@[0] == 'p' && "air"@[0] == 'a'
        && "high"@[0] == 'h');
    assert("high"@.len() == 4 && "high mid"@.len() == 8 && "high-mid"@.len() == 8);
}

/// Whether a line gives the name or the notes.
pub open spec fn is_marked(t: Seq<char>) -> bool {
    has_text(t, "**Preset Name:**"@) || has_text(t, "**Notizen:**"@) || has_text(t, "**Notes:**"@)
}

/// Whether a line begins the stereo table.
pub open spec fn enters_stereo(t: Seq<char>) -> bool {
    !is_marked(t) && (has_text(t, "## Stereo Settings"@) || has_text(t, "## Stereo-Einstellungen"@))
}

/// Whether a line ends the stereo table.
pub open spec fn leaves_stereo(t: Seq<char>) -> bool {
    !is_marked(t) && !enters_stereo(t) && has_text(t, "## Mono Floor"@)
}

/// Whether a line is a row of a table with at least `n` cells.
pub open spec fn is_table_row(t: Seq<char>, n: nat) -> bool {
    &&& !is_marked(t)
    &&& !enters_stereo(t)
    &&& !leaves_stereo(t)
    &&& t.len() > 0
    &&& t[0] == '|'
    &&& cells(t, '|').len() >= n
}

/// The cell of a row at position `k`, without the white space around it.
pub open spec fn cell_of(t: Seq<char>, k: int) -> Seq<char> {
    trimmed(cells(t, '|')[k])
}

/// Whether a line gives the level of band `b` outside the stereo table.
pub open spec fn is_level_row(t: Seq<char>, b: int) -> bool {
    is_table_row(t, 4) && is_name_of(lowercased(cell_of(t, 1)), b)
}

/// Whether a line gives the pan of band `b` in the stereo table.
pub open spec fn is_pan_row(t: Seq<char>, b: int) -> bool {
    &&& is_table_row(t, 4)
    &&& !has_text(cell_of(t, 1), "Band"@)
    &&& !has_text(cell_of(t, 1), "---"@)
    &&& is_name_of(lowercased(cell_of(t, 1)), b)
}

/// Whether a line begins with a number that can be the mono floor.
pub open spec fn begins_with_floor(t: Seq<char>) -> bool {
    &&& exists|i: int| 0 <= i < t.len() && '0' <= #[trigger] t[i] <= '9'
    &&& t[0] != '|'
    &&& !has_text(t, "#"@)
    &&& words(t).len() > 0
    &&& is_float(words(t)[0])
}

proof fn lemma_row_start(t: Seq<char>)
    ensures
        has_prefix(t, "|"@) <==> t.len() > 0 && t[0] == '|',
        is_floor_line(t) <==> begins_with_floor(t),
{
    reveal_strlit("|");
    if t.len() > 0 {
        assert(t.subrange(0, 1)[0] == t[0]);
        if t[0] == '|' {
            assert(t.subrange(0, 1) == "|"@);
        }
    }
    if is_floor_line(t) {
        let i = choose|i: int| 0 <= i < t.len() && is_digit(#[trigger] t[i]);
        assert('0' <= t[i] <= '9');
    }
    if begins_with_floor(t) {
        let i = choose|i: int| 0 <= i < t.len() && '0' <= #[trigger] t[i] <= '9';
        assert(is_digit(t[i]));
    }
}

/// A line sets what it names, and nothing else: outside the stereo table a row
/// gives a level and a tolerance, inside it a pan and a width. The headings lead
/// in and out of it, and outside a line that begins with a number gives the mono
/// floor.
#[verifier::rlimit(40)]
pub proof fn law_line_sets_what_it_names(r: Reading, line: Seq<char>, b: int)
    requires
        0 <= b < 5,
        r.bands.len() == 5,
        r.tolerances.len() == 5,
        r.pans.len() == 5,
        r.widths.len() == 5,
        r.has_bands.len() == 5,
    ensures
        ({
            let t = trimmed(line);
            let n = with_line(r, line);
            let width = trim_end_char(cell_of(t, 3), '%');
            &&& n.bands.len() == 5
            &&& n.tolerances.len() == 5
            &&& n.pans.len() == 5
            &&& n.widths.len() == 5
            &&& n.has_bands.len() == 5
            &&& n.in_stereo_table <==> enters_stereo(t) || (r.in_stereo_table && !leaves_stereo(t))
            &&& n.bands[b] == if !r.in_stereo_table && is_level_row(t, b) && is_float(cell_of(t, 3)) {
                cell_of(t, 3)
            } else {
                r.bands[b]
            }
            &&& n.has_bands[b] <==> r.has_bands[b] || (!r.in_stereo_table && is_level_row(t, b)
                && is_float(cell_of(t, 3)))
            &&& n.tolerances[b] == if !r.in_stereo_table && is_level_row(t, b) && is_table_row(t, 5)
                && is_float(cell_of(t, 4)) {
                cell_of(t, 4)
            } else {
                r.tolerances[b]
            }
            &&& n.pans[b] == if r.in_stereo_table && is_pan_row(t, b) {
                pan_named(cell_of(t, 2))
            } else {
                r.pans[b]
            }
            &&& n.widths[b] == if r.in_stereo_table && is_pan_row(t, b) && is_float(width) {
                width
            } else {
                r.widths[b]
            }
            &&& n.mono_floor_hz == if !n.in_stereo_table && begins_with_floor(t) {
                words(t)[0]
            } else {
                r.mono_floor_hz
            }
        }),
{
    let t = trimmed(line);
    lemma_row_start(t);
    if is_table_row(t, 4) {
        lemma_name_of(lowercased(cell_of(t, 1)), b);
        let row = trimmed_cells(t, '|');
        assert(row[1] == cell_of(t, 1) && row[2] == cell_of(t, 2) && row[3] == cell_of(t, 3));
        if row.len() >= 5 {
            assert(row[4] == cell_of(t, 4));
        }
    }
    if is_table_row(t, 0) {
        assert(trimmed_cells(t, '|').len() == cells(t, '|').len());
    }
}

/// What follows the first marker on a line, without emphasis marks and white
/// space around it, is the name or the notes; a line with both gives the name.
pub proof fn law_marked_lines_are_read(r: Reading, line: Seq<char>, i: int)
    ensures
        ({
            let t = trimmed(line);
            let n = with_line(r, line);
            &&& first_at(t, "**Preset Name:**"@, i) ==> n.name == trimmed(
                without(t.skip(i + 16), "**"@),
            ) && n.notes == r.notes
            &&& !has_text(t, "**Preset Name:**"@) ==> n.name == r.name
            &&& !has_text(t, "**Preset Name:**"@) && first_at(t, "**Notizen:**"@, i) ==> n.notes
                == trimmed(without(t.skip(i + 12), "**"@))
            &&& !has_text(t, "**Preset Name:**"@) && !has_text(t, "**Notizen:**"@) && first_at(
                t,
                "**Notes:**"@,
                i,
            ) ==> n.notes == trimmed(without(t.skip(i + 10), "**"@))
            &&& !is_marked(t) ==> n.notes == r.notes
        }),
{
    reveal_strlit("**Preset Name:**");
    reveal_strlit("**Notizen:**");
    reveal_strlit("**Notes:**");
    let t = trimmed(line);
    if first_at(t, "**Preset Name:**"@, i) {
        lemma_first_position(t, "**Preset Name:**"@, i);
    }
    if first_at(t, "**Notizen:**"@, i) {
        lemma_first_position(t, "**Notizen:**"@, i);
    }
    if first_at(t, "**Notes:**"@, i) {
        lemma_first_position(t, "**Notes:**"@, i);
    }
}

proof fn lemma_first_position(s: Seq<char>, p: Seq<char>, i: int)
    requires
        first_at(s, p, i),
    ensures
        first_position(s, p) == i,
        has_text(s, p),
{
    assert(occurs_at(s, p, i));
    let k = first_position(s, p);
    assert(first_at(s, p, k));
    if k < i {
        assert(!occurs_at(s, p, k));
    } else if i < k {
        assert(!occurs_at(s, p, i));
    }
}

/// Before the first line every level is zero, every pan at the centre, every
/// width a hundred percent, and the tolerances are those of a preset that names
/// none; lines are read one after the other.
pub proof fn law_lines_are_read_in_order(ls: Seq<Seq<char>>, line: Seq<char>, b: int)
    requires
        0 <= b < 5,
    ensures
        ({
            let r = read_lines(Seq::<Seq<char>>::empty());
            &&& r.bands.len() == 5 && r.bands[b] == "0.0"@
            &&& r.tolerances == seq!["1.5"@, "2.0"@, "3.5"@, "4.5"@, "4.5"@]
            &&& r.pans.len() == 5 && r.pans[b] == PanText::Center
            &&& r.widths.len() == 5 && r.widths[b] == "100.0"@
            &&& r.has_bands.len() == 5 && r.has_bands[b] == false
            &&& r.mono_floor_hz == "0.0"@
            &&& r.name == ""@
            &&& r.notes == ""@
            &&& !r.in_stereo_table
        }),
        read_lines(ls.push(line)) == with_line(read_lines(ls), line),
{
    assert(ls.push(line).drop_last() == ls);
}

/// A preset is read just when it is one of this plugin and every band has got a
/// level. It then holds what its lines give, and from the frontmatter the tags,
/// the version, which is 1 where there is no number, and the source, which is
/// `manual` where there is none.
pub proof fn law_preset_holds_what_was_read(content: Seq<char>, front: FrontmatterText)
    ensures
        ({
            let r = read_lines(lines(content));
            let p = preset_of(content, front);
            &&& p is Some <==> front.plugin == Some("equilibrium"@) && r.has_bands[0] && r.has_bands[1]
                && r.has_bands[2] && r.has_bands[3] && r.has_bands[4]
            &&& p is Some ==> {
                &&& r.name.len() > 0 ==> p->0.name == r.name
                &&& r.name.len() == 0 ==> p->0.name == "Unnamed"@
                &&& p->0.bands == r.bands
                &&& p->0.tolerances == r.tolerances
                &&& p->0.pans == r.pans
                &&& p->0.widths == r.widths
                &&& p->0.mono_floor_hz == r.mono_floor_hz
                &&& p->0.notes == r.notes
                &&& p->0.tags == frontmatter_list(content, "tags"@)
                &&& front.source is Some ==> p->0.source == front.source->0
                &&& front.source is None ==> p->0.source == "manual"@
                &&& front.version is Some && parsed_u32(front.version->0) is Some ==> p->0.version
                    == parsed_u32(front.version->0)->0
                &&& front.version is None || parsed_u32(front.version->0) is None ==> p->0.version
                    == 1
            }
        }),
{
    let r = read_lines(lines(content));
    if r.has_bands[0] && r.has_bands[1] && r.has_bands[2] && r.has_bands[3] && r.has_bands[4] {
        assert forall|i: int| 0 <= i < 5 implies r.has_bands[i] == true by {
            assert(i == 0 || i == 1 || i == 2 || i == 3 || i == 4);
        }
    }
}

/// Whether a line can stand before a list in the frontmatter.
pub open spec fn is_before_list(line: Seq<char>, key: Seq<char>) -> bool {
    trimmed(line) != "---"@ && !has_prefix(trimmed(line), key + ":"@)
}

/// Whether a line is an item of a list.
pub open spec fn is_item(line: Seq<char>, key: Seq<char>) -> bool {
    is_before_list(line, key) && trimmed(line).len() >= 2 && trimmed(line)[0] == '-' && trimmed(
        line,
    )[1] == ' '
}

/// Whether a line ends a list: the end of the frontmatter, or another field.
pub open spec fn ends_list(line: Seq<char>, key: Seq<char>) -> bool {
    trimmed(line) == "---"@ || (is_before_list(line, key) && !is_item(line, key) && has_text(
        trimmed(line),
        ":"@,
    ))
}

/// A list in the frontmatter holds its items in order, each without its hyphen
/// and the white space around it: those after the line of its key, up to the end
/// of the frontmatter or to another field.
pub proof fn law_list_holds_its_items(content: Seq<char>, key: Seq<char>, k: int, m: int)
    requires
        1 <= k <= m < lines(content).len(),
        trimmed(lines(content)[0]) == "---"@,
        forall|j: int| 1 <= j < k ==> is_before_list(#[trigger] lines(content)[j], key),
        trimmed(lines(content)[k]) != "---"@,
        has_prefix(trimmed(lines(content)[k]), key + ":"@),
        forall|j: int| k < j <= m ==> is_item(#[trigger] lines(content)[j], key),
        m + 1 < lines(content).len() ==> ends_list(lines(content)[m + 1], key),
    ensures
        frontmatter_list(content, key).len() == m - k,
        forall|i: int|
            0 <= i < m - k ==> #[trigger] frontmatter_list(content, key)[i] == trimmed(
                trimmed(lines(content)[k + 1 + i]).skip(2),
            ),
{
    let ls = lines(content);
    lemma_list_start(ls, key, 1, k);
    lemma_list_items(ls, key, k + 1, m);
    assert(list_from(ls, key, k, false) == list_from(ls, key, k + 1, true));
}

proof fn lemma_list_start(ls: Seq<Seq<char>>, key: Seq<char>, i: int, k: int)
    requires
        0 <= i <= k < ls.len(),
        forall|j: int| i <= j < k ==> is_before_list(#[trigger] ls[j], key),
    ensures
        list_from(ls, key, i, false) == list_from(ls, key, k, false),
    decreases k - i,
{
    if i < k {
        assert(is_before_list(ls[i], key));
        lemma_list_start(ls, key, i + 1, k);
    }
}

proof fn lemma_list_items(ls: Seq<Seq<char>>, key: Seq<char>, i: int, m: int)
    requires
        0 <= i <= m + 1,
        m < ls.len(),
        forall|j: int| i <= j <= m ==> is_item(#[trigger] ls[j], key),
        m + 1 < ls.len() ==> ends_list(ls[m + 1], key),
    ensures
        list_from(ls, key, i, true).len() == m + 1 - i,
        forall|j: int|
            0 <= j < m + 1 - i ==> #[trigger] list_from(ls, key, i, true)[j] == trimmed(
                trimmed(ls[i + j]).skip(2),
            ),
    decreases m + 1 - i,
{
    reveal_strlit("- ");
    if i <= m {
        assert(is_item(ls[i], key));
        let t = trimmed(ls[i]);
        assert(t.subrange(0, 2) == "- "@);
        lemma_list_items(ls, key, i + 1, m);
        let rest = list_from(ls, key, i + 1, true);
        assert(list_from(ls, key, i, true) == seq![trimmed(t.skip(2))] + rest);
        assert forall|j: int| 0 <= j < m + 1 - i implies #[trigger] list_from(ls, key, i, true)[j]
            == trimmed(trimmed(ls[i + j]).skip(2)) by {
            if j > 0 {
                assert(list_from(ls, key, i, true)[j] == rest[j - 1]);
            }
        }
    } else if i < ls.len() {
        let t = trimmed(ls[i]);
        if has_prefix(t, "- "@) {
            assert(t.subrange(0, 2)[0] == t[0]);
            assert(t.subrange(0, 2)[1] == t[1]);
        }
    }
}

/// Without a frontmatter, or without the key in it, there is no list.
pub proof fn law_no_list_without_its_key(content: Seq<char>, key: Seq<char>, n: int)
    requires
        1 <= n <= lines(content).len(),
        forall|j: int| 1 <= j < n ==> is_before_list(#[trigger] lines(content)[j], key),
        n < lines(content).len() ==> trimmed(lines(content)[n]) == "---"@,
    ensures
        frontmatter_list(content, key) == Seq::<Seq<char>>::empty(),
{
    let ls = lines(content);
    if n < ls.len() {
        lemma_list_start(ls, key, 1, n);
    } else if n > 1 {
        assert(is_before_list(ls[n - 1], key));
        lemma_list_start(ls, key, 1, n - 1);
        assert(list_from(ls, key, n, false) == Seq::<Seq<char>>::empty());
    }
}

/// A file that does not begin with a frontmatter has no list.
pub proof fn law_no_list_without_frontmatter(content: Seq<char>, key: Seq<char>)
    requires
        lines(content).len() == 0 || trimmed(lines(content)[0]) != "---"@,
    ensures
        frontmatter_list(content, key) == Seq::<Seq<char>>::empty(),
{
}

/// The lines of a preset file: the header, a row with the level and the
/// tolerance of each band, a row with its pan and its width, and the mono floor.
#[verifier::rlimit(40)]
pub proof fn law_preset_rows(p: ProfileText, b: int)
    requires
        0 <= b < 5,
    ensures
        ({
            let ls = preset_lines(p);
            let head = if b == 0 {
                "| Sub      | 0 - 80 Hz     | "@
            } else if b == 1 {
                "| Bass     | 80 - 300 Hz   | "@
            } else if b == 2 {
                "| Mid      | 300 - 2000 Hz | "@
            } else if b == 3 {
                "| Presence | 2k - 6 kHz    | "@
            } else {
                "| Air      | > 6 kHz       | "@
            };
            let name = if b == 0 {
                "| Sub | "@
            } else if b == 1 {
                "| Bass | "@
            } else if b == 2 {
                "| Mid | "@
            } else if b == 3 {
                "| Presence | "@
            } else {
                "| Air | "@
            };
            let pan = match p.pans[b] {
                PanText::Center => "C"@,
                PanText::Left(n) => "L "@ + n + "%"@,
                PanText::Right(n) => "R "@ + n + "%"@,
            };
            &&& ls.len() == 30
            &&& ls[0] == "---"@
            &&& ls[1] == "plugin: equilibrium"@
            &&& ls[2] == "type: preset"@
            &&& ls[3] == "---"@
            &&& ls[4] == ""@
            &&& ls[5]
                == "> Warning: Do NOT modify column names or table structure. Plugin requires exact format for import. Only the NUMBERS may be changed."@
            &&& ls[6] == ""@
            &&& ls[7] == "## Spektrale Balance (Baender)"@
            &&& ls[8] == ""@
            &&& ls[9] == "| Band | Frequenzbereich | Relativer Level (dB) | Toleranz (dB) |"@
            &&& ls[10] == "|---|---|---|---|"@
            &&& ls[11 + b] == head + p.bands[b] + " | "@ + p.tolerances[b] + " |"@
            &&& ls[16] == ""@
            &&& ls[17] == "## Stereo Settings"@
            &&& ls[18] == ""@
            &&& ls[19] == "| Band | Pan | Width |"@
            &&& ls[20] == "|---|---|---|"@
            &&& ls[21 + b] == name + pan + " | "@ + p.widths[b] + "% |"@
            &&& ls[26] == ""@
            &&& ls[27] == "## Mono Floor"@
            &&& ls[28] == ""@
            &&& ls[29] == p.mono_floor_hz + " Hz"@
        }),
{
    let balance = with_balance_rows(balance_header(), p, 5);
    lemma_balance_lines(balance_header(), p, 5, b);
    let head = with_stereo_header(balance);
    lemma_stereo_lines(head, p, 5, b);
}

proof fn lemma_balance_lines(ls: Seq<Seq<char>>, p: ProfileText, n: int, b: int)
    requires
        0 <= n,
    ensures
        with_balance_rows(ls, p, n).len() == ls.len() + n,
        forall|k: int| 0 <= k < ls.len() ==> #[trigger] with_balance_rows(ls, p, n)[k] == ls[k],
        0 <= b < n ==> with_balance_rows(ls, p, n)[ls.len() + b] == balance_row(
            b,
            p.bands[b],
            p.tolerances[b],
        ),
    decreases n,
{
    if n > 0 {
        lemma_balance_lines(ls, p, n - 1, b);
    }
}

proof fn lemma_stereo_lines(ls: Seq<Seq<char>>, p: ProfileText, n: int, b: int)
    requires
        0 <= n,
    ensures
        with_stereo_rows(ls, p, n).len() == ls.len() + n,
        forall|k: int| 0 <= k < ls.len() ==> #[trigger] with_stereo_rows(ls, p, n)[k] == ls[k],
        0 <= b < n ==> with_stereo_rows(ls, p, n)[ls.len() + b] == stereo_row(
            b,
            pan_text(p.pans[b]),
            p.widths[b],
        ),
    decreases n,
{
    if n > 0 {
        lemma_stereo_lines(ls, p, n - 1, b);
    }
}

/// Inside a list an item adds to it, a field ends it, and any other line is
/// passed over; before the key every line is.
pub proof fn law_list_goes_line_by_line(ls: Seq<Seq<char>>, key: Seq<char>, i: int)
    requires
        0 <= i < ls.len(),
    ensures
        trimmed(ls[i]) == "---"@ ==> list_from(ls, key, i, true).len() == 0 && list_from(
            ls,
            key,
            i,
            false,
        ).len() == 0,
        trimmed(ls[i]) != "---"@ && has_prefix(trimmed(ls[i]), key + ":"@) ==> list_from(
            ls,
            key,
            i,
            true,
        ) == list_from(ls, key, i + 1, true) && list_from(ls, key, i, false) == list_from(
            ls,
            key,
            i + 1,
            true,
        ),
        is_before_list(ls[i], key) ==> list_from(ls, key, i, false) == list_from(
            ls,
            key,
            i + 1,
            false,
        ),
        is_item(ls[i], key) ==> list_from(ls, key, i, true) == seq![
            trimmed(trimmed(ls[i]).skip(2)),
        ] + list_from(ls, key, i + 1, true),
        ends_list(ls[i], key) ==> list_from(ls, key, i, true).len() == 0,
        is_before_list(ls[i], key) && !is_item(ls[i], key) && !has_text(trimmed(ls[i]), ":"@)
            ==> list_from(ls, key, i, true) == list_from(ls, key, i + 1, true),
{
    reveal_strlit("- ");
    let t = trimmed(ls[i]);
    if t.len() >= 2 {
        assert(t.subrange(0, 2)[0] == t[0]);
        assert(t.subrange(0, 2)[1] == t[1]);
        if t[0] == '-' && t[1] == ' ' {
            assert(t.subrange(0, 2) == "- "@);
        }
    }
}

} // verus!
