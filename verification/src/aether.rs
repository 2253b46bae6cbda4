//! Aether presets: headphone profiles kept as markdown tables.

use crate::document::{
    is_clean, is_line, is_number_char, join_lines, joined, law_lines_read_back, lemma_first_cell,
    lemma_no_text, lemma_number_chars, lemma_some_cell, lemma_trim, lemma_trim_clean, push_line,
};
use crate::number::{digit_char, is_float, reads_as_float, lemma_plain_number};
use crate::text::{
    ascii_lower, cells, chars_of, contains, digit, has_prefix, has_text, is_ascii_text, is_digit,
    is_text, lines, lower, lowercased, occurs_at, part, split_lines, split_trimmed, starts_with,
    strings, text_of, texts, trim, trimmed, trimmed_cells,
};
use vstd::prelude::*;
use vstd::string::*;

verus! {

// ─── Types ───────────────────────────────────────────────────────────────────

/// One equaliser band: its type (0 off, 1 low shelf, 2 peak, 3 high shelf) and
/// its frequency, gain and quality as they are written.
pub struct AetherBand {
    pub type_code: i32,
    pub freq: String,
    pub gain: String,
    pub q: String,
}

/// A headphone profile. Its numbers are kept as they are written.
pub struct AetherProfile {
    pub name: String,
    pub bands: Vec<AetherBand>,
    pub cf_angle: String,
    pub cf_amount: String,
    pub cf_realism: i32,
    pub blend: String,
    pub gain: String,
}

/// What a band holds.
pub struct BandText {
    pub type_code: i32,
    pub freq: Seq<char>,
    pub gain: Seq<char>,
    pub q: Seq<char>,
}

/// What a profile holds.
pub struct ProfileText {
    pub name: Seq<char>,
    pub bands: Seq<BandText>,
    pub cf_angle: Seq<char>,
    pub cf_amount: Seq<char>,
    pub cf_realism: i32,
    pub blend: Seq<char>,
    pub gain: Seq<char>,
}

impl View for AetherBand {
    type V = BandText;

    open spec fn view(&self) -> BandText {
        BandText { type_code: self.type_code, freq: self.freq@, gain: self.gain@, q: self.q@ }
    }
}

/// The bands that a list holds.
pub open spec fn band_texts(v: Seq<AetherBand>) -> Seq<BandText> {
    Seq::new(v.len(), |i: int| v[i]@)
}

impl View for AetherProfile {
    type V = ProfileText;

    open spec fn view(&self) -> ProfileText {
        ProfileText {
            name: self.name@,
            bands: band_texts(self.bands@),
            cf_angle: self.cf_angle@,
            cf_amount: self.cf_amount@,
            cf_realism: self.cf_realism,
            blend: self.blend@,
            gain: self.gain@,
        }
    }
}

impl ProfileText {
    /// A profile has five bands, and every number in it is one.
    pub open spec fn wf(self) -> bool {
        &&& self.bands.len() == 5
        &&& forall|i: int|
            0 <= i < 5 ==> {
                &&& is_float(#[trigger] self.bands[i].freq)
                &&& is_float(self.bands[i].gain)
                &&& is_float(self.bands[i].q)
            }
        &&& is_float(self.cf_angle)
        &&& is_float(self.cf_amount)
        &&& is_float(self.blend)
        &&& is_float(self.gain)
    }
}

impl AetherBand {
    /// The same band once more.
    pub fn copy(&self) -> (r: AetherBand)
        ensures
            r@ == self@,
    {
        AetherBand {
            type_code: self.type_code,
            freq: self.freq.clone(),
            gain: self.gain.clone(),
            q: self.q.clone(),
        }
    }
}

impl AetherProfile {
    /// The same profile once more.
    pub fn copy(&self) -> (r: AetherProfile)
        ensures
            r@ == self@,
    {
        let mut bands: Vec<AetherBand> = Vec::new();
        let mut i: usize = 0;
        while i < self.bands.len()
            invariant
                i <= self.bands.len(),
                band_texts(bands@) == band_texts(self.bands@).take(i as int),
            decreases self.bands.len() - i,
        {
            let b = self.bands[i].copy();
            bands.push(b);
            i += 1;
            assert(band_texts(bands@) == band_texts(self.bands@).take(i - 1).push(b@));
        }
        assert(band_texts(self.bands@).take(i as int) == band_texts(self.bands@));
        AetherProfile {
            name: self.name.clone(),
            bands,
            cf_angle: self.cf_angle.clone(),
            cf_amount: self.cf_amount.clone(),
            cf_realism: self.cf_realism,
            blend: self.blend.clone(),
            gain: self.gain.clone(),
        }
    }
}

// ─── Labels and built-ins ────────────────────────────────────────────────────

/// The label of a band type.
pub open spec fn band_type_name(type_code: i32) -> Seq<char> {
    if type_code == 1 {
        "LSC"@
    } else if type_code == 2 {
        "PK"@
    } else if type_code == 3 {
        "HSC"@
    } else {
        "OFF"@
    }
}

/// The label of a crossfeed realism.
pub open spec fn realism_name(code: i32) -> Seq<char> {
    if code == 1 {
        "LIFELIKE"@
    } else if code == 2 {
        "HYPERREAL"@
    } else {
        "STANDARD"@
    }
}

/// The label of a band type.
pub fn band_type_label(type_code: i32) -> (r: &'static str)
    ensures
        r@ == band_type_name(type_code),
        type_code == 1 ==> r@ == "LSC"@,
        type_code == 2 ==> r@ == "PK"@,
        type_code == 3 ==> r@ == "HSC"@,
        !(1 <= type_code <= 3) ==> r@ == "OFF"@,
{
    match type_code {
        1 => "LSC",
        2 => "PK",
        3 => "HSC",
        _ => "OFF",
    }
}

/// The label of a crossfeed realism.
pub fn realism_label(code: i32) -> (r: &'static str)
    ensures
        r@ == realism_name(code),
        code == 1 ==> r@ == "LIFELIKE"@,
        code == 2 ==> r@ == "HYPERREAL"@,
        code != 1 && code != 2 ==> r@ == "STANDARD"@,
{
    match code {
        1 => "LIFELIKE",
        2 => "HYPERREAL",
        _ => "STANDARD",
    }
}

/// How a band drives its filter.
#[derive(Clone, Copy, PartialEq, Eq, Structural)]
pub enum BandFilter {
    /// A low shelf whose slope is the quality held between 0.3 and 2.
    LowShelf,
    /// A peak at the band's frequency, gain and quality.
    Peak,
    /// A high shelf whose slope is the quality held between 0.3 and 2.
    HighShelf,
    /// A peak at 1 kHz without gain, which leaves the signal as it is.
    Flat,
}

/// The filter that a band type asks for; every code but 1, 2 and 3 leaves the band flat.
pub fn band_filter(type_code: i32) -> (r: BandFilter)
    ensures
        r == BandFilter::LowShelf <==> type_code == 1,
        r == BandFilter::Peak <==> type_code == 2,
        r == BandFilter::HighShelf <==> type_code == 3,
        r == BandFilter::Flat <==> !(1 <= type_code <= 3),
{
    match type_code {
        1 => BandFilter::LowShelf,
        2 => BandFilter::Peak,
        3 => BandFilter::HighShelf,
        _ => BandFilter::Flat,
    }
}

/// A band without gain.
pub open spec fn flat_band(type_code: i32, freq: Seq<char>, q: Seq<char>) -> BandText {
    BandText { type_code, freq, gain: "0.0"@, q }
}

/// The built-in profile: five bands without gain, no crossfeed.
pub open spec fn harman_flat() -> ProfileText {
    ProfileText {
        name: "Harman Flat"@,
        bands: seq![
            flat_band(1, "105.0"@, "0.7"@),
            flat_band(2, "300.0"@, "1.0"@),
            flat_band(2, "1200.0"@, "1.0"@),
            flat_band(2, "4000.0"@, "1.0"@),
            flat_band(3, "10000.0"@, "0.7"@),
        ],
        cf_angle: "60.0"@,
        cf_amount: "0.0"@,
        cf_realism: 0,
        blend: "100.0"@,
        gain: "0.0"@,
    }
}

fn make_flat_band(type_code: i32, freq: &str, q: &str) -> (r: AetherBand)
    ensures
        r@ == flat_band(type_code, freq@, q@),
{
    AetherBand { type_code, freq: freq.to_owned(), gain: "0.0".to_owned(), q: q.to_owned() }
}

/// The built-in profile.
pub fn harman_flat_profile() -> (r: AetherProfile)
    ensures
        r@ == harman_flat(),
        r.name@ == "Harman Flat"@,
        r.bands.len() == 5,
        r.bands@[0].type_code == 1 && r.bands@[0].freq@ == "105.0"@ && r.bands@[0].q@ == "0.7"@,
        r.bands@[1].type_code == 2 && r.bands@[1].freq@ == "300.0"@ && r.bands@[1].q@ == "1.0"@,
        r.bands@[2].type_code == 2 && r.bands@[2].freq@ == "1200.0"@ && r.bands@[2].q@ == "1.0"@,
        r.bands@[3].type_code == 2 && r.bands@[3].freq@ == "4000.0"@ && r.bands@[3].q@ == "1.0"@,
        r.bands@[4].type_code == 3 && r.bands@[4].freq@ == "10000.0"@ && r.bands@[4].q@ == "0.7"@,
        forall|i: int| 0 <= i < 5 ==> (#[trigger] r.bands@[i]).gain@ == "0.0"@,
        r.cf_angle@ == "60.0"@,
        r.cf_amount@ == "0.0"@,
        r.cf_realism == 0,
        r.blend@ == "100.0"@,
        r.gain@ == "0.0"@,
{
    let mut bands: Vec<AetherBand> = Vec::new();
    bands.push(make_flat_band(1, "105.0", "0.7"));
    bands.push(make_flat_band(2, "300.0", "1.0"));
    bands.push(make_flat_band(2, "1200.0", "1.0"));
    bands.push(make_flat_band(2, "4000.0", "1.0"));
    bands.push(make_flat_band(3, "10000.0", "0.7"));
    assert(band_texts(bands@) == harman_flat().bands);
    AetherProfile {
        name: "Harman Flat".to_owned(),
        bands,
        cf_angle: "60.0".to_owned(),
        cf_amount: "0.0".to_owned(),
        cf_realism: 0,
        blend: "100.0".to_owned(),
        gain: "0.0".to_owned(),
    }
}

// ─── Reading ─────────────────────────────────────────────────────────────────

/// What has been read so far of a preset.
pub struct Reading {
    pub profile: ProfileText,
    pub has_freq: Seq<bool>,
    pub has_gain: Seq<bool>,
}

/// Nothing read yet: every field at its default.
pub open spec fn nothing_read() -> Reading {
    Reading {
        profile: ProfileText {
            name: ""@,
            bands: Seq::new(5, |i: int| flat_band(1, "105.0"@, "0.7"@)),
            cf_angle: "60.0"@,
            cf_amount: "0.0"@,
            cf_realism: 0,
            blend: "100.0"@,
            gain: "0.0"@,
        },
        has_freq: Seq::new(5, |i: int| false),
        has_gain: Seq::new(5, |i: int| false),
    }
}

/// The band that a label names by its first digit, counted from zero: `1` to
/// `5` name the five bands, `0` the first, and `6` to `9` the last.
pub open spec fn band_of(label: Seq<char>) -> Option<int>
    decreases label.len(),
{
    if label.len() == 0 {
        None
    } else if is_digit(label[0]) {
        let d = label[0] as int - 48;
        Some(
            if d <= 1 {
                0
            } else if d >= 5 {
                4
            } else {
                d - 1
            },
        )
    } else {
        band_of(label.skip(1))
    }
}

/// The band type that a cell names.
pub open spec fn type_named(value: Seq<char>) -> i32 {
    if value == "LSC"@ || value == "LS"@ {
        1
    } else if value == "PK"@ || value == "PEQ"@ {
        2
    } else if value == "HSC"@ || value == "HS"@ {
        3
    } else {
        0
    }
}

/// The crossfeed realism that a cell names.
pub open spec fn realism_named(value: Seq<char>) -> i32 {
    if value == "LIFELIKE"@ {
        1
    } else if value == "HYPERREAL"@ || value == "HYPERREALISTIC"@ {
        2
    } else {
        0
    }
}

/// The band field that a lowercase label beginning with `eq` speaks of.
#[derive(Clone, Copy, PartialEq, Eq, Structural)]
pub enum BandField {
    Type,
    Freq,
    Gain,
    Q,
}

/// The band field that a label speaks of.
pub open spec fn field_of(label: Seq<char>) -> BandField {
    if has_text(label, "type"@) {
        BandField::Type
    } else if has_text(label, "freq"@) {
        BandField::Freq
    } else if has_text(label, "gain"@) {
        BandField::Gain
    } else {
        BandField::Q
    }
}

/// `r` after a row that sets one field of one band.
pub open spec fn with_band_field(r: Reading, b: int, field: BandField, value: Seq<char>) -> Reading {
    let band = r.profile.bands[b];
    let put = |band: BandText|
        ProfileText { bands: r.profile.bands.update(b, band), ..r.profile };
    match field {
        BandField::Type => Reading {
            profile: put(BandText { type_code: type_named(value), ..band }),
            ..r
        },
        BandField::Freq => if is_float(value) {
            Reading {
                profile: put(BandText { freq: value, ..band }),
                has_freq: r.has_freq.update(b, true),
                ..r
            }
        } else {
            r
        },
        BandField::Gain => if is_float(value) {
            Reading {
                profile: put(BandText { gain: value, ..band }),
                has_gain: r.has_gain.update(b, true),
                ..r
            }
        } else {
            r
        },
        BandField::Q => if is_float(value) {
            Reading { profile: put(BandText { q: value, ..band }), ..r }
        } else {
            r
        },
    }
}

/// `r` after a row with the given lowercase label and value.
pub open spec fn with_row(r: Reading, label: Seq<char>, value: Seq<char>) -> Reading {
    let p = r.profile;
    if has_prefix(label, "eq"@) {
        match band_of(label) {
            Some(b) => with_band_field(r, b, field_of(label), value),
            None => r,
        }
    } else if label == "crossfeed realism"@ {
        Reading { profile: ProfileText { cf_realism: realism_named(value), ..p }, ..r }
    } else if !is_float(value) {
        r
    } else if label == "crossfeed angle"@ {
        Reading { profile: ProfileText { cf_angle: value, ..p }, ..r }
    } else if label == "crossfeed amount"@ {
        Reading { profile: ProfileText { cf_amount: value, ..p }, ..r }
    } else if label == "blend"@ {
        Reading { profile: ProfileText { blend: value, ..p }, ..r }
    } else if label == "gain"@ {
        Reading { profile: ProfileText { gain: value, ..p }, ..r }
    } else {
        r
    }
}

/// `s` without every `# ` that it begins with.
pub open spec fn without_marks(s: Seq<char>) -> Seq<char>
    decreases s.len(),
{
    if s.len() >= 2 && s[0] == '#' && s[1] == ' ' {
        without_marks(s.skip(2))
    } else {
        s
    }
}

/// `r` after a line: a table row sets a field, a first-level heading the name.
pub open spec fn with_line(r: Reading, line: Seq<char>) -> Reading {
    let t = trimmed(line);
    let row = trimmed_cells(t, '|');
    let r1 = if has_prefix(t, "|"@) && row.len() >= 4 {
        with_row(r, lowercased(row[1]), row[2])
    } else {
        r
    };
    if has_prefix(t, "# "@) && !has_prefix(t, "## "@) {
        Reading {
            profile: ProfileText { name: trimmed(without_marks(t)), ..r1.profile },
            ..r1
        }
    } else {
        r1
    }
}

/// What a list of lines gives.
pub open spec fn read_lines(ls: Seq<Seq<char>>) -> Reading
    decreases ls.len(),
{
    if ls.len() == 0 {
        nothing_read()
    } else {
        with_line(read_lines(ls.drop_last()), ls.last())
    }
}

/// Whether every band has got a frequency and a gain.
pub open spec fn is_complete(r: Reading) -> bool {
    &&& forall|i: int| 0 <= i < 5 ==> r.has_freq[i] == true
    &&& forall|i: int| 0 <= i < 5 ==> r.has_gain[i] == true
}

/// The profile that a preset file holds, given the plugin that its frontmatter
/// names: it must be `aether`, and every band must have a frequency and a gain.
pub open spec fn preset_of(content: Seq<char>, plugin: Option<Seq<char>>) -> Option<ProfileText> {
    let r = read_lines(lines(content));
    if plugin == Some("aether"@) && is_complete(r) {
        Some(r.profile)
    } else {
        None
    }
}

/// The fields of a preset while it is read.
struct Reader {
    profile: AetherProfile,
    has_freq: Vec<bool>,
    has_gain: Vec<bool>,
}

impl Reader {
    spec fn model(&self) -> Reading {
        Reading { profile: self.profile@, has_freq: self.has_freq@, has_gain: self.has_gain@ }
    }

    spec fn wf(&self) -> bool {
        &&& self.profile.bands.len() == 5
        &&& self.has_freq.len() == 5
        &&& self.has_gain.len() == 5
    }

    fn new() -> (r: Reader)
        ensures
            r.wf(),
            r.model() == nothing_read(),
    {
        let mut bands: Vec<AetherBand> = Vec::new();
        let mut has_freq: Vec<bool> = Vec::new();
        let mut has_gain: Vec<bool> = Vec::new();
        let mut i: usize = 0;
        while i < 5
            invariant
                i <= 5,
                bands.len() == i,
                has_freq.len() == i,
                has_gain.len() == i,
                forall|k: int| 0 <= k < i ==> (#[trigger] bands@[k])@ == flat_band(1, "105.0"@, "0.7"@),
                forall|k: int| 0 <= k < i ==> has_freq@[k] == false,
                forall|k: int| 0 <= k < i ==> has_gain@[k] == false,
            decreases 5 - i,
        {
            bands.push(make_flat_band(1, "105.0", "0.7"));
            has_freq.push(false);
            has_gain.push(false);
            i += 1;
        }
        assert(band_texts(bands@) == nothing_read().profile.bands);
        assert(has_freq@ == nothing_read().has_freq);
        assert(has_gain@ == nothing_read().has_gain);
        Reader {
            profile: AetherProfile {
                name: "".to_owned(),
                bands,
                cf_angle: "60.0".to_owned(),
                cf_amount: "0.0".to_owned(),
                cf_realism: 0,
                blend: "100.0".to_owned(),
                gain: "0.0".to_owned(),
            },
            has_freq,
            has_gain,
        }
    }

    /// Replaces band `b`.
    fn put_band(&mut self, b: usize, band: AetherBand)
        requires
            old(self).wf(),
            b < 5,
        ensures
            final(self).wf(),
            final(self).model() == (Reading {
                profile: ProfileText {
                    bands: old(self).model().profile.bands.update(b as int, band@),
                    ..old(self).model().profile
                },
                ..old(self).model()
            }),
    {
        let ghost had = self.profile.bands@;
        self.profile.bands.set(b, band);
        assert(band_texts(self.profile.bands@) == band_texts(had).update(b as int, band@));
    }

    /// Takes a row that sets one field of one band.
    fn take_band_field(&mut self, b: usize, field: BandField, value: &Vec<char>)
        requires
            old(self).wf(),
            b < 5,
        ensures
            final(self).wf(),
            final(self).model() == with_band_field(old(self).model(), b as int, field, value@),
    {
        let mut band = self.profile.bands[b].copy();
        assert(band@ == self.model().profile.bands[b as int]);
        match field {
            BandField::Type => {
                band.type_code = read_type(value);
                self.put_band(b, band);
            },
            BandField::Freq => {
                if reads_as_float(value) {
                    band.freq = text_of(value);
                    self.put_band(b, band);
                    self.has_freq.set(b, true);
                }
            },
            BandField::Gain => {
                if reads_as_float(value) {
                    band.gain = text_of(value);
                    self.put_band(b, band);
                    self.has_gain.set(b, true);
                }
            },
            BandField::Q => {
                if reads_as_float(value) {
                    band.q = text_of(value);
                    self.put_band(b, band);
                }
            },
        }
    }

    /// Takes a row with the given lowercase label and value.
    fn take_row(&mut self, label: &Vec<char>, value: &Vec<char>)
        requires
            old(self).wf(),
        ensures
            final(self).wf(),
            final(self).model() == with_row(old(self).model(), label@, value@),
    {
        if starts_with(label, "eq") {
            if let Some(b) = read_band(label) {
                let field = if contains(label, "type") {
                    BandField::Type
                } else if contains(label, "freq") {
                    BandField::Freq
                } else if contains(label, "gain") {
                    BandField::Gain
                } else {
                    BandField::Q
                };
                self.take_band_field(b, field, value);
            }
        } else if is_text(label, "crossfeed realism") {
            self.profile.cf_realism = read_realism(value);
        } else if reads_as_float(value) {
            if is_text(label, "crossfeed angle") {
                self.profile.cf_angle = text_of(value);
            } else if is_text(label, "crossfeed amount") {
                self.profile.cf_amount = text_of(value);
            } else if is_text(label, "blend") {
                self.profile.blend = text_of(value);
            } else if is_text(label, "gain") {
                self.profile.gain = text_of(value);
            }
        }
    }

    /// Takes a line.
    fn take_line(&mut self, line: &Vec<char>)
        requires
            old(self).wf(),
        ensures
            final(self).wf(),
            final(self).model() == with_line(old(self).model(), line@),
    {
        let t = trim(line);
        if starts_with(&t, "|") {
            let row = split_trimmed(&t, '|');
            if row.len() >= 4 {
                assert(texts(row@)[1] == row@[1]@ && texts(row@)[2] == row@[2]@);
                let label = lower(&row[1]);
                self.take_row(&label, &row[2]);
            }
        }
        if starts_with(&t, "# ") && !starts_with(&t, "## ") {
            self.profile.name = text_of(&trim(&skip_marks(&t)));
        }
    }

    /// Whether every band has got a frequency and a gain.
    fn complete(&self) -> (r: bool)
        requires
            self.wf(),
        ensures
            r == is_complete(self.model()),
    {
        let mut i: usize = 0;
        while i < 5
            invariant
                self.wf(),
                i <= 5,
                forall|k: int| 0 <= k < i ==> self.has_freq@[k] == true,
                forall|k: int| 0 <= k < i ==> self.has_gain@[k] == true,
            decreases 5 - i,
        {
            if !self.has_freq[i] || !self.has_gain[i] {
                proof {
                    let m = self.model();
                    assert(m.has_freq[i as int] == false || m.has_gain[i as int] == false);
                }
                return false;
            }
            i += 1;
        }
        true
    }
}

/// `v` without every `# ` that it begins with.
fn skip_marks(v: &Vec<char>) -> (r: Vec<char>)
    ensures
        r@ == without_marks(v@),
{
    let mut i: usize = 0;
    assert(v@.skip(0) == v@);
    while v.len() - i >= 2 && v[i] == '#' && v[i + 1] == ' '
        invariant
            i <= v.len(),
            without_marks(v@.skip(i as int)) == without_marks(v@),
        decreases v.len() - i,
    {
        assert(v@.skip(i as int).skip(2) == v@.skip(i + 2));
        i += 2;
    }
    part(v, i, v.len())
}

/// The band that a label names.
fn read_band(label: &Vec<char>) -> (r: Option<usize>)
    ensures
        match r {
            Some(b) => b < 5 && band_of(label@) == Some(b as int),
            None => band_of(label@) is None,
        },
{
    let mut i: usize = 0;
    assert(label@.skip(0) == label@);
    while i < label.len()
        invariant
            i <= label.len(),
            band_of(label@.skip(i as int)) == band_of(label@),
        decreases label.len() - i,
    {
        if digit(label[i]) {
            let d: usize = label[i] as usize - 48;
            let b: usize = if d <= 1 {
                0
            } else if d >= 5 {
                4
            } else {
                d - 1
            };
            return Some(b);
        }
        assert(label@.skip(i as int).skip(1) == label@.skip(i + 1));
        i += 1;
    }
    None
}

/// The band type that a cell names.
fn read_type(value: &Vec<char>) -> (r: i32)
    ensures
        r == type_named(value@),
{
    if is_text(value, "LSC") || is_text(value, "LS") {
        1
    } else if is_text(value, "PK") || is_text(value, "PEQ") {
        2
    } else if is_text(value, "HSC") || is_text(value, "HS") {
        3
    } else {
        0
    }
}

/// The crossfeed realism that a cell names.
fn read_realism(value: &Vec<char>) -> (r: i32)
    ensures
        r == realism_named(value@),
{
    if is_text(value, "LIFELIKE") {
        1
    } else if is_text(value, "HYPERREAL") || is_text(value, "HYPERREALISTIC") {
        2
    } else {
        0
    }
}

/// The text that an optional string holds.
pub open spec fn opt_text(s: Option<&str>) -> Option<Seq<char>> {
    match s {
        Some(t) => Some(t@),
        None => None,
    }
}

/// What an optional profile holds.
pub open spec fn opt_profile(p: Option<AetherProfile>) -> Option<ProfileText> {
    match p {
        Some(p) => Some(p@),
        None => None,
    }
}

/// Reads a preset file, given the plugin that its frontmatter names.
pub fn parse_aether_preset(content: &str, plugin: Option<&str>) -> (r: Option<AetherProfile>)
    ensures
        opt_profile(r) == preset_of(content@, opt_text(plugin)),
        r is Some ==> {
            let p = r->0;
            let said = preset_of(content@, opt_text(plugin))->0;
            &&& p.name@ == said.name
            &&& p.bands.len() == 5
            &&& forall|i: int|
                0 <= i < 5 ==> (#[trigger] p.bands@[i]).type_code == said.bands[i].type_code
                    && p.bands@[i].freq@ == said.bands[i].freq && p.bands@[i].gain@
                    == said.bands[i].gain && p.bands@[i].q@ == said.bands[i].q
            &&& p.cf_angle@ == said.cf_angle
            &&& p.cf_amount@ == said.cf_amount
            &&& p.cf_realism == said.cf_realism
            &&& p.blend@ == said.blend
            &&& p.gain@ == said.gain
        },
{
    match plugin {
        Some(p) => {
            if !is_text(&chars_of(p), "aether") {
                return None;
            }
        },
        None => {
            return None;
        },
    }
    let chars = chars_of(content);
    let ls = split_lines(&chars);
    let ghost all = lines(content@);
    let mut reader = Reader::new();
    let mut i: usize = 0;
    assert(all.take(0) == Seq::<Seq<char>>::empty());
    while i < ls.len()
        invariant
            i <= ls.len(),
            texts(ls@) == all,
            reader.wf(),
            reader.model() == read_lines(all.take(i as int)),
        decreases ls.len() - i,
    {
        proof {
            assert(all[i as int] == ls@[i as int]@);
            assert(all.take(i + 1).drop_last() == all.take(i as int));
            assert(all.take(i + 1).last() == all[i as int]);
        }
        reader.take_line(&ls[i]);
        i += 1;
    }
    assert(all.take(i as int) == all);
    if reader.complete() {
        assert forall|k: int| 0 <= k < 5 implies band_texts(reader.profile.bands@)[k] == (
        #[trigger] reader.profile.bands@[k])@ by {}
        Some(reader.profile)
    } else {
        None
    }
}

// ─── Writing ─────────────────────────────────────────────────────────────────

/// The line of a table row.
pub open spec fn row(label: Seq<char>, value: Seq<char>, tail: Seq<char>) -> Seq<char> {
    "| "@ + label + " | "@ + value + tail
}

/// The label of a field of band `i`.
pub open spec fn band_label(i: int, field: Seq<char>) -> Seq<char> {
    "EQ"@ + seq![digit_char(i + 1)] + field
}

/// The lines before the first row.
pub open spec fn preset_header() -> Seq<Seq<char>> {
    seq![
        "---"@,
        "plugin: aether"@,
        "type: preset"@,
        "---"@,
        ""@,
        "> Warning: Do NOT modify column names or table structure."@,
        ""@,
        "## Parameter"@,
        ""@,
        "| Parameter | Wert | Einheit |"@,
        "|---|---|---|"@,
    ]
}

/// `ls` and then the four rows of band `i`.
pub open spec fn with_band_rows(ls: Seq<Seq<char>>, i: int, b: BandText) -> Seq<Seq<char>> {
    ls.push(row(band_label(i, " Type"@), band_type_name(b.type_code), " | |"@)).push(
        row(band_label(i, " Freq"@), b.freq, " | Hz |"@),
    ).push(row(band_label(i, " Gain"@), b.gain, " | dB |"@)).push(
        row(band_label(i, " Q"@), b.q, " | |"@),
    )
}

/// The header and then the rows of the first `n` bands.
pub open spec fn band_lines(bands: Seq<BandText>, n: int) -> Seq<Seq<char>>
    decreases n,
{
    if n <= 0 {
        preset_header()
    } else {
        with_band_rows(band_lines(bands, n - 1), n - 1, bands[n - 1])
    }
}

/// The lines of the preset file for a profile.
pub open spec fn preset_lines(p: ProfileText) -> Seq<Seq<char>> {
    band_lines(p.bands, 5).push(row("Crossfeed Angle"@, p.cf_angle, " | ° |"@)).push(
        row("Crossfeed Amount"@, p.cf_amount, " | % |"@),
    ).push(row("Crossfeed Realism"@, realism_name(p.cf_realism), " | |"@)).push(
        row("Blend"@, p.blend, " | % |"@),
    ).push(row("Gain"@, p.gain, " | dB |"@))
}

/// The preset file for a profile.
pub open spec fn preset_text(p: ProfileText) -> Seq<char> {
    joined(preset_lines(p))
}

/// Puts the row of a table at the end of a document.
fn push_row(ls: &mut Vec<String>, label: &str, value: &str, tail: &str)
    ensures
        strings(final(ls)@) == strings(old(ls)@).push(row(label@, value@, tail@)),
{
    let mut s: String = "| ".to_owned();
    s.append(label);
    s.append(" | ");
    s.append(value);
    s.append(tail);
    let ghost had = ls@;
    let ghost t = s@;
    ls.push(s);
    assert(strings(ls@) == strings(had).push(t));
}

/// The label of a field of band `i`.
fn make_band_label(i: usize, field: &str) -> (r: String)
    requires
        i < 5,
    ensures
        r@ == band_label(i as int, field@),
{
    let d: u8 = 49 + i as u8;
    let mut s: String = "EQ".to_owned();
    s.push(d as char);
    s.append(field);
    s
}

/// Puts the four rows of band `i` at the end of a document.
fn push_band(ls: &mut Vec<String>, i: usize, b: &AetherBand)
    requires
        i < 5,
    ensures
        strings(final(ls)@) == with_band_rows(strings(old(ls)@), i as int, b@),
{
    push_row(ls, make_band_label(i, " Type").as_str(), band_type_label(b.type_code), " | |");
    push_row(ls, make_band_label(i, " Freq").as_str(), b.freq.as_str(), " | Hz |");
    push_row(ls, make_band_label(i, " Gain").as_str(), b.gain.as_str(), " | dB |");
    push_row(ls, make_band_label(i, " Q").as_str(), b.q.as_str(), " | |");
}

/// The preset file for a profile whose numbers are written as the file shows them.
pub fn build_profile_md(profile: &AetherProfile) -> (r: String)
    requires
        profile.bands.len() == 5,
    ensures
        r@ == preset_text(profile@),
        r@ == joined(preset_lines(profile@)),
{
    let mut ls: Vec<String> = Vec::new();
    push_line(&mut ls, "---");
    push_line(&mut ls, "plugin: aether");
    push_line(&mut ls, "type: preset");
    push_line(&mut ls, "---");
    push_line(&mut ls, "");
    push_line(&mut ls, "> Warning: Do NOT modify column names or table structure.");
    push_line(&mut ls, "");
    push_line(&mut ls, "## Parameter");
    push_line(&mut ls, "");
    push_line(&mut ls, "| Parameter | Wert | Einheit |");
    push_line(&mut ls, "|---|---|---|");
    assert(strings(ls@) == preset_header());
    let mut i: usize = 0;
    while i < 5
        invariant
            i <= 5,
            profile.bands.len() == 5,
            strings(ls@) == band_lines(band_texts(profile.bands@), i as int),
        decreases 5 - i,
    {
        push_band(&mut ls, i, &profile.bands[i]);
        i += 1;
    }
    push_row(&mut ls, "Crossfeed Angle", profile.cf_angle.as_str(), " | ° |");
    push_row(&mut ls, "Crossfeed Amount", profile.cf_amount.as_str(), " | % |");
    push_row(&mut ls, "Crossfeed Realism", realism_label(profile.cf_realism), " | |");
    push_row(&mut ls, "Blend", profile.blend.as_str(), " | % |");
    push_row(&mut ls, "Gain", profile.gain.as_str(), " | dB |");
    join_lines(&ls)
}

// ─── What is written is read back ────────────────────────────────────────────

/// Whether `s` can stand in a cell: it is not empty, no white space surrounds
/// it, and it holds neither a bar nor a line ending.
pub open spec fn is_cell(s: Seq<char>) -> bool {
    &&& s.len() > 0
    &&& is_clean(s)
    &&& forall|i: int| 0 <= i < s.len() ==> s[i] != '|' && s[i] != '\n' && s[i] != '\r'
}

/// A row is read as its label and its value.
proof fn lemma_row_read(label: Seq<char>, value: Seq<char>, tail: Seq<char>, rest: Seq<char>)
    requires
        is_cell(label),
        is_cell(value),
        tail == seq![' ', '|'] + rest,
        rest.len() > 0,
        rest.last() == '|',
        forall|i: int| 0 <= i < rest.len() ==> rest[i] != '\n',
    ensures
        is_line(row(label, value, tail)),
        forall|r: Reading|
            #[trigger] with_line(r, row(label, value, tail)) == with_row(r, lowercased(label), value),
{
    reveal_strlit("| ");
    reveal_strlit(" | ");
    reveal_strlit("|");
    reveal_strlit("# ");
    let t = row(label, value, tail);
    let sp = seq![' '];
    let none = Seq::<char>::empty();
    let rest2 = rest;
    let rest1 = (sp + value + sp) + seq!['|'] + rest2;
    let rest0 = (sp + label + sp) + seq!['|'] + rest1;
    assert(t == none + seq!['|'] + rest0);
    lemma_first_cell(none, rest0, '|');
    lemma_first_cell(sp + label + sp, rest1, '|');
    lemma_first_cell(sp + value + sp, rest2, '|');
    lemma_some_cell(rest2, '|');
    let c = cells(t, '|');
    assert(c[1] == sp + label + sp);
    assert(c[2] == sp + value + sp);
    lemma_trim(sp, label, sp);
    lemma_trim(sp, value, sp);
    assert(t.last() == rest.last());
    lemma_trim_clean(t);
    assert(t.subrange(0, 1) == "|"@);
    assert(!has_prefix(t, "# "@)) by {
        assert(t.subrange(0, 2)[0] == '|');
    }
}

/// What is kept of a profile that is written and read: the band types and the
/// realism that have a label, every number, and no name.
pub open spec fn as_saved(p: ProfileText) -> ProfileText {
    ProfileText {
        name: ""@,
        bands: p.bands.map_values(|b: BandText| saved_band(b)),
        cf_realism: if 1 <= p.cf_realism <= 2 {
            p.cf_realism
        } else {
            0
        },
        ..p
    }
}

/// A number can stand in a cell.
proof fn lemma_number_cell(s: Seq<char>)
    requires
        is_float(s),
    ensures
        is_cell(s),
{
    lemma_number_chars(s);
    assert(is_number_char(s[0]) && is_number_char(s.last()));
}

/// What the label of a field of a band says.
proof fn lemma_band_label(i: int, field: BandField, name: Seq<char>)
    requires
        0 <= i < 5,
        name == (match field {
            BandField::Type => " Type"@,
            BandField::Freq => " Freq"@,
            BandField::Gain => " Gain"@,
            BandField::Q => " Q"@,
        }),
    ensures
        is_cell(band_label(i, name)),
        has_prefix(lowercased(band_label(i, name)), "eq"@),
        band_of(lowercased(band_label(i, name))) == Some(i),
        field_of(lowercased(band_label(i, name))) == field,
{
    reveal_strlit("EQ");
    reveal_strlit(" Type");
    reveal_strlit(" Freq");
    reveal_strlit(" Gain");
    reveal_strlit(" Q");
    reveal_strlit("eq");
    reveal_strlit("type");
    reveal_strlit("freq");
    reveal_strlit("gain");
    let label = band_label(i, name);
    let d = digit_char(i + 1);
    assert('1' <= d <= '5');
    assert(label[0] == 'E' && label[1] == 'Q' && label[2] == d);
    assert(is_ascii_text(label));
    let low = lowercased(label);
    assert(low == ascii_lower(label));
    assert(low[0] == 'e' && low[1] == 'q' && low[2] == d);
    assert(low.subrange(0, 2) == "eq"@);
    assert(low.skip(1)[0] == low[1]);
    assert(low.skip(1).skip(1)[0] == low[2]);
    reveal_with_fuel(band_of, 4);
    assert(band_of(low) == Some(i));
    match field {
        BandField::Type => {
            assert(low.subrange(4, 8) == "type"@);
            assert(occurs_at(low, "type"@, 4));
        },
        BandField::Freq => {
            lemma_no_text(low, "type"@);
            assert(low.subrange(4, 8) == "freq"@);
            assert(occurs_at(low, "freq"@, 4));
        },
        BandField::Gain => {
            lemma_no_text(low, "type"@);
            lemma_no_text(low, "freq"@);
            assert(low.subrange(4, 8) == "gain"@);
            assert(occurs_at(low, "gain"@, 4));
        },
        BandField::Q => {
            lemma_no_text(low, "type"@);
            lemma_no_text(low, "freq"@);
            lemma_no_text(low, "gain"@);
        },
    }
}

/// The label of a band type is read as the type.
proof fn lemma_type_read(t: i32)
    ensures
        is_cell(band_type_name(t)),
        type_named(band_type_name(t)) == (if 1 <= t <= 3 {
            t
        } else {
            0
        }),
{
    reveal_strlit("LSC");
    reveal_strlit("LS");
    reveal_strlit("PK");
    reveal_strlit("PEQ");
    reveal_strlit("HSC");
    reveal_strlit("HS");
    reveal_strlit("OFF");
    let n = band_type_name(t);
    assert(n[0] != "PEQ"@[0] || n[1] != "PEQ"@[1]);
    assert("OFF"@[0] == 'O' && "LSC"@[0] == 'L' && "HSC"@[0] == 'H' && "PK"@[0] == 'P');
    assert("LS"@.len() == 2 && "HS"@.len() == 2 && "PK"@.len() == 2);
}

/// The label of a realism is read as the realism.
proof fn lemma_realism_read(c: i32)
    ensures
        is_cell(realism_name(c)),
        realism_named(realism_name(c)) == (if 1 <= c <= 2 {
            c
        } else {
            0
        }),
{
    reveal_strlit("LIFELIKE");
    reveal_strlit("HYPERREAL");
    reveal_strlit("HYPERREALISTIC");
    reveal_strlit("STANDARD");
    assert("LIFELIKE"@[0] == 'L' && "HYPERREAL"@[0] == 'H' && "STANDARD"@[0] == 'S');
    assert("HYPERREALISTIC"@[0] == 'H');
}

/// A line that is neither a row nor a heading changes nothing.
proof fn lemma_idle_line(l: Seq<char>)
    requires
        is_clean(l),
        l.len() > 0 ==> l[0] != '|',
        l.len() > 1 ==> l[0] != '#' || l[1] != ' ',
    ensures
        forall|r: Reading| #[trigger] with_line(r, l) == r,
{
    reveal_strlit("|");
    reveal_strlit("# ");
    lemma_trim_clean(l);
    assert(!has_prefix(l, "|"@)) by {
        if has_prefix(l, "|"@) {
            assert(l.subrange(0, 1)[0] == l[0]);
        }
    }
    assert(!has_prefix(l, "# "@)) by {
        if has_prefix(l, "# "@) {
            assert(l.subrange(0, 2)[0] == l[0]);
            assert(l.subrange(0, 2)[1] == l[1]);
        }
    }
}

/// A row whose label is none of those that are known changes nothing.
proof fn lemma_unknown_row(label: Seq<char>)
    requires
        label.len() == 3 || label.len() == 9,
        label[0] != 'e',
    ensures
        forall|r: Reading, value: Seq<char>| with_row(r, label, value) == r,
{
    reveal_strlit("eq");
    reveal_strlit("crossfeed realism");
    reveal_strlit("crossfeed angle");
    reveal_strlit("crossfeed amount");
    reveal_strlit("blend");
    reveal_strlit("gain");
    assert(!has_prefix(label, "eq"@)) by {
        assert(label.subrange(0, 2)[0] == label[0]);
    }
}

/// The lines before the first row say nothing.
proof fn lemma_header_read()
    ensures
        read_lines(preset_header()) == nothing_read(),
        forall|i: int| 0 <= i < preset_header().len() ==> is_line(#[trigger] preset_header()[i]),
{
    reveal_strlit("---");
    reveal_strlit("plugin: aether");
    reveal_strlit("type: preset");
    reveal_strlit("");
    reveal_strlit("> Warning: Do NOT modify column names or table structure.");
    reveal_strlit("## Parameter");
    let h = preset_header();
    lemma_idle_line("---"@);
    lemma_idle_line("plugin: aether"@);
    lemma_idle_line("type: preset"@);
    lemma_idle_line(""@);
    lemma_idle_line("> Warning: Do NOT modify column names or table structure."@);
    lemma_idle_line("## Parameter"@);
    lemma_header_rows();
    let r = nothing_read();
    reveal_with_fuel(read_lines, 12);
    assert(h.take(0).len() == 0);
    assert(read_lines(h.take(0)) == r);
    assert(h.take(1).drop_last() == h.take(0) && h.take(1).last() == h[0]);
    assert(h.take(2).drop_last() == h.take(1) && h.take(2).last() == h[1]);
    assert(h.take(3).drop_last() == h.take(2) && h.take(3).last() == h[2]);
    assert(h.take(4).drop_last() == h.take(3) && h.take(4).last() == h[3]);
    assert(h.take(5).drop_last() == h.take(4) && h.take(5).last() == h[4]);
    assert(h.take(6).drop_last() == h.take(5) && h.take(6).last() == h[5]);
    assert(h.take(7).drop_last() == h.take(6) && h.take(7).last() == h[6]);
    assert(h.take(8).drop_last() == h.take(7) && h.take(8).last() == h[7]);
    assert(h.take(9).drop_last() == h.take(8) && h.take(9).last() == h[8]);
    assert(h.take(10).drop_last() == h.take(9) && h.take(10).last() == h[9]);
    assert(h.take(11).drop_last() == h.take(10) && h.take(11).last() == h[10]);
    assert(h.take(11) == h);
}

/// The heading rows of the table say nothing.
proof fn lemma_header_rows()
    ensures
        is_line("| Parameter | Wert | Einheit |"@),
        is_line("|---|---|---|"@),
        forall|r: Reading| #[trigger] with_line(r, "| Parameter | Wert | Einheit |"@) == r,
        forall|r: Reading| #[trigger] with_line(r, "|---|---|---|"@) == r,
{
    reveal_strlit("| Parameter | Wert | Einheit |");
    reveal_strlit("|---|---|---|");
    reveal_strlit("| ");
    reveal_strlit(" | ");
    reveal_strlit("|");
    reveal_strlit("# ");
    let label = seq!['P', 'a', 'r', 'a', 'm', 'e', 't', 'e', 'r'];
    let value = seq!['W', 'e', 'r', 't'];
    let rest = seq![' ', 'E', 'i', 'n', 'h', 'e', 'i', 't', ' ', '|'];
    let tail = seq![' ', '|'] + rest;
    assert(row(label, value, tail) == "| Parameter | Wert | Einheit |"@);
    lemma_row_read(label, value, tail, rest);
    assert(is_ascii_text(label));
    assert(lowercased(label)[0] == 'p');
    lemma_unknown_row(lowercased(label));
    let t = "|---|---|---|"@;
    let dash = seq!['-', '-', '-'];
    let none = Seq::<char>::empty();
    let bar = seq!['|'];
    let rest1 = dash + bar + none;
    let rest2 = dash + bar + rest1;
    let rest3 = dash + bar + rest2;
    assert(t == none + bar + rest3);
    lemma_first_cell(none, rest3, '|');
    lemma_first_cell(dash, rest2, '|');
    lemma_first_cell(dash, rest1, '|');
    lemma_first_cell(dash, none, '|');
    assert(cells(t, '|')[1] == dash);
    lemma_trim_clean(dash);
    lemma_trim_clean(t);
    assert(is_ascii_text(dash));
    assert(lowercased(dash)[0] == '-');
    lemma_unknown_row(lowercased(dash));
    assert(!has_prefix(t, "# "@)) by {
        assert(t.subrange(0, 2)[0] == '|');
    }
}

/// A band whose type has been written and read.
pub open spec fn saved_band(b: BandText) -> BandText {
    BandText {
        type_code: if 1 <= b.type_code <= 3 {
            b.type_code
        } else {
            0
        },
        ..b
    }
}

/// The four rows of a band are read as the band.
proof fn lemma_band_read(ls: Seq<Seq<char>>, i: int, b: BandText)
    requires
        0 <= i < 5,
        is_float(b.freq),
        is_float(b.gain),
        is_float(b.q),
        read_lines(ls).profile.bands.len() == 5,
        read_lines(ls).has_freq.len() == 5,
        read_lines(ls).has_gain.len() == 5,
        forall|k: int| 0 <= k < ls.len() ==> is_line(#[trigger] ls[k]),
    ensures
        read_lines(with_band_rows(ls, i, b)) == (Reading {
            profile: ProfileText {
                bands: read_lines(ls).profile.bands.update(i, saved_band(b)),
                ..read_lines(ls).profile
            },
            has_freq: read_lines(ls).has_freq.update(i, true),
            has_gain: read_lines(ls).has_gain.update(i, true),
        }),
        forall|k: int|
            0 <= k < with_band_rows(ls, i, b).len() ==> is_line(#[trigger] with_band_rows(ls, i, b)[k]),
{
    reveal_strlit(" | |");
    reveal_strlit(" | Hz |");
    reveal_strlit(" | dB |");
    lemma_number_cell(b.freq);
    lemma_number_cell(b.gain);
    lemma_number_cell(b.q);
    lemma_type_read(b.type_code);
    lemma_band_label(i, BandField::Type, " Type"@);
    lemma_band_label(i, BandField::Freq, " Freq"@);
    lemma_band_label(i, BandField::Gain, " Gain"@);
    lemma_band_label(i, BandField::Q, " Q"@);
    let plain = seq![' ', '|'];
    let hz = seq![' ', 'H', 'z', ' ', '|'];
    let db = seq![' ', 'd', 'B', ' ', '|'];
    assert(" | |"@ == seq![' ', '|'] + plain);
    assert(" | Hz |"@ == seq![' ', '|'] + hz);
    assert(" | dB |"@ == seq![' ', '|'] + db);
    lemma_row_read(band_label(i, " Type"@), band_type_name(b.type_code), " | |"@, plain);
    lemma_row_read(band_label(i, " Freq"@), b.freq, " | Hz |"@, hz);
    lemma_row_read(band_label(i, " Gain"@), b.gain, " | dB |"@, db);
    lemma_row_read(band_label(i, " Q"@), b.q, " | |"@, plain);
    let l1 = ls.push(row(band_label(i, " Type"@), band_type_name(b.type_code), " | |"@));
    let l2 = l1.push(row(band_label(i, " Freq"@), b.freq, " | Hz |"@));
    let l3 = l2.push(row(band_label(i, " Gain"@), b.gain, " | dB |"@));
    let l4 = l3.push(row(band_label(i, " Q"@), b.q, " | |"@));
    assert(l4 == with_band_rows(ls, i, b));
    assert(l1.drop_last() == ls);
    assert(l2.drop_last() == l1);
    assert(l3.drop_last() == l2);
    assert(l4.drop_last() == l3);
    let r = read_lines(ls);
    assert(read_lines(l1) == with_line(r, l1.last()));
    assert(read_lines(l2) == with_line(read_lines(l1), l2.last()));
    assert(read_lines(l3) == with_line(read_lines(l2), l3.last()));
    assert(read_lines(l4) == with_line(read_lines(l3), l4.last()));
    let r4 = read_lines(l4);
    assert(r4.profile.bands == r.profile.bands.update(i, saved_band(b)));
    assert(r4.has_freq == r.has_freq.update(i, true));
    assert(r4.has_gain == r.has_gain.update(i, true));
}

/// The header and the rows of the first `n` bands are read as those bands.
proof fn lemma_bands_read(p: ProfileText, n: int)
    requires
        p.wf(),
        0 <= n <= 5,
    ensures
        ({
            let r = read_lines(band_lines(p.bands, n));
            let start = nothing_read();
            &&& r.profile == (ProfileText { bands: r.profile.bands, ..start.profile })
            &&& r.profile.bands.len() == 5
            &&& r.has_freq.len() == 5
            &&& r.has_gain.len() == 5
            &&& forall|k: int| 0 <= k < n ==> r.profile.bands[k] == saved_band(p.bands[k])
            &&& forall|k: int| 0 <= k < n ==> r.has_freq[k] == true
            &&& forall|k: int| 0 <= k < n ==> r.has_gain[k] == true
        }),
        forall|k: int|
            0 <= k < band_lines(p.bands, n).len() ==> is_line(#[trigger] band_lines(p.bands, n)[k]),
    decreases n,
{
    if n == 0 {
        lemma_header_read();
    } else {
        lemma_bands_read(p, n - 1);
        assert(is_float(p.bands[n - 1].freq));
        lemma_band_read(band_lines(p.bands, n - 1), n - 1, p.bands[n - 1]);
    }
}

/// A preset that is written for a profile is read back as that profile: the
/// same bands, crossfeed, blend and gain. The name is not in the text, and a
/// type or realism without a label of its own reads as off or standard.
pub proof fn law_preset_reads_back(p: ProfileText)
    requires
        p.wf(),
    ensures
        preset_of(preset_text(p), Some("aether"@)) == Some(as_saved(p)),
{
    lemma_bands_read(p, 5);
    let l0 = band_lines(p.bands, 5);
    let l1 = l0.push(row("Crossfeed Angle"@, p.cf_angle, " | ° |"@));
    let l2 = l1.push(row("Crossfeed Amount"@, p.cf_amount, " | % |"@));
    let l3 = l2.push(row("Crossfeed Realism"@, realism_name(p.cf_realism), " | |"@));
    let l4 = l3.push(row("Blend"@, p.blend, " | % |"@));
    let l5 = l4.push(row("Gain"@, p.gain, " | dB |"@));
    assert(l5 == preset_lines(p));
    assert(l1.drop_last() == l0);
    assert(l2.drop_last() == l1);
    assert(l3.drop_last() == l2);
    assert(l4.drop_last() == l3);
    assert(l5.drop_last() == l4);
    lemma_last_rows(p);
    law_lines_read_back(l5);
    assert(read_lines(l1) == with_line(read_lines(l0), l1.last()));
    assert(read_lines(l2) == with_line(read_lines(l1), l2.last()));
    assert(read_lines(l3) == with_line(read_lines(l2), l3.last()));
    assert(read_lines(l4) == with_line(read_lines(l3), l4.last()));
    assert(read_lines(l5) == with_line(read_lines(l4), l5.last()));
    let r = read_lines(l5);
    assert(r.profile.bands == as_saved(p).bands);
    assert(r.profile == as_saved(p));
}

/// Whether every band type and the realism has a label of its own.
pub open spec fn is_labelled(p: ProfileText) -> bool {
    &&& 0 <= p.cf_realism <= 2
    &&& forall|i: int| 0 <= i < p.bands.len() ==> 0 <= (#[trigger] p.bands[i]).type_code <= 3
}

/// The defaults are numbers.
proof fn lemma_defaults()
    ensures
        is_float("105.0"@),
        is_float("0.7"@),
        is_float("0.0"@),
        is_float("60.0"@),
        is_float("100.0"@),
{
    reveal_strlit("105.0");
    reveal_strlit("0.7");
    reveal_strlit("0.0");
    reveal_strlit("60.0");
    reveal_strlit("100.0");
    lemma_plain_number("105.0"@, 3);
    lemma_plain_number("0.7"@, 1);
    lemma_plain_number("0.0"@, 1);
    lemma_plain_number("60.0"@, 2);
    lemma_plain_number("100.0"@, 3);
}

proof fn lemma_read_wf(ls: Seq<Seq<char>>)
    ensures
        read_lines(ls).profile.wf(),
        is_labelled(read_lines(ls).profile),
    decreases ls.len(),
{
    if ls.len() == 0 {
        lemma_defaults();
    } else {
        lemma_read_wf(ls.drop_last());
        let r = read_lines(ls.drop_last());
        let t = trimmed(ls.last());
        let row = trimmed_cells(t, '|');
        if has_prefix(t, "|"@) && row.len() >= 4 {
            lemma_row_wf(r, lowercased(row[1]), row[2]);
        }
    }
}

#[verifier::rlimit(40)]
proof fn lemma_row_wf(r: Reading, label: Seq<char>, value: Seq<char>)
    requires
        r.profile.wf(),
        is_labelled(r.profile),
    ensures
        with_row(r, label, value).profile.wf(),
        is_labelled(with_row(r, label, value).profile),
{
    let p = with_row(r, label, value).profile;
    if has_prefix(label, "eq"@) {
        lemma_band_of(label);
        if band_of(label) is Some {
            let b = band_of(label)->0;
            let had = r.profile.bands[b];
            assert(is_float(had.freq));
            let new = p.bands[b];
            assert(p.bands =~= r.profile.bands.update(b, new));
            assert(p.cf_angle == r.profile.cf_angle);
            assert forall|i: int| 0 <= i < 5 implies ({
                &&& is_float(#[trigger] p.bands[i].freq)
                &&& is_float(p.bands[i].gain)
                &&& is_float(p.bands[i].q)
            }) by {
                assert(is_float(r.profile.bands[i].freq));
            }
            assert forall|i: int| 0 <= i < p.bands.len() implies 0 <= (
            #[trigger] p.bands[i]).type_code <= 3 by {
                assert(0 <= r.profile.bands[i].type_code <= 3);
            }
        }
    } else {
        assert(p.bands == r.profile.bands);
        assert forall|i: int| 0 <= i < 5 implies ({
            &&& is_float(#[trigger] p.bands[i].freq)
            &&& is_float(p.bands[i].gain)
            &&& is_float(p.bands[i].q)
        }) by {
            assert(is_float(r.profile.bands[i].freq));
        }
    }
}

proof fn lemma_band_of(label: Seq<char>)
    ensures
        band_of(label) is Some ==> 0 <= band_of(label)->0 < 5,
    decreases label.len(),
{
    if label.len() > 0 && !is_digit(label[0]) {
        lemma_band_of(label.skip(1));
    }
}

/// A preset that can be read holds five bands, a number in every place that
/// asks for one, and only types and a realism that have a label of their own.
pub proof fn law_read_preset_is_complete(content: Seq<char>, plugin: Option<Seq<char>>)
    requires
        preset_of(content, plugin) is Some,
    ensures
        preset_of(content, plugin)->0.wf(),
        is_labelled(preset_of(content, plugin)->0),
{
    lemma_read_wf(lines(content));
}

/// A preset that was read can be saved and read again, and is then the same
/// but for its name.
pub proof fn law_saving_keeps_what_was_read(content: Seq<char>, plugin: Option<Seq<char>>)
    requires
        preset_of(content, plugin) is Some,
    ensures
        ({
            let p = preset_of(content, plugin)->0;
            preset_of(preset_text(p), Some("aether"@)) == Some(ProfileText { name: ""@, ..p })
        }),
{
    let p = preset_of(content, plugin)->0;
    law_read_preset_is_complete(content, plugin);
    law_preset_reads_back(p);
    assert(as_saved(p).bands == p.bands);
}

/// The rows after the bands are read as what they say.
proof fn lemma_last_rows(p: ProfileText)
    requires
        p.wf(),
    ensures
        is_line(row("Crossfeed Angle"@, p.cf_angle, " | ° |"@)),
        is_line(row("Crossfeed Amount"@, p.cf_amount, " | % |"@)),
        is_line(row("Crossfeed Realism"@, realism_name(p.cf_realism), " | |"@)),
        is_line(row("Blend"@, p.blend, " | % |"@)),
        is_line(row("Gain"@, p.gain, " | dB |"@)),
        forall|r: Reading|
            #[trigger] with_line(r, row("Crossfeed Angle"@, p.cf_angle, " | ° |"@)) == (Reading {
                profile: ProfileText { cf_angle: p.cf_angle, ..r.profile },
                ..r
            }),
        forall|r: Reading|
            #[trigger] with_line(r, row("Crossfeed Amount"@, p.cf_amount, " | % |"@)) == (Reading {
                profile: ProfileText { cf_amount: p.cf_amount, ..r.profile },
                ..r
            }),
        forall|r: Reading|
            #[trigger] with_line(r, row("Crossfeed Realism"@, realism_name(p.cf_realism), " | |"@)) == (Reading {
                profile: ProfileText { cf_realism: as_saved(p).cf_realism, ..r.profile },
                ..r
            }),
        forall|r: Reading|
            #[trigger] with_line(r, row("Blend"@, p.blend, " | % |"@)) == (Reading {
                profile: ProfileText { blend: p.blend, ..r.profile },
                ..r
            }),
        forall|r: Reading|
            #[trigger] with_line(r, row("Gain"@, p.gain, " | dB |"@)) == (Reading {
                profile: ProfileText { gain: p.gain, ..r.profile },
                ..r
            }),
{
    lemma_number_cell(p.cf_angle);
    lemma_number_cell(p.cf_amount);
    lemma_number_cell(p.blend);
    lemma_number_cell(p.gain);
    lemma_realism_read(p.cf_realism);
    lemma_last_labels();
    reveal_strlit(" | ° |");
    reveal_strlit(" | % |");
    reveal_strlit(" | |");
    reveal_strlit(" | dB |");
    let plain = seq![' ', '|'];
    let deg = seq![' ', '°', ' ', '|'];
    let pct = seq![' ', '%', ' ', '|'];
    let db = seq![' ', 'd', 'B', ' ', '|'];
    assert(" | ° |"@ == seq![' ', '|'] + deg);
    assert(" | % |"@ == seq![' ', '|'] + pct);
    assert(" | |"@ == seq![' ', '|'] + plain);
    assert(" | dB |"@ == seq![' ', '|'] + db);
    lemma_row_read("Crossfeed Angle"@, p.cf_angle, " | ° |"@, deg);
    lemma_row_read("Crossfeed Amount"@, p.cf_amount, " | % |"@, pct);
    lemma_row_read("Crossfeed Realism"@, realism_name(p.cf_realism), " | |"@, plain);
    lemma_row_read("Blend"@, p.blend, " | % |"@, pct);
    lemma_row_read("Gain"@, p.gain, " | dB |"@, db);
}

/// What the labels of the rows after the bands are in lowercase.
proof fn lemma_last_labels()
    ensures
        is_cell("Crossfeed Angle"@),
        is_cell("Crossfeed Amount"@),
        is_cell("Crossfeed Realism"@),
        is_cell("Blend"@),
        is_cell("Gain"@),
        lowercased("Crossfeed Angle"@) == "crossfeed angle"@,
        lowercased("Crossfeed Amount"@) == "crossfeed amount"@,
        lowercased("Crossfeed Realism"@) == "crossfeed realism"@,
        lowercased("Blend"@) == "blend"@,
        lowercased("Gain"@) == "gain"@,
        !has_prefix("crossfeed angle"@, "eq"@),
        !has_prefix("crossfeed amount"@, "eq"@),
        !has_prefix("crossfeed realism"@, "eq"@),
        !has_prefix("blend"@, "eq"@),
        !has_prefix("gain"@, "eq"@),
        "crossfeed angle"@.len() == 15,
        "crossfeed amount"@.len() == 16,
        "crossfeed realism"@.len() == 17,
        "blend"@.len() == 5,
        "gain"@.len() == 4,
{
    reveal_strlit("Crossfeed Angle");
    reveal_strlit("Crossfeed Amount");
    reveal_strlit("Crossfeed Realism");
    reveal_strlit("Blend");
    reveal_strlit("Gain");
    reveal_strlit("crossfeed angle");
    reveal_strlit("crossfeed amount");
    reveal_strlit("crossfeed realism");
    reveal_strlit("blend");
    reveal_strlit("gain");
    reveal_strlit("eq");
    assert(is_ascii_text("Crossfeed Angle"@));
    assert(is_ascii_text("Crossfeed Amount"@));
    assert(is_ascii_text("Crossfeed Realism"@));
    assert(is_ascii_text("Blend"@));
    assert(is_ascii_text("Gain"@));
    assert(ascii_lower("Crossfeed Angle"@) == "crossfeed angle"@);
    assert(ascii_lower("Crossfeed Amount"@) == "crossfeed amount"@);
    assert(ascii_lower("Crossfeed Realism"@) == "crossfeed realism"@);
    assert(ascii_lower("Blend"@) == "blend"@);
    assert(ascii_lower("Gain"@) == "gain"@);
    assert("crossfeed angle"@.subrange(0, 2)[0] == 'c');
    assert("crossfeed amount"@.subrange(0, 2)[0] == 'c');
    assert("crossfeed realism"@.subrange(0, 2)[0] == 'c');
    assert("blend"@.subrange(0, 2)[0] == 'b');
    assert("gain"@.subrange(0, 2)[0] == 'g');
    assert("eq"@[0] == 'e');
}

// ─── What a row sets ─────────────────────────────────────────────────────────

/// Whether a line is a row of a table, with a label and a value.
pub open spec fn is_row(line: Seq<char>) -> bool {
    let t = trimmed(line);
    t.len() > 0 && t[0] == '|' && cells(t, '|').len() >= 4
}

/// The label of a row, in lowercase.
pub open spec fn row_label(line: Seq<char>) -> Seq<char> {
    lowercased(trimmed(cells(trimmed(line), '|')[1]))
}

/// The value of a row.
pub open spec fn row_value(line: Seq<char>) -> Seq<char> {
    trimmed(cells(trimmed(line), '|')[2])
}

/// Whether a label names band `b`: its first digit is the number of the band,
/// where 0 is taken for 1, and 6 to 9 for 5.
pub open spec fn names_band(label: Seq<char>, b: int) -> bool {
    exists|k: int|
        #![trigger label[k]]
        0 <= k < label.len() && '0' <= label[k] <= '9' && (forall|j: int|
            0 <= j < k ==> !('0' <= #[trigger] label[j] <= '9')) && (label[k] as int == 49 + b
                || (b == 0
            && label[k] == '0') || (b == 4 && label[k] > '5'))
}

/// Whether a line is a row of band `b`.
pub open spec fn is_band_row(line: Seq<char>, b: int) -> bool {
    &&& is_row(line)
    &&& row_label(line).len() >= 2
    &&& row_label(line)[0] == 'e'
    &&& row_label(line)[1] == 'q'
    &&& names_band(row_label(line), b)
}

/// Whether a line sets the type of band `b`.
pub open spec fn sets_type(line: Seq<char>, b: int) -> bool {
    is_band_row(line, b) && has_text(row_label(line), "type"@)
}

/// Whether a line sets the frequency of band `b`.
pub open spec fn sets_freq(line: Seq<char>, b: int) -> bool {
    &&& is_band_row(line, b)
    &&& !has_text(row_label(line), "type"@)
    &&& has_text(row_label(line), "freq"@)
    &&& is_float(row_value(line))
}

/// Whether a line sets the gain of band `b`.
pub open spec fn sets_gain(line: Seq<char>, b: int) -> bool {
    &&& is_band_row(line, b)
    &&& !has_text(row_label(line), "type"@)
    &&& !has_text(row_label(line), "freq"@)
    &&& has_text(row_label(line), "gain"@)
    &&& is_float(row_value(line))
}

/// Whether a line sets the quality of band `b`.
pub open spec fn sets_q(line: Seq<char>, b: int) -> bool {
    &&& is_band_row(line, b)
    &&& !has_text(row_label(line), "type"@)
    &&& !has_text(row_label(line), "freq"@)
    &&& !has_text(row_label(line), "gain"@)
    &&& is_float(row_value(line))
}

/// Whether a line sets the number that stands under a label of its own.
pub open spec fn sets_number(line: Seq<char>, label: Seq<char>) -> bool {
    is_row(line) && row_label(line) == label && is_float(row_value(line))
}

/// Whether a line sets the realism of the crossfeed.
pub open spec fn sets_realism(line: Seq<char>) -> bool {
    is_row(line) && row_label(line) == "crossfeed realism"@
}

/// Whether a line is a first-level heading.
pub open spec fn is_heading(line: Seq<char>) -> bool {
    let t = trimmed(line);
    t.len() >= 2 && t[0] == '#' && t[1] == ' '
}

/// The type that a value stands for: 1 for a low shelf, 2 for a peak, 3 for a
/// high shelf, and 0 for anything else.
pub open spec fn is_type_of(value: Seq<char>, code: i32) -> bool {
    &&& code == 1 <==> (value == "LSC"@ || value == "LS"@)
    &&& code == 2 <==> (value == "PK"@ || value == "PEQ"@)
    &&& code == 3 <==> (value == "HSC"@ || value == "HS"@)
    &&& 0 <= code <= 3
}

/// The realism that a value stands for.
pub open spec fn is_realism_of(value: Seq<char>, code: i32) -> bool {
    &&& code == 1 <==> value == "LIFELIKE"@
    &&& code == 2 <==> (value == "HYPERREAL"@ || value == "HYPERREALISTIC"@)
    &&& 0 <= code <= 2
}

proof fn lemma_band_named(label: Seq<char>, b: int)
    requires
        0 <= b < 5,
    ensures
        names_band(label, b) <==> band_of(label) == Some(b),
    decreases label.len(),
{
    if label.len() > 0 {
        if is_digit(label[0]) {
            if names_band(label, b) {
                let k = choose|k: int|
                    #![trigger label[k]]
                    0 <= k < label.len() && '0' <= label[k] <= '9' && (forall|j: int|
                        0 <= j < k ==> !('0' <= #[trigger] label[j] <= '9')) && (label[k] as int == 49
                        + b || (b == 0 && label[k] == '0') || (b == 4 && label[k] > '5'));
                if k > 0 {
                    assert(!('0' <= label[0] <= '9'));
                }
            }
            if band_of(label) == Some(b) {
                assert('0' <= label[0] <= '9');
            }
        } else {
            let rest = label.skip(1);
            lemma_band_named(rest, b);
            if names_band(label, b) {
                let k = choose|k: int|
                    #![trigger label[k]]
                    0 <= k < label.len() && '0' <= label[k] <= '9' && (forall|j: int|
                        0 <= j < k ==> !('0' <= #[trigger] label[j] <= '9')) && (label[k] as int == 49
                        + b || (b == 0 && label[k] == '0') || (b == 4 && label[k] > '5'));
                assert(rest[k - 1] == label[k]);
                assert forall|j: int| 0 <= j < k - 1 implies !('0' <= #[trigger] rest[j] <= '9') by {
                    assert(!('0' <= label[j + 1] <= '9'));
                }
                assert(names_band(rest, b));
            }
            if names_band(rest, b) {
                let k = choose|k: int|
                    #![trigger rest[k]]
                    0 <= k < rest.len() && '0' <= rest[k] <= '9' && (forall|j: int|
                        0 <= j < k ==> !('0' <= #[trigger] rest[j] <= '9')) && (rest[k] as int == 49
                        + b || (b == 0 && rest[k] == '0') || (b == 4 && rest[k] > '5'));
                assert(label[k + 1] == rest[k]);
                assert forall|j: int| 0 <= j < k + 1 implies !('0' <= #[trigger] label[j] <= '9') by {
                    if j > 0 {
                        assert(!('0' <= rest[j - 1] <= '9'));
                    }
                }
                assert(names_band(label, b));
            }
        }
    }
}

/// What a line does to what has been read: it sets what it names, and nothing
/// else.
#[verifier::rlimit(40)]
proof fn lemma_line_sets(r: Reading, line: Seq<char>, b: int)
    requires
        0 <= b < 5,
        r.profile.bands.len() == 5,
        r.has_freq.len() == 5,
        r.has_gain.len() == 5,
    ensures
        ({
            let n = with_line(r, line);
            let v = row_value(line);
            &&& n.profile.bands.len() == 5
            &&& n.has_freq.len() == 5
            &&& n.has_gain.len() == 5
            &&& if sets_type(line, b) {
                is_type_of(v, n.profile.bands[b].type_code)
            } else {
                n.profile.bands[b].type_code == r.profile.bands[b].type_code
            }
            &&& n.profile.bands[b].freq == if sets_freq(line, b) {
                v
            } else {
                r.profile.bands[b].freq
            }
            &&& n.has_freq[b] == (sets_freq(line, b) || r.has_freq[b])
            &&& n.profile.bands[b].gain == if sets_gain(line, b) {
                v
            } else {
                r.profile.bands[b].gain
            }
            &&& n.has_gain[b] == (sets_gain(line, b) || r.has_gain[b])
            &&& n.profile.bands[b].q == if sets_q(line, b) {
                v
            } else {
                r.profile.bands[b].q
            }
            &&& n.profile.cf_angle == if sets_number(line, "crossfeed angle"@) {
                v
            } else {
                r.profile.cf_angle
            }
            &&& n.profile.cf_amount == if sets_number(line, "crossfeed amount"@) {
                v
            } else {
                r.profile.cf_amount
            }
            &&& if sets_realism(line) {
                is_realism_of(v, n.profile.cf_realism)
            } else {
                n.profile.cf_realism == r.profile.cf_realism
            }
            &&& n.profile.blend == if sets_number(line, "blend"@) {
                v
            } else {
                r.profile.blend
            }
            &&& n.profile.gain == if sets_number(line, "gain"@) {
                v
            } else {
                r.profile.gain
            }
            &&& is_heading(line) ==> n.profile.name == trimmed(without_marks(trimmed(line)))
            &&& !is_heading(line) ==> n.profile.name == r.profile.name
        }),
{
    reveal_strlit("|");
    reveal_strlit("eq");
    reveal_strlit("# ");
    reveal_strlit("## ");
    lemma_last_labels();
    lemma_type_words();
    let t = trimmed(line);
    let row = trimmed_cells(t, '|');
    assert(has_prefix(t, "|"@) <==> t.len() > 0 && t[0] == '|') by {
        if t.len() > 0 {
            assert(t.subrange(0, 1)[0] == t[0]);
            if t[0] == '|' {
                assert(t.subrange(0, 1) == "|"@);
            }
        }
    }
    assert(has_prefix(t, "# "@) <==> t.len() >= 2 && t[0] == '#' && t[1] == ' ') by {
        if t.len() >= 2 {
            assert(t.subrange(0, 2)[0] == t[0]);
            assert(t.subrange(0, 2)[1] == t[1]);
            if t[0] == '#' && t[1] == ' ' {
                assert(t.subrange(0, 2) == "# "@);
            }
        }
    }
    assert(has_prefix(t, "## "@) ==> t[1] == '#') by {
        if has_prefix(t, "## "@) {
            assert(t.subrange(0, 3)[1] == t[1]);
        }
    }
    assert(has_prefix(t, "|"@) && row.len() >= 4 <==> is_row(line));
    if is_row(line) {
        let label = row_label(line);
        let v = row_value(line);
        assert(row[1] == trimmed(cells(t, '|')[1]) && row[2] == v);
        assert(has_prefix(label, "eq"@) <==> label.len() >= 2 && label[0] == 'e'
            && label[1] == 'q') by {
            if label.len() >= 2 {
                assert(label.subrange(0, 2)[0] == label[0]);
                assert(label.subrange(0, 2)[1] == label[1]);
                if label[0] == 'e' && label[1] == 'q' {
                    assert(label.subrange(0, 2) == "eq"@);
                }
            }
        }
        lemma_row_sets(r, label, v, b);
        assert(sets_number(line, "crossfeed angle"@) <==> label == "crossfeed angle"@ && is_float(v));
        assert(with_line(r, line).profile.bands == with_row(r, label, v).profile.bands);
    }
}

/// Which words name which type.
proof fn lemma_type_words()
    ensures
        forall|v: Seq<char>| is_type_of(v, #[trigger] type_named(v)),
        forall|v: Seq<char>| is_realism_of(v, #[trigger] realism_named(v)),
{
    reveal_strlit("LSC");
    reveal_strlit("LS");
    reveal_strlit("PK");
    reveal_strlit("PEQ");
    reveal_strlit("HSC");
    reveal_strlit("HS");
    reveal_strlit("LIFELIKE");
    reveal_strlit("HYPERREAL");
    reveal_strlit("HYPERREALISTIC");
    assert("LSC"@[0] == 'L' && "LS"@[0] == 'L' && "PK"@[0] == 'P' && "PEQ"@[0] == 'P' && "HSC"@[0]
        == 'H' && "HS"@[0] == 'H');
    assert("LIFELIKE"@[0] == 'L' && "HYPERREAL"@[0] == 'H' && "HYPERREALISTIC"@[0] == 'H');
}

/// What a row does to what has been read.
#[verifier::rlimit(40)]
proof fn lemma_row_sets(r: Reading, label: Seq<char>, v: Seq<char>, b: int)
    requires
        0 <= b < 5,
        r.profile.bands.len() == 5,
        r.has_freq.len() == 5,
        r.has_gain.len() == 5,
    ensures
        ({
            let n = with_row(r, label, v);
            let eq = has_prefix(label, "eq"@) && names_band(label, b);
            let ty = has_text(label, "type"@);
            let fr = has_text(label, "freq"@);
            let ga = has_text(label, "gain"@);
            &&& n.profile.bands.len() == 5
            &&& n.has_freq.len() == 5
            &&& n.has_gain.len() == 5
            &&& n.profile.bands[b].type_code == if eq && ty {
                type_named(v)
            } else {
                r.profile.bands[b].type_code
            }
            &&& n.profile.bands[b].freq == if eq && !ty && fr && is_float(v) {
                v
            } else {
                r.profile.bands[b].freq
            }
            &&& n.has_freq[b] == ((eq && !ty && fr && is_float(v)) || r.has_freq[b])
            &&& n.profile.bands[b].gain == if eq && !ty && !fr && ga && is_float(v) {
                v
            } else {
                r.profile.bands[b].gain
            }
            &&& n.has_gain[b] == ((eq && !ty && !fr && ga && is_float(v)) || r.has_gain[b])
            &&& n.profile.bands[b].q == if eq && !ty && !fr && !ga && is_float(v) {
                v
            } else {
                r.profile.bands[b].q
            }
            &&& n.profile.cf_angle == if label == "crossfeed angle"@ && is_float(v) {
                v
            } else {
                r.profile.cf_angle
            }
            &&& n.profile.cf_amount == if label == "crossfeed amount"@ && is_float(v) {
                v
            } else {
                r.profile.cf_amount
            }
            &&& n.profile.cf_realism == if label == "crossfeed realism"@ {
                realism_named(v)
            } else {
                r.profile.cf_realism
            }
            &&& n.profile.blend == if label == "blend"@ && is_float(v) {
                v
            } else {
                r.profile.blend
            }
            &&& n.profile.gain == if label == "gain"@ && is_float(v) {
                v
            } else {
                r.profile.gain
            }
            &&& n.profile.name == r.profile.name
        }),
{
    lemma_last_labels();
    lemma_band_of(label);
    lemma_band_named(label, b);
}

/// Of the rows that set a field the last one decides; a field that no row sets
/// has its default.
#[verifier::rlimit(40)]
pub proof fn law_last_row_decides(ls: Seq<Seq<char>>, i: int, b: int)
    requires
        0 <= b < 5,
    ensures
        read_lines(ls).profile.bands.len() == 5,
        read_lines(ls).has_freq.len() == 5,
        read_lines(ls).has_gain.len() == 5,
        0 <= i < ls.len() && sets_type(ls[i], b) && (forall|k: int|
            i < k < ls.len() ==> !sets_type(#[trigger] ls[k], b))
                ==> is_type_of(row_value(ls[i]), read_lines(ls).profile.bands[b].type_code),
        (forall|k: int| 0 <= k < ls.len() ==> !sets_type(#[trigger] ls[k], b))
            ==> read_lines(ls).profile.bands[b].type_code
            == 1,
        0 <= i < ls.len() && sets_freq(ls[i], b) && (forall|k: int|
            i < k < ls.len() ==> !sets_freq(#[trigger] ls[k], b))
                ==> read_lines(ls).profile.bands[b].freq == row_value(ls[i])
                && read_lines(ls).has_freq[b] == true,
        (forall|k: int| 0 <= k < ls.len() ==> !sets_freq(#[trigger] ls[k], b))
            ==> read_lines(ls).profile.bands[b].freq
            == "105.0"@ && read_lines(ls).has_freq[b] == false,
        0 <= i < ls.len() && sets_gain(ls[i], b) && (forall|k: int|
            i < k < ls.len() ==> !sets_gain(#[trigger] ls[k], b))
                ==> read_lines(ls).profile.bands[b].gain == row_value(ls[i])
                && read_lines(ls).has_gain[b] == true,
        (forall|k: int| 0 <= k < ls.len() ==> !sets_gain(#[trigger] ls[k], b))
            ==> read_lines(ls).profile.bands[b].gain
            == "0.0"@ && read_lines(ls).has_gain[b] == false,
        0 <= i < ls.len() && sets_q(ls[i], b) && (forall|k: int|
            i < k < ls.len() ==> !sets_q(#[trigger] ls[k], b))
                ==> read_lines(ls).profile.bands[b].q == row_value(ls[i]),
        (forall|k: int| 0 <= k < ls.len() ==> !sets_q(#[trigger] ls[k], b))
            ==> read_lines(ls).profile.bands[b].q
            == "0.7"@,
        0 <= i < ls.len() && sets_number(ls[i], "crossfeed angle"@) && (forall|k: int|
            i < k < ls.len() ==> !sets_number(#[trigger] ls[k], "crossfeed angle"@))
                ==> read_lines(ls).profile.cf_angle == row_value(ls[i]),
        (forall|k: int| 0 <= k < ls.len() ==> !sets_number(#[trigger] ls[k], "crossfeed angle"@))
            ==> read_lines(ls).profile.cf_angle
            == "60.0"@,
        0 <= i < ls.len() && sets_number(ls[i], "crossfeed amount"@) && (forall|k: int|
            i < k < ls.len() ==> !sets_number(#[trigger] ls[k], "crossfeed amount"@))
                ==> read_lines(ls).profile.cf_amount == row_value(ls[i]),
        (forall|k: int| 0 <= k < ls.len() ==> !sets_number(#[trigger] ls[k], "crossfeed amount"@))
            ==> read_lines(ls).profile.cf_amount
            == "0.0"@,
        0 <= i < ls.len() && sets_realism(ls[i]) && (forall|k: int|
            i < k < ls.len() ==> !sets_realism(#[trigger] ls[k]))
                ==> is_realism_of(row_value(ls[i]), read_lines(ls).profile.cf_realism),
        (forall|k: int| 0 <= k < ls.len() ==> !sets_realism(#[trigger] ls[k]))
            ==> read_lines(ls).profile.cf_realism
            == 0,
        0 <= i < ls.len() && sets_number(ls[i], "blend"@) && (forall|k: int|
            i < k < ls.len() ==> !sets_number(#[trigger] ls[k], "blend"@))
                ==> read_lines(ls).profile.blend == row_value(ls[i]),
        (forall|k: int| 0 <= k < ls.len() ==> !sets_number(#[trigger] ls[k], "blend"@))
            ==> read_lines(ls).profile.blend
            == "100.0"@,
        0 <= i < ls.len() && sets_number(ls[i], "gain"@) && (forall|k: int|
            i < k < ls.len() ==> !sets_number(#[trigger] ls[k], "gain"@))
                ==> read_lines(ls).profile.gain == row_value(ls[i]),
        (forall|k: int| 0 <= k < ls.len() ==> !sets_number(#[trigger] ls[k], "gain"@))
            ==> read_lines(ls).profile.gain
            == "0.0"@,
        0 <= i < ls.len() && is_heading(ls[i]) && (forall|k: int|
            i < k < ls.len() ==> !is_heading(#[trigger] ls[k])) ==> read_lines(ls).profile.name
            == trimmed(without_marks(trimmed(ls[i]))),
    decreases ls.len(),
{
    if ls.len() > 0 {
        let front = ls.drop_last();
        law_last_row_decides(front, i, b);
        lemma_line_sets(read_lines(front), ls.last(), b);
        assert(ls.last() == ls[ls.len() - 1]);
        assert forall|k: int| 0 <= k < front.len() implies #[trigger] front[k] == ls[k] by {}
        assert forall|k: int| 0 <= k < ls.len() - 1 implies #[trigger] ls[k] == front[k] by {}
    }
}

/// A preset is read just when it is one of this plugin and has a row with a
/// frequency and one with a gain for each of the five bands.
pub proof fn law_bands_must_be_complete(content: Seq<char>, plugin: Option<Seq<char>>)
    ensures
        preset_of(content, plugin) is Some <==> {
            &&& plugin == Some("aether"@)
            &&& forall|b: int|
                #![trigger is_given(lines(content), b)]
                0 <= b < 5 ==> is_given(lines(content), b)
        },
        preset_of(content, plugin) is Some ==> preset_of(content, plugin)->0 == read_lines(
            lines(content),
        ).profile,
{
    let ls = lines(content);
    let r = read_lines(ls);
    assert forall|b: int| 0 <= b < 5 implies (#[trigger] is_given(ls, b) <==> (r.has_freq[b] == true
        && r.has_gain[b] == true)) by {
        lemma_given(ls, b);
    }
    if is_complete(r) {
        assert forall|b: int| 0 <= b < 5 implies #[trigger] is_given(ls, b) by {
            assert(r.has_freq[b] == true);
            assert(r.has_gain[b] == true);
        }
    }
    if forall|b: int| #![trigger is_given(ls, b)] 0 <= b < 5 ==> is_given(ls, b) {
        assert forall|b: int| 0 <= b < 5 implies r.has_freq[b] == true by {
            assert(is_given(ls, b));
        }
        assert forall|b: int| 0 <= b < 5 implies r.has_gain[b] == true by {
            assert(is_given(ls, b));
        }
    }
}

/// Whether some line gives band `b` a frequency, and some line a gain.
pub open spec fn is_given(ls: Seq<Seq<char>>, b: int) -> bool {
    &&& exists|i: int| 0 <= i < ls.len() && sets_freq(#[trigger] ls[i], b)
    &&& exists|i: int| 0 <= i < ls.len() && sets_gain(#[trigger] ls[i], b)
}

proof fn lemma_given(ls: Seq<Seq<char>>, b: int)
    requires
        0 <= b < 5,
    ensures
        read_lines(ls).has_freq.len() == 5,
        read_lines(ls).has_gain.len() == 5,
        read_lines(ls).has_freq[b] == true <==> exists|i: int|
            0 <= i < ls.len() && sets_freq(#[trigger] ls[i], b),
        read_lines(ls).has_gain[b] == true <==> exists|i: int|
            0 <= i < ls.len() && sets_gain(#[trigger] ls[i], b),
    decreases ls.len(),
{
    if ls.len() > 0 {
        let front = ls.drop_last();
        lemma_given(front, b);
        law_last_row_decides(front, 0, b);
        lemma_line_sets(read_lines(front), ls.last(), b);
        let n = ls.len() - 1;
        assert(ls.last() == ls[n]);
        if read_lines(front).has_freq[b] {
            let i = choose|i: int| 0 <= i < front.len() && sets_freq(#[trigger] front[i], b);
            assert(ls[i] == front[i]);
        }
        if read_lines(front).has_gain[b] {
            let i = choose|i: int| 0 <= i < front.len() && sets_gain(#[trigger] front[i], b);
            assert(ls[i] == front[i]);
        }
        if exists|i: int| 0 <= i < ls.len() && sets_freq(#[trigger] ls[i], b) {
            let i = choose|i: int| 0 <= i < ls.len() && sets_freq(#[trigger] ls[i], b);
            if i < n {
                assert(front[i] == ls[i]);
            }
        }
        if exists|i: int| 0 <= i < ls.len() && sets_gain(#[trigger] ls[i], b) {
            let i = choose|i: int| 0 <= i < ls.len() && sets_gain(#[trigger] ls[i], b);
            if i < n {
                assert(front[i] == ls[i]);
            }
        }
    }
}

/// A heading gives the preset its name: what stands behind the mark. The last
/// one decides, and without one there is no name.
#[verifier::rlimit(40)]
pub proof fn law_heading_is_the_name(ls: Seq<Seq<char>>, name: Seq<char>)
    requires
        name.len() > 0,
        is_clean(name),
        name[0] != '#',
    ensures
        read_lines(ls.push("# "@ + name)).profile == (ProfileText {
            name,
            ..read_lines(ls).profile
        }),
        (forall|k: int| 0 <= k < ls.len() ==> !is_heading(#[trigger] ls[k])) ==> read_lines(
            ls,
        ).profile.name.len() == 0,
    decreases ls.len(),
{
    reveal_strlit("# ");
    reveal_strlit("## ");
    reveal_strlit("|");
    reveal_strlit("");
    let line = "# "@ + name;
    assert(line[0] == '#' && line[1] == ' ' && line[2] == name[0]);
    assert(line.last() == name.last());
    lemma_trim_clean(line);
    assert(line.skip(2) == name);
    reveal_with_fuel(without_marks, 2);
    assert(without_marks(line) == name);
    lemma_trim_clean(name);
    assert(line.subrange(0, 2) == "# "@);
    assert(!has_prefix(line, "## "@)) by {
        if has_prefix(line, "## "@) {
            assert(line.subrange(0, 3)[1] == line[1]);
        }
    }
    assert(!has_prefix(line, "|"@)) by {
        if has_prefix(line, "|"@) {
            assert(line.subrange(0, 1)[0] == line[0]);
        }
    }
    assert(ls.push(line).drop_last() == ls);
    if ls.len() > 0 {
        let front = ls.drop_last();
        law_heading_is_the_name(front, name);
        law_last_row_decides(front, 0, 0);
        lemma_line_sets(read_lines(front), ls.last(), 0);
        assert(ls.last() == ls[ls.len() - 1]);
        assert forall|k: int| 0 <= k < front.len() implies #[trigger] front[k] == ls[k] by {}
    }
}

/// A profile that is written and read keeps the type, the frequency, the gain
/// and the quality of each band, the crossfeed, the blend and the gain.
pub proof fn law_every_field_reads_back(p: ProfileText, i: int)
    requires
        p.wf(),
        0 <= p.cf_realism <= 2,
        forall|k: int| 0 <= k < 5 ==> 0 <= (#[trigger] p.bands[k]).type_code <= 3,
        0 <= i < 5,
    ensures
        ({
            let r = preset_of(preset_text(p), Some("aether"@));
            &&& r is Some
            &&& r->0.bands.len() == 5
            &&& r->0.bands[i].type_code == p.bands[i].type_code
            &&& r->0.bands[i].freq == p.bands[i].freq
            &&& r->0.bands[i].gain == p.bands[i].gain
            &&& r->0.bands[i].q == p.bands[i].q
            &&& r->0.cf_angle == p.cf_angle
            &&& r->0.cf_amount == p.cf_amount
            &&& r->0.cf_realism == p.cf_realism
            &&& r->0.blend == p.blend
            &&& r->0.gain == p.gain
        }),
{
    law_preset_reads_back(p);
    assert(0 <= p.bands[i].type_code <= 3);
}

/// The lines of a preset file: the header, four rows for each band with its
/// number, and the five that follow, each with its unit.
pub proof fn law_preset_rows(p: ProfileText, i: int)
    requires
        0 <= i < 5,
    ensures
        ({
            let ls = preset_lines(p);
            let eq = "EQ"@ + seq![(49 + i) as char];
            let b = p.bands[i];
            &&& ls.len() == 36
            &&& ls[0] == "---"@
            &&& ls[1] == "plugin: aether"@
            &&& ls[2] == "type: preset"@
            &&& ls[3] == "---"@
            &&& ls[4] == ""@
            &&& ls[5] == "> Warning: Do NOT modify column names or table structure."@
            &&& ls[6] == ""@
            &&& ls[7] == "## Parameter"@
            &&& ls[8] == ""@
            &&& ls[9] == "| Parameter | Wert | Einheit |"@
            &&& ls[10] == "|---|---|---|"@
            &&& ls[11 + 4 * i] == "| "@ + (eq + " Type"@) + " | "@ + band_type_name(b.type_code) + " | |"@
            &&& ls[12 + 4 * i] == "| "@ + (eq + " Freq"@) + " | "@ + b.freq + " | Hz |"@
            &&& ls[13 + 4 * i] == "| "@ + (eq + " Gain"@) + " | "@ + b.gain + " | dB |"@
            &&& ls[14 + 4 * i] == "| "@ + (eq + " Q"@) + " | "@ + b.q + " | |"@
            &&& ls[31] == "| "@ + "Crossfeed Angle"@ + " | "@ + p.cf_angle + " | ° |"@
            &&& ls[32] == "| "@ + "Crossfeed Amount"@ + " | "@ + p.cf_amount + " | % |"@
            &&& ls[33] == "| "@ + "Crossfeed Realism"@ + " | "@ + realism_name(p.cf_realism) + " | |"@
            &&& ls[34] == "| "@ + "Blend"@ + " | "@ + p.blend + " | % |"@
            &&& ls[35] == "| "@ + "Gain"@ + " | "@ + p.gain + " | dB |"@
        }),
{
    lemma_band_lines(p.bands, 5, i);
}

proof fn lemma_band_lines(bands: Seq<BandText>, n: int, i: int)
    requires
        0 <= n,
    ensures
        band_lines(bands, n).len() == 11 + 4 * n,
        forall|k: int| 0 <= k < 11 ==> #[trigger] band_lines(bands, n)[k] == preset_header()[k],
        0 <= i < n ==> {
            let ls = band_lines(bands, n);
            let b = bands[i];
            &&& ls[11 + 4 * i] == row(band_label(i, " Type"@), band_type_name(b.type_code), " | |"@)
            &&& ls[12 + 4 * i] == row(band_label(i, " Freq"@), b.freq, " | Hz |"@)
            &&& ls[13 + 4 * i] == row(band_label(i, " Gain"@), b.gain, " | dB |"@)
            &&& ls[14 + 4 * i] == row(band_label(i, " Q"@), b.q, " | |"@)
        },
    decreases n,
{
    if n > 0 {
        lemma_band_lines(bands, n - 1, i);
    }
}

/// Every mark that a heading begins with is left out of the name, however many
/// there are.
pub proof fn law_marks_are_left_out(s: Seq<char>)
    ensures
        without_marks(seq!['#', ' '] + s) == without_marks(s),
        !(s.len() >= 2 && s[0] == '#' && s[1] == ' ') ==> without_marks(s) == s,
{
    let t = seq!['#', ' '] + s;
    assert(t[0] == '#' && t[1] == ' ');
    assert(t.skip(2) == s);
}

} // verus!
