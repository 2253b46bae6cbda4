//! What an editor decides on each tick: what has changed, what a meter holds,
//! and what its labels say.

use crate::number::{decimal, is_float, reads_as_float, write_decimal};
use crate::single::{Single, SILENCE_BITS};
use crate::text::{chars_of, same_text, text_of, trim, trimmed};
use vstd::prelude::*;
use vstd::string::*;

verus! {

// ─── Changes ─────────────────────────────────────────────────────────────────

/// Whether a number differs from the one before, which it then replaces. What
/// is no number differs from everything.
pub fn changed_f32(prev: &mut Single, v: Single) -> (r: bool)
    ensures
        r == !old(prev).equals(v),
        *final(prev) == if r {
            v
        } else {
            *old(prev)
        },
{
    if !prev.same(v) {
        *prev = v;
        true
    } else {
        false
    }
}

/// Whether a flag differs from the one before, which it then replaces. The
/// first flag differs.
pub fn changed_bool(prev: &mut Option<bool>, v: bool) -> (r: bool)
    ensures
        r == (*old(prev) != Some(v)),
        *final(prev) == Some(v),
{
    let same: bool = match *prev {
        Some(p) => p == v,
        None => false,
    };
    if !same {
        *prev = Some(v);
        true
    } else {
        false
    }
}

/// Whether an integer differs from the one before, which it then replaces.
pub fn changed_i32(prev: &mut i32, v: i32) -> (r: bool)
    ensures
        r == (*old(prev) != v),
        *final(prev) == v,
{
    if *prev != v {
        *prev = v;
        true
    } else {
        false
    }
}

/// Whether a text differs from the one before, which it then replaces.
pub fn changed_str(prev: &mut String, v: &str) -> (r: bool)
    ensures
        r == (old(prev)@ != v@),
        final(prev)@ == v@,
{
    if !same_text(prev.as_str(), v) {
        *prev = v.to_owned();
        true
    } else {
        false
    }
}

/// The settings of a band that a curve is drawn from.
#[derive(Clone, Copy)]
pub struct CurveBand {
    pub type_code: i32,
    pub freq: Single,
    pub gain: Single,
    pub q: Single,
}

/// The settings that a curve is drawn from.
#[derive(Clone, Copy)]
pub struct CurveKey {
    pub bands: [CurveBand; 5],
    pub sample_rate: Single,
}

/// Whether two bands are set alike.
pub open spec fn is_same_band(a: CurveBand, b: CurveBand) -> bool {
    &&& a.type_code == b.type_code
    &&& a.freq.equals(b.freq)
    &&& a.gain.equals(b.gain)
    &&& a.q.equals(b.q)
}

/// Whether two curves are drawn from the same settings.
pub open spec fn is_same_curve(a: CurveKey, b: CurveKey) -> bool {
    &&& a.sample_rate.equals(b.sample_rate)
    &&& forall|i: int| 0 <= i < 5 ==> is_same_band(#[trigger] a.bands@[i], b.bands@[i])
}

fn same_curve(a: &CurveKey, b: &CurveKey) -> (r: bool)
    ensures
        r == is_same_curve(*a, *b),
{
    if !a.sample_rate.same(b.sample_rate) {
        return false;
    }
    let mut i: usize = 0;
    while i < 5
        invariant
            i <= 5,
            a.sample_rate.equals(b.sample_rate),
            forall|k: int| 0 <= k < i ==> is_same_band(#[trigger] a.bands@[k], b.bands@[k]),
        decreases 5 - i,
    {
        let x = a.bands[i];
        let y = b.bands[i];
        if x.type_code != y.type_code || !x.freq.same(y.freq) || !x.gain.same(y.gain) || !x.q.same(
            y.q,
        ) {
            assert(!is_same_band(a.bands@[i as int], b.bands@[i as int]));
            return false;
        }
        i += 1;
    }
    true
}

/// Whether a curve has to be drawn anew: its settings differ from those of the
/// last one, which they then replace. The first curve is always drawn.
pub fn changed_curve(prev: &mut Option<CurveKey>, key: CurveKey) -> (r: bool)
    ensures
        r == match *old(prev) {
            Some(p) => !is_same_curve(p, key),
            None => true,
        },
        *old(prev) is None ==> r,
        *old(prev) is Some ==> (!r <==> {
            let p = (*old(prev))->0;
            &&& p.sample_rate.equals(key.sample_rate)
            &&& forall|i: int|
                0 <= i < 5 ==> (#[trigger] p.bands@[i]).type_code == key.bands@[i].type_code
                    && p.bands@[i].freq.equals(key.bands@[i].freq) && p.bands@[i].gain.equals(
                    key.bands@[i].gain,
                ) && p.bands@[i].q.equals(key.bands@[i].q)
        }),
        *final(prev) == if r {
            Some(key)
        } else {
            *old(prev)
        },
{
    let same: bool = match *prev {
        Some(p) => same_curve(&p, &key),
        None => false,
    };
    proof {
        if let Some(p) = *old(prev) {
            law_same_curves_have_the_same_settings(p, key);
        }
    }
    if !same {
        *prev = Some(key);
        true
    } else {
        false
    }
}

// ─── Ticks ───────────────────────────────────────────────────────────────────

/// How often an editor is brought up to date, in milliseconds.
pub const TICK_INTERVAL_MS: u64 = 33;

/// When an editor was brought up to date last.
pub struct TickCache {
    pub last_tick_ms: u64,
    pub primed: bool,
}

impl TickCache {
    /// An editor that has just been opened.
    pub fn new(now_ms: u64) -> (r: TickCache)
        ensures
            r.last_tick_ms == now_ms,
            r.primed == false,
    {
        TickCache { last_tick_ms: now_ms, primed: false }
    }

    /// Whether the editor has to be brought up to date: the first time, and
    /// whenever the interval has passed.
    pub fn due(&mut self, now_ms: u64) -> (r: bool)
        ensures
            r == (!old(self).primed || now_ms - old(self).last_tick_ms >= 33),
            r ==> final(self).last_tick_ms == now_ms && final(self).primed,
            !r ==> *final(self) == *old(self),
    {
        if !self.primed || (now_ms >= self.last_tick_ms && now_ms - self.last_tick_ms
            >= TICK_INTERVAL_MS) {
            self.last_tick_ms = now_ms;
            self.primed = true;
            true
        } else {
            false
        }
    }
}

// ─── Meters ──────────────────────────────────────────────────────────────────

/// For how many ticks a meter holds a peak.
pub const HOLD_TICKS: u32 = 90;

/// A peak that a meter holds for a while before it falls.
#[derive(Clone, Copy)]
pub struct PeakHold {
    pub hold: Single,
    pub ticks: u32,
}

/// What a meter holds after a tick: a higher peak at once, the same peak while
/// it is held, and then the value that it falls to.
pub open spec fn held_after(m: PeakHold, peak: Single, fallen: Single) -> PeakHold {
    if m.hold.lt(peak) {
        PeakHold { hold: peak, ticks: HOLD_TICKS }
    } else if m.ticks > 0 {
        PeakHold { hold: m.hold, ticks: (m.ticks - 1) as u32 }
    } else {
        PeakHold { hold: fallen, ticks: 0 }
    }
}

impl PeakHold {
    /// A meter that holds nothing above `floor`.
    pub fn new(floor: Single) -> (r: PeakHold)
        ensures
            r.hold == floor,
            r.ticks == 0,
    {
        PeakHold { hold: floor, ticks: 0 }
    }

    /// Takes the peak of a tick; `fallen` is what the held value falls to once
    /// it is no longer held.
    pub fn take(&mut self, peak: Single, fallen: Single)
        ensures
            *final(self) == held_after(*old(self), peak, fallen),
            old(self).hold.lt(peak) ==> final(self).hold == peak && final(self).ticks == 90,
            !old(self).hold.lt(peak) && old(self).ticks > 0 ==> final(self).hold == old(self).hold
                && final(self).ticks == old(self).ticks - 1,
            !old(self).hold.lt(peak) && old(self).ticks == 0 ==> final(self).hold == fallen
                && final(self).ticks == 0,
    {
        if peak.above(self.hold) {
            self.hold = peak;
            self.ticks = HOLD_TICKS;
        } else if self.ticks > 0 {
            self.ticks = self.ticks - 1;
        } else {
            self.hold = fallen;
        }
    }
}

/// What a meter holds after the first `n` ticks.
pub open spec fn held_over(m: PeakHold, peaks: Seq<Single>, fallen: Seq<Single>, n: int) -> PeakHold
    decreases n,
{
    if n <= 0 {
        m
    } else {
        held_after(held_over(m, peaks, fallen, n - 1), peaks[n - 1], fallen[n - 1])
    }
}

/// A peak that a meter takes is held for ninety ticks unless a higher one comes.
pub proof fn law_peak_is_held(
    m: PeakHold,
    peak: Single,
    below: Single,
    peaks: Seq<Single>,
    fallen: Seq<Single>,
    n: int,
)
    requires
        m.hold.lt(peak),
        0 <= n <= HOLD_TICKS,
        n <= peaks.len(),
        forall|i: int| 0 <= i < n ==> !peak.lt(#[trigger] peaks[i]),
    ensures
        held_over(held_after(m, peak, below), peaks, fallen, n) == (PeakHold {
            hold: peak,
            ticks: (HOLD_TICKS - n) as u32,
        }),
    decreases n,
{
    if n > 0 {
        law_peak_is_held(m, peak, below, peaks, fallen, n - 1);
    }
}

/// The peaks of both channels and of their sum, since they were reset.
#[derive(Clone, Copy)]
pub struct PeakHolds {
    pub both: Single,
    pub left: Single,
    pub right: Single,
}

/// The higher of a held value and a new one.
pub open spec fn higher(held: Single, new: Single) -> Single {
    if held.lt(new) {
        new
    } else {
        held
    }
}

impl PeakHolds {
    /// Nothing above `floor`.
    pub fn new(floor: Single) -> (r: PeakHolds)
        ensures
            r.both == floor,
            r.left == floor,
            r.right == floor,
    {
        PeakHolds { both: floor, left: floor, right: floor }
    }

    /// Takes the peaks of a block.
    pub fn take(&mut self, both: Single, left: Single, right: Single)
        ensures
            final(self).both == higher(old(self).both, both),
            final(self).left == higher(old(self).left, left),
            final(self).right == higher(old(self).right, right),
            final(self).both == if old(self).both.lt(both) {
                both
            } else {
                old(self).both
            },
            final(self).left == if old(self).left.lt(left) {
                left
            } else {
                old(self).left
            },
            final(self).right == if old(self).right.lt(right) {
                right
            } else {
                old(self).right
            },
    {
        if both.above(self.both) {
            self.both = both;
        }
        if left.above(self.left) {
            self.left = left;
        }
        if right.above(self.right) {
            self.right = right;
        }
    }
}

/// A held peak never falls, and is never below a peak that was taken.
pub proof fn law_holds_do_not_fall(held: Single, new: Single)
    requires
        !held.is_nan(),
        !new.is_nan(),
    ensures
        held.le(higher(held, new)),
        new.le(higher(held, new)),
        higher(held, new) == held || higher(held, new) == new,
{
}

// ─── Labels ──────────────────────────────────────────────────────────────────

/// The status line of an analysis mode: the own bus, the own bus and the
/// relays, or the relays alone.
pub fn mode_status(mode: usize) -> (r: &'static str)
    ensures
        r@ == if mode == 0 {
            "Own bus"@
        } else if mode == 1 {
            "Own + Relays"@
        } else if mode == 2 {
            "Relays"@
        } else {
            "?"@
        },
{
    match mode {
        0 => "Own bus",
        1 => "Own + Relays",
        2 => "Relays",
        _ => "?",
    }
}

/// The level below which a meter shows nothing, -60 dB.
pub const METER_FLOOR_BITS: u32 = 0xc270_0000;

/// The reading of a meter: what is written for the level, or `-inf` at the
/// floor and below.
pub fn fmt_db(level: Single, written: &str) -> (r: String)
    ensures
        r@ == if level.le(Single { bits: 0xc270_0000 }) {
            "-inf"@
        } else {
            written@
        },
{
    if level.at_most(Single { bits: METER_FLOOR_BITS }) {
        "-inf".to_owned()
    } else {
        written.to_owned()
    }
}

/// The reading of the input meter.
pub fn input_db_text(level: Single, written: &str) -> (r: String)
    ensures
        r@ == if level.le(Single { bits: 0xc2b4_0000 }) {
            "--"@
        } else {
            written@ + " dB"@
        },
{
    if level.at_most(Single { bits: SILENCE_BITS }) {
        "--".to_owned()
    } else {
        let mut s: String = written.to_owned();
        s.append(" dB");
        s
    }
}

/// The reading of the input meter with its name.
pub fn input_meter_line(level: Single, written: &str) -> (r: String)
    ensures
        r@ == if level.le(Single { bits: 0xc2b4_0000 }) {
            "in: —"@
        } else {
            "in: "@ + written@ + " dB"@
        },
{
    if level.at_most(Single { bits: SILENCE_BITS }) {
        "in: —".to_owned()
    } else {
        let mut s: String = "in: ".to_owned();
        s.append(written);
        s.append(" dB");
        s
    }
}

/// The reading of the held input peak; nothing while it is silent.
pub fn input_peak_text(hold: Single, written: &str) -> (r: String)
    ensures
        r@ == if hold.le(Single { bits: 0xc2b4_0000 }) {
            ""@
        } else {
            "pk "@ + written@ + " dB"@
        },
{
    if hold.at_most(Single { bits: SILENCE_BITS }) {
        "".to_owned()
    } else {
        let mut s: String = "pk ".to_owned();
        s.append(written);
        s.append(" dB");
        s
    }
}

/// Half a hertz, below which the mono floor is off.
pub const FLOOR_OFF_BITS: u32 = 0x3f00_0000;

/// The reading of the mono floor.
pub fn mono_floor_text(freq: Single, written: &str) -> (r: String)
    ensures
        r@ == if freq.lt(Single { bits: 0x3f00_0000 }) {
            "off"@
        } else {
            written@ + " Hz"@
        },
{
    if freq.below(Single { bits: FLOOR_OFF_BITS }) {
        "off".to_owned()
    } else {
        let mut s: String = written.to_owned();
        s.append(" Hz");
        s
    }
}

// ─── Input ───────────────────────────────────────────────────────────────────

/// `s` with every comma made a point.
pub open spec fn with_points(s: Seq<char>) -> Seq<char> {
    Seq::new(
        s.len(),
        |i: int|
            if s[i] == ',' {
                '.'
            } else {
                s[i]
            },
    )
}

/// The number that a text field holds, as it is read: without the white space
/// around it, and with a decimal point for a decimal comma.
pub fn parse_number(field: &str) -> (r: Option<String>)
    ensures
        ({
            let n = with_points(trimmed(field@));
            match r {
                Some(t) => is_float(n) && t@ == n,
                None => !is_float(n),
            }
        }),
        r is Some ==> (r->0)@.len() == trimmed(field@).len() && forall|i: int|
            0 <= i < (r->0)@.len() ==> #[trigger] (r->0)@[i] == if trimmed(field@)[i] == ',' {
                '.'
            } else {
                trimmed(field@)[i]
            },
{
    let t = trim(&chars_of(field));
    let mut n: Vec<char> = Vec::new();
    let mut i: usize = 0;
    while i < t.len()
        invariant
            i <= t.len(),
            n@ == with_points(t@).take(i as int),
        decreases t.len() - i,
    {
        n.push(
            if t[i] == ',' {
                '.'
            } else {
                t[i]
            },
        );
        i += 1;
        assert(n@ == with_points(t@).take(i as int));
    }
    assert(n@ == with_points(t@));
    if reads_as_float(&n) {
        Some(text_of(&n))
    } else {
        None
    }
}

/// The vault path that a text field holds: without the white space around it,
/// and none if nothing is left.
pub fn vault_path_of(field: &str) -> (r: Option<String>)
    ensures
        match r {
            Some(t) => t@ == trimmed(field@) && t@.len() > 0,
            None => trimmed(field@).len() == 0,
        },
{
    let t = trim(&chars_of(field));
    if t.len() == 0 {
        None
    } else {
        Some(text_of(&t))
    }
}

/// Whether there is a vault path, and it is not empty.
pub open spec fn has_vault(path: Option<String>) -> bool {
    path is Some && path->0@.len() > 0
}

/// Whether there is a vault path, and it is not empty.
pub fn vault_is_set(path: &Option<String>) -> (r: bool)
    ensures
        r == has_vault(*path),
        r <==> *path is Some && (*path)->0@.len() > 0,
{
    match path {
        Some(p) => !p.as_str().is_empty(),
        None => false,
    }
}

/// Whether `char::is_alphanumeric` counts a character as a letter or a number.
pub uninterp spec fn is_alphanumeric_char(c: char) -> bool;

/// `char::is_alphanumeric`: whether the character is alphabetic or numeric in
/// Unicode.
#[verifier::external_body]
fn alphanumeric(c: char) -> (r: bool)
    ensures
        r == is_alphanumeric_char(c),
{
    c.is_alphanumeric()
}

/// Whether a character is a letter or a number: in ASCII one of those there,
/// and beyond it one by Unicode.
pub open spec fn is_letter_or_number(c: char) -> bool {
    if c <= '\u{7f}' {
        ('a' <= c && c <= 'z') || ('A' <= c && c <= 'Z') || ('0' <= c && c <= '9')
    } else {
        is_alphanumeric_char(c)
    }
}

/// Whether a character is a letter or a number.
fn letter_or_number(c: char) -> (r: bool)
    ensures
        r == is_letter_or_number(c),
{
    if c <= '\u{7f}' {
        ('a' <= c && c <= 'z') || ('A' <= c && c <= 'Z') || ('0' <= c && c <= '9')
    } else {
        alphanumeric(c)
    }
}

/// Whether a character is kept in a file name.
pub open spec fn is_file_char(c: char, alphanumeric: bool) -> bool {
    alphanumeric || c == ' ' || c == '-' || c == '_'
}

/// Whether a character is kept in a file name, given whether it is a letter or
/// a number.
pub fn keeps_in_file_name(c: char, alphanumeric: bool) -> (r: bool)
    ensures
        r == is_file_char(c, alphanumeric),
        r == (alphanumeric || c == ' ' || c == '-' || c == '_'),
{
    alphanumeric || c == ' ' || c == '-' || c == '_'
}

/// The characters of a name that a file name can have, in order.
pub open spec fn file_chars(s: Seq<char>) -> Seq<char>
    decreases s.len(),
{
    if s.len() == 0 {
        s
    } else {
        let had = file_chars(s.drop_last());
        if is_file_char(s.last(), is_letter_or_number(s.last())) {
            had.push(s.last())
        } else {
            had
        }
    }
}

/// A file name holds only characters that it can have, so that it names no
/// directory and has no extension, and it is its own file name.
pub proof fn law_file_name_is_safe(s: Seq<char>)
    ensures
        forall|i: int|
            0 <= i < file_chars(s).len() ==> {
                let c = #[trigger] file_chars(s)[i];
                is_file_char(c, is_letter_or_number(c)) && c != '/' && c != '\\' && c != '.'
            },
        file_chars(file_chars(s)) == file_chars(s),
    decreases s.len(),
{
    if s.len() > 0 {
        law_file_name_is_safe(s.drop_last());
        let had = file_chars(s.drop_last());
        if is_file_char(s.last(), is_letter_or_number(s.last())) {
            assert(had.push(s.last()).drop_last() == had);
        }
    }
}

/// A preset's name as a file name: its letters, numbers, spaces, hyphens and
/// underscores.
pub fn safe_file_name(name: &str) -> (r: String)
    ensures
        r@ == file_chars(name@),
{
    let s = chars_of(name);
    let mut r: String = String::new();
    let mut i: usize = 0;
    while i < s.len()
        invariant
            i <= s.len(),
            s@ == name@,
            r@ == file_chars(s@.take(i as int)),
        decreases s.len() - i,
    {
        assert(s@.take(i + 1).drop_last() == s@.take(i as int));
        let known: bool = letter_or_number(s[i]);
        if keeps_in_file_name(s[i], known) {
            r.push(s[i]);
        }
        i += 1;
    }
    assert(s@.take(i as int) == s@);
    r
}

/// The name that a preset is saved under: the one that was typed, or one by the
/// number of presets.
pub fn save_name(field: &str, presets: usize) -> (r: String)
    ensures
        r@ == if trimmed(field@).len() == 0 {
            "User Preset "@ + decimal(presets as nat)
        } else {
            trimmed(field@)
        },
{
    let t = trim(&chars_of(field));
    if t.len() == 0 {
        let mut s: String = "User Preset ".to_owned();
        s.append(text_of(&write_decimal(presets as u64)).as_str());
        s
    } else {
        text_of(&t)
    }
}

// ─── Snapshot button ─────────────────────────────────────────────────────────

/// The snapshot button while a measurement runs and when it ends.
pub struct SnapButton {
    pub was_active: bool,
    pub blink: u32,
}

/// What a tick asks of the snapshot button.
#[derive(Clone, Copy, PartialEq, Eq, Structural)]
pub enum SnapTick {
    /// Leave it as it is.
    Nothing,
    /// A measurement runs: show this phase of the blinking label.
    Running(bool),
    /// A measurement has ended: write it if there is a vault, and show the label at rest.
    Ended,
}

impl SnapButton {
    /// No measurement runs.
    pub fn new() -> (r: SnapButton)
        ensures
            r.was_active == false,
            r.blink == 0,
    {
        SnapButton { was_active: false, blink: 0 }
    }

    /// Takes whether a measurement runs. The label changes every eight ticks.
    pub fn tick(&mut self, active: bool) -> (r: SnapTick)
        ensures
            final(self).was_active == active,
            ({
                let next = if old(self).blink == u32::MAX {
                    0
                } else {
                    old(self).blink + 1
                };
                &&& active ==> final(self).blink == next && r == SnapTick::Running(
                    (next / 8) % 2 == 0,
                )
                &&& !active && old(self).was_active ==> final(self).blink == 0 && r
                    == SnapTick::Ended
                &&& !active && !old(self).was_active ==> final(self).blink == old(self).blink && r
                    == SnapTick::Nothing
            }),
    {
        let was: bool = self.was_active;
        self.was_active = active;
        if active {
            self.blink = self.blink.wrapping_add(1);
            SnapTick::Running((self.blink / 8) % 2 == 0)
        } else if was {
            self.blink = 0;
            SnapTick::Ended
        } else {
            SnapTick::Nothing
        }
    }
}

/// The label while a measurement runs.
pub fn running_label(first: bool) -> (r: &'static str)
    ensures
        r@ == if first {
            "ANALYZE..."@
        } else {
            "ANALYZE· · ·"@
        },
{
    if first {
        "ANALYZE..."
    } else {
        "ANALYZE· · ·"
    }
}

/// The label at rest.
pub fn rest_label(vault_set: bool) -> (r: &'static str)
    ensures
        r@ == if vault_set {
            "SNAP"@
        } else {
            "SET VAULT"@
        },
{
    if vault_set {
        "SNAP"
    } else {
        "SET VAULT"
    }
}

/// For how many ticks the analyzer shows that a snapshot was taken.
pub const SNAP_BLINK_TICKS: u32 = 72;

/// What is left of the display after a tick, in which a snapshot was taken or
/// not, and whether its status is cleared.
pub fn snap_blink(left: u32, taken: bool) -> (r: (u32, bool))
    ensures
        ({
            let now = if taken {
                72
            } else {
                left
            };
            r == (
                if now > 0 {
                    (now - 1) as u32
                } else {
                    0
                },
                now == 1,
            )
        }),
{
    let now: u32 = if taken {
        SNAP_BLINK_TICKS
    } else {
        left
    };
    if now > 0 {
        (now - 1, now == 1)
    } else {
        (0, false)
    }
}

/// The label of the analyzer's snapshot button.
pub fn analyzer_snap_label(left: u32, vault_set: bool) -> (r: &'static str)
    ensures
        r@ == if left > 0 {
            "ANALYZE..."@
        } else if vault_set {
            "SNAP"@
        } else {
            "SET VAULT"@
        },
{
    if left > 0 {
        "ANALYZE..."
    } else {
        rest_label(vault_set)
    }
}

// ─── Switches ────────────────────────────────────────────────────────────────

/// Whether masking is drawn: it is switched on, relays take part, and some are
/// there or nothing else is analyzed.
pub fn shows_masking(switched_on: bool, mode: usize, no_relays: bool) -> (r: bool)
    ensures
        r == (switched_on && mode != 0 && (!no_relays || mode == 2)),
{
    switched_on && mode != 0 && (!no_relays || mode == 2)
}

/// Whether a click starts a loudness measurement: none runs, and nothing else
/// sets the loudness.
pub fn starts_auto_loud(pre_master: bool, measuring: bool) -> (r: bool)
    ensures
        r == (!pre_master && !measuring),
{
    !pre_master && !measuring
}

/// The magnitude above which a loudness offset is applied by Equilibrium, 0.05 dB.
pub const OFFSET_MIN_BITS: u32 = 0x3d4c_cccd;

/// The magnitude above which a loudness offset is applied by Meridian, 0.01 dB.
pub const OFFSET_MIN_ON_END_BITS: u32 = 0x3c23_d70a;

/// Whether a loudness offset is applied: no measurement runs, and its magnitude
/// is above the least that is.
pub fn applies_offset(measuring: bool, magnitude: Single) -> (r: bool)
    ensures
        r == (!measuring && (Single { bits: 0x3d4c_cccd }).lt(magnitude)),
{
    !measuring && magnitude.above(Single { bits: OFFSET_MIN_BITS })
}

/// What the end of a measurement does: the offset is taken when it has just
/// ended, and applied when its magnitude is above the least that is.
pub fn offset_on_end(was_measuring: bool, measuring: bool, magnitude: Single) -> (r: (bool, bool))
    ensures
        r.0 == (was_measuring && !measuring),
        r.1 == (r.0 && (Single { bits: 0x3c23_d70a }).lt(magnitude)),
{
    let ended: bool = was_measuring && !measuring;
    (ended, ended && magnitude.above(Single { bits: OFFSET_MIN_ON_END_BITS }))
}

/// Two curves are drawn from the same settings just when the sample rate and of
/// each band the type, the frequency, the gain and the quality are equal.
pub proof fn law_same_curves_have_the_same_settings(a: CurveKey, b: CurveKey)
    ensures
        is_same_curve(a, b) <==> {
            &&& a.sample_rate.equals(b.sample_rate)
            &&& forall|i: int|
                0 <= i < 5 ==> (#[trigger] a.bands@[i]).type_code == b.bands@[i].type_code
                    && a.bands@[i].freq.equals(b.bands@[i].freq) && a.bands@[i].gain.equals(
                    b.bands@[i].gain,
                ) && a.bands@[i].q.equals(b.bands@[i].q)
        },
{
    if is_same_curve(a, b) {
        assert forall|i: int| 0 <= i < 5 implies (#[trigger] a.bands@[i]).type_code
            == b.bands@[i].type_code && a.bands@[i].freq.equals(b.bands@[i].freq)
            && a.bands@[i].gain.equals(b.bands@[i].gain) && a.bands@[i].q.equals(b.bands@[i].q) by {
            assert(is_same_band(a.bands@[i], b.bands@[i]));
        }
    }
}

/// A held peak falls on the tick after its ninety, unless a higher one comes,
/// which is then held at once.
pub proof fn law_peak_falls_after_its_hold(
    m: PeakHold,
    peak: Single,
    below: Single,
    peaks: Seq<Single>,
    fallen: Seq<Single>,
)
    requires
        m.hold.lt(peak),
        peaks.len() == 91,
        fallen.len() == 91,
        forall|i: int| 0 <= i < 90 ==> !peak.lt(#[trigger] peaks[i]),
    ensures
        held_over(held_after(m, peak, below), peaks, fallen, 90).hold == peak,
        !peak.lt(peaks[90]) ==> held_over(held_after(m, peak, below), peaks, fallen, 91).hold
            == fallen[90],
        peak.lt(peaks[90]) ==> held_over(held_after(m, peak, below), peaks, fallen, 91).hold
            == peaks[90],
{
    law_peak_is_held(m, peak, below, peaks, fallen, 90);
}

/// A decimal comma is read as a decimal point, and nothing else is changed.
pub proof fn law_commas_become_points(s: Seq<char>, i: int)
    requires
        0 <= i < s.len(),
    ensures
        with_points(s).len() == s.len(),
        s[i] == ',' ==> with_points(s)[i] == '.',
        s[i] != ',' ==> with_points(s)[i] == s[i],
{
}

/// Each character of a name is kept in its file name or not by itself: letters,
/// numbers, spaces, hyphens and underscores are, and nothing else.
pub proof fn law_file_name_keeps_its_characters(a: Seq<char>, b: Seq<char>, c: char)
    ensures
        file_chars(a + b) == file_chars(a) + file_chars(b),
        file_chars(Seq::<char>::empty()) == Seq::<char>::empty(),
        file_chars(seq![c]) == if ('a' <= c <= 'z') || ('A' <= c <= 'Z') || ('0' <= c <= '9') || c == ' '
            || c == '-' || c == '_' || (c > '\u{7f}' && is_alphanumeric_char(c)) {
            seq![c]
        } else {
            Seq::empty()
        },
    decreases b.len(),
{
    reveal_with_fuel(file_chars, 2);
    assert(seq![c].drop_last() == Seq::<char>::empty());
    assert(Seq::<char>::empty().push(c) == seq![c]);
    if b.len() == 0 {
        assert(a + b == a);
        assert(file_chars(a) + file_chars(b) == file_chars(a));
    } else {
        law_file_name_keeps_its_characters(a, b.drop_last(), c);
        assert((a + b).drop_last() == a + b.drop_last());
        assert((a + b).last() == b.last());
        assert(file_chars(a + b) == file_chars(a) + file_chars(b));
    }
}

} // verus!
