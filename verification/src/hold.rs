//! The strongest findings over a while, as the analyzer shows and saves them.

use crate::lucent_snapshot::Finding;
use crate::peaks::{take_top, top, NamedPeak};
use crate::single::Single;
use crate::snapshot::{join_with, joined_with};
use crate::text::strings;
use vstd::prelude::*;
use vstd::string::*;

verus! {

// ─── Held findings ───────────────────────────────────────────────────────────

/// The strongest finding of a bin so far, and who contributed to it.
pub struct Held {
    pub bin: usize,
    pub score: Single,
    pub names: Vec<String>,
}

/// The strongest finding of every bin so far.
pub struct HeldPeaks {
    list: Vec<Held>,
}

/// What is held for a bin.
pub struct HeldText {
    pub score: Single,
    pub names: Seq<Seq<char>>,
}

/// Where a bin stands in the list, counted from `i`; its length if it does not.
spec fn bin_index(list: Seq<Held>, bin: usize, i: int) -> int
    decreases list.len() - i,
{
    if i >= list.len() {
        list.len() as int
    } else if list[i].bin == bin {
        i
    } else {
        bin_index(list, bin, i + 1)
    }
}

proof fn lemma_bin_index(list: Seq<Held>, bin: usize, i: int)
    requires
        0 <= i <= list.len(),
    ensures
        i <= bin_index(list, bin, i) <= list.len(),
        bin_index(list, bin, i) < list.len() ==> list[bin_index(list, bin, i)].bin == bin,
        forall|k: int| i <= k < bin_index(list, bin, i) ==> (#[trigger] list[k]).bin != bin,
    decreases list.len() - i,
{
    if i < list.len() && list[i].bin != bin {
        lemma_bin_index(list, bin, i + 1);
    }
}

proof fn lemma_bin_index_is(list: Seq<Held>, bin: usize, i: int, n: int)
    requires
        0 <= i <= n <= list.len(),
        n < list.len() ==> list[n].bin == bin,
        forall|k: int| i <= k < n ==> (#[trigger] list[k]).bin != bin,
    ensures
        bin_index(list, bin, i) == n,
    decreases n - i,
{
    if i < n {
        assert(list[i].bin != bin);
        lemma_bin_index_is(list, bin, i + 1, n);
    }
}

fn copy_names(names: &Vec<String>) -> (r: Vec<String>)
    ensures
        strings(r@) == strings(names@),
{
    let mut r: Vec<String> = Vec::new();
    let mut i: usize = 0;
    while i < names.len()
        invariant
            i <= names.len(),
            r.len() == i,
            forall|k: int| 0 <= k < i ==> (#[trigger] r@[k])@ == names@[k]@,
        decreases names.len() - i,
    {
        r.push(names[i].clone());
        i += 1;
    }
    assert(strings(r@) == strings(names@));
    r
}

impl HeldPeaks {
    /// What is held for a bin, if anything is.
    pub closed spec fn held(&self, bin: usize) -> Option<HeldText> {
        let i = bin_index(self.list@, bin, 0);
        if i < self.list.len() {
            Some(HeldText { score: self.list@[i].score, names: strings(self.list@[i].names@) })
        } else {
            None
        }
    }

    /// No bin is listed twice.
    pub closed spec fn wf(&self) -> bool {
        forall|i: int, j: int|
            0 <= i < j < self.list.len() ==> (#[trigger] self.list@[i]).bin != (
            #[trigger] self.list@[j]).bin
    }

    /// The bins for which something is held, with their scores, in some order.
    pub closed spec fn scores(&self) -> Seq<(usize, Single)> {
        Seq::new(self.list@.len(), |i: int| (self.list@[i].bin, self.list@[i].score))
    }

    /// Nothing is held.
    pub fn new() -> (r: HeldPeaks)
        ensures
            r.wf(),
            forall|bin: usize| #[trigger] r.held(bin) is None,
            r.scores().len() == 0,
    {
        HeldPeaks { list: Vec::new() }
    }

    /// Forgets everything.
    pub fn clear(&mut self)
        ensures
            final(self).wf(),
            forall|bin: usize| #[trigger] final(self).held(bin) is None,
            final(self).scores().len() == 0,
    {
        self.list = Vec::new();
    }

    /// Whether nothing is held.
    pub fn is_empty(&self) -> (r: bool)
        ensures
            r == (self.scores().len() == 0),
    {
        self.list.len() == 0
    }

    fn find(&self, bin: usize) -> (r: usize)
        ensures
            r == bin_index(self.list@, bin, 0),
            r <= self.list.len(),
            r < self.list.len() ==> self.list@[r as int].bin == bin,
            forall|k: int| 0 <= k < r ==> (#[trigger] self.list@[k]).bin != bin,
    {
        let mut i: usize = 0;
        while i < self.list.len() && self.list[i].bin != bin
            invariant
                i <= self.list.len(),
                forall|k: int| 0 <= k < i ==> (#[trigger] self.list@[k]).bin != bin,
            decreases self.list.len() - i,
        {
            i += 1;
        }
        proof {
            lemma_bin_index_is(self.list@, bin, 0, i as int);
        }
        i
    }

    /// Takes a finding: it is held if it is the first of its bin or stronger
    /// than the one that is.
    pub fn max_hold(&mut self, bin: usize, score: Single, names: &Vec<String>)
        requires
            old(self).wf(),
        ensures
            final(self).wf(),
            final(self).held(bin) == held_with(old(self).held(bin), score, strings(names@)),
            old(self).held(bin) is None || old(self).held(bin)->0.score.lt(score) ==> final(self).held(
                bin,
            ) == Some(HeldText { score, names: strings(names@) }),
            old(self).held(bin) is Some && !old(self).held(bin)->0.score.lt(score) ==> final(self).held(
                bin,
            ) == old(self).held(bin),
            forall|b: usize| b != bin ==> #[trigger] final(self).held(b) == old(self).held(b),
    {
        let i: usize = self.find(bin);
        let ghost had = self.list@;
        if i < self.list.len() {
            if self.list[i].score.below(score) {
                self.list.set(i, Held { bin, score, names: copy_names(names) });
            }
        } else {
            self.list.push(Held { bin, score, names: copy_names(names) });
        }
        proof {
            let now = self.list@;
            assert forall|b: usize| #[trigger] bin_index(now, b, 0) == if b == bin {
                i as int
            } else if bin_index(had, b, 0) < had.len() {
                bin_index(had, b, 0)
            } else {
                now.len() as int
            } by {
                lemma_bin_index(had, b, 0);
                let n = if b == bin {
                    i as int
                } else if bin_index(had, b, 0) < had.len() {
                    bin_index(had, b, 0)
                } else {
                    now.len() as int
                };
                assert forall|k: int| 0 <= k < n implies (#[trigger] now[k]).bin != b by {
                    if k < had.len() {
                        assert(now[k].bin == had[k].bin);
                    }
                }
                lemma_bin_index_is(now, b, 0, n);
            }
            assert forall|b: usize| b != bin implies #[trigger] self.held(b) == old(self).held(b) by {
                assert(bin_index(now, b, 0) == if bin_index(had, b, 0) < had.len() {
                    bin_index(had, b, 0)
                } else {
                    now.len() as int
                });
                lemma_bin_index(had, b, 0);
            }
            assert(bin_index(now, bin, 0) == i as int);
        }
    }

    /// Takes a list of findings, one after the other.
    pub fn hold_all(&mut self, peaks: &Vec<NamedPeak>)
        requires
            old(self).wf(),
        ensures
            final(self).wf(),
            forall|b: usize|
                #[trigger] final(self).held(b) == held_after(
                    old(self).held(b),
                    peaks@,
                    b,
                    peaks.len() as int,
                ),
    {
        let mut i: usize = 0;
        while i < peaks.len()
            invariant
                i <= peaks.len(),
                self.wf(),
                forall|b: usize|
                    #[trigger] self.held(b) == held_after(old(self).held(b), peaks@, b, i as int),
            decreases peaks.len() - i,
        {
            let ghost before = *self;
            let p = &peaks[i];
            self.max_hold(p.bin, p.score, &p.names);
            assert forall|b: usize| #[trigger] self.held(b) == held_after(
                old(self).held(b),
                peaks@,
                b,
                i + 1,
            ) by {
                assert(before.held(b) == held_after(old(self).held(b), peaks@, b, i as int));
            }
            i += 1;
        }
    }

    /// Takes a list of findings of the own bus, one after the other.
    pub fn hold_own(&mut self, peaks: &Vec<(usize, Single)>)
        requires
            old(self).wf(),
        ensures
            final(self).wf(),
            forall|b: usize|
                #[trigger] final(self).held(b) == held_own_after(
                    old(self).held(b),
                    peaks@,
                    b,
                    peaks.len() as int,
                ),
    {
        let none: Vec<String> = Vec::new();
        assert(strings(none@) == Seq::<Seq<char>>::empty());
        let mut i: usize = 0;
        while i < peaks.len()
            invariant
                i <= peaks.len(),
                self.wf(),
                strings(none@) == Seq::<Seq<char>>::empty(),
                forall|b: usize|
                    #[trigger] self.held(b) == held_own_after(
                        old(self).held(b),
                        peaks@,
                        b,
                        i as int,
                    ),
            decreases peaks.len() - i,
        {
            let ghost before = *self;
            let (bin, score) = peaks[i];
            self.max_hold(bin, score, &none);
            assert forall|b: usize| #[trigger] self.held(b) == held_own_after(
                old(self).held(b),
                peaks@,
                b,
                i + 1,
            ) by {
                assert(before.held(b) == held_own_after(old(self).held(b), peaks@, b, i as int));
            }
            i += 1;
        }
    }

    /// The strongest `n` that are held, strongest first.
    pub fn strongest_held(&self, n: usize) -> (r: Vec<(usize, Single)>)
        ensures
            r@ == top(self.scores(), n as nat),
    {
        let mut all: Vec<(usize, Single)> = Vec::new();
        let mut i: usize = 0;
        while i < self.list.len()
            invariant
                i <= self.list.len(),
                all@ == self.scores().take(i as int),
            decreases self.list.len() - i,
        {
            all.push((self.list[i].bin, self.list[i].score));
            i += 1;
            assert(all@ == self.scores().take(i as int));
        }
        assert(self.scores().take(i as int) == self.scores());
        take_top(&all, n)
    }

    /// The list of scores holds each bin for which something is held once, with
    /// the score that is held for it.
    pub proof fn law_scores_are_held(&self)
        requires
            self.wf(),
        ensures
            forall|i: int|
                0 <= i < self.scores().len() ==> {
                    let p = #[trigger] self.scores()[i];
                    self.held(p.0) is Some && self.held(p.0)->0.score == p.1
                },
            forall|bin: usize|
                (#[trigger] self.held(bin)) is Some ==> exists|i: int|
                    0 <= i < self.scores().len() && (#[trigger] self.scores()[i]).0 == bin,
            forall|i: int, j: int|
                0 <= i < j < self.scores().len() ==> (#[trigger] self.scores()[i]).0 != (
                #[trigger] self.scores()[j]).0,
    {
        let list = self.list@;
        assert forall|i: int| 0 <= i < self.scores().len() implies ({
            let p = #[trigger] self.scores()[i];
            self.held(p.0) is Some && self.held(p.0)->0.score == p.1
        }) by {
            assert forall|k: int| 0 <= k < i implies (#[trigger] list[k]).bin != list[i].bin by {}
            lemma_bin_index_is(list, list[i].bin, 0, i);
        }
        assert forall|bin: usize| (#[trigger] self.held(bin)) is Some implies exists|i: int|
            0 <= i < self.scores().len() && (#[trigger] self.scores()[i]).0 == bin by {
            lemma_bin_index(list, bin, 0);
            assert(self.scores()[bin_index(list, bin, 0)].0 == bin);
        }
    }

    /// Who contributed to what is held for a bin.
    pub fn names_of(&self, bin: usize) -> (r: Vec<String>)
        ensures
            strings(r@) == match self.held(bin) {
                Some(h) => h.names,
                None => seq![],
            },
    {
        let i: usize = self.find(bin);
        if i < self.list.len() {
            copy_names(&self.list[i].names)
        } else {
            let r: Vec<String> = Vec::new();
            assert(strings(r@) == Seq::<Seq<char>>::empty());
            r
        }
    }
}

/// What is held for a bin after a finding of it.
pub open spec fn held_with(before: Option<HeldText>, score: Single, names: Seq<Seq<char>>) -> Option<
    HeldText,
> {
    match before {
        Some(h) => if h.score.lt(score) {
            Some(HeldText { score, names })
        } else {
            before
        },
        None => Some(HeldText { score, names }),
    }
}

/// What is held for a bin after the first `n` findings of a list.
pub open spec fn held_after(
    before: Option<HeldText>,
    peaks: Seq<NamedPeak>,
    bin: usize,
    n: int,
) -> Option<HeldText>
    decreases n,
{
    if n <= 0 {
        before
    } else {
        let had = held_after(before, peaks, bin, n - 1);
        let p = peaks[n - 1];
        if p.bin == bin {
            held_with(had, p.score, strings(p.names@))
        } else {
            had
        }
    }
}

/// What is held for a bin after the first `n` findings of the own bus.
pub open spec fn held_own_after(
    before: Option<HeldText>,
    peaks: Seq<(usize, Single)>,
    bin: usize,
    n: int,
) -> Option<HeldText>
    decreases n,
{
    if n <= 0 {
        before
    } else {
        let had = held_own_after(before, peaks, bin, n - 1);
        if peaks[n - 1].0 == bin {
            held_with(had, peaks[n - 1].1, seq![])
        } else {
            had
        }
    }
}

/// What is held for a bin is one of its findings or what was held before, and
/// is at least as strong as all of these.
pub proof fn law_strongest_is_held(
    before: Option<HeldText>,
    peaks: Seq<NamedPeak>,
    bin: usize,
    n: int,
)
    requires
        0 <= n <= peaks.len(),
        before is Some ==> !before->0.score.is_nan(),
        forall|i: int| 0 <= i < n ==> !(#[trigger] peaks[i]).score.is_nan(),
    ensures
        held_after(before, peaks, bin, n) is Some ==> !held_after(
            before,
            peaks,
            bin,
            n,
        )->0.score.is_nan(),
        before is Some ==> held_after(before, peaks, bin, n) is Some && before->0.score.le(
            held_after(before, peaks, bin, n)->0.score,
        ),
        forall|i: int|
            0 <= i < n && (#[trigger] peaks[i]).bin == bin ==> held_after(before, peaks, bin, n)
                is Some && peaks[i].score.le(held_after(before, peaks, bin, n)->0.score),
        held_after(before, peaks, bin, n) == before || exists|i: int|
            0 <= i < n && (#[trigger] peaks[i]).bin == bin && held_after(before, peaks, bin, n)
                == Some(HeldText { score: peaks[i].score, names: strings(peaks[i].names@) }),
    decreases n,
{
    if n > 0 {
        law_strongest_is_held(before, peaks, bin, n - 1);
        let had = held_after(before, peaks, bin, n - 1);
        let now = held_after(before, peaks, bin, n);
        if peaks[n - 1].bin != bin {
            assert(now == had);
        } else if now == had {
            assert(had is Some);
        } else {
            assert(now == Some(
                HeldText { score: peaks[n - 1].score, names: strings(peaks[n - 1].names@) },
            ));
        }
    }
}

/// What is held for a bin is the first of the strongest: no later finding that
/// is only as strong takes its place, and every earlier one is weaker.
pub proof fn law_first_of_the_strongest_is_held(
    before: Option<HeldText>,
    peaks: Seq<NamedPeak>,
    bin: usize,
    n: int,
) -> (k: int)
    requires
        0 <= n <= peaks.len(),
        before is Some ==> !before->0.score.is_nan(),
        forall|i: int| 0 <= i < n ==> !(#[trigger] peaks[i]).score.is_nan(),
    ensures
        ({
            let now = held_after(before, peaks, bin, n);
            &&& k == -1 ==> now == before
            &&& k != -1 ==> 0 <= k < n && peaks[k].bin == bin && now == Some(
                HeldText { score: peaks[k].score, names: strings(peaks[k].names@) },
            ) && (before is Some ==> before->0.score.lt(peaks[k].score))
            &&& forall|i: int|
                0 <= i < k && (#[trigger] peaks[i]).bin == bin ==> peaks[i].score.lt(now->0.score)
            &&& forall|i: int|
                0 <= i < n && (#[trigger] peaks[i]).bin == bin ==> now is Some && peaks[i].score.le(
                    now->0.score,
                )
        }),
    decreases n,
{
    if n <= 0 {
        -1
    } else {
        let k = law_first_of_the_strongest_is_held(before, peaks, bin, n - 1);
        let had = held_after(before, peaks, bin, n - 1);
        let now = held_after(before, peaks, bin, n);
        if peaks[n - 1].bin == bin && (had is None || had->0.score.lt(peaks[n - 1].score)) {
            n - 1
        } else {
            assert(now == had);
            k
        }
    }
}

/// Of the own bus, too, the first of the strongest is held, without a name.
pub proof fn law_first_of_the_strongest_own_is_held(
    before: Option<HeldText>,
    peaks: Seq<(usize, Single)>,
    bin: usize,
    n: int,
) -> (k: int)
    requires
        0 <= n <= peaks.len(),
        before is Some ==> !before->0.score.is_nan(),
        forall|i: int| 0 <= i < n ==> !(#[trigger] peaks[i]).1.is_nan(),
    ensures
        ({
            let now = held_own_after(before, peaks, bin, n);
            &&& k == -1 ==> now == before
            &&& k != -1 ==> 0 <= k < n && peaks[k].0 == bin && now == Some(
                HeldText { score: peaks[k].1, names: Seq::empty() },
            ) && (before is Some ==> before->0.score.lt(peaks[k].1))
            &&& forall|i: int|
                0 <= i < k && (#[trigger] peaks[i]).0 == bin ==> peaks[i].1.lt(now->0.score)
            &&& forall|i: int|
                0 <= i < n && (#[trigger] peaks[i]).0 == bin ==> now is Some && peaks[i].1.le(
                    now->0.score,
                )
        }),
    decreases n,
{
    if n <= 0 {
        -1
    } else {
        let k = law_first_of_the_strongest_own_is_held(before, peaks, bin, n - 1);
        let had = held_own_after(before, peaks, bin, n - 1);
        let now = held_own_after(before, peaks, bin, n);
        if peaks[n - 1].0 == bin && (had is None || had->0.score.lt(peaks[n - 1].1)) {
            n - 1
        } else {
            assert(now == had);
            k
        }
    }
}

// ─── Panels ──────────────────────────────────────────────────────────────────

/// How long, in milliseconds, findings are held before a panel shows them.
pub const DISPLAY_HOLD_MS: u128 = 500;

/// Whether findings have been held long enough to be shown.
pub fn window_is_over(elapsed_ms: u128) -> (r: bool)
    ensures
        r == (elapsed_ms >= 500),
{
    elapsed_ms >= DISPLAY_HOLD_MS
}

/// How many findings of a kind a panel shows.
pub const PANEL_LINES: usize = 3;

/// The line of a resonance of the own bus.
pub open spec fn own_text(l: Finding) -> Seq<char> {
    "Own: "@ + l.hz@ + " Hz "@ + l.amount@
}

/// The line of a resonance of the relays together.
pub open spec fn group_text(l: Finding) -> Seq<char> {
    let line = "Group: "@ + l.hz@ + " Hz "@ + l.amount@;
    if l.names.len() == 0 {
        line
    } else {
        line + " ("@ + joined_with(strings(l.names@), ", "@) + ")"@
    }
}

/// The line of a masking collision.
pub open spec fn collision_text(l: Finding) -> Seq<char> {
    let line = l.hz@ + " Hz  "@ + l.amount@ + " dB"@;
    if l.names.len() == 0 {
        line
    } else {
        line + " ("@ + joined_with(strings(l.names@), "-"@) + ")"@
    }
}

/// The lines of the resonance panel.
pub open spec fn resonance_texts(own: Seq<Finding>, relay: Seq<Finding>) -> Seq<Seq<char>> {
    Seq::new(own.len(), |i: int| own_text(own[i])) + Seq::new(relay.len(), |i: int| group_text(relay[i]))
}

/// The text of the resonance panel: the strongest of the own bus, and then
/// those of the relays together.
pub fn format_resonance_text(own: &Vec<Finding>, relay: &Vec<Finding>) -> (r: String)
    ensures
        r@ == if own.len() == 0 && relay.len() == 0 {
            "No resonances detected"@
        } else {
            joined_with(resonance_texts(own@, relay@), "\n"@)
        },
        own.len() > 0 || relay.len() > 0 ==> r@ == joined_with(
            Seq::new(
                own@.len() + relay@.len(),
                |i: int|
                    if i < own@.len() {
                        "Own: "@ + own@[i].hz@ + " Hz "@ + own@[i].amount@
                    } else {
                        let l = relay@[i - own@.len()];
                        let line = "Group: "@ + l.hz@ + " Hz "@ + l.amount@;
                        if l.names.len() == 0 {
                            line
                        } else {
                            line + " ("@ + joined_with(strings(l.names@), ", "@) + ")"@
                        }
                    },
            ),
            "\n"@,
        ),
{
    if own.len() == 0 && relay.len() == 0 {
        return "No resonances detected".to_owned();
    }
    let mut ls: Vec<String> = Vec::new();
    let mut i: usize = 0;
    while i < own.len()
        invariant
            i <= own.len(),
            ls.len() == i,
            forall|k: int| 0 <= k < i ==> (#[trigger] ls@[k])@ == own_text(own@[k]),
        decreases own.len() - i,
    {
        let mut s: String = "Own: ".to_owned();
        s.append(own[i].hz.as_str());
        s.append(" Hz ");
        s.append(own[i].amount.as_str());
        ls.push(s);
        i += 1;
    }
    let mut i: usize = 0;
    while i < relay.len()
        invariant
            i <= relay.len(),
            ls.len() == own.len() + i,
            forall|k: int| 0 <= k < own.len() ==> (#[trigger] ls@[k])@ == own_text(own@[k]),
            forall|k: int|
                own.len() <= k < own.len() + i ==> (#[trigger] ls@[k])@ == group_text(
                    relay@[k - own.len()],
                ),
        decreases relay.len() - i,
    {
        let mut s: String = "Group: ".to_owned();
        s.append(relay[i].hz.as_str());
        s.append(" Hz ");
        s.append(relay[i].amount.as_str());
        if relay[i].names.len() > 0 {
            s.append(" (");
            s.append(join_with(&relay[i].names, ", ").as_str());
            s.append(")");
        }
        ls.push(s);
        i += 1;
    }
    assert(strings(ls@) == resonance_texts(own@, relay@));
    assert(strings(ls@) == Seq::new(
        own@.len() + relay@.len(),
        |i: int|
            if i < own@.len() {
                "Own: "@ + own@[i].hz@ + " Hz "@ + own@[i].amount@
            } else {
                let l = relay@[i - own@.len()];
                let line = "Group: "@ + l.hz@ + " Hz "@ + l.amount@;
                if l.names.len() == 0 {
                    line
                } else {
                    line + " ("@ + joined_with(strings(l.names@), ", "@) + ")"@
                }
            },
    ));
    join_with(&ls, "\n")
}

/// The lines of the masking panel.
pub open spec fn collision_texts(ls: Seq<Finding>) -> Seq<Seq<char>> {
    Seq::new(ls.len(), |i: int| collision_text(ls[i]))
}

/// The text of the masking panel.
pub fn format_masking_text(mode: usize, lines: &Vec<Finding>, no_relays: bool) -> (r: String)
    ensures
        r@ == if mode == 0 {
            "Standalone — no masking"@
        } else if lines.len() == 0 || no_relays {
            "No masking detected"@
        } else {
            joined_with(collision_texts(lines@), "\n"@)
        },
        mode != 0 && lines.len() > 0 && !no_relays ==> r@ == joined_with(
            Seq::new(
                lines@.len(),
                |i: int|
                    {
                        let line = lines@[i].hz@ + " Hz  "@ + lines@[i].amount@ + " dB"@;
                        if lines@[i].names.len() == 0 {
                            line
                        } else {
                            line + " ("@ + joined_with(strings(lines@[i].names@), "-"@) + ")"@
                        }
                    },
            ),
            "\n"@,
        ),
{
    if mode == 0 {
        return "Standalone — no masking".to_owned();
    }
    if lines.len() == 0 || no_relays {
        return "No masking detected".to_owned();
    }
    let mut ls: Vec<String> = Vec::new();
    let mut i: usize = 0;
    while i < lines.len()
        invariant
            i <= lines.len(),
            ls.len() == i,
            forall|k: int| 0 <= k < i ==> (#[trigger] ls@[k])@ == collision_text(lines@[k]),
        decreases lines.len() - i,
    {
        let mut s: String = lines[i].hz.clone();
        s.append(" Hz  ");
        s.append(lines[i].amount.as_str());
        s.append(" dB");
        if lines[i].names.len() > 0 {
            s.append(" (");
            s.append(join_with(&lines[i].names, "-").as_str());
            s.append(")");
        }
        ls.push(s);
        i += 1;
    }
    assert(strings(ls@) == collision_texts(lines@));
    assert(strings(ls@) == Seq::new(
        lines@.len(),
        |i: int|
            {
                let line = lines@[i].hz@ + " Hz  "@ + lines@[i].amount@ + " dB"@;
                if lines@[i].names.len() == 0 {
                    line
                } else {
                    line + " ("@ + joined_with(strings(lines@[i].names@), "-"@) + ")"@
                }
            },
    ));
    join_with(&ls, "\n")
}

/// The text of a panel: its content while it is on, else that it is off.
pub fn panel_text(on: bool, content: String) -> (r: String)
    ensures
        r@ == if on {
            content@
        } else {
            "Off"@
        },
{
    if on {
        content
    } else {
        "Off".to_owned()
    }
}

} // verus!
