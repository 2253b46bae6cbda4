//! Spectral peaks: the lists that are kept of them, which tracks contribute to
//! one, and which of them are overtones of others.

use crate::single::Single;
use crate::text::strings;
use vstd::prelude::*;
use vstd::string::*;

verus! {

/// An empty contributor slot.
pub const CONTRIB_NONE: u8 = 255;

/// The own bus as a contributor. Relay tracks contribute by their slot number.
pub const CONTRIB_OWN: u8 = 254;

/// How many contributors a peak can name.
pub const MAX_PEAK_CONTRIBS: usize = 8;

/// How many peaks are kept while a spectrum is searched.
pub const MAX_RAW_PEAKS: usize = 64;

/// How many resonances are reported.
pub const MAX_RES_PEAKS: usize = 16;

/// How many masking collisions are reported.
pub const MAX_MASK_PEAKS: usize = 64;

/// The editor's mask is in force only while this bit of it is set.
pub const RELAY_MASK_DRIVEN: u32 = 0x8000_0000;

/// The level above which a track contributes to a peak, -70 dB.
pub const CONTRIB_FLOOR_BITS: u32 = 0xc28c_0000;

// ─── Which relays are on ─────────────────────────────────────────────────────

/// Whether the relay in `slot` is on: every one is until the editor drives the
/// mask, and then those whose bit is set.
pub open spec fn slot_is_on(mask: u32, slot: u8) -> bool {
    mask & 0x8000_0000 == 0 || mask & (1u32 << slot) != 0
}

/// Whether a mask can say whether the relay in `slot` is on: one that is driven
/// has a bit for each of 32 slots, and one that is not is not looked into.
pub open spec fn covers_slot(mask: u32, slot: u8) -> bool {
    mask & 0x8000_0000 == 0 || slot < 32
}

/// `relay_slot_active` of the analysis crate: true while bit 31 of the mask is
/// clear, else bit `slot` of it. With that bit set a slot past the width of the
/// mask is left out, since shifting by it overflows.
pub assume_specification[ aura_dsp::analysis::relay_slot_active ](mask: u32, slot: u8) -> (r: bool)
    requires
        mask & 0x8000_0000 == 0 || slot < 32,
    ensures
        r == (mask & 0x8000_0000 == 0 || mask & (1u32 << slot) != 0),
;

// ─── Peaks with contributors ─────────────────────────────────────────────────

/// A peak: its bin, its score, and who contributes to it.
#[derive(Clone, Copy, Debug)]
pub struct AttributedPeak {
    pub bin: usize,
    pub score: Single,
    pub ids: [u8; 8],
    pub n_ids: u8,
}

impl AttributedPeak {
    /// A peak names at most as many contributors as it has room for; the slots
    /// that are left are empty.
    pub open spec fn wf(self) -> bool {
        &&& self.n_ids <= 8
        &&& forall|i: int| self.n_ids <= i < 8 ==> self.ids@[i] == CONTRIB_NONE
    }

    /// The contributors that the peak names, in order.
    pub open spec fn contributors(self) -> Seq<u8> {
        self.ids@.take(self.n_ids as int)
    }

    /// A peak without contributors.
    pub fn new(bin: usize, score: Single) -> (r: AttributedPeak)
        ensures
            r.wf(),
            r.bin == bin,
            r.score == score,
            r.contributors() == Seq::<u8>::empty(),
    {
        AttributedPeak { bin, score, ids: [255u8; 8], n_ids: 0 }
    }

    /// Names one more contributor. Nothing changes when `id` is the empty slot
    /// or there is no room left.
    pub fn push_id(&mut self, id: u8)
        requires
            old(self).wf(),
        ensures
            final(self).wf(),
            final(self).bin == old(self).bin,
            final(self).score == old(self).score,
            final(self).contributors() == with_contributor(old(self).contributors(), id),
            final(self).contributors() == if id != 255 && old(self).contributors().len() < 8 {
                old(self).contributors().push(id)
            } else {
                old(self).contributors()
            },
    {
        if id == CONTRIB_NONE {
            return;
        }
        let n: usize = self.n_ids as usize;
        if n < MAX_PEAK_CONTRIBS {
            self.ids[n] = id;
            self.n_ids = self.n_ids + 1;
            assert(self.contributors() == old(self).contributors().push(id));
        }
    }

    /// The contributors that the peak names, in order.
    pub fn ids_slice(&self) -> (r: &[u8])
        requires
            self.wf(),
        ensures
            r@ == self.contributors(),
    {
        vstd::slice::slice_subrange(self.ids.as_slice(), 0, self.n_ids as usize)
    }
}

impl Default for AttributedPeak {
    fn default() -> (r: AttributedPeak)
        ensures
            r.wf(),
            r.bin == 0,
            r.score.bits == 0,
            r.contributors() == Seq::<u8>::empty(),
    {
        AttributedPeak::new(0, Single { bits: 0 })
    }
}

/// `ids` and then `id`, if it is not the empty slot and there is room.
pub open spec fn with_contributor(ids: Seq<u8>, id: u8) -> Seq<u8> {
    if id == CONTRIB_NONE || ids.len() >= 8 {
        ids
    } else {
        ids.push(id)
    }
}

/// A relay track: its slot and its spectrum in dB.
pub struct RelayTrack {
    pub slot: u8,
    pub bins: Vec<Single>,
}

/// The slots of the first `n` tracks that are on and above the contributor
/// floor at `bin`, as far as a peak has room for them.
pub open spec fn contributors_at(tracks: Seq<RelayTrack>, mask: u32, bin: int, n: int) -> Seq<u8>
    decreases n,
{
    if n <= 0 {
        seq![]
    } else {
        let had = contributors_at(tracks, mask, bin, n - 1);
        let t = tracks[n - 1];
        if slot_is_on(mask, t.slot) && bin < t.bins.len() && (Single { bits: CONTRIB_FLOOR_BITS }).lt(
            t.bins@[bin],
        ) {
            with_contributor(had, t.slot)
        } else {
            had
        }
    }
}

/// Names for each of the first peaks the relay tracks that contribute to it.
pub fn attribute_contributors_into(
    peaks: &Vec<(usize, Single)>,
    tracks: &Vec<RelayTrack>,
    mask: u32,
) -> (r: Vec<AttributedPeak>)
    requires
        forall|i: int| 0 <= i < tracks.len() ==> covers_slot(mask, (#[trigger] tracks@[i]).slot),
    ensures
        r.len() == if peaks.len() < 16 {
            peaks.len()
        } else {
            16
        },
        forall|i: int|
            0 <= i < r.len() ==> {
                let p = #[trigger] r@[i];
                &&& p.wf()
                &&& p.bin == peaks@[i].0
                &&& p.score == peaks@[i].1
                &&& p.contributors() == contributors_at(
                    tracks@,
                    mask,
                    p.bin as int,
                    tracks.len() as int,
                )
            },
{
    let mut r: Vec<AttributedPeak> = Vec::new();
    let n: usize = if peaks.len() < MAX_RES_PEAKS {
        peaks.len()
    } else {
        MAX_RES_PEAKS
    };
    let floor = Single { bits: CONTRIB_FLOOR_BITS };
    let mut i: usize = 0;
    while i < n
        invariant
            i <= n <= peaks.len(),
            r.len() == i,
            floor == (Single { bits: CONTRIB_FLOOR_BITS }),
            forall|k: int| 0 <= k < tracks.len() ==> covers_slot(mask, (#[trigger] tracks@[k]).slot),
            forall|k: int|
                0 <= k < r.len() ==> {
                    let p = #[trigger] r@[k];
                    &&& p.wf()
                    &&& p.bin == peaks@[k].0
                    &&& p.score == peaks@[k].1
                    &&& p.contributors() == contributors_at(
                        tracks@,
                        mask,
                        p.bin as int,
                        tracks.len() as int,
                    )
                },
        decreases n - i,
    {
        let bin: usize = peaks[i].0;
        let mut p = AttributedPeak::new(bin, peaks[i].1);
        let mut k: usize = 0;
        while k < tracks.len()
            invariant
                k <= tracks.len(),
                p.wf(),
                p.bin == bin,
                p.score == peaks@[i as int].1,
                floor == (Single { bits: CONTRIB_FLOOR_BITS }),
                forall|k: int| 0 <= k < tracks.len() ==> covers_slot(mask, (#[trigger] tracks@[k]).slot),
                p.contributors() == contributors_at(tracks@, mask, bin as int, k as int),
            decreases tracks.len() - k,
        {
            let t = &tracks[k];
            assert(covers_slot(mask, tracks@[k as int].slot));
            if aura_dsp::analysis::relay_slot_active(mask, t.slot) && bin < t.bins.len()
                && t.bins[bin].above(floor) {
                p.push_id(t.slot);
            }
            k += 1;
        }
        r.push(p);
        i += 1;
    }
    r
}

/// A track contributes to a peak only if it is on and above the floor there.
pub proof fn law_contributors_are_loud(tracks: Seq<RelayTrack>, mask: u32, bin: int, n: int, i: int)
    requires
        0 <= n <= tracks.len(),
        0 <= i < contributors_at(tracks, mask, bin, n).len(),
    ensures
        contributors_at(tracks, mask, bin, n).len() <= 8,
        exists|k: int|
            {
                &&& 0 <= k < n
                &&& (#[trigger] tracks[k]).slot == contributors_at(tracks, mask, bin, n)[i]
                &&& slot_is_on(mask, tracks[k].slot)
                &&& bin < tracks[k].bins.len()
                &&& (Single { bits: CONTRIB_FLOOR_BITS }).lt(tracks[k].bins@[bin])
            },
    decreases n,
{
    let had = contributors_at(tracks, mask, bin, n - 1);
    let all = contributors_at(tracks, mask, bin, n);
    lemma_contributors_fit(tracks, mask, bin, n);
    if n > 0 {
        if i < had.len() {
            law_contributors_are_loud(tracks, mask, bin, n - 1, i);
            assert(all[i] == had[i]);
        } else {
            assert(all[i] == tracks[n - 1].slot);
        }
    }
}

proof fn lemma_contributors_fit(tracks: Seq<RelayTrack>, mask: u32, bin: int, n: int)
    ensures
        contributors_at(tracks, mask, bin, n).len() <= 8,
    decreases n,
{
    if n > 0 {
        lemma_contributors_fit(tracks, mask, bin, n - 1);
    }
}

/// Those of the first `n` tracks that are on, by their positions.
pub open spec fn tracks_on(tracks: Seq<RelayTrack>, mask: u32, n: int) -> Seq<usize>
    decreases n,
{
    if n <= 0 {
        seq![]
    } else if slot_is_on(mask, tracks[n - 1].slot) {
        tracks_on(tracks, mask, n - 1).push((n - 1) as usize)
    } else {
        tracks_on(tracks, mask, n - 1)
    }
}

/// The tracks that are on, by their positions, which are summed to a group.
pub fn active_tracks(tracks: &Vec<RelayTrack>, mask: u32) -> (r: Vec<usize>)
    requires
        forall|i: int| 0 <= i < tracks.len() ==> covers_slot(mask, (#[trigger] tracks@[i]).slot),
    ensures
        r@ == tracks_on(tracks@, mask, tracks.len() as int),
{
    let mut r: Vec<usize> = Vec::new();
    let mut i: usize = 0;
    while i < tracks.len()
        invariant
            i <= tracks.len(),
            forall|k: int| 0 <= k < tracks.len() ==> covers_slot(mask, (#[trigger] tracks@[k]).slot),
            r@ == tracks_on(tracks@, mask, i as int),
        decreases tracks.len() - i,
    {
        assert(covers_slot(mask, tracks@[i as int].slot));
        if aura_dsp::analysis::relay_slot_active(mask, tracks[i].slot) {
            r.push(i);
        }
        i += 1;
    }
    r
}

/// While the editor drives no mask every track is on.
pub proof fn law_undriven_mask_keeps_all(tracks: Seq<RelayTrack>, mask: u32, n: int)
    requires
        0 <= n <= tracks.len(),
        mask & RELAY_MASK_DRIVEN == 0,
    ensures
        tracks_on(tracks, mask, n).len() == n,
        forall|i: int| 0 <= i < n ==> #[trigger] tracks_on(tracks, mask, n)[i] == i as usize,
    decreases n,
{
    if n > 0 {
        law_undriven_mask_keeps_all(tracks, mask, n - 1);
    }
}

// ─── Contributors by name ────────────────────────────────────────────────────

/// A relay track under its name, with its spectrum in dB.
pub struct NamedTrack {
    pub name: String,
    pub bins: Vec<Single>,
}

/// A peak and the names of the tracks that contribute to it.
pub struct NamedPeak {
    pub bin: usize,
    pub score: Single,
    pub names: Vec<String>,
}

/// The names of those of the first `n` tracks that are above the contributor
/// floor at `bin`.
pub open spec fn names_at(tracks: Seq<NamedTrack>, bin: int, n: int) -> Seq<Seq<char>>
    decreases n,
{
    if n <= 0 {
        seq![]
    } else {
        let had = names_at(tracks, bin, n - 1);
        let t = tracks[n - 1];
        if bin < t.bins.len() && (Single { bits: CONTRIB_FLOOR_BITS }).lt(t.bins@[bin]) {
            had.push(t.name@)
        } else {
            had
        }
    }
}

/// Names for each peak the tracks that contribute to it.
pub fn attribute_contributors(peaks: &Vec<(usize, Single)>, tracks: &Vec<NamedTrack>) -> (r: Vec<
    NamedPeak,
>)
    ensures
        r.len() == peaks.len(),
        forall|i: int|
            0 <= i < r.len() ==> {
                let p = #[trigger] r@[i];
                &&& p.bin == peaks@[i].0
                &&& p.score == peaks@[i].1
                &&& strings(p.names@) == names_at(tracks@, p.bin as int, tracks.len() as int)
            },
{
    let mut r: Vec<NamedPeak> = Vec::new();
    let floor = Single { bits: CONTRIB_FLOOR_BITS };
    let mut i: usize = 0;
    while i < peaks.len()
        invariant
            i <= peaks.len(),
            r.len() == i,
            floor == (Single { bits: CONTRIB_FLOOR_BITS }),
            forall|k: int|
                0 <= k < r.len() ==> {
                    let p = #[trigger] r@[k];
                    &&& p.bin == peaks@[k].0
                    &&& p.score == peaks@[k].1
                    &&& strings(p.names@) == names_at(tracks@, p.bin as int, tracks.len() as int)
                },
        decreases peaks.len() - i,
    {
        let (bin, score) = peaks[i];
        let mut names: Vec<String> = Vec::new();
        let mut k: usize = 0;
        assert(strings(names@) == Seq::<Seq<char>>::empty());
        while k < tracks.len()
            invariant
                k <= tracks.len(),
                floor == (Single { bits: CONTRIB_FLOOR_BITS }),
                strings(names@) == names_at(tracks@, bin as int, k as int),
            decreases tracks.len() - k,
        {
            let t = &tracks[k];
            if bin < t.bins.len() && t.bins[bin].above(floor) {
                let ghost had = names@;
                names.push(t.name.clone());
                assert(strings(names@) == strings(had).push(t.name@));
            }
            k += 1;
        }
        r.push(NamedPeak { bin, score, names });
        i += 1;
    }
    r
}

/// What a contributor is called: the own bus by a fixed name, a relay by its own.
pub open spec fn name_of(id: u8, names: Seq<String>) -> Option<Seq<char>> {
    if id == CONTRIB_OWN {
        Some("Own"@)
    } else if id < names.len() {
        Some(names[id as int]@)
    } else {
        None
    }
}

/// What contributors are called; those without a name are left out.
pub open spec fn names_of(ids: Seq<u8>, names: Seq<String>) -> Seq<Seq<char>>
    decreases ids.len(),
{
    if ids.len() == 0 {
        seq![]
    } else {
        let had = names_of(ids.drop_last(), names);
        match name_of(ids.last(), names) {
            Some(n) => had.push(n),
            None => had,
        }
    }
}

/// What the contributors of a peak are called; `names` are those of the relays
/// by their slot.
pub fn contributor_names(peak: &AttributedPeak, names: &Vec<String>) -> (r: Vec<String>)
    requires
        peak.wf(),
    ensures
        strings(r@) == names_of(peak.contributors(), names@),
{
    let mut r: Vec<String> = Vec::new();
    let ids = peak.ids_slice();
    let mut i: usize = 0;
    assert(strings(r@) == names_of(ids@.take(0), names@));
    while i < ids.len()
        invariant
            i <= ids.len(),
            strings(r@) == names_of(ids@.take(i as int), names@),
        decreases ids.len() - i,
    {
        let id: u8 = ids[i];
        let ghost had = r@;
        assert(ids@.take(i + 1).drop_last() == ids@.take(i as int));
        assert(ids@.take(i + 1).last() == id);
        if id == CONTRIB_OWN {
            r.push("Own".to_owned());
            assert(strings(r@) == strings(had).push("Own"@));
        } else if (id as usize) < names.len() {
            r.push(names[id as usize].clone());
            assert(strings(r@) == strings(had).push(names@[id as int]@));
        }
        i += 1;
    }
    assert(ids@.take(i as int) == ids@);
    r
}

// ─── Bounded lists ───────────────────────────────────────────────────────────

/// Where the weakest of the first `n` scores stands; of equal ones the first.
pub open spec fn weakest(list: Seq<(usize, Single)>, n: int) -> int
    decreases n,
{
    if n <= 1 {
        0
    } else {
        let w = weakest(list, n - 1);
        if list[n - 1].1.lt(list[w].1) {
            n - 1
        } else {
            w
        }
    }
}

/// `list` after a peak is offered to it: it is put at the end while there is
/// room, and else takes the place of the weakest if it is stronger.
pub open spec fn offered(
    list: Seq<(usize, Single)>,
    cap: nat,
    peak: (usize, Single),
) -> Seq<(usize, Single)> {
    if list.len() < cap {
        list.push(peak)
    } else {
        let w = weakest(list, list.len() as int);
        if list[w].1.lt(peak.1) {
            list.update(w, peak)
        } else {
            list
        }
    }
}

/// Offers a peak to a list of limited length.
pub fn offer(list: &mut Vec<(usize, Single)>, cap: usize, peak: (usize, Single))
    requires
        cap > 0,
        old(list).len() <= cap,
    ensures
        final(list)@ == offered(old(list)@, cap as nat, peak),
        final(list).len() <= cap,
        old(list).len() < cap ==> final(list)@ == old(list)@.push(peak),
        old(list).len() == cap ==> final(list)@ == old(list)@ || exists|w: int|
            0 <= w < cap && old(list)@[w].1.lt(peak.1) && final(list)@ == #[trigger] old(list)@.update(
                w,
                peak,
            ),
{
    proof {
        if list.len() == cap {
            lemma_weakest_stands(list@, list.len() as int);
        }
    }
    if list.len() < cap {
        list.push(peak);
        return;
    }
    let mut w: usize = 0;
    let mut i: usize = 1;
    while i < list.len()
        invariant
            1 <= i <= list.len(),
            w < list.len(),
            w == weakest(list@, i as int),
        decreases list.len() - i,
    {
        if list[i].1.below(list[w].1) {
            w = i;
        }
        i += 1;
    }
    if list[w].1.below(peak.1) {
        list.set(w, peak);
    }
}

/// The list after the first `n` peaks are offered to an empty one.
pub open spec fn strongest(peaks: Seq<(usize, Single)>, cap: nat, n: int) -> Seq<(usize, Single)>
    decreases n,
{
    if n <= 0 {
        seq![]
    } else {
        offered(strongest(peaks, cap, n - 1), cap, peaks[n - 1])
    }
}

/// Whether every score is a number.
pub open spec fn all_numbers(list: Seq<(usize, Single)>) -> bool {
    forall|i: int| 0 <= i < list.len() ==> !(#[trigger] list[i]).1.is_nan()
}

proof fn lemma_weakest_stands(list: Seq<(usize, Single)>, n: int)
    requires
        1 <= n <= list.len(),
    ensures
        0 <= weakest(list, n) < n,
    decreases n,
{
    if n > 1 {
        lemma_weakest_stands(list, n - 1);
    }
}

proof fn lemma_weakest(list: Seq<(usize, Single)>, n: int)
    requires
        1 <= n <= list.len(),
        all_numbers(list),
    ensures
        0 <= weakest(list, n) < n,
        forall|i: int| 0 <= i < n ==> list[weakest(list, n)].1.le((#[trigger] list[i]).1),
    decreases n,
{
    if n > 1 {
        lemma_weakest(list, n - 1);
    }
}

/// A list of limited length keeps the strongest peaks: as many as there is room
/// for, each of them one that was offered, and none that was offered is
/// stronger than one that is kept unless it is kept itself.
pub proof fn law_strongest_are_kept(peaks: Seq<(usize, Single)>, cap: nat, n: int)
    requires
        cap > 0,
        0 <= n <= peaks.len(),
        all_numbers(peaks),
    ensures
        strongest(peaks, cap, n).len() == if n < cap {
            n
        } else {
            cap as int
        },
        all_numbers(strongest(peaks, cap, n)),
        forall|i: int|
            0 <= i < strongest(peaks, cap, n).len() ==> peaks.take(n).contains(
                #[trigger] strongest(peaks, cap, n)[i],
            ),
        forall|k: int, i: int|
            0 <= k < n && 0 <= i < strongest(peaks, cap, n).len() && !strongest(peaks, cap, n).contains(
                #[trigger] peaks[k],
            ) ==> peaks[k].1.le((#[trigger] strongest(peaks, cap, n)[i]).1),
    decreases n,
{
    if n > 0 {
        law_strongest_are_kept(peaks, cap, n - 1);
        let had = strongest(peaks, cap, n - 1);
        let new = strongest(peaks, cap, n);
        let p = peaks[n - 1];
        let w = weakest(had, had.len() as int);
        if had.len() >= cap {
            lemma_weakest(had, had.len() as int);
        }
        assert(peaks.take(n)[n - 1] == p);
        assert forall|i: int| 0 <= i < new.len() implies peaks.take(n).contains(#[trigger] new[i]) by {
            if new[i] != p {
                assert(new[i] == had[i]);
                let before = peaks.take(n - 1);
                let k = choose|k: int| 0 <= k < before.len() && before[k] == had[i];
                assert(peaks.take(n)[k] == had[i]);
            }
        }
        assert forall|k: int, i: int|
            0 <= k < n && 0 <= i < new.len() && !new.contains(#[trigger] peaks[k]) implies peaks[k].1.le(
            (#[trigger] new[i]).1,
        ) by {
            if had.len() < cap {
                assert(new[new.len() - 1] == p);
                if k < n - 1 {
                    if had.contains(peaks[k]) {
                        let j = choose|j: int| 0 <= j < had.len() && had[j] == peaks[k];
                        assert(new[j] == peaks[k]);
                    }
                    lemma_room_keeps_all(peaks, cap, n - 1, k);
                }
            } else if had[w].1.lt(p.1) {
                assert(new[w] == p);
                if k < n - 1 {
                    if had.contains(peaks[k]) {
                        let j = choose|j: int| 0 <= j < had.len() && had[j] == peaks[k];
                        if j != w {
                            assert(new[j] == peaks[k]);
                        }
                        assert(had[w].1.le(had[if i == w { 0 } else { i }].1));
                    } else {
                        assert(peaks[k].1.le(had[w].1));
                        assert(peaks[k].1.le(had[i].1));
                    }
                }
            } else {
                assert(new == had);
                if k == n - 1 {
                    assert(had[w].1.le(had[i].1));
                }
            }
        }
    }
}

/// Offering to a list looks at the peaks that were offered, and no further.
pub proof fn lemma_strongest_prefix(a: Seq<(usize, Single)>, b: Seq<(usize, Single)>, cap: nat, n: int)
    requires
        0 <= n <= a.len(),
        n <= b.len(),
        forall|i: int| 0 <= i < n ==> #[trigger] a[i] == b[i],
    ensures
        strongest(a, cap, n) == strongest(b, cap, n),
    decreases n,
{
    if n > 0 {
        lemma_strongest_prefix(a, b, cap, n - 1);
        assert(a[n - 1] == b[n - 1]);
    }
}

proof fn lemma_offered(list: Seq<(usize, Single)>, cap: nat, peak: (usize, Single))
    requires
        cap > 0,
        list.len() <= cap,
    ensures
        offered(list, cap, peak).len() == if list.len() < cap {
            list.len() + 1
        } else {
            cap
        },
        forall|i: int|
            0 <= i < offered(list, cap, peak).len() ==> (#[trigger] offered(list, cap, peak)[i]
                == peak || (i < list.len() && offered(list, cap, peak)[i] == list[i])),
        forall|i: int, j: int|
            0 <= i < j < offered(list, cap, peak).len() ==> (#[trigger] offered(
                list,
                cap,
                peak,
            )[i] == list[i] && i < list.len()) || (#[trigger] offered(list, cap, peak)[j] == list[j]
                && j < list.len()),
{
    if list.len() == cap {
        lemma_weakest_stands(list, list.len() as int);
    }
}

/// Every peak that is kept was offered.
pub proof fn lemma_strongest_from(peaks: Seq<(usize, Single)>, cap: nat, n: int, i: int) -> (k: int)
    requires
        cap > 0,
        0 <= n <= peaks.len(),
        0 <= i < strongest(peaks, cap, n).len(),
    ensures
        0 <= k < n,
        strongest(peaks, cap, n)[i] == peaks[k],
    decreases n,
{
    if n <= 0 {
        0
    } else {
        let had = strongest(peaks, cap, n - 1);
        let new = strongest(peaks, cap, n);
        lemma_strongest_len(peaks, cap, n - 1);
        lemma_offered(had, cap, peaks[n - 1]);
        if new[i] == peaks[n - 1] {
            n - 1
        } else {
            lemma_strongest_from(peaks, cap, n - 1, i)
        }
    }
}

/// As long as there is room the list is what was offered.
pub proof fn lemma_strongest_with_room(peaks: Seq<(usize, Single)>, cap: nat, n: int)
    requires
        0 <= n <= peaks.len(),
        n <= cap,
    ensures
        strongest(peaks, cap, n) == peaks.take(n),
    decreases n,
{
    if n > 0 {
        lemma_strongest_with_room(peaks, cap, n - 1);
        assert(peaks.take(n) == peaks.take(n - 1).push(peaks[n - 1]));
    } else {
        assert(peaks.take(0) == Seq::<(usize, Single)>::empty());
    }
}

/// A list of limited length is as long as what was offered, or full.
pub proof fn lemma_strongest_len(peaks: Seq<(usize, Single)>, cap: nat, n: int)
    requires
        cap > 0,
        0 <= n <= peaks.len(),
    ensures
        strongest(peaks, cap, n).len() == if n < cap {
            n
        } else {
            cap as int
        },
    decreases n,
{
    if n > 0 {
        lemma_strongest_len(peaks, cap, n - 1);
        lemma_offered(strongest(peaks, cap, n - 1), cap, peaks[n - 1]);
    }
}

/// Peaks at different bins stay at different bins in the list.
pub proof fn lemma_strongest_bins_differ(peaks: Seq<(usize, Single)>, cap: nat, n: int)
    requires
        cap > 0,
        0 <= n <= peaks.len(),
        forall|i: int, j: int|
            0 <= i < j < peaks.len() ==> (#[trigger] peaks[i]).0 < (#[trigger] peaks[j]).0,
    ensures
        forall|i: int, j: int|
            0 <= i < j < strongest(peaks, cap, n).len() ==> (#[trigger] strongest(peaks, cap, n)[i]).0
                != (#[trigger] strongest(peaks, cap, n)[j]).0,
    decreases n,
{
    if n > 0 {
        lemma_strongest_bins_differ(peaks, cap, n - 1);
        let had = strongest(peaks, cap, n - 1);
        let new = strongest(peaks, cap, n);
        lemma_strongest_len(peaks, cap, n - 1);
        lemma_offered(had, cap, peaks[n - 1]);
        assert forall|i: int, j: int| 0 <= i < j < new.len() implies (#[trigger] new[i]).0 != (
        #[trigger] new[j]).0 by {
            if i < had.len() {
                let a = lemma_strongest_from(peaks, cap, n - 1, i);
                assert(had[i].0 < peaks[n - 1].0);
            }
            if j < had.len() {
                let b = lemma_strongest_from(peaks, cap, n - 1, j);
                assert(had[j].0 < peaks[n - 1].0);
            }
        }
    }
}

/// While there is room every peak is kept.
proof fn lemma_room_keeps_all(peaks: Seq<(usize, Single)>, cap: nat, n: int, k: int)
    requires
        0 <= k < n <= peaks.len(),
        strongest(peaks, cap, n).len() < cap,
    ensures
        strongest(peaks, cap, n).contains(peaks[k]),
    decreases n,
{
    let had = strongest(peaks, cap, n - 1);
    let new = strongest(peaks, cap, n);
    if had.len() >= cap {
        lemma_weakest_stands(had, had.len() as int);
    }
    assert(had.len() <= new.len());
    if k == n - 1 {
        assert(new[new.len() - 1] == peaks[k]);
    } else {
        lemma_room_keeps_all(peaks, cap, n - 1, k);
        let j = choose|j: int| 0 <= j < had.len() && had[j] == peaks[k];
        assert(new[j] == peaks[k]);
    }
}

// ─── Strongest first ─────────────────────────────────────────────────────────

/// `sorted` with a peak put behind every one that is not weaker.
pub open spec fn inserted(sorted: Seq<(usize, Single)>, p: (usize, Single)) -> Seq<(usize, Single)>
    decreases sorted.len(),
{
    if sorted.len() == 0 || !sorted.last().1.lt(p.1) {
        sorted.push(p)
    } else {
        inserted(sorted.drop_last(), p).push(sorted.last())
    }
}

/// The first `n` peaks, strongest first; equal ones stay in their order.
pub open spec fn strongest_first(list: Seq<(usize, Single)>, n: int) -> Seq<(usize, Single)>
    decreases n,
{
    if n <= 0 {
        seq![]
    } else {
        inserted(strongest_first(list, n - 1), list[n - 1])
    }
}

/// A peak stands behind the last one that is not weaker.
proof fn lemma_inserted_at(sorted: Seq<(usize, Single)>, p: (usize, Single), j: int)
    requires
        0 <= j <= sorted.len(),
        forall|k: int| j <= k < sorted.len() ==> (#[trigger] sorted[k]).1.lt(p.1),
        j > 0 ==> !sorted[j - 1].1.lt(p.1),
    ensures
        inserted(sorted, p) == sorted.insert(j, p),
    decreases sorted.len(),
{
    if j == sorted.len() {
        assert(sorted.insert(j, p) == sorted.push(p));
    } else {
        let front = sorted.drop_last();
        assert forall|k: int| j <= k < front.len() implies (#[trigger] front[k]).1.lt(p.1) by {
            assert(front[k] == sorted[k]);
        }
        lemma_inserted_at(front, p, j);
        assert(sorted[sorted.len() - 1].1.lt(p.1));
        assert(front.insert(j, p).push(sorted.last()) == sorted.insert(j, p));
    }
}

/// Sorts peaks, strongest first; equal ones stay in their order.
pub fn sort_strongest_first(list: &Vec<(usize, Single)>) -> (r: Vec<(usize, Single)>)
    ensures
        r@ == strongest_first(list@, list.len() as int),
        r.len() == list.len(),
{
    let mut r: Vec<(usize, Single)> = Vec::new();
    let mut i: usize = 0;
    while i < list.len()
        invariant
            i <= list.len(),
            r.len() == i,
            r@ == strongest_first(list@, i as int),
        decreases list.len() - i,
    {
        let p = list[i];
        let mut j: usize = r.len();
        while j > 0 && r[j - 1].1.below(p.1)
            invariant
                j <= r.len(),
                forall|k: int| j <= k < r.len() ==> (#[trigger] r@[k]).1.lt(p.1),
            decreases j,
        {
            j -= 1;
        }
        proof {
            lemma_inserted_at(r@, p, j as int);
        }
        r.insert(j, p);
        i += 1;
    }
    r
}

/// The strongest `n` peaks of a list, strongest first; of equal ones the
/// earlier.
pub open spec fn top(list: Seq<(usize, Single)>, n: nat) -> Seq<(usize, Single)> {
    let all = strongest_first(list, list.len() as int);
    if all.len() < n {
        all
    } else {
        all.take(n as int)
    }
}

/// The strongest `n` peaks of a list, strongest first.
pub fn take_top(list: &Vec<(usize, Single)>, n: usize) -> (r: Vec<(usize, Single)>)
    ensures
        r@ == top(list@, n as nat),
        r.len() <= n,
{
    let sorted = sort_strongest_first(list);
    let mut r: Vec<(usize, Single)> = Vec::new();
    let mut i: usize = 0;
    while i < sorted.len() && i < n
        invariant
            i <= sorted.len(),
            i <= n,
            r@ == sorted@.take(i as int),
        decreases sorted.len() - i,
    {
        r.push(sorted[i]);
        i += 1;
        assert(sorted@.take(i as int) == sorted@.take(i - 1).push(sorted@[i - 1]));
    }
    if sorted.len() < n {
        assert(sorted@.take(i as int) == sorted@);
    }
    r
}

/// Whether no peak is weaker than a later one.
pub open spec fn is_descending(list: Seq<(usize, Single)>) -> bool {
    forall|i: int, j: int| 0 <= i < j < list.len() ==> (#[trigger] list[j]).1.le((#[trigger] list[i]).1)
}

proof fn lemma_inserted(sorted: Seq<(usize, Single)>, p: (usize, Single))
    requires
        is_descending(sorted),
        all_numbers(sorted),
        !p.1.is_nan(),
    ensures
        is_descending(inserted(sorted, p)),
        all_numbers(inserted(sorted, p)),
        inserted(sorted, p).to_multiset() == sorted.to_multiset().insert(p),
        inserted(sorted, p).len() == sorted.len() + 1,
    decreases sorted.len(),
{
    broadcast use vstd::seq_lib::group_to_multiset_ensures;

    let r = inserted(sorted, p);
    if sorted.len() == 0 || !sorted.last().1.lt(p.1) {
        assert forall|i: int, j: int| 0 <= i < j < r.len() implies (#[trigger] r[j]).1.le(
            (#[trigger] r[i]).1,
        ) by {
            if j == sorted.len() {
                let l = sorted.len() - 1;
                assert(sorted[l].1.le(sorted[i].1) || i == l);
            }
        }
    } else {
        let front = sorted.drop_last();
        let last = sorted.last();
        lemma_inserted(front, p);
        let f = inserted(front, p);
        assert(sorted == front.push(last));
        assert forall|i: int, j: int| 0 <= i < j < r.len() implies (#[trigger] r[j]).1.le(
            (#[trigger] r[i]).1,
        ) by {
            if j == f.len() {
                assert(f.to_multiset().count(f[i]) > 0);
                assert(f.to_multiset().contains(f[i]));
                if f[i] != p {
                    assert(front.to_multiset().contains(f[i]));
                    assert(front.contains(f[i]));
                    let k = choose|k: int| 0 <= k < front.len() && front[k] == f[i];
                    assert(sorted[k] == f[i]);
                    assert(sorted[sorted.len() - 1].1.le(sorted[k].1));
                }
            }
        }
        assert(r.to_multiset() == sorted.to_multiset().insert(p));
    }
}

/// Sorted peaks are the same peaks, and none is weaker than a later one.
pub proof fn law_sorted_peaks_descend(list: Seq<(usize, Single)>, n: int)
    requires
        0 <= n <= list.len(),
        all_numbers(list),
    ensures
        is_descending(strongest_first(list, n)),
        all_numbers(strongest_first(list, n)),
        strongest_first(list, n).len() == n,
        strongest_first(list, n).to_multiset() == list.take(n).to_multiset(),
    decreases n,
{
    broadcast use vstd::seq_lib::group_to_multiset_ensures;

    if n > 0 {
        law_sorted_peaks_descend(list, n - 1);
        lemma_inserted(strongest_first(list, n - 1), list[n - 1]);
        assert(list.take(n) == list.take(n - 1).push(list[n - 1]));
    } else {
        assert(list.take(0) == Seq::<(usize, Single)>::empty());
    }
}

/// The peaks of a list whose score equals `x`, in order.
pub open spec fn scored(list: Seq<(usize, Single)>, x: Single) -> Seq<(usize, Single)> {
    list.filter(|p: (usize, Single)| p.1.equals(x))
}

proof fn lemma_scored_push(list: Seq<(usize, Single)>, p: (usize, Single), x: Single)
    ensures
        scored(list.push(p), x) == if p.1.equals(x) {
            scored(list, x).push(p)
        } else {
            scored(list, x)
        },
{
    assert(list.push(p).drop_last() == list);
    reveal(Seq::filter);
}

proof fn lemma_inserted_stable(sorted: Seq<(usize, Single)>, p: (usize, Single), x: Single)
    ensures
        scored(inserted(sorted, p), x) == if p.1.equals(x) {
            scored(sorted, x).push(p)
        } else {
            scored(sorted, x)
        },
    decreases sorted.len(),
{
    if sorted.len() == 0 || !sorted.last().1.lt(p.1) {
        lemma_scored_push(sorted, p, x);
    } else {
        let front = sorted.drop_last();
        let last = sorted.last();
        lemma_inserted_stable(front, p, x);
        lemma_scored_push(front, last, x);
        lemma_scored_push(inserted(front, p), last, x);
        assert(sorted == front.push(last));
    }
}

/// Peaks with equal scores stay in their order when they are sorted.
pub proof fn law_sort_keeps_equal_order(list: Seq<(usize, Single)>, n: int, x: Single)
    requires
        0 <= n <= list.len(),
    ensures
        scored(strongest_first(list, n), x) == scored(list.take(n), x),
    decreases n,
{
    if n > 0 {
        law_sort_keeps_equal_order(list, n - 1, x);
        lemma_inserted_stable(strongest_first(list, n - 1), list[n - 1], x);
        lemma_scored_push(list.take(n - 1), list[n - 1], x);
        assert(list.take(n) == list.take(n - 1).push(list[n - 1]));
    } else {
        assert(list.take(0) == Seq::<(usize, Single)>::empty());
    }
}

// ─── Overtones ───────────────────────────────────────────────────────────────

/// Whether bin `k` lies within two bins of the second to eighth multiple of `k0`.
pub open spec fn near_multiple(k0: int, k: int) -> bool {
    exists|h: int| 2 <= h <= 8 && -2 <= #[trigger] (k0 * h) - k <= 2
}

/// Whether a peak at `k` is an overtone of one at the lower bin `k0`: it lies
/// near a multiple of it and is not louder by more than a margin, which
/// `raised` adds to the levels of `spectrum`.
pub open spec fn is_overtone(spectrum: Seq<Single>, raised: Seq<Single>, k0: int, k: int) -> bool {
    &&& k0 < k
    &&& spectrum[k].le(raised[k0])
    &&& near_multiple(k0, k)
}

/// Which of the peaks are dropped once the first `n` have been looked at: those
/// outside the spectrum, and the overtones of a peak that has not been dropped.
pub open spec fn dropped(
    spectrum: Seq<Single>,
    raised: Seq<Single>,
    peaks: Seq<(usize, Single)>,
    n: int,
) -> Seq<bool>
    decreases n,
{
    if n <= 0 {
        Seq::new(peaks.len(), |i: int| false)
    } else {
        let had = dropped(spectrum, raised, peaks, n - 1);
        let k = peaks[n - 1].0 as int;
        if k >= spectrum.len() || exists|m: int|
            0 <= m < peaks.len() && had[m] == false && is_overtone(
                spectrum,
                raised,
                (#[trigger] peaks[m]).0 as int,
                k,
            ) {
            had.update(n - 1, true)
        } else {
            had
        }
    }
}

/// The first `n` peaks without those that are dropped, in order.
pub open spec fn remaining(peaks: Seq<(usize, Single)>, gone: Seq<bool>, n: int) -> Seq<
    (usize, Single),
>
    decreases n,
{
    if n <= 0 {
        seq![]
    } else if gone[n - 1] {
        remaining(peaks, gone, n - 1)
    } else {
        remaining(peaks, gone, n - 1).push(peaks[n - 1])
    }
}

/// Whether bin `k` lies within two bins of the second to eighth multiple of `k0`.
fn lies_near_multiple(k0: usize, k: usize) -> (r: bool)
    ensures
        r == near_multiple(k0 as int, k as int),
{
    let mut h: u128 = 2;
    while h <= 8
        invariant
            2 <= h <= 9,
            forall|g: int| 2 <= g < h ==> !(-2 <= #[trigger] (k0 * g) - k <= 2),
        decreases 9 - h,
    {
        assert(k0 * h <= 0xffff_ffff_ffff_ffff * 8) by (nonlinear_arith)
            requires
                0 <= k0 <= 0xffff_ffff_ffff_ffff,
                0 <= h <= 8,
        ;
        let m: u128 = k0 as u128 * h;
        let k: u128 = k as u128;
        let apart: u128 = if m > k {
            m - k
        } else {
            k - m
        };
        if apart <= 2 {
            assert(-2 <= (k0 * (h as int)) - k <= 2);
            return true;
        }
        h += 1;
    }
    false
}

/// Whether a peak at `k` is an overtone of one that has not been dropped.
fn has_fundamental(
    spectrum: &Vec<Single>,
    raised: &Vec<Single>,
    peaks: &Vec<(usize, Single)>,
    gone: &Vec<bool>,
    k: usize,
) -> (r: bool)
    requires
        k < spectrum.len(),
        spectrum.len() == raised.len(),
        gone.len() == peaks.len(),
    ensures
        r == exists|m: int|
            0 <= m < peaks.len() && gone@[m] == false && is_overtone(
                spectrum@,
                raised@,
                (#[trigger] peaks@[m]).0 as int,
                k as int,
            ),
{
    let mut m: usize = 0;
    while m < peaks.len()
        invariant
            m <= peaks.len(),
            k < spectrum.len(),
            spectrum.len() == raised.len(),
            gone.len() == peaks.len(),
            forall|j: int|
                0 <= j < m ==> !(gone@[j] == false && is_overtone(
                    spectrum@,
                    raised@,
                    (#[trigger] peaks@[j]).0 as int,
                    k as int,
                )),
        decreases peaks.len() - m,
    {
        let k0: usize = peaks[m].0;
        if !gone[m] && k0 < k && spectrum[k].at_most(raised[k0]) && lies_near_multiple(k0, k) {
            assert(is_overtone(spectrum@, raised@, peaks@[m as int].0 as int, k as int));
            return true;
        }
        m += 1;
    }
    false
}

/// Drops the peaks that are overtones of louder, lower ones. `raised` is the
/// spectrum with the margin added to each level by which an overtone may
/// exceed its fundamental.
pub fn suppress_harmonics_in_place(
    spectrum: &Vec<Single>,
    raised: &Vec<Single>,
    peaks: &mut Vec<(usize, Single)>,
)
    requires
        spectrum.len() == raised.len(),
    ensures
        final(peaks)@ == remaining(
            old(peaks)@,
            dropped(spectrum@, raised@, old(peaks)@, old(peaks)@.len() as int),
            old(peaks)@.len() as int,
        ),
{
    let ghost all = peaks@;
    let mut gone: Vec<bool> = Vec::new();
    let mut i: usize = 0;
    while i < peaks.len()
        invariant
            i <= peaks.len(),
            gone.len() == i,
            forall|k: int| 0 <= k < i ==> gone@[k] == false,
        decreases peaks.len() - i,
    {
        gone.push(false);
        i += 1;
    }
    assert(gone@ == dropped(spectrum@, raised@, all, 0));
    let mut i: usize = 0;
    while i < peaks.len()
        invariant
            i <= peaks.len(),
            peaks@ == all,
            spectrum.len() == raised.len(),
            gone.len() == peaks.len(),
            gone@ == dropped(spectrum@, raised@, all, i as int),
        decreases peaks.len() - i,
    {
        let k: usize = peaks[i].0;
        if k >= spectrum.len() || has_fundamental(spectrum, raised, peaks, &gone, k) {
            gone.set(i, true);
        }
        i += 1;
    }
    let ghost flags = gone@;
    let mut kept: Vec<(usize, Single)> = Vec::new();
    let mut i: usize = 0;
    while i < peaks.len()
        invariant
            i <= peaks.len(),
            peaks@ == all,
            gone@ == flags,
            gone.len() == peaks.len(),
            kept@ == remaining(all, flags, i as int),
        decreases peaks.len() - i,
    {
        if !gone[i] {
            kept.push(peaks[i]);
        }
        i += 1;
    }
    *peaks = kept;
}

/// The peaks that are no overtone of another, in order.
pub open spec fn fundamentals(
    spectrum: Seq<Single>,
    raised: Seq<Single>,
    peaks: Seq<(usize, Single)>,
    n: int,
) -> Seq<(usize, Single)>
    decreases n,
{
    if n <= 0 {
        seq![]
    } else {
        let had = fundamentals(spectrum, raised, peaks, n - 1);
        if exists|m: int|
            0 <= m < peaks.len() && is_overtone(
                spectrum,
                raised,
                (#[trigger] peaks[m]).0 as int,
                peaks[n - 1].0 as int,
            ) {
            had
        } else {
            had.push(peaks[n - 1])
        }
    }
}

/// The peaks without those that are overtones of another, be that one an
/// overtone itself or not.
pub fn suppress_harmonics(
    spectrum: &Vec<Single>,
    raised: &Vec<Single>,
    peaks: &Vec<(usize, Single)>,
) -> (r: Vec<(usize, Single)>)
    requires
        spectrum.len() == raised.len(),
        forall|i: int| 0 <= i < peaks.len() ==> (#[trigger] peaks@[i]).0 < spectrum.len(),
    ensures
        r@ == fundamentals(spectrum@, raised@, peaks@, peaks.len() as int),
{
    let mut kept: Vec<(usize, Single)> = Vec::new();
    let mut none: Vec<bool> = Vec::new();
    let mut i: usize = 0;
    while i < peaks.len()
        invariant
            i <= peaks.len(),
            none.len() == i,
            forall|k: int| 0 <= k < i ==> none@[k] == false,
        decreases peaks.len() - i,
    {
        none.push(false);
        i += 1;
    }
    let mut i: usize = 0;
    while i < peaks.len()
        invariant
            i <= peaks.len(),
            spectrum.len() == raised.len(),
            none.len() == peaks.len(),
            forall|k: int| 0 <= k < none.len() ==> none@[k] == false,
            forall|k: int| 0 <= k < peaks.len() ==> (#[trigger] peaks@[k]).0 < spectrum.len(),
            kept@ == fundamentals(spectrum@, raised@, peaks@, i as int),
        decreases peaks.len() - i,
    {
        assert(peaks@[i as int].0 < spectrum.len());
        let over: bool = has_fundamental(spectrum, raised, peaks, &none, peaks[i].0);
        assert(over == exists|m: int|
            0 <= m < peaks.len() && is_overtone(
                spectrum@,
                raised@,
                (#[trigger] peaks@[m]).0 as int,
                peaks@[i as int].0 as int,
            ));
        if !over {
            kept.push(peaks[i]);
        }
        i += 1;
    }
    kept
}

/// A peak inside the spectrum that is louder than every lower one by more than
/// the margin is never dropped; the lowest one is such a peak.
pub proof fn law_louder_peaks_remain(
    spectrum: Seq<Single>,
    raised: Seq<Single>,
    peaks: Seq<(usize, Single)>,
    n: int,
    i: int,
)
    requires
        0 <= n <= peaks.len(),
        0 <= i < peaks.len(),
        peaks[i].0 < spectrum.len(),
        forall|m: int|
            0 <= m < peaks.len() && (#[trigger] peaks[m]).0 < peaks[i].0
                ==> raised[peaks[m].0 as int].lt(spectrum[peaks[i].0 as int]),
    ensures
        dropped(spectrum, raised, peaks, n).len() == peaks.len(),
        dropped(spectrum, raised, peaks, n)[i] == false,
    decreases n,
{
    if n > 0 {
        law_louder_peaks_remain(spectrum, raised, peaks, n - 1, i);
    }
}

/// Every peak inside the spectrum that is dropped is an overtone of another.
pub proof fn law_dropped_peaks_are_overtones(
    spectrum: Seq<Single>,
    raised: Seq<Single>,
    peaks: Seq<(usize, Single)>,
    n: int,
    i: int,
)
    requires
        0 <= n <= peaks.len(),
        0 <= i < peaks.len(),
        peaks[i].0 < spectrum.len(),
        dropped(spectrum, raised, peaks, n)[i] == true,
    ensures
        exists|m: int|
            0 <= m < peaks.len() && is_overtone(
                spectrum,
                raised,
                (#[trigger] peaks[m]).0 as int,
                peaks[i].0 as int,
            ),
    decreases n,
{
    lemma_dropped_len(spectrum, raised, peaks, n - 1);
    if n > 0 && dropped(spectrum, raised, peaks, n - 1)[i] == true {
        law_dropped_peaks_are_overtones(spectrum, raised, peaks, n - 1, i);
    }
}

/// The peaks that remain are some of the peaks, in their order, each inside the
/// spectrum.
pub proof fn law_remaining_peaks_were_found(
    spectrum: Seq<Single>,
    raised: Seq<Single>,
    peaks: Seq<(usize, Single)>,
    n: int,
    i: int,
)
    requires
        0 <= n <= peaks.len(),
        0 <= i < remaining(peaks, dropped(spectrum, raised, peaks, peaks.len() as int), n).len(),
    ensures
        ({
            let r = remaining(peaks, dropped(spectrum, raised, peaks, peaks.len() as int), n);
            &&& r.len() <= n
            &&& exists|k: int| 0 <= k < n && #[trigger] peaks[k] == r[i] && peaks[k].0 < spectrum.len()
        }),
    decreases n,
{
    let gone = dropped(spectrum, raised, peaks, peaks.len() as int);
    let r = remaining(peaks, gone, n);
    lemma_remaining_len(peaks, gone, n);
    if n > 0 {
        let had = remaining(peaks, gone, n - 1);
        if i < had.len() {
            law_remaining_peaks_were_found(spectrum, raised, peaks, n - 1, i);
            assert(r[i] == had[i]);
        } else {
            lemma_outside_is_dropped(spectrum, raised, peaks, peaks.len() as int, n - 1);
            assert(r[i] == peaks[n - 1]);
        }
    }
}

/// No more peaks remain than there were.
pub proof fn lemma_remaining_len(peaks: Seq<(usize, Single)>, gone: Seq<bool>, n: int)
    requires
        0 <= n,
    ensures
        remaining(peaks, gone, n).len() <= n,
    decreases n,
{
    if n > 0 {
        lemma_remaining_len(peaks, gone, n - 1);
    }
}

proof fn lemma_outside_is_dropped(
    spectrum: Seq<Single>,
    raised: Seq<Single>,
    peaks: Seq<(usize, Single)>,
    n: int,
    k: int,
)
    requires
        0 <= k < n <= peaks.len(),
    ensures
        dropped(spectrum, raised, peaks, n).len() == peaks.len(),
        peaks[k].0 >= spectrum.len() ==> dropped(spectrum, raised, peaks, n)[k] == true,
    decreases n,
{
    lemma_dropped_len(spectrum, raised, peaks, n);
    lemma_dropped_len(spectrum, raised, peaks, n - 1);
    if k < n - 1 {
        lemma_outside_is_dropped(spectrum, raised, peaks, n - 1, k);
    }
}

proof fn lemma_dropped_len(
    spectrum: Seq<Single>,
    raised: Seq<Single>,
    peaks: Seq<(usize, Single)>,
    n: int,
)
    requires
        n <= peaks.len(),
    ensures
        dropped(spectrum, raised, peaks, n).len() == peaks.len(),
    decreases n,
{
    if n > 0 {
        lemma_dropped_len(spectrum, raised, peaks, n - 1);
    }
}

/// What is decided of a peak stays decided while later ones are looked at.
proof fn lemma_dropped_stays(
    spectrum: Seq<Single>,
    raised: Seq<Single>,
    peaks: Seq<(usize, Single)>,
    n: int,
    m: int,
    k: int,
)
    requires
        0 <= k < n <= m <= peaks.len(),
    ensures
        dropped(spectrum, raised, peaks, m)[k] == dropped(spectrum, raised, peaks, n)[k],
    decreases m - n,
{
    if n < m {
        lemma_dropped_stays(spectrum, raised, peaks, n, m - 1, k);
        lemma_dropped_len(spectrum, raised, peaks, m - 1);
    }
}

/// Before a peak is looked at it is not dropped.
proof fn lemma_not_dropped_yet(
    spectrum: Seq<Single>,
    raised: Seq<Single>,
    peaks: Seq<(usize, Single)>,
    n: int,
    k: int,
)
    requires
        0 <= n <= k < peaks.len(),
    ensures
        dropped(spectrum, raised, peaks, n)[k] == false,
    decreases n,
{
    if n > 0 {
        lemma_not_dropped_yet(spectrum, raised, peaks, n - 1, k);
        lemma_dropped_len(spectrum, raised, peaks, n - 1);
    }
}

/// The peak at position `i` of those that remain is one that was not dropped.
proof fn lemma_remaining_from(peaks: Seq<(usize, Single)>, gone: Seq<bool>, n: int, i: int) -> (k: int)
    requires
        0 <= n <= peaks.len(),
        gone.len() == peaks.len(),
        0 <= i < remaining(peaks, gone, n).len(),
    ensures
        0 <= k < n,
        gone[k] == false,
        peaks[k] == remaining(peaks, gone, n)[i],
    decreases n,
{
    let had = remaining(peaks, gone, n - 1);
    if i < had.len() {
        lemma_remaining_from(peaks, gone, n - 1, i)
    } else {
        n - 1
    }
}

/// A peak that was not dropped remains.
proof fn lemma_remaining_at(peaks: Seq<(usize, Single)>, gone: Seq<bool>, n: int, k: int) -> (i: int)
    requires
        0 <= k < n <= peaks.len(),
        gone.len() == peaks.len(),
        gone[k] == false,
    ensures
        0 <= i < remaining(peaks, gone, n).len(),
        remaining(peaks, gone, n)[i] == peaks[k],
    decreases n,
{
    let had = remaining(peaks, gone, n - 1);
    if k == n - 1 {
        had.len() as int
    } else {
        let i = lemma_remaining_at(peaks, gone, n - 1, k);
        i
    }
}

/// Whether the peaks come from the lowest bin up.
pub open spec fn is_ascending(peaks: Seq<(usize, Single)>) -> bool {
    forall|i: int, j: int| 0 <= i < j < peaks.len() ==> (#[trigger] peaks[i]).0 <= (#[trigger] peaks[j]).0
}

/// What remains of peaks that come from the lowest bin up.
pub open spec fn kept_of(
    spectrum: Seq<Single>,
    raised: Seq<Single>,
    peaks: Seq<(usize, Single)>,
) -> Seq<(usize, Single)> {
    remaining(
        peaks,
        dropped(spectrum, raised, peaks, peaks.len() as int),
        peaks.len() as int,
    )
}

/// No peak that remains is an overtone of another that does: where one lies
/// within two bins of the second to eighth multiple of the other's bin, it is
/// louder than the other by more than the margin.
pub proof fn law_no_overtone_remains(
    spectrum: Seq<Single>,
    raised: Seq<Single>,
    peaks: Seq<(usize, Single)>,
    i: int,
    j: int,
    h: int,
)
    requires
        is_ascending(peaks),
        0 <= i < kept_of(spectrum, raised, peaks).len(),
        0 <= j < kept_of(spectrum, raised, peaks).len(),
        kept_of(spectrum, raised, peaks)[i].0 < kept_of(spectrum, raised, peaks)[j].0,
        2 <= h <= 8,
        -2 <= kept_of(spectrum, raised, peaks)[i].0 * h - kept_of(spectrum, raised, peaks)[j].0 <= 2,
    ensures
        !spectrum[kept_of(spectrum, raised, peaks)[j].0 as int].le(
            raised[kept_of(spectrum, raised, peaks)[i].0 as int],
        ),
{
    let n = peaks.len() as int;
    let gone = dropped(spectrum, raised, peaks, n);
    lemma_dropped_len(spectrum, raised, peaks, n);
    let a = lemma_remaining_from(peaks, gone, n, i);
    let b = lemma_remaining_from(peaks, gone, n, j);
    assert(a < b) by {
        if b < a {
            assert(peaks[b].0 <= peaks[a].0);
        }
    }
    let had = dropped(spectrum, raised, peaks, b);
    lemma_dropped_len(spectrum, raised, peaks, b);
    lemma_dropped_stays(spectrum, raised, peaks, a + 1, b, a);
    lemma_dropped_stays(spectrum, raised, peaks, a + 1, n, a);
    lemma_dropped_stays(spectrum, raised, peaks, b + 1, n, b);
    assert(had[a] == false);
    if spectrum[peaks[b].0 as int].le(raised[peaks[a].0 as int]) {
        assert(near_multiple(peaks[a].0 as int, peaks[b].0 as int)) by {
            assert(-2 <= (peaks[a].0 * h) - peaks[b].0 <= 2);
        }
        assert(is_overtone(spectrum, raised, peaks[a].0 as int, peaks[b].0 as int));
    }
}

/// Of peaks that come from the lowest bin up, each inside the spectrum remains,
/// or is an overtone of one that does: it lies within two bins of the second to
/// eighth multiple of a lower bin, and is not louder by more than the margin.
pub proof fn law_only_overtones_are_dropped(
    spectrum: Seq<Single>,
    raised: Seq<Single>,
    peaks: Seq<(usize, Single)>,
    k: int,
)
    requires
        is_ascending(peaks),
        0 <= k < peaks.len(),
        peaks[k].0 < spectrum.len(),
    ensures
        kept_of(spectrum, raised, peaks).contains(peaks[k]) || exists|i: int, h: int|
            #![trigger kept_of(spectrum, raised, peaks)[i].0 * h]
            0 <= i < kept_of(spectrum, raised, peaks).len() && 2 <= h <= 8 && kept_of(
                spectrum,
                raised,
                peaks,
            )[i].0 < peaks[k].0 && -2 <= kept_of(spectrum, raised, peaks)[i].0 * h - peaks[k].0 <= 2
                && spectrum[peaks[k].0 as int].le(
                raised[kept_of(spectrum, raised, peaks)[i].0 as int],
            ),
{
    let n = peaks.len() as int;
    let gone = dropped(spectrum, raised, peaks, n);
    let r = kept_of(spectrum, raised, peaks);
    lemma_dropped_len(spectrum, raised, peaks, n);
    if gone[k] == false {
        let i = lemma_remaining_at(peaks, gone, n, k);
        assert(r[i] == peaks[k]);
    } else {
        let had = dropped(spectrum, raised, peaks, k);
        lemma_dropped_len(spectrum, raised, peaks, k);
        lemma_dropped_stays(spectrum, raised, peaks, k + 1, n, k);
        lemma_not_dropped_yet(spectrum, raised, peaks, k, k);
        let m = choose|m: int|
            0 <= m < peaks.len() && had[m] == false && is_overtone(
                spectrum,
                raised,
                (#[trigger] peaks[m]).0 as int,
                peaks[k].0 as int,
            );
        assert(m < k) by {
            if k < m {
                assert(peaks[k].0 <= peaks[m].0);
            }
        }
        lemma_dropped_stays(spectrum, raised, peaks, m + 1, n, m);
        lemma_dropped_stays(spectrum, raised, peaks, m + 1, k, m);
        let i = lemma_remaining_at(peaks, gone, n, m);
        let h = choose|h: int| 2 <= h <= 8 && -2 <= #[trigger] (peaks[m].0 * h) - peaks[k].0 <= 2;
        assert(r[i].0 * h == peaks[m].0 * h);
        assert(-2 <= (r[i].0 * h) - peaks[k].0 <= 2);
    }
}

/// The peaks that remain keep their order, and each of them was found inside
/// the spectrum.
pub proof fn law_remaining_peaks_keep_their_order(
    spectrum: Seq<Single>,
    raised: Seq<Single>,
    peaks: Seq<(usize, Single)>,
    i: int,
    j: int,
)
    requires
        0 <= i < j < kept_of(spectrum, raised, peaks).len(),
    ensures
        exists|a: int, b: int|
            0 <= a < b < peaks.len() && #[trigger] peaks[a] == kept_of(spectrum, raised, peaks)[i]
                && #[trigger] peaks[b] == kept_of(spectrum, raised, peaks)[j],
{
    let gone = dropped(spectrum, raised, peaks, peaks.len() as int);
    lemma_dropped_len(spectrum, raised, peaks, peaks.len() as int);
    let (a, b) = lemma_remaining_order(peaks, gone, peaks.len() as int, i, j);
    assert(peaks[a] == kept_of(spectrum, raised, peaks)[i]);
    assert(peaks[b] == kept_of(spectrum, raised, peaks)[j]);
}

proof fn lemma_remaining_order(peaks: Seq<(usize, Single)>, gone: Seq<bool>, n: int, i: int, j: int) -> (r: (
    int,
    int,
))
    requires
        0 <= n <= peaks.len(),
        gone.len() == peaks.len(),
        0 <= i < j < remaining(peaks, gone, n).len(),
    ensures
        0 <= r.0 < r.1 < n,
        peaks[r.0] == remaining(peaks, gone, n)[i],
        peaks[r.1] == remaining(peaks, gone, n)[j],
    decreases n,
{
    let had = remaining(peaks, gone, n - 1);
    if j < had.len() {
        lemma_remaining_order(peaks, gone, n - 1, i, j)
    } else {
        (lemma_remaining_from(peaks, gone, n - 1, i), n - 1)
    }
}

/// Where every peak counts as a fundamental, a peak remains exactly if it is an
/// overtone of none: for each peak that remains and each other one, it is not
/// near a multiple of it or is louder by more than the margin, and every peak
/// of which this holds remains.
pub proof fn law_fundamentals_are_no_overtones(
    spectrum: Seq<Single>,
    raised: Seq<Single>,
    peaks: Seq<(usize, Single)>,
    k: int,
)
    requires
        0 <= k < peaks.len(),
    ensures
        fundamentals(spectrum, raised, peaks, peaks.len() as int).contains(peaks[k]) <==> forall|
            m: int,
            h: int,
        |
            #![trigger peaks[m].0 * h]
            0 <= m < peaks.len() && peaks[m].0 < peaks[k].0 && 2 <= h <= 8 && -2 <= peaks[m].0 * h
                - peaks[k].0 <= 2 ==> !spectrum[peaks[k].0 as int].le(raised[peaks[m].0 as int]),
{
    let bin = peaks[k].0;
    let over = exists|m: int|
        0 <= m < peaks.len() && is_overtone(
            spectrum,
            raised,
            (#[trigger] peaks[m]).0 as int,
            bin as int,
        );
    lemma_fundamentals(spectrum, raised, peaks, peaks.len() as int, k);
    if over {
        let m = choose|m: int|
            0 <= m < peaks.len() && is_overtone(
                spectrum,
                raised,
                (#[trigger] peaks[m]).0 as int,
                bin as int,
            );
        let h = choose|h: int| 2 <= h <= 8 && -2 <= #[trigger] (peaks[m].0 * h) - bin <= 2;
        assert(peaks[m].0 * h - bin <= 2);
    } else {
        assert forall|m: int, h: int|
            #![trigger peaks[m].0 * h]
            0 <= m < peaks.len() && peaks[m].0 < bin && 2 <= h <= 8 && -2 <= peaks[m].0 * h - bin
                <= 2 implies !spectrum[bin as int].le(raised[peaks[m].0 as int]) by {
            assert(near_multiple(peaks[m].0 as int, bin as int)) by {
                assert(-2 <= (peaks[m].0 * h) - bin <= 2);
            }
            assert(!is_overtone(spectrum, raised, peaks[m].0 as int, bin as int));
        }
    }
}

proof fn lemma_fundamentals(
    spectrum: Seq<Single>,
    raised: Seq<Single>,
    peaks: Seq<(usize, Single)>,
    n: int,
    k: int,
)
    requires
        0 <= n <= peaks.len(),
        0 <= k < peaks.len(),
    ensures
        ({
            let over = exists|m: int|
                0 <= m < peaks.len() && is_overtone(
                    spectrum,
                    raised,
                    (#[trigger] peaks[m]).0 as int,
                    peaks[k].0 as int,
                );
            &&& over ==> !fundamentals(spectrum, raised, peaks, n).contains(peaks[k])
            &&& !over && k < n ==> fundamentals(spectrum, raised, peaks, n).contains(peaks[k])
        }),
    decreases n,
{
    if n > 0 {
        lemma_fundamentals(spectrum, raised, peaks, n - 1, k);
        let had = fundamentals(spectrum, raised, peaks, n - 1);
        let new = fundamentals(spectrum, raised, peaks, n);
        if new != had {
            assert(new == had.push(peaks[n - 1]));
            assert(new[had.len() as int] == peaks[n - 1]);
            if had.contains(peaks[k]) {
                let i = choose|i: int| 0 <= i < had.len() && had[i] == peaks[k];
                assert(new[i] == peaks[k]);
            }
            if new.contains(peaks[k]) {
                let i = choose|i: int| 0 <= i < new.len() && new[i] == peaks[k];
                if i < had.len() {
                    assert(had[i] == peaks[k]);
                }
            }
        }
    }
}

// ─── What the lists of contributors hold ─────────────────────────────────────

/// Whether a track contributes at a bin: it is on, and above -70 dB there. A
/// track is on while bit 31 of the mask is clear, or if the bit of its slot is
/// set.
pub open spec fn contributes(tracks: Seq<RelayTrack>, mask: u32, bin: int, k: int) -> bool {
    &&& mask & 0x8000_0000 == 0 || mask & (1u32 << tracks[k].slot) != 0
    &&& bin < tracks[k].bins.len()
    &&& (Single { bits: 0xc28c_0000 }).lt(tracks[k].bins@[bin])
}

proof fn lemma_contributors_from(tracks: Seq<RelayTrack>, mask: u32, bin: int, n: int, i: int) -> (k: int)
    requires
        0 <= n <= tracks.len(),
        0 <= i < contributors_at(tracks, mask, bin, n).len(),
    ensures
        0 <= k < n,
        contributes(tracks, mask, bin, k),
        tracks[k].slot == contributors_at(tracks, mask, bin, n)[i],
        tracks[k].slot != 255,
    decreases n,
{
    if n <= 0 {
        0
    } else if i < contributors_at(tracks, mask, bin, n - 1).len() {
        lemma_contributors_from(tracks, mask, bin, n - 1, i)
    } else {
        n - 1
    }
}

/// Contributors come in the order of the tracks, and none without a track of
/// its own that contributes.
pub proof fn law_contributors_come_in_order(
    tracks: Seq<RelayTrack>,
    mask: u32,
    bin: int,
    n: int,
    i: int,
    j: int,
)
    requires
        0 <= n <= tracks.len(),
        0 <= i < j < contributors_at(tracks, mask, bin, n).len(),
    ensures
        exists|a: int, b: int|
            0 <= a < b < n && #[trigger] contributes(tracks, mask, bin, a) && #[trigger] contributes(
                tracks,
                mask,
                bin,
                b,
            ) && tracks[a].slot == contributors_at(tracks, mask, bin, n)[i] && tracks[b].slot
                == contributors_at(tracks, mask, bin, n)[j],
    decreases n,
{
    if n > 0 {
        let had = contributors_at(tracks, mask, bin, n - 1);
        if j < had.len() {
            law_contributors_come_in_order(tracks, mask, bin, n - 1, i, j);
        } else {
            let a = lemma_contributors_from(tracks, mask, bin, n - 1, i);
            assert(contributes(tracks, mask, bin, a) && contributes(tracks, mask, bin, n - 1));
        }
    }
}

/// Every track that contributes is named, unless the peak has no room left.
pub proof fn law_contributors_are_complete(
    tracks: Seq<RelayTrack>,
    mask: u32,
    bin: int,
    n: int,
    k: int,
)
    requires
        0 <= k < n <= tracks.len(),
        contributes(tracks, mask, bin, k),
        tracks[k].slot != 255,
        contributors_at(tracks, mask, bin, n).len() < 8,
    ensures
        contributors_at(tracks, mask, bin, n).contains(tracks[k].slot),
    decreases n,
{
    let had = contributors_at(tracks, mask, bin, n - 1);
    let all = contributors_at(tracks, mask, bin, n);
    if k < n - 1 {
        law_contributors_are_complete(tracks, mask, bin, n - 1, k);
        let i = choose|i: int| 0 <= i < had.len() && had[i] == tracks[k].slot;
        assert(all[i] == tracks[k].slot);
    } else {
        assert(all[had.len() as int] == tracks[k].slot);
    }
}

/// The tracks that are on are those whose bit is set, or all while bit 31 of
/// the mask is clear, in their order.
pub proof fn law_tracks_on(tracks: Seq<RelayTrack>, mask: u32, n: int, k: int)
    requires
        0 <= k < n <= tracks.len(),
        tracks.len() <= usize::MAX,
    ensures
        tracks_on(tracks, mask, n).contains(k as usize) <==> (mask & 0x8000_0000 == 0 || mask & (1u32
            << tracks[k].slot) != 0),
        forall|i: int|
            0 <= i < tracks_on(tracks, mask, n).len() ==> (#[trigger] tracks_on(tracks, mask, n)[i]) < n,
        forall|i: int, j: int|
            0 <= i < j < tracks_on(tracks, mask, n).len() ==> (#[trigger] tracks_on(tracks, mask, n)[i])
                < (#[trigger] tracks_on(tracks, mask, n)[j]),
    decreases n,
{
    let had = tracks_on(tracks, mask, n - 1);
    let all = tracks_on(tracks, mask, n);
    if n - 1 > 0 {
        law_tracks_on(tracks, mask, n - 1, if k < n - 1 { k } else { 0 });
    }
    if k < n - 1 {
        if had.contains(k as usize) {
            let i = choose|i: int| 0 <= i < had.len() && had[i] == k as usize;
            assert(all[i] == k as usize);
        }
        if all.contains(k as usize) {
            let i = choose|i: int| 0 <= i < all.len() && all[i] == k as usize;
            assert(i < had.len());
            assert(had[i] == k as usize);
        }
    } else {
        if all != had {
            assert(all[had.len() as int] == k as usize);
        }
        if all.contains(k as usize) {
            let i = choose|i: int| 0 <= i < all.len() && all[i] == k as usize;
            if i < had.len() {
                assert(had[i] < n - 1);
            }
        }
    }
}

/// Whether a named track is above -70 dB at a bin.
pub open spec fn is_loud_at(tracks: Seq<NamedTrack>, bin: int, k: int) -> bool {
    bin < tracks[k].bins.len() && (Single { bits: 0xc28c_0000 }).lt(tracks[k].bins@[bin])
}

proof fn lemma_names_from(tracks: Seq<NamedTrack>, bin: int, n: int, i: int) -> (k: int)
    requires
        0 <= n <= tracks.len(),
        0 <= i < names_at(tracks, bin, n).len(),
    ensures
        0 <= k < n,
        is_loud_at(tracks, bin, k),
        tracks[k].name@ == names_at(tracks, bin, n)[i],
    decreases n,
{
    if n <= 0 {
        0
    } else if i < names_at(tracks, bin, n - 1).len() {
        lemma_names_from(tracks, bin, n - 1, i)
    } else {
        n - 1
    }
}

/// The names of a peak come in the order of the tracks, and none without a
/// track of its own that is loud there.
pub proof fn law_names_come_in_order(tracks: Seq<NamedTrack>, bin: int, n: int, i: int, j: int)
    requires
        0 <= n <= tracks.len(),
        0 <= i <= j < names_at(tracks, bin, n).len(),
    ensures
        exists|a: int, b: int|
            0 <= a <= b < n && (i < j ==> a < b) && #[trigger] is_loud_at(tracks, bin, a)
                && #[trigger] is_loud_at(tracks, bin, b) && tracks[a].name@ == names_at(
                tracks,
                bin,
                n,
            )[i] && tracks[b].name@ == names_at(tracks, bin, n)[j],
    decreases n,
{
    if n > 0 {
        let had = names_at(tracks, bin, n - 1);
        if j < had.len() {
            law_names_come_in_order(tracks, bin, n - 1, i, j);
        } else {
            if i < had.len() {
                let a = lemma_names_from(tracks, bin, n - 1, i);
                assert(is_loud_at(tracks, bin, a) && is_loud_at(tracks, bin, n - 1));
            } else {
                assert(is_loud_at(tracks, bin, n - 1));
            }
        }
    }
}

/// Every track that is loud at a bin is named.
pub proof fn law_names_are_complete(tracks: Seq<NamedTrack>, bin: int, n: int, k: int)
    requires
        0 <= k < n <= tracks.len(),
        is_loud_at(tracks, bin, k),
    ensures
        names_at(tracks, bin, n).contains(tracks[k].name@),
    decreases n,
{
    let had = names_at(tracks, bin, n - 1);
    let all = names_at(tracks, bin, n);
    if k < n - 1 {
        law_names_are_complete(tracks, bin, n - 1, k);
        let i = choose|i: int| 0 <= i < had.len() && had[i] == tracks[k].name@;
        assert(all[i] == had[i]);
    } else {
        assert(all[had.len() as int] == tracks[k].name@);
    }
}

/// Contributors are named one by one: the own bus as `Own`, a relay by the name
/// of its slot, and one whose slot has no name not at all.
pub proof fn law_contributors_are_named_one_by_one(a: Seq<u8>, b: Seq<u8>, id: u8, names: Seq<String>)
    ensures
        names_of(a + b, names) == names_of(a, names) + names_of(b, names),
        names_of(seq![id], names) == if id == 254 {
            seq!["Own"@]
        } else if id < names.len() {
            seq![names[id as int]@]
        } else {
            seq![]
        },
    decreases b.len(),
{
    reveal_with_fuel(names_of, 2);
    assert(seq![id].drop_last() == Seq::<u8>::empty());
    assert(names_of(seq![id], names) == if id == 254 {
        seq!["Own"@]
    } else if id < names.len() {
        seq![names[id as int]@]
    } else {
        seq![]
    });
    if b.len() == 0 {
        assert(a + b == a);
        assert(names_of(a, names) + names_of(b, names) == names_of(a, names));
    } else {
        law_contributors_are_named_one_by_one(a, b.drop_last(), id, names);
        assert((a + b).drop_last() == a + b.drop_last());
        assert((a + b).last() == b.last());
        assert(names_of(a + b, names) == names_of(a, names) + names_of(b, names));
    }
}

/// The strongest of a list are as many as asked for, in descending order; each
/// was in the list, and none that is left out is stronger than one of them.
#[verifier::rlimit(40)]
pub proof fn law_top_is_strongest(list: Seq<(usize, Single)>, n: nat)
    requires
        forall|i: int| 0 <= i < list.len() ==> !(#[trigger] list[i]).1.is_nan(),
    ensures
        top(list, n).len() == if list.len() < n {
            list.len()
        } else {
            n
        },
        forall|i: int, j: int|
            0 <= i < j < top(list, n).len() ==> (#[trigger] top(list, n)[j]).1.le(
                (#[trigger] top(list, n)[i]).1,
            ),
        forall|i: int| 0 <= i < top(list, n).len() ==> list.contains(#[trigger] top(list, n)[i]),
        forall|k: int, i: int|
            0 <= k < list.len() && 0 <= i < top(list, n).len() && !top(list, n).contains(
                #[trigger] list[k],
            ) ==> list[k].1.le((#[trigger] top(list, n)[i]).1),
        list.len() <= n ==> top(list, n).to_multiset() == list.to_multiset(),
        list.len() <= n ==> forall|k: int|
            0 <= k < list.len() ==> top(list, n).contains(#[trigger] list[k]),
        (forall|i: int, j: int|
            0 <= i < j < list.len() ==> (#[trigger] list[i]).0 != (#[trigger] list[j]).0)
            ==> forall|i: int, j: int|
            0 <= i < j < top(list, n).len() ==> (#[trigger] top(list, n)[i]).0 != (
            #[trigger] top(list, n)[j]).0,
{
    broadcast use vstd::seq_lib::group_to_multiset_ensures;

    let all = strongest_first(list, list.len() as int);
    let t = top(list, n);
    law_sorted_peaks_descend(list, list.len() as int);
    assert(list.take(list.len() as int) == list);
    if list.len() == n {
        assert(all.take(n as int) == all);
    }
    assert forall|i: int| 0 <= i < t.len() implies list.contains(#[trigger] t[i]) by {
        assert(t[i] == all[i]);
        assert(all.to_multiset().contains(all[i]));
        assert(list.to_multiset().contains(all[i]));
    }
    assert forall|k: int, i: int| 0 <= k < list.len() && 0 <= i < t.len() && !t.contains(
        #[trigger] list[k],
    ) implies list[k].1.le((#[trigger] t[i]).1) by {
        assert(list.contains(list[k]));
        assert(list.to_multiset().contains(list[k]));
        assert(all.to_multiset().contains(list[k]));
        assert(all.contains(list[k]));
        let m = choose|m: int| 0 <= m < all.len() && all[m] == list[k];
        if m < t.len() {
            assert(t[m] == list[k]);
        }
        assert(t[i] == all[i]);
        assert(all[m].1.le(all[i].1));
    }
    if list.len() <= n {
        assert forall|k: int| 0 <= k < list.len() implies t.contains(#[trigger] list[k]) by {
            assert(list.contains(list[k]));
            assert(list.to_multiset().contains(list[k]));
            assert(t.to_multiset().contains(list[k]));
        }
    }
    if forall|i: int, j: int|
        0 <= i < j < list.len() ==> (#[trigger] list[i]).0 != (#[trigger] list[j]).0 {
        lemma_same_multiset_bins_differ(list, all);
        assert forall|i: int, j: int| 0 <= i < j < t.len() implies (#[trigger] t[i]).0 != (
        #[trigger] t[j]).0 by {
            assert(t[i] == all[i] && t[j] == all[j]);
        }
    }
}

/// The strongest of a list with room for `cap`, strongest first: as many as
/// there is room for, in descending order, at different bins; each was in the
/// list, none that is left out is stronger than one of them, and with room left
/// none is left out.
#[verifier::rlimit(40)]
pub proof fn law_ranking(list: Seq<(usize, Single)>, cap: nat)
    requires
        cap > 0,
        forall|i: int| 0 <= i < list.len() ==> !(#[trigger] list[i]).1.is_nan(),
        forall|i: int, j: int|
            0 <= i < j < list.len() ==> (#[trigger] list[i]).0 < (#[trigger] list[j]).0,
    ensures
        ({
            let kept = strongest(list, cap, list.len() as int);
            let r = strongest_first(kept, kept.len() as int);
            &&& r.len() == if list.len() < cap {
                list.len()
            } else {
                cap
            }
            &&& forall|i: int, j: int|
                0 <= i < j < r.len() ==> (#[trigger] r[j]).1.le((#[trigger] r[i]).1) && r[i].0 != r[j].0
            &&& forall|i: int| 0 <= i < r.len() ==> list.contains(#[trigger] r[i])
            &&& forall|k: int, i: int|
                0 <= k < list.len() && 0 <= i < r.len() && !r.contains(#[trigger] list[k])
                    ==> list[k].1.le((#[trigger] r[i]).1)
            &&& list.len() <= cap ==> forall|k: int|
                0 <= k < list.len() ==> r.contains(#[trigger] list[k])
        }),
{
    broadcast use vstd::seq_lib::group_to_multiset_ensures;

    let n = list.len() as int;
    let kept = strongest(list, cap, n);
    let r = strongest_first(kept, kept.len() as int);
    lemma_strongest_len(list, cap, n);
    lemma_strongest_bins_differ(list, cap, n);
    law_strongest_are_kept(list, cap, n);
    law_sorted_peaks_descend(kept, kept.len() as int);
    assert(kept.take(kept.len() as int) == kept);
    assert(list.take(n) == list);
    lemma_same_multiset_bins_differ(kept, r);
    assert forall|i: int| 0 <= i < r.len() implies kept.contains(#[trigger] r[i]) by {
        assert(r.to_multiset().contains(r[i]));
        assert(kept.to_multiset().contains(r[i]));
    }
    assert forall|i: int| 0 <= i < r.len() implies list.contains(#[trigger] r[i]) by {
        let m = choose|m: int| 0 <= m < kept.len() && kept[m] == r[i];
        assert(list.take(n).contains(kept[m]));
    }
    assert forall|p: (usize, Single)| kept.contains(p) implies r.contains(p) by {
        assert(kept.to_multiset().contains(p));
        assert(r.to_multiset().contains(p));
    }
    assert forall|k: int, i: int| 0 <= k < list.len() && 0 <= i < r.len() && !r.contains(
        #[trigger] list[k],
    ) implies list[k].1.le((#[trigger] r[i]).1) by {
        assert(!kept.contains(list[k]));
        let m = choose|m: int| 0 <= m < kept.len() && kept[m] == r[i];
        assert(list[k].1.le(kept[m].1));
    }
    if list.len() <= cap {
        lemma_strongest_with_room(list, cap, n);
        assert forall|k: int| 0 <= k < list.len() implies r.contains(#[trigger] list[k]) by {
            assert(kept.contains(list[k]));
        }
    }
}

proof fn lemma_same_multiset_bins_differ(a: Seq<(usize, Single)>, b: Seq<(usize, Single)>)
    requires
        a.to_multiset() == b.to_multiset(),
        forall|i: int, j: int|
            0 <= i < j < a.len() ==> (#[trigger] a[i]).0 != (#[trigger] a[j]).0,
    ensures
        forall|i: int, j: int|
            0 <= i < j < b.len() ==> (#[trigger] b[i]).0 != (#[trigger] b[j]).0,
{
    broadcast use vstd::seq_lib::group_to_multiset_ensures;

    assert(a.no_duplicates());
    a.lemma_multiset_has_no_duplicates();
    b.lemma_multiset_has_no_duplicates_conv();
    assert forall|i: int, j: int| 0 <= i < j < b.len() implies (#[trigger] b[i]).0 != (
    #[trigger] b[j]).0 by {
        assert(b.to_multiset().contains(b[i]));
        assert(b.to_multiset().contains(b[j]));
        assert(a.contains(b[i]));
        assert(a.contains(b[j]));
        let m = choose|m: int| 0 <= m < a.len() && a[m] == b[i];
        let k = choose|k: int| 0 <= k < a.len() && a[k] == b[j];
        assert(b[i] != b[j]);
    }
}

/// A peak that is offered to a full list takes the place of the weakest, the
/// first of equal ones, if it is stronger; else nothing changes.
pub proof fn law_weakest_makes_room(list: Seq<(usize, Single)>, peak: (usize, Single), w: int)
    requires
        0 <= w < list.len(),
        forall|i: int| 0 <= i < list.len() ==> list[w].1.le((#[trigger] list[i]).1),
        forall|i: int| 0 <= i < w ==> list[w].1.lt((#[trigger] list[i]).1),
    ensures
        list[w].1.lt(peak.1) ==> offered(list, list.len(), peak) == list.update(w, peak),
        !list[w].1.lt(peak.1) ==> offered(list, list.len(), peak) == list,
{
    let n = list.len() as int;
    assert forall|i: int| 0 <= i < list.len() implies !(#[trigger] list[i]).1.is_nan() by {
        assert(list[w].1.le(list[i].1));
    }
    lemma_weakest_stands(list, n);
    lemma_first_weakest(list, n);
    let v = weakest(list, n);
    if v < w {
        assert(list[w].1.lt(list[v].1));
        assert(list[v].1.le(list[w].1));
    } else if w < v {
        assert(list[v].1.lt(list[w].1));
        assert(list[w].1.le(list[v].1));
    }
}

proof fn lemma_first_weakest(list: Seq<(usize, Single)>, n: int)
    requires
        1 <= n <= list.len(),
        forall|i: int| 0 <= i < list.len() ==> !(#[trigger] list[i]).1.is_nan(),
    ensures
        0 <= weakest(list, n) < n,
        forall|i: int| 0 <= i < n ==> list[weakest(list, n)].1.le((#[trigger] list[i]).1),
        forall|i: int| 0 <= i < weakest(list, n) ==> list[weakest(list, n)].1.lt((#[trigger] list[i]).1),
    decreases n,
{
    if n > 1 {
        lemma_first_weakest(list, n - 1);
    }
}

/// A contributor is named at the end while there is room, and the empty slot is
/// never one.
pub proof fn law_contributors_are_named_at_the_end(ids: Seq<u8>, id: u8)
    ensures
        id != 255 && ids.len() < 8 ==> with_contributor(ids, id) == ids.push(id),
        id == 255 || ids.len() >= 8 ==> with_contributor(ids, id) == ids,
{
}

/// The first eight tracks that contribute are named, in their order, and no
/// later one.
pub proof fn law_first_contributors_are_named(tracks: Seq<RelayTrack>, mask: u32, bin: int, n: int)
    requires
        0 <= n < tracks.len(),
    ensures
        ({
            let had = contributors_at(tracks, mask, bin, n);
            let now = contributors_at(tracks, mask, bin, n + 1);
            &&& contributors_at(tracks, mask, bin, 0).len() == 0
            &&& had.len() <= 8
            &&& now.take(had.len() as int) == had
            &&& contributes(tracks, mask, bin, n) && tracks[n].slot != 255 && had.len() < 8
                ==> now.len() == had.len() + 1 && now.last() == tracks[n].slot
            &&& !contributes(tracks, mask, bin, n) || tracks[n].slot == 255 || had.len() == 8
                ==> now == had
        }),
    decreases n,
{
    if n > 0 {
        law_first_contributors_are_named(tracks, mask, bin, n - 1);
    }
    let had = contributors_at(tracks, mask, bin, n);
    assert(contributors_at(tracks, mask, bin, n + 1).take(had.len() as int) == had);
}

/// In whatever order the peaks stand, one is dropped just when it lies outside
/// the spectrum or is an overtone of a lower one that stands behind it or has
/// not been dropped.
#[verifier::rlimit(40)]
pub proof fn law_overtones_are_dropped_in_any_order(
    spectrum: Seq<Single>,
    raised: Seq<Single>,
    peaks: Seq<(usize, Single)>,
    i: int,
)
    requires
        0 <= i < peaks.len(),
    ensures
        ({
            let gone = dropped(spectrum, raised, peaks, peaks.len() as int);
            &&& gone.len() == peaks.len()
            &&& gone[i] == true <==> (peaks[i].0 >= spectrum.len() || exists|m: int, h: int|
                #![trigger peaks[m].0 * h]
                0 <= m < peaks.len() && (m >= i || gone[m] == false) && 2 <= h <= 8 && peaks[m].0
                    < peaks[i].0 && -2 <= peaks[m].0 * h - peaks[i].0 <= 2
                    && spectrum[peaks[i].0 as int].le(raised[peaks[m].0 as int]))
        }),
{
    let n = peaks.len() as int;
    let gone = dropped(spectrum, raised, peaks, n);
    let had = dropped(spectrum, raised, peaks, i);
    let now = dropped(spectrum, raised, peaks, i + 1);
    lemma_flags(spectrum, raised, peaks, n, i);
    lemma_flags(spectrum, raised, peaks, i, i);
    lemma_flags(spectrum, raised, peaks, i + 1, i);
    assert forall|m: int| 0 <= m < n implies (had[m] == false <==> m >= i || gone[m] == false) by {
        lemma_flags(spectrum, raised, peaks, n, m);
        lemma_flags(spectrum, raised, peaks, i, m);
        if m < i {
            lemma_flags_settle(spectrum, raised, peaks, i, n, m);
        }
    }
    lemma_flags_settle(spectrum, raised, peaks, i + 1, n, i);
    let k = peaks[i].0 as int;
    if now[i] == true && k < spectrum.len() {
        let m = choose|m: int|
            0 <= m < peaks.len() && had[m] == false && is_overtone(
                spectrum,
                raised,
                (#[trigger] peaks[m]).0 as int,
                k,
            );
        let h = choose|h: int| 2 <= h <= 8 && -2 <= #[trigger] (peaks[m].0 as int * h) - k <= 2;
        assert(-2 <= peaks[m].0 * h - peaks[i].0 <= 2);
    }
    if exists|m: int, h: int|
        #![trigger peaks[m].0 * h]
        0 <= m < peaks.len() && (m >= i || gone[m] == false) && 2 <= h <= 8 && peaks[m].0 < peaks[i].0
            && -2 <= peaks[m].0 * h - peaks[i].0 <= 2 && spectrum[peaks[i].0 as int].le(
            raised[peaks[m].0 as int],
        ) {
        let (m, h) = choose|m: int, h: int|
            #![trigger peaks[m].0 * h]
            0 <= m < peaks.len() && (m >= i || gone[m] == false) && 2 <= h <= 8 && peaks[m].0
                < peaks[i].0 && -2 <= peaks[m].0 * h - peaks[i].0 <= 2
                && spectrum[peaks[i].0 as int].le(raised[peaks[m].0 as int]);
        assert(-2 <= (peaks[m].0 as int * h) - k <= 2);
        assert(near_multiple(peaks[m].0 as int, k));
        assert(had[m] == false);
        assert(is_overtone(spectrum, raised, peaks[m].0 as int, k));
    }
}

proof fn lemma_flags(
    spectrum: Seq<Single>,
    raised: Seq<Single>,
    peaks: Seq<(usize, Single)>,
    n: int,
    m: int,
)
    requires
        0 <= n <= peaks.len(),
        0 <= m < peaks.len(),
    ensures
        dropped(spectrum, raised, peaks, n).len() == peaks.len(),
        m >= n ==> dropped(spectrum, raised, peaks, n)[m] == false,
    decreases n,
{
    if n > 0 {
        lemma_flags(spectrum, raised, peaks, n - 1, m);
    }
}

proof fn lemma_flags_settle(
    spectrum: Seq<Single>,
    raised: Seq<Single>,
    peaks: Seq<(usize, Single)>,
    a: int,
    n: int,
    m: int,
)
    requires
        0 <= m < a <= n <= peaks.len(),
    ensures
        dropped(spectrum, raised, peaks, n)[m] == dropped(spectrum, raised, peaks, a)[m],
    decreases n - a,
{
    if a < n {
        lemma_flags_settle(spectrum, raised, peaks, a, n - 1, m);
        lemma_flags(spectrum, raised, peaks, n - 1, m);
    }
}

/// What remains are the peaks that are not dropped, in their order.
pub proof fn law_remaining_peaks_are_those_not_dropped(
    peaks: Seq<(usize, Single)>,
    gone: Seq<bool>,
    n: int,
)
    requires
        0 <= n < peaks.len(),
    ensures
        remaining(peaks, gone, 0).len() == 0,
        gone[n] ==> remaining(peaks, gone, n + 1) == remaining(peaks, gone, n),
        !gone[n] ==> remaining(peaks, gone, n + 1) == remaining(peaks, gone, n).push(peaks[n]),
{
}

/// The peaks that are no overtones keep their order.
pub proof fn law_fundamentals_keep_their_order(
    spectrum: Seq<Single>,
    raised: Seq<Single>,
    peaks: Seq<(usize, Single)>,
    n: int,
    i: int,
) -> (k: int)
    requires
        0 <= n <= peaks.len(),
        0 <= i < fundamentals(spectrum, raised, peaks, n).len(),
    ensures
        0 <= k < n,
        fundamentals(spectrum, raised, peaks, n)[i] == peaks[k],
        fundamentals(spectrum, raised, peaks, k).len() == i,
    decreases n,
{
    if n <= 0 {
        0
    } else if i < fundamentals(spectrum, raised, peaks, n - 1).len() {
        law_fundamentals_keep_their_order(spectrum, raised, peaks, n - 1, i)
    } else {
        n - 1
    }
}

} // verus!
