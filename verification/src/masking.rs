//! Masking: where two tracks are loud at the same frequency.

use crate::peaks::{
    all_numbers, covers_slot, is_descending, law_ranking, law_sorted_peaks_descend,
    law_strongest_are_kept, law_top_is_strongest, lemma_strongest_prefix, offer, slot_is_on,
    sort_strongest_first, strongest, strongest_first, take_top, top, with_contributor,
    AttributedPeak, CONTRIB_NONE, CONTRIB_OWN, MAX_MASK_PEAKS,
};
use crate::single::{Single, SILENCE_BITS};
use vstd::prelude::*;

verus! {

/// How many tracks can meet in a bin: sixteen relays and the own bus.
pub const MAX_ACTIVE: usize = 17;

/// The number of frames at which a collision stops growing more persistent.
pub const PERSIST_CAP: u32 = 40;

/// A track: its slot and the physical level in dB of each bin.
pub struct MaskTrack {
    pub slot: u8,
    pub levels: Vec<Single>,
}

/// The level at which a spectrum is silent.
pub open spec fn silence() -> Single {
    Single { bits: SILENCE_BITS }
}

/// Whether a track is loud enough anywhere to take part in masking.
pub open spec fn has_signal(levels: Seq<Single>) -> bool {
    exists|j: int| 0 <= j < levels.len() && silence().lt(#[trigger] levels[j])
}

/// The level of a bin; bins past the end are silent.
pub open spec fn level_at(levels: Seq<Single>, j: int) -> Single {
    if j < levels.len() {
        levels[j]
    } else {
        silence()
    }
}

/// The own bus at bin `j`, if it takes part there.
pub open spec fn own_active(own: Option<Seq<Single>>, floor: Single, j: int) -> Seq<(Single, u8)> {
    match own {
        Some(levels) => if has_signal(levels) && floor.lt(level_at(levels, j)) {
            seq![(level_at(levels, j), CONTRIB_OWN)]
        } else {
            seq![]
        },
        None => seq![],
    }
}

/// Whether a relay track is on and has a signal.
pub open spec fn is_live(t: MaskTrack, mask: u32) -> bool {
    slot_is_on(mask, t.slot) && has_signal(t.levels@)
}

/// The levels and contributors that are active at bin `j`: the own bus and then
/// those of the first `n` relays that are live and above the floor, as far as
/// there is room.
pub open spec fn active_at(
    own: Option<Seq<Single>>,
    relays: Seq<MaskTrack>,
    mask: u32,
    floor: Single,
    j: int,
    n: int,
) -> Seq<(Single, u8)>
    decreases n,
{
    if n <= 0 {
        own_active(own, floor, j)
    } else {
        let had = active_at(own, relays, mask, floor, j, n - 1);
        let t = relays[n - 1];
        if j < t.levels.len() && is_live(t, mask) && floor.lt(t.levels@[j]) && had.len() < MAX_ACTIVE {
            had.push((t.levels@[j], t.slot))
        } else {
            had
        }
    }
}

/// The lower of two levels.
pub open spec fn lower_of(a: Single, b: Single) -> Single {
    if b.lt(a) {
        b
    } else {
        a
    }
}

/// A collision: its level and the two that collide.
pub struct Collision {
    pub level: Single,
    pub pair: (u8, u8),
}

/// No collision.
pub open spec fn no_collision() -> Collision {
    Collision { level: silence(), pair: (CONTRIB_NONE, CONTRIB_NONE) }
}

/// The louder of a collision found before and that of `a` and `b`.
pub open spec fn with_pair(c: Collision, a: (Single, u8), b: (Single, u8)) -> Collision {
    let level = lower_of(a.0, b.0);
    if c.level.lt(level) {
        Collision { level, pair: (a.1, b.1) }
    } else {
        c
    }
}

/// The loudest collision after the pairs of `a` with the members from `a + 1`
/// up to `b`.
pub open spec fn with_pairs_of(c: Collision, active: Seq<(Single, u8)>, a: int, b: int) -> Collision
    decreases b - a,
{
    if b <= a + 1 {
        c
    } else {
        with_pair(with_pairs_of(c, active, a, b - 1), active[a], active[b - 1])
    }
}

/// The loudest collision among the pairs whose first member is one of the first `n`.
pub open spec fn loudest(active: Seq<(Single, u8)>, n: int) -> Collision
    decreases n,
{
    if n <= 0 {
        no_collision()
    } else {
        with_pairs_of(loudest(active, n - 1), active, n - 1, active.len() as int)
    }
}

/// The loudest collision at bin `j`.
pub open spec fn collision_at(
    own: Option<Seq<Single>>,
    relays: Seq<MaskTrack>,
    mask: u32,
    floor: Single,
    j: int,
) -> Collision {
    let active = active_at(own, relays, mask, floor, j, relays.len() as int);
    loudest(active, active.len() as int)
}

/// `x` held between `lo` and `hi`.
pub open spec fn held(x: int, lo: int, hi: int) -> int {
    if x < lo {
        lo
    } else if x > hi {
        hi
    } else {
        x
    }
}

/// Where the loudest of the bins from `lo` up to `end` stands, the first of
/// equal ones, if it is louder than silence; else `j`.
pub open spec fn loudest_bin(scratch: Seq<Collision>, lo: int, end: int, j: int) -> (Single, int)
    decreases end - lo,
{
    if end <= lo {
        (silence(), j)
    } else {
        let had = loudest_bin(scratch, lo, end - 1, j);
        if had.0.lt(scratch[end - 1].level) {
            (scratch[end - 1].level, end - 1)
        } else {
            had
        }
    }
}

/// The first bin of the window around `j`.
pub open spec fn window_start(j: int, half: int) -> int {
    if j < held(half, 2, 40) {
        0
    } else {
        j - held(half, 2, 40)
    }
}

/// The bin after the window around `j`.
pub open spec fn window_end(j: int, half: int, n: int) -> int {
    if j + held(half, 2, 40) < n {
        j + held(half, 2, 40) + 1
    } else {
        n
    }
}

/// The loudest collision in the critical band around bin `j`, which reaches
/// `half` bins, at least two and at most forty, to each side.
pub open spec fn band_collision(scratch: Seq<Collision>, half: int, j: int) -> (Single, int) {
    loudest_bin(
        scratch,
        window_start(j, half),
        window_end(j, half, scratch.len() as int),
        j,
    )
}

/// How persistent a collision is after one more frame.
pub open spec fn persisted(before: u32, loud: bool) -> u32 {
    if loud {
        if before >= PERSIST_CAP {
            PERSIST_CAP
        } else {
            (before + 1) as u32
        }
    } else if before == 0 {
        0
    } else {
        (before - 1) as u32
    }
}

/// Finds where tracks mask each other.
pub struct MaskingAnalyzer {
    /// The level of a collision per bin, once it has persisted.
    pub masking_map: Vec<Single>,
    /// The level of a collision per bin in this frame.
    pub raw: Vec<Single>,
    /// For how many frames the collision of a bin has lasted.
    pub persistence: Vec<u32>,
    /// Who collides in each bin.
    pub masking_ids: Vec<(u8, u8)>,
    /// The collisions that were reported last.
    pub peaks: Vec<AttributedPeak>,
}

impl MaskingAnalyzer {
    /// All maps have one entry per bin, no persistence passes the cap, and every
    /// level is a number.
    pub open spec fn wf(self) -> bool {
        &&& self.raw.len() == self.masking_map.len()
        &&& self.persistence.len() == self.masking_map.len()
        &&& self.masking_ids.len() == self.masking_map.len()
        &&& forall|j: int| 0 <= j < self.persistence.len() ==> #[trigger] self.persistence@[j] <= PERSIST_CAP
        &&& forall|j: int| 0 <= j < self.masking_map.len() ==> !(#[trigger] self.masking_map@[j]).is_nan()
        &&& forall|j: int| 0 <= j < self.peaks.len() ==> (#[trigger] self.peaks@[j]).wf()
    }

    /// An analyzer of silence.
    pub fn new(bins: usize) -> (r: MaskingAnalyzer)
        ensures
            r.wf(),
            r.masking_map.len() == bins,
            forall|j: int| 0 <= j < bins ==> #[trigger] r.masking_map@[j] == silence(),
            forall|j: int| 0 <= j < bins ==> #[trigger] r.raw@[j] == silence(),
            forall|j: int| 0 <= j < bins ==> #[trigger] r.persistence@[j] == 0,
            forall|j: int|
                0 <= j < bins ==> #[trigger] r.masking_ids@[j] == (CONTRIB_NONE, CONTRIB_NONE),
            r.peaks@ == Seq::<AttributedPeak>::empty(),
            forall|j: int|
                0 <= j < bins ==> (#[trigger] r.masking_map@[j]).bits == 0xc2b4_0000,
            forall|j: int| 0 <= j < bins ==> (#[trigger] r.raw@[j]).bits == 0xc2b4_0000,
            forall|j: int| 0 <= j < bins ==> #[trigger] r.masking_ids@[j] == (255u8, 255u8),
    {
        let quiet = Single { bits: SILENCE_BITS };
        let mut masking_map: Vec<Single> = Vec::new();
        let mut raw: Vec<Single> = Vec::new();
        let mut persistence: Vec<u32> = Vec::new();
        let mut masking_ids: Vec<(u8, u8)> = Vec::new();
        let mut i: usize = 0;
        while i < bins
            invariant
                i <= bins,
                quiet == silence(),
                masking_map.len() == i,
                raw.len() == i,
                persistence.len() == i,
                masking_ids.len() == i,
                forall|j: int| 0 <= j < i ==> #[trigger] masking_map@[j] == silence(),
                forall|j: int| 0 <= j < i ==> #[trigger] raw@[j] == silence(),
                forall|j: int| 0 <= j < i ==> #[trigger] persistence@[j] == 0,
                forall|j: int|
                    0 <= j < i ==> #[trigger] masking_ids@[j] == (CONTRIB_NONE, CONTRIB_NONE),
            decreases bins - i,
        {
            masking_map.push(quiet);
            raw.push(quiet);
            persistence.push(0);
            masking_ids.push((CONTRIB_NONE, CONTRIB_NONE));
            i += 1;
        }
        MaskingAnalyzer { masking_map, raw, persistence, masking_ids, peaks: Vec::new() }
    }
}

/// Whether a track is loud enough anywhere to take part in masking.
pub fn track_has_masking_signal(levels: &Vec<Single>) -> (r: bool)
    ensures
        r == has_signal(levels@),
        r <==> exists|j: int|
            0 <= j < levels.len() && (Single { bits: 0xc2b4_0000 }).lt(#[trigger] levels@[j]),
{
    let quiet = Single { bits: SILENCE_BITS };
    let mut j: usize = 0;
    while j < levels.len()
        invariant
            j <= levels.len(),
            quiet == silence(),
            forall|k: int| 0 <= k < j ==> !silence().lt(#[trigger] levels@[k]),
        decreases levels.len() - j,
    {
        if levels[j].above(quiet) {
            return true;
        }
        j += 1;
    }
    false
}

/// The levels of an optional track.
pub open spec fn opt_levels(own: Option<&Vec<Single>>) -> Option<Seq<Single>> {
    match own {
        Some(v) => Some(v@),
        None => None,
    }
}

/// The levels and contributors that are active at bin `j`.
fn collect_active(
    own: Option<&Vec<Single>>,
    own_live: bool,
    relays: &Vec<MaskTrack>,
    live: &Vec<bool>,
    mask: u32,
    floor: Single,
    j: usize,
) -> (r: Vec<(Single, u8)>)
    requires
        own is Some ==> own_live == has_signal(own->0@),
        live.len() == relays.len(),
        forall|i: int|
            0 <= i < relays.len() ==> #[trigger] live@[i] == is_live(relays@[i], mask),
    ensures
        r@ == active_at(opt_levels(own), relays@, mask, floor, j as int, relays.len() as int),
{
    let mut r: Vec<(Single, u8)> = Vec::new();
    if let Some(levels) = own {
        let level = if j < levels.len() {
            levels[j]
        } else {
            Single { bits: SILENCE_BITS }
        };
        if own_live && level.above(floor) {
            r.push((level, CONTRIB_OWN));
        }
    }
    assert(r@ == own_active(opt_levels(own), floor, j as int));
    let mut i: usize = 0;
    while i < relays.len()
        invariant
            i <= relays.len(),
            live.len() == relays.len(),
            forall|k: int|
                0 <= k < relays.len() ==> #[trigger] live@[k] == is_live(relays@[k], mask),
            r@ == active_at(opt_levels(own), relays@, mask, floor, j as int, i as int),
        decreases relays.len() - i,
    {
        let t = &relays[i];
        assert(live@[i as int] == is_live(relays@[i as int], mask));
        if j < t.levels.len() && live[i] && t.levels[j].above(floor) && r.len() < MAX_ACTIVE {
            r.push((t.levels[j], t.slot));
        }
        i += 1;
    }
    r
}

/// The loudest collision among those that are active in a bin.
fn find_loudest(active: &Vec<(Single, u8)>) -> (r: Collision)
    ensures
        r == loudest(active@, active.len() as int),
{
    let mut best = Collision {
        level: Single { bits: SILENCE_BITS },
        pair: (CONTRIB_NONE, CONTRIB_NONE),
    };
    let mut a: usize = 0;
    while a < active.len()
        invariant
            a <= active.len(),
            best == loudest(active@, a as int),
        decreases active.len() - a,
    {
        let ghost row = best;
        let mut b: usize = a + 1;
        while b < active.len()
            invariant
                a < b <= active.len(),
                best == with_pairs_of(row, active@, a as int, b as int),
            decreases active.len() - b,
        {
            let x = active[a];
            let y = active[b];
            let level = if y.0.below(x.0) {
                y.0
            } else {
                x.0
            };
            if best.level.below(level) {
                best = Collision { level, pair: (x.1, y.1) };
            }
            b += 1;
        }
        a += 1;
    }
    best
}

/// The loudest collision in the critical band around bin `j`.
fn find_band_collision(scratch: &Vec<Collision>, half: usize, j: usize) -> (r: (Single, usize))
    requires
        j < scratch.len(),
    ensures
        (r.0, r.1 as int) == band_collision(scratch@, half as int, j as int),
        r.1 < scratch.len(),
{
    let reach: usize = if half < 2 {
        2
    } else if half > 40 {
        40
    } else {
        half
    };
    let lo: usize = if j < reach {
        0
    } else {
        j - reach
    };
    let end: usize = if scratch.len() - j > reach {
        j + reach + 1
    } else {
        scratch.len()
    };
    let mut m = Single { bits: SILENCE_BITS };
    let mut at: usize = j;
    let mut k: usize = lo;
    while k < end
        invariant
            lo <= k <= end <= scratch.len(),
            at < scratch.len(),
            (m, at as int) == loudest_bin(scratch@, lo as int, k as int, j as int),
        decreases end - k,
    {
        if m.below(scratch[k].level) {
            m = scratch[k].level;
            at = k;
        }
        k += 1;
    }
    (m, at)
}

/// The loudest collision of every bin.
pub open spec fn collisions(
    own: Option<Seq<Single>>,
    relays: Seq<MaskTrack>,
    mask: u32,
    floor: Single,
    n: nat,
) -> Seq<Collision> {
    Seq::new(n, |j: int| collision_at(own, relays, mask, floor, j))
}

proof fn lemma_loudest_bin(scratch: Seq<Collision>, lo: int, end: int, j: int)
    requires
        0 <= lo,
        end <= scratch.len(),
    ensures
        !loudest_bin(scratch, lo, end, j).0.is_nan(),
        silence().le(loudest_bin(scratch, lo, end, j).0),
        forall|k: int|
            lo <= k < end && !(#[trigger] scratch[k]).level.is_nan() ==> scratch[k].level.le(
                loudest_bin(scratch, lo, end, j).0,
            ),
        silence().lt(loudest_bin(scratch, lo, end, j).0) ==> {
            let at = loudest_bin(scratch, lo, end, j).1;
            lo <= at < end && scratch[at].level == loudest_bin(scratch, lo, end, j).0
        },
        !silence().lt(loudest_bin(scratch, lo, end, j).0) ==> loudest_bin(scratch, lo, end, j) == (
            silence(),
            j,
        ),
        forall|k: int|
            lo <= k < loudest_bin(scratch, lo, end, j).1 && silence().lt(
                loudest_bin(scratch, lo, end, j).0,
            ) && !(#[trigger] scratch[k]).level.is_nan() ==> scratch[k].level.lt(
                loudest_bin(scratch, lo, end, j).0,
            ),
    decreases end - lo,
{
    if end > lo {
        lemma_loudest_bin(scratch, lo, end - 1, j);
    }
}

impl MaskingAnalyzer {
    /// Whether bin `j` shows the collision in its critical band: its level, who
    /// collides, how long it has lasted, and in the map once it has lasted long
    /// enough.
    pub open spec fn shows(
        self,
        before: Seq<u32>,
        scratch: Seq<Collision>,
        half_windows: Seq<usize>,
        floor: Single,
        persistence_min: u32,
        j: int,
    ) -> bool {
        let band = band_collision(scratch, half_windows[j] as int, j);
        let lasted = persisted(before[j], floor.lt(band.0));
        &&& self.raw@[j] == band.0
        &&& self.masking_ids@[j] == scratch[band.1].pair
        &&& self.persistence@[j] == lasted
        &&& self.masking_map@[j] == if lasted > persistence_min {
            band.0
        } else {
            silence()
        }
    }

    /// Takes a frame: the physical levels of the own bus and of the relays, of
    /// which `mask` says which are on. `half_windows` is half the critical band
    /// around each bin, in bins. A collision counts above `floor`, and is shown
    /// once it has lasted for more than `persistence_min` frames.
    pub fn compute_masking(
        &mut self,
        own: Option<&Vec<Single>>,
        relays: &Vec<MaskTrack>,
        mask: u32,
        floor: Single,
        half_windows: &Vec<usize>,
        persistence_min: u32,
    )
        requires
            old(self).wf(),
            half_windows.len() == old(self).masking_map.len(),
            forall|i: int| 0 <= i < relays.len() ==> covers_slot(mask, (#[trigger] relays@[i]).slot),
        ensures
            final(self).wf(),
            final(self).masking_map.len() == old(self).masking_map.len(),
            final(self).peaks == old(self).peaks,
            ({
                let n = old(self).masking_map.len();
                let scratch = collisions(opt_levels(own), relays@, mask, floor, n as nat);
                forall|j: int|
                    0 <= j < n ==> #[trigger] final(self).shows(
                        old(self).persistence@,
                        scratch,
                        half_windows@,
                        floor,
                        persistence_min,
                        j,
                    )
            }),
    {
        let n: usize = self.masking_map.len();
        let quiet = Single { bits: SILENCE_BITS };
        let own_live: bool = match own {
            Some(levels) => track_has_masking_signal(levels),
            None => false,
        };
        let mut live: Vec<bool> = Vec::new();
        let mut i: usize = 0;
        while i < relays.len()
            invariant
                i <= relays.len(),
                live.len() == i,
                forall|k: int| 0 <= k < relays.len() ==> covers_slot(mask, (#[trigger] relays@[k]).slot),
                forall|k: int| 0 <= k < i ==> #[trigger] live@[k] == is_live(relays@[k], mask),
            decreases relays.len() - i,
        {
            assert(covers_slot(mask, relays@[i as int].slot));
            let on: bool = aura_dsp::analysis::relay_slot_active(mask, relays[i].slot)
                && track_has_masking_signal(&relays[i].levels);
            live.push(on);
            i += 1;
        }
        let mut scratch: Vec<Collision> = Vec::new();
        let mut j: usize = 0;
        while j < n
            invariant
                j <= n,
                scratch.len() == j,
                own is Some ==> own_live == has_signal(own->0@),
                live.len() == relays.len(),
                forall|k: int|
                    0 <= k < relays.len() ==> #[trigger] live@[k] == is_live(relays@[k], mask),
                forall|k: int|
                    0 <= k < j ==> #[trigger] scratch@[k] == collision_at(
                        opt_levels(own),
                        relays@,
                        mask,
                        floor,
                        k,
                    ),
            decreases n - j,
        {
            let active = collect_active(own, own_live, relays, &live, mask, floor, j);
            scratch.push(find_loudest(&active));
            j += 1;
        }
        let ghost all = collisions(opt_levels(own), relays@, mask, floor, n as nat);
        assert(scratch@ == all);
        let ghost before = self.persistence@;
        let mut j: usize = 0;
        while j < n
            invariant
                j <= n,
                n == self.masking_map.len(),
                n == half_windows.len(),
                n == all.len(),
                scratch@ == all,
                quiet == silence(),
                self.wf(),
                self.peaks == old(self).peaks,
                before == old(self).persistence@,
                forall|k: int| j <= k < n ==> #[trigger] self.persistence@[k] == before[k],
                forall|k: int|
                    0 <= k < j ==> #[trigger] self.shows(
                        before,
                        all,
                        half_windows@,
                        floor,
                        persistence_min,
                        k,
                    ),
            decreases n - j,
        {
            let half: usize = half_windows[j];
            let (level, at) = find_band_collision(&scratch, half, j);
            proof {
                lemma_loudest_bin(
                    all,
                    window_start(j as int, half as int),
                    window_end(j as int, half as int, n as int),
                    j as int,
                );
                assert(self.persistence@[j as int] == before[j as int]);
            }
            let ghost had = *self;
            let was: u32 = self.persistence[j];
            let lasted: u32 = if level.above(floor) {
                if was >= PERSIST_CAP {
                    PERSIST_CAP
                } else {
                    was + 1
                }
            } else if was == 0 {
                0
            } else {
                was - 1
            };
            self.raw.set(j, level);
            self.masking_ids.set(j, scratch[at].pair);
            self.persistence.set(j, lasted);
            self.masking_map.set(
                j,
                if lasted > persistence_min {
                    level
                } else {
                    quiet
                },
            );
            proof {
                assert forall|k: int| 0 <= k <= j implies #[trigger] self.shows(
                    before,
                    all,
                    half_windows@,
                    floor,
                    persistence_min,
                    k,
                ) by {
                    if k < j {
                        assert(had.shows(before, all, half_windows@, floor, persistence_min, k));
                    }
                }
            }
            j += 1;
        }
    }
}

/// Whether bin `i` of the map is above the floor and no lower than its neighbours.
pub open spec fn is_summit(map: Seq<Single>, floor: Single, i: int) -> bool {
    &&& !map[i].le(floor)
    &&& i > 0 ==> !map[i].lt(map[i - 1])
    &&& i + 1 < map.len() ==> !map[i].lt(map[i + 1])
}

/// The summits among the first `n` bins of the map, in order.
pub open spec fn summits(map: Seq<Single>, floor: Single, n: int) -> Seq<(usize, Single)>
    decreases n,
{
    if n <= 0 {
        seq![]
    } else if is_summit(map, floor, n - 1) {
        summits(map, floor, n - 1).push(((n - 1) as usize, map[n - 1]))
    } else {
        summits(map, floor, n - 1)
    }
}

/// The collisions that are reported for a map: its summits, the strongest as
/// many as are reported, strongest first.
pub open spec fn reported(map: Seq<Single>, floor: Single) -> Seq<(usize, Single)> {
    let all = summits(map, floor, map.len() as int);
    let kept = strongest(all, MAX_MASK_PEAKS as nat, all.len() as int);
    strongest_first(kept, kept.len() as int)
}

/// Every summit is a bin of the map with its level.
proof fn lemma_summits(map: Seq<Single>, floor: Single, n: int, i: int)
    requires
        0 <= n <= map.len(),
        map.len() <= usize::MAX,
        0 <= i < summits(map, floor, n).len(),
    ensures
        ({
            let p = summits(map, floor, n)[i];
            p.0 < n && p.1 == map[p.0 as int] && is_summit(map, floor, p.0 as int)
        }),
    decreases n,
{
    if n > 0 && i < summits(map, floor, n - 1).len() {
        lemma_summits(map, floor, n - 1, i);
    }
}

proof fn lemma_summits_are_numbers(map: Seq<Single>, floor: Single)
    requires
        map.len() <= usize::MAX,
        forall|j: int| 0 <= j < map.len() ==> !(#[trigger] map[j]).is_nan(),
    ensures
        all_numbers(summits(map, floor, map.len() as int)),
{
    let all = summits(map, floor, map.len() as int);
    assert forall|i: int| 0 <= i < all.len() implies !(#[trigger] all[i]).1.is_nan() by {
        lemma_summits(map, floor, map.len() as int, i);
    }
}

/// Every reported collision is a summit of the map.
pub proof fn law_reported_are_summits(map: Seq<Single>, floor: Single, i: int)
    requires
        map.len() <= usize::MAX,
        forall|j: int| 0 <= j < map.len() ==> !(#[trigger] map[j]).is_nan(),
        0 <= i < reported(map, floor).len(),
    ensures
        reported(map, floor).len() <= MAX_MASK_PEAKS,
        is_descending(reported(map, floor)),
        ({
            let p = reported(map, floor)[i];
            p.0 < map.len() && p.1 == map[p.0 as int] && is_summit(map, floor, p.0 as int)
        }),
{
    broadcast use vstd::seq_lib::group_to_multiset_ensures;

    let all = summits(map, floor, map.len() as int);
    let kept = strongest(all, MAX_MASK_PEAKS as nat, all.len() as int);
    lemma_summits_are_numbers(map, floor);
    law_strongest_are_kept(all, MAX_MASK_PEAKS as nat, all.len() as int);
    law_sorted_peaks_descend(kept, kept.len() as int);
    assert(kept.take(kept.len() as int) == kept);
    let r = reported(map, floor);
    assert(r.to_multiset().contains(r[i]));
    assert(kept.to_multiset().contains(r[i]));
    assert(kept.contains(r[i]));
    let k = choose|k: int| 0 <= k < kept.len() && kept[k] == r[i];
    assert(all.take(all.len() as int).contains(kept[k]));
    assert(all.take(all.len() as int) == all);
    let m = choose|m: int| 0 <= m < all.len() && all[m] == kept[k];
    lemma_summits(map, floor, map.len() as int, m);
}

/// The first `n` bins of the map that are above the floor, in order.
pub open spec fn loud_bins(map: Seq<Single>, floor: Single, n: int) -> Seq<(usize, Single)>
    decreases n,
{
    if n <= 0 {
        seq![]
    } else if floor.lt(map[n - 1]) {
        loud_bins(map, floor, n - 1).push(((n - 1) as usize, map[n - 1]))
    } else {
        loud_bins(map, floor, n - 1)
    }
}

proof fn lemma_loud_bins(map: Seq<Single>, floor: Single, n: int, i: int)
    requires
        0 <= n <= map.len(),
        map.len() <= usize::MAX,
        0 <= i < loud_bins(map, floor, n).len(),
    ensures
        ({
            let p = loud_bins(map, floor, n)[i];
            p.0 < n && p.1 == map[p.0 as int] && floor.lt(p.1)
        }),
    decreases n,
{
    if n > 0 && i < loud_bins(map, floor, n - 1).len() {
        lemma_loud_bins(map, floor, n - 1, i);
    }
}

/// The strongest bins of a map are bins of it above the floor, strongest first.
pub proof fn law_top_bins_are_loud(map: Seq<Single>, floor: Single, n: nat, i: int)
    requires
        map.len() <= usize::MAX,
        0 <= i < top(loud_bins(map, floor, map.len() as int), n).len(),
    ensures
        top(loud_bins(map, floor, map.len() as int), n).len() <= n,
        is_descending(top(loud_bins(map, floor, map.len() as int), n)),
        ({
            let p = top(loud_bins(map, floor, map.len() as int), n)[i];
            p.0 < map.len() && p.1 == map[p.0 as int] && floor.lt(p.1)
        }),
{
    broadcast use vstd::seq_lib::group_to_multiset_ensures;

    let all = loud_bins(map, floor, map.len() as int);
    assert forall|k: int| 0 <= k < all.len() implies !(#[trigger] all[k]).1.is_nan() by {
        lemma_loud_bins(map, floor, map.len() as int, k);
    }
    law_sorted_peaks_descend(all, all.len() as int);
    assert(all.take(all.len() as int) == all);
    let r = strongest_first(all, all.len() as int);
    assert(top(all, n)[i] == r[i]);
    assert(r.to_multiset().contains(r[i]));
    assert(all.to_multiset().contains(r[i]));
    assert(all.contains(r[i]));
    let m = choose|m: int| 0 <= m < all.len() && all[m] == r[i];
    lemma_loud_bins(map, floor, map.len() as int, m);
}

impl MaskingAnalyzer {
    /// Reports the collisions of the map above `floor`, strongest first, with
    /// the two that collide.
    pub fn fill_peaks_above_floor(&mut self, floor: Single)
        requires
            old(self).wf(),
        ensures
            final(self).wf(),
            final(self).masking_map == old(self).masking_map,
            final(self).raw == old(self).raw,
            final(self).persistence == old(self).persistence,
            final(self).masking_ids == old(self).masking_ids,
            ({
                let r = reported(old(self).masking_map@, floor);
                &&& final(self).peaks.len() == r.len()
                &&& forall|i: int|
                    0 <= i < r.len() ==> {
                        let p = #[trigger] final(self).peaks@[i];
                        let ids = old(self).masking_ids@[p.bin as int];
                        &&& p.bin == r[i].0
                        &&& p.score == r[i].1
                        &&& p.contributors() == with_contributor(
                            with_contributor(Seq::empty(), ids.0),
                            ids.1,
                        )
                    }
            }),
    {
        let n: usize = self.masking_map.len();
        let ghost map = self.masking_map@;
        let mut kept: Vec<(usize, Single)> = Vec::new();
        let mut i: usize = 0;
        while i < n
            invariant
                i <= n,
                n == self.masking_map.len(),
                map == self.masking_map@,
                *self == *old(self),
                kept.len() <= MAX_MASK_PEAKS,
                kept@ == strongest(
                    summits(map, floor, i as int),
                    MAX_MASK_PEAKS as nat,
                    summits(map, floor, i as int).len() as int,
                ),
            decreases n - i,
        {
            let db = self.masking_map[i];
            let lower_left: bool = i > 0 && db.below(self.masking_map[i - 1]);
            let lower_right: bool = n - i > 1 && db.below(self.masking_map[i + 1]);
            if !db.at_most(floor) && !lower_left && !lower_right {
                proof {
                    let had = summits(map, floor, i as int);
                    let new = summits(map, floor, i + 1);
                    assert(new == had.push((i, db)));
                    lemma_strongest_prefix(new, had, MAX_MASK_PEAKS as nat, had.len() as int);
                }
                offer(&mut kept, MAX_MASK_PEAKS, (i, db));
            }
            i += 1;
        }
        let sorted = sort_strongest_first(&kept);
        proof {
            assert(sorted@ == reported(map, floor));
        }
        let mut peaks: Vec<AttributedPeak> = Vec::new();
        let mut i: usize = 0;
        while i < sorted.len()
            invariant
                i <= sorted.len(),
                peaks.len() == i,
                sorted@ == reported(map, floor),
                map == self.masking_map@,
                *self == *old(self),
                self.wf(),
                forall|k: int|
                    0 <= k < i ==> {
                        let p = #[trigger] peaks@[k];
                        let ids = self.masking_ids@[p.bin as int];
                        &&& p.wf()
                        &&& p.bin == sorted@[k].0
                        &&& p.score == sorted@[k].1
                        &&& p.contributors() == with_contributor(
                            with_contributor(Seq::empty(), ids.0),
                            ids.1,
                        )
                    },
            decreases sorted.len() - i,
        {
            proof {
                assert(map.len() == self.masking_map.len());
                law_reported_are_summits(map, floor, i as int);
            }
            let (bin, score) = sorted[i];
            let ids = self.masking_ids[bin];
            let mut p = AttributedPeak::new(bin, score);
            p.push_id(ids.0);
            p.push_id(ids.1);
            peaks.push(p);
            i += 1;
        }
        self.peaks = peaks;
    }

    /// The strongest `n` bins of the map above `floor`, strongest first, with
    /// the two that collide.
    pub fn top_peaks(&self, n: usize, floor: Single) -> (r: Vec<AttributedPeak>)
        requires
            self.wf(),
        ensures
            ({
                let t = top(
                    loud_bins(self.masking_map@, floor, self.masking_map.len() as int),
                    n as nat,
                );
                &&& r.len() == t.len()
                &&& forall|i: int|
                    0 <= i < t.len() ==> {
                        let p = #[trigger] r@[i];
                        let ids = self.masking_ids@[p.bin as int];
                        &&& p.wf()
                        &&& p.bin == t[i].0
                        &&& p.score == t[i].1
                        &&& p.contributors() == with_contributor(
                            with_contributor(Seq::empty(), ids.0),
                            ids.1,
                        )
                    }
            }),
    {
        let bins: usize = self.masking_map.len();
        let mut loud: Vec<(usize, Single)> = Vec::new();
        let mut i: usize = 0;
        while i < bins
            invariant
                i <= bins,
                bins == self.masking_map.len(),
                loud@ == loud_bins(self.masking_map@, floor, i as int),
            decreases bins - i,
        {
            if self.masking_map[i].above(floor) {
                loud.push((i, self.masking_map[i]));
            }
            i += 1;
        }
        let best = take_top(&loud, n);
        let mut peaks: Vec<AttributedPeak> = Vec::new();
        let mut i: usize = 0;
        while i < best.len()
            invariant
                i <= best.len(),
                peaks.len() == i,
                self.wf(),
                best@ == top(
                    loud_bins(self.masking_map@, floor, self.masking_map.len() as int),
                    n as nat,
                ),
                forall|k: int|
                    0 <= k < i ==> {
                        let p = #[trigger] peaks@[k];
                        let ids = self.masking_ids@[p.bin as int];
                        &&& p.wf()
                        &&& p.bin == best@[k].0
                        &&& p.score == best@[k].1
                        &&& p.contributors() == with_contributor(
                            with_contributor(Seq::empty(), ids.0),
                            ids.1,
                        )
                    },
            decreases best.len() - i,
        {
            proof {
                assert(self.masking_map@.len() == self.masking_map.len());
                law_top_bins_are_loud(self.masking_map@, floor, n as nat, i as int);
            }
            let (bin, score) = best[i];
            let ids = self.masking_ids[bin];
            let mut p = AttributedPeak::new(bin, score);
            p.push_id(ids.0);
            p.push_id(ids.1);
            peaks.push(p);
            i += 1;
        }
        peaks
    }

    /// The collisions that were reported last.
    pub fn peaks_above_floor(&self) -> (r: &Vec<AttributedPeak>)
        ensures
            *r == self.peaks,
    {
        &self.peaks
    }
}

// ─── Laws ────────────────────────────────────────────────────────────────────

proof fn lemma_with_pairs(c: Collision, active: Seq<(Single, u8)>, a: int, b: int)
    requires
        0 <= a < active.len(),
        b <= active.len(),
        !c.level.is_nan(),
        forall|i: int| 0 <= i < active.len() ==> !(#[trigger] active[i]).0.is_nan(),
    ensures
        ({
            let r = with_pairs_of(c, active, a, b);
            &&& !r.level.is_nan()
            &&& c.level.le(r.level)
            &&& forall|k: int|
                a < k < b ==> lower_of(active[a].0, (#[trigger] active[k]).0).le(r.level)
            &&& r == c || exists|k: int|
                a < k < b && r == (Collision {
                    level: lower_of(active[a].0, (#[trigger] active[k]).0),
                    pair: (active[a].1, active[k].1),
                })
        }),
    decreases b - a,
{
    if b > a + 1 {
        lemma_with_pairs(c, active, a, b - 1);
        let r = with_pairs_of(c, active, a, b);
        let had = with_pairs_of(c, active, a, b - 1);
        if r != had {
            assert(r == (Collision {
                level: lower_of(active[a].0, active[b - 1].0),
                pair: (active[a].1, active[b - 1].1),
            }));
        }
    }
}

/// The loudest collision is at least as loud as that of every pair of tracks,
/// where a pair is as loud as the quieter of the two, and it is the collision
/// of such a pair unless none is louder than silence.
pub proof fn law_loudest_collision(active: Seq<(Single, u8)>, n: int)
    requires
        0 <= n <= active.len(),
        forall|i: int| 0 <= i < active.len() ==> !(#[trigger] active[i]).0.is_nan(),
    ensures
        !loudest(active, n).level.is_nan(),
        silence().le(loudest(active, n).level),
        forall|a: int, b: int|
            0 <= a < n && a < b < active.len() ==> lower_of(
                (#[trigger] active[a]).0,
                (#[trigger] active[b]).0,
            ).le(loudest(active, n).level),
        loudest(active, n) == no_collision() || exists|a: int, b: int|
            0 <= a < n && a < b < active.len() && loudest(active, n) == (Collision {
                level: lower_of((#[trigger] active[a]).0, (#[trigger] active[b]).0),
                pair: (active[a].1, active[b].1),
            }),
    decreases n,
{
    if n > 0 {
        law_loudest_collision(active, n - 1);
        lemma_with_pairs(loudest(active, n - 1), active, n - 1, active.len() as int);
    }
}

/// Tracks without a signal, or switched off, take no part.
proof fn lemma_silent_inactive(
    own: Option<Seq<Single>>,
    relays: Seq<MaskTrack>,
    mask: u32,
    floor: Single,
    j: int,
    n: int,
)
    requires
        0 <= n <= relays.len(),
        forall|i: int| 0 <= i < relays.len() ==> !is_live(#[trigger] relays[i], mask),
    ensures
        active_at(own, relays, mask, floor, j, n) == own_active(own, floor, j),
    decreases n,
{
    if n > 0 {
        lemma_silent_inactive(own, relays, mask, floor, j, n - 1);
        assert(!is_live(relays[n - 1], mask));
    }
}

/// Where no relay has a signal there is no masking, whatever the own bus plays:
/// a collision takes two.
pub proof fn law_silent_relays_do_not_mask(
    own: Option<Seq<Single>>,
    relays: Seq<MaskTrack>,
    mask: u32,
    floor: Single,
    j: int,
)
    requires
        forall|i: int| 0 <= i < relays.len() ==> !is_live(#[trigger] relays[i], mask),
    ensures
        collision_at(own, relays, mask, floor, j) == no_collision(),
{
    lemma_silent_inactive(own, relays, mask, floor, j, relays.len() as int);
    let active = own_active(own, floor, j);
    assert(active.len() <= 1);
    reveal_with_fuel(loudest, 2);
    reveal_with_fuel(with_pairs_of, 2);
}

/// A map in which every level is at the floor or below reports nothing.
pub proof fn law_quiet_map_reports_nothing(map: Seq<Single>, floor: Single)
    requires
        forall|j: int| 0 <= j < map.len() ==> (#[trigger] map[j]).le(floor),
    ensures
        reported(map, floor) == Seq::<(usize, Single)>::empty(),
{
    lemma_no_summits(map, floor, map.len() as int);
}

proof fn lemma_no_summits(map: Seq<Single>, floor: Single, n: int)
    requires
        n <= map.len(),
        forall|j: int| 0 <= j < map.len() ==> (#[trigger] map[j]).le(floor),
    ensures
        summits(map, floor, n) == Seq::<(usize, Single)>::empty(),
    decreases n,
{
    if n > 0 {
        lemma_no_summits(map, floor, n - 1);
    }
}

/// How persistent a collision is after a run of frames, of which it is said
/// which were loud.
pub open spec fn persisted_after(loud: Seq<bool>) -> u32
    decreases loud.len(),
{
    if loud.len() == 0 {
        0
    } else {
        persisted(persisted_after(loud.drop_last()), loud.last())
    }
}

/// How many frames were loud.
pub open spec fn loud_frames(loud: Seq<bool>) -> nat
    decreases loud.len(),
{
    if loud.len() == 0 {
        0
    } else {
        loud_frames(loud.drop_last()) + if loud.last() {
            1nat
        } else {
            0nat
        }
    }
}

/// A collision that has been loud in no more than `persistence_min` frames is
/// not shown, and no collision gets more persistent than the cap.
pub proof fn law_brief_collisions_are_not_shown(loud: Seq<bool>, persistence_min: u32)
    ensures
        persisted_after(loud) <= PERSIST_CAP,
        loud_frames(loud) <= persistence_min ==> persisted_after(loud) <= persistence_min,
{
    lemma_persisted_bound(loud);
}

proof fn lemma_persisted_bound(loud: Seq<bool>)
    ensures
        persisted_after(loud) <= PERSIST_CAP,
        persisted_after(loud) <= loud_frames(loud),
    decreases loud.len(),
{
    if loud.len() > 0 {
        lemma_persisted_bound(loud.drop_last());
    }
}

/// Whether a track takes part at bin `j`: it plays louder than -90 dB somewhere
/// and is above the floor there, and a relay is on as well. The own bus counts
/// as track -1, and is at -90 dB past its last bin.
pub open spec fn takes_part(
    own: Option<Seq<Single>>,
    relays: Seq<MaskTrack>,
    mask: u32,
    floor: Single,
    j: int,
    track: int,
) -> bool {
    let quiet = Single { bits: 0xc2b4_0000 };
    if track < 0 {
        &&& own is Some
        &&& exists|k: int| 0 <= k < own->0.len() && quiet.lt(#[trigger] own->0[k])
        &&& floor.lt(level_of(own, relays, j, track))
    } else {
        let t = relays[track];
        &&& mask & 0x8000_0000 == 0 || mask & (1u32 << t.slot) != 0
        &&& exists|k: int| 0 <= k < t.levels.len() && quiet.lt(#[trigger] t.levels@[k])
        &&& j < t.levels.len()
        &&& floor.lt(t.levels@[j])
    }
}

/// The level of a track at bin `j`.
pub open spec fn level_of(
    own: Option<Seq<Single>>,
    relays: Seq<MaskTrack>,
    j: int,
    track: int,
) -> Single {
    if track >= 0 {
        relays[track].levels@[j]
    } else if j < own->0.len() {
        own->0[j]
    } else {
        Single { bits: 0xc2b4_0000 }
    }
}

/// What a track is called in a collision: the own bus 254, a relay by its slot.
pub open spec fn id_of(relays: Seq<MaskTrack>, track: int) -> u8 {
    if track < 0 {
        254
    } else {
        relays[track].slot
    }
}

/// Whether two different tracks take part at bin `j`.
pub open spec fn both_take_part(
    own: Option<Seq<Single>>,
    relays: Seq<MaskTrack>,
    mask: u32,
    floor: Single,
    j: int,
    a: int,
    b: int,
) -> bool {
    &&& -1 <= a < b < relays.len()
    &&& takes_part(own, relays, mask, floor, j, a)
    &&& takes_part(own, relays, mask, floor, j, b)
}

/// Two tracks that take part are enough for two to be active, all of which are
/// above the floor.
proof fn lemma_two_are_active(
    own: Option<Seq<Single>>,
    relays: Seq<MaskTrack>,
    mask: u32,
    floor: Single,
    j: int,
    a: int,
    b: int,
    n: int,
)
    requires
        0 <= n <= relays.len(),
        -1 <= a < b < relays.len(),
        takes_part(own, relays, mask, floor, j, a),
        takes_part(own, relays, mask, floor, j, b),
    ensures
        ({
            let active = active_at(own, relays, mask, floor, j, n);
            &&& forall|i: int| 0 <= i < active.len() ==> floor.lt((#[trigger] active[i]).0)
            &&& a < n ==> active.len() >= 1
            &&& b < n ==> active.len() >= 2
        }),
    decreases n,
{
    let active = active_at(own, relays, mask, floor, j, n);
    if n <= 0 {
        assert(active == own_active(own, floor, j));
    } else {
        lemma_two_are_active(own, relays, mask, floor, j, a, b, n - 1);
        let had = active_at(own, relays, mask, floor, j, n - 1);
        let joins = takes_part(own, relays, mask, floor, j, n - 1) && had.len() < MAX_ACTIVE;
        let level = relays[n - 1].levels@[j];
        assert(active == if joins {
            had.push((level, relays[n - 1].slot))
        } else {
            had
        });
        assert forall|i: int| 0 <= i < active.len() implies floor.lt((#[trigger] active[i]).0) by {
            if i < had.len() {
                assert(active[i] == had[i]);
                assert(floor.lt(had[i].0));
            }
        }
    }
}

/// Where two tracks take part at a bin the critical band around it has a
/// collision above the floor.
proof fn lemma_two_collide(
    own: Option<Seq<Single>>,
    relays: Seq<MaskTrack>,
    mask: u32,
    floor: Single,
    bins: nat,
    half: int,
    j: int,
    a: int,
    b: int,
)
    requires
        0 <= j < bins,
        -1 <= a < b < relays.len(),
        takes_part(own, relays, mask, floor, j, a),
        takes_part(own, relays, mask, floor, j, b),
    ensures
        floor.lt(band_collision(collisions(own, relays, mask, floor, bins), half, j).0),
{
    let active = active_at(own, relays, mask, floor, j, relays.len() as int);
    lemma_two_are_active(own, relays, mask, floor, j, a, b, relays.len() as int);
    assert(floor.lt(active[0].0) && floor.lt(active[1].0));
    assert forall|i: int| 0 <= i < active.len() implies !(#[trigger] active[i]).0.is_nan() by {
        assert(floor.lt(active[i].0));
    }
    law_loudest_collision(active, active.len() as int);
    assert(lower_of(active[0].0, active[1].0).le(loudest(active, active.len() as int).level));
    let scratch = collisions(own, relays, mask, floor, bins);
    assert(scratch[j] == collision_at(own, relays, mask, floor, j));
    assert(floor.lt(scratch[j].level));
    lemma_loudest_bin(scratch, window_start(j, half), window_end(j, half, bins as int), j);
}

/// A collision counts once it has held, and not before. Where the same two
/// tracks take part at a bin in every frame since an analyzer was new, the map
/// shows silence there for the first `persistence_min` frames, and after these
/// a level above the floor. `states[k]` is the analyzer after `k` frames, of
/// which there are no more than the cap.
pub proof fn law_lasting_collisions_are_shown(
    states: Seq<MaskingAnalyzer>,
    own: Option<Seq<Single>>,
    relays: Seq<MaskTrack>,
    mask: u32,
    floor: Single,
    half_windows: Seq<usize>,
    persistence_min: u32,
    j: int,
    a: int,
    b: int,
    k: int,
)
    requires
        1 <= k < states.len(),
        k <= PERSIST_CAP,
        0 <= j < states[0].masking_map.len(),
        states[0].persistence@[j] == 0,
        forall|i: int|
            0 <= i < states.len() - 1 ==> (#[trigger] states[i + 1]).shows(
                states[i].persistence@,
                collisions(own, relays, mask, floor, states[0].masking_map@.len()),
                half_windows,
                floor,
                persistence_min,
                j,
            ),
        -1 <= a < b < relays.len(),
        takes_part(own, relays, mask, floor, j, a),
        takes_part(own, relays, mask, floor, j, b),
    ensures
        k <= persistence_min ==> states[k].masking_map@[j] == silence(),
        k > persistence_min ==> floor.lt(states[k].masking_map@[j]),
{
    let bins = states[0].masking_map@.len();
    let half = half_windows[j] as int;
    lemma_two_collide(own, relays, mask, floor, bins, half, j, a, b);
    lemma_persistence_counts(
        states,
        collisions(own, relays, mask, floor, bins),
        half_windows,
        floor,
        persistence_min,
        j,
        k,
    );
    assert(states[(k - 1) + 1] == states[k]);
}

/// A collision that is loud in every frame is as persistent as there were frames.
proof fn lemma_persistence_counts(
    states: Seq<MaskingAnalyzer>,
    scratch: Seq<Collision>,
    half_windows: Seq<usize>,
    floor: Single,
    persistence_min: u32,
    j: int,
    k: int,
)
    requires
        0 <= k < states.len(),
        k <= PERSIST_CAP,
        states[0].persistence@[j] == 0,
        floor.lt(band_collision(scratch, half_windows[j] as int, j).0),
        forall|i: int|
            0 <= i < states.len() - 1 ==> (#[trigger] states[i + 1]).shows(
                states[i].persistence@,
                scratch,
                half_windows,
                floor,
                persistence_min,
                j,
            ),
    ensures
        states[k].persistence@[j] == k,
    decreases k,
{
    if k > 0 {
        lemma_persistence_counts(states, scratch, half_windows, floor, persistence_min, j, k - 1);
        assert(states[(k - 1) + 1].shows(
            states[k - 1].persistence@,
            scratch,
            half_windows,
            floor,
            persistence_min,
            j,
        ));
    }
}

/// Whether a collision is that of the tracks at `x` and `y`: louder than
/// silence, no louder than either, as loud as one of them, and louder than every
/// pair that stands before theirs.
pub open spec fn is_first_of(active: Seq<(Single, u8)>, c: Collision, x: int, y: int) -> bool {
    &&& 0 <= x < y < active.len()
    &&& (Single { bits: 0xc2b4_0000 }).lt(c.level)
    &&& c.level.le(active[x].0)
    &&& c.level.le(active[y].0)
    &&& c.level == active[x].0 || c.level == active[y].0
    &&& c.pair == (active[x].1, active[y].1)
    &&& forall|u: int, v: int|
        0 <= u < v < active.len() && (u < x || (u == x && v < y)) ==> (#[trigger] active[u]).0.lt(
            c.level,
        ) || (#[trigger] active[v]).0.lt(c.level)
}

/// No two tracks that have met are both louder than the collision that has been
/// found so far, which is the first of the loudest.
#[verifier::rlimit(40)]
proof fn lemma_pairs_met(active: Seq<(Single, u8)>, a: int, b: int) -> (w: (int, int))
    requires
        0 <= a < active.len(),
        a < b <= active.len(),
        forall|i: int| 0 <= i < active.len() ==> !(#[trigger] active[i]).0.is_nan(),
    ensures
        ({
            let r = with_pairs_of(loudest(active, a), active, a, b);
            &&& forall|x: int, y: int|
                0 <= x < y < active.len() && (x < a || (x == a && y < b)) ==> (
                #[trigger] active[x]).0.le(r.level) || (#[trigger] active[y]).0.le(r.level)
            &&& r == (Collision { level: Single { bits: 0xc2b4_0000 }, pair: (255, 255) })
                || is_first_of(active, r, w.0, w.1)
        }),
    decreases a, b,
{
    let r = with_pairs_of(loudest(active, a), active, a, b);
    if b == a + 1 {
        if a == 0 {
            (0, 0)
        } else {
            lemma_pairs_met(active, a - 1, active.len() as int)
        }
    } else {
        let w = lemma_pairs_met(active, a, b - 1);
        let had = with_pairs_of(loudest(active, a), active, a, b - 1);
        let x = active[a].0;
        let y = active[b - 1].0;
        assert(!x.is_nan() && !y.is_nan());
        if r == had {
            w
        } else {
            assert(is_first_of(active, r, a, b - 1));
            (a, b - 1)
        }
    }
}

/// Two tracks collide at the level of the quieter one, and the loudest collision
/// among several is as loud as the second loudest of them: no two are both
/// louder, and two are no quieter, the first such pair. Without a pair above
/// -90 dB there is none.
pub proof fn law_collision_is_as_loud_as_the_second(active: Seq<(Single, u8)>) -> (w: (int, int))
    requires
        forall|i: int| 0 <= i < active.len() ==> !(#[trigger] active[i]).0.is_nan(),
    ensures
        ({
            let r = loudest(active, active.len() as int);
            &&& (Single { bits: 0xc2b4_0000 }).le(r.level)
            &&& forall|x: int, y: int|
                0 <= x < y < active.len() ==> (#[trigger] active[x]).0.le(r.level) || (
                #[trigger] active[y]).0.le(r.level)
            &&& r == (Collision { level: Single { bits: 0xc2b4_0000 }, pair: (255, 255) })
                || is_first_of(active, r, w.0, w.1)
        }),
{
    let n = active.len() as int;
    if n == 0 {
        (0, 0)
    } else {
        lemma_pairs_met(active, n - 1, n)
    }
}

/// Two levels collide at a level that is no louder than either and is one of
/// them.
pub proof fn law_lower_level(a: Single, b: Single)
    requires
        !a.is_nan(),
        !b.is_nan(),
    ensures
        lower_of(a, b).le(a),
        lower_of(a, b).le(b),
        lower_of(a, b) == a || lower_of(a, b) == b,
        lower_of(a, b).equals(lower_of(b, a)),
{
}

/// How many are active before a track.
spec fn place_of(
    own: Option<Seq<Single>>,
    relays: Seq<MaskTrack>,
    mask: u32,
    floor: Single,
    j: int,
    track: int,
) -> int {
    if track < 0 {
        0
    } else {
        active_at(own, relays, mask, floor, j, track).len() as int
    }
}

proof fn lemma_active_count(
    own: Option<Seq<Single>>,
    relays: Seq<MaskTrack>,
    mask: u32,
    floor: Single,
    j: int,
    n: int,
)
    requires
        0 <= n <= relays.len(),
    ensures
        active_at(own, relays, mask, floor, j, n).len() <= n + 1,
        active_at(own, relays, mask, floor, j, n).len() <= 17,
    decreases n,
{
    if n > 0 {
        lemma_active_count(own, relays, mask, floor, j, n - 1);
    }
}

/// A track that takes part is active, at its place.
proof fn lemma_is_active(
    own: Option<Seq<Single>>,
    relays: Seq<MaskTrack>,
    mask: u32,
    floor: Single,
    j: int,
    n: int,
    track: int,
)
    requires
        0 <= n <= relays.len(),
        relays.len() <= 16,
        -1 <= track < n,
        takes_part(own, relays, mask, floor, j, track),
    ensures
        ({
            let active = active_at(own, relays, mask, floor, j, n);
            let i = place_of(own, relays, mask, floor, j, track);
            &&& 0 <= i < active.len()
            &&& active[i] == (level_of(own, relays, j, track), id_of(relays, track))
        }),
    decreases n,
{
    if n > 0 {
        lemma_active_count(own, relays, mask, floor, j, n - 1);
        if track < n - 1 {
            lemma_is_active(own, relays, mask, floor, j, n - 1, track);
        } else {
            assert(is_live(relays[n - 1], mask));
        }
    } else {
        assert(has_signal(own->0));
    }
}

/// Whoever is active takes part.
proof fn lemma_active_from(
    own: Option<Seq<Single>>,
    relays: Seq<MaskTrack>,
    mask: u32,
    floor: Single,
    j: int,
    n: int,
    i: int,
) -> (track: int)
    requires
        0 <= n <= relays.len(),
        0 <= i < active_at(own, relays, mask, floor, j, n).len(),
    ensures
        -1 <= track < n,
        takes_part(own, relays, mask, floor, j, track),
        place_of(own, relays, mask, floor, j, track) == i,
        active_at(own, relays, mask, floor, j, n)[i] == (
            level_of(own, relays, j, track),
            id_of(relays, track),
        ),
    decreases n,
{
    if n <= 0 {
        -1
    } else {
        let had = active_at(own, relays, mask, floor, j, n - 1);
        if i < had.len() {
            lemma_active_from(own, relays, mask, floor, j, n - 1, i)
        } else {
            n - 1
        }
    }
}

/// A later place is that of a later track.
proof fn lemma_places_grow(
    own: Option<Seq<Single>>,
    relays: Seq<MaskTrack>,
    mask: u32,
    floor: Single,
    j: int,
    i: int,
    k: int,
    n: int,
) -> (w: (int, int))
    requires
        0 <= n <= relays.len(),
        0 <= i < k < active_at(own, relays, mask, floor, j, n).len(),
    ensures
        -1 <= w.0 < w.1 < n,
        takes_part(own, relays, mask, floor, j, w.0),
        takes_part(own, relays, mask, floor, j, w.1),
        place_of(own, relays, mask, floor, j, w.0) == i,
        place_of(own, relays, mask, floor, j, w.1) == k,
        active_at(own, relays, mask, floor, j, n)[i] == (
            level_of(own, relays, j, w.0),
            id_of(relays, w.0),
        ),
        active_at(own, relays, mask, floor, j, n)[k] == (
            level_of(own, relays, j, w.1),
            id_of(relays, w.1),
        ),
    decreases n,
{
    if n <= 0 {
        (-1, -1)
    } else {
        let had = active_at(own, relays, mask, floor, j, n - 1);
        if k < had.len() {
            lemma_places_grow(own, relays, mask, floor, j, i, k, n - 1)
        } else {
            let a = lemma_active_from(own, relays, mask, floor, j, n - 1, i);
            (a, n - 1)
        }
    }
}

/// Whether `level` is that of the collision of tracks `a` and `b` at bin `j`, the
/// first that is so loud there: louder than -90 dB, no louder than either track
/// and as loud as one of them.
pub open spec fn is_collision_of(
    own: Option<Seq<Single>>,
    relays: Seq<MaskTrack>,
    mask: u32,
    floor: Single,
    j: int,
    a: int,
    b: int,
    level: Single,
) -> bool {
    &&& both_take_part(own, relays, mask, floor, j, a, b)
    &&& (Single { bits: 0xc2b4_0000 }).lt(level)
    &&& level.le(level_of(own, relays, j, a))
    &&& level.le(level_of(own, relays, j, b))
    &&& level == level_of(own, relays, j, a) || level == level_of(own, relays, j, b)
    &&& relays.len() <= 16 ==> forall|u: int, v: int|
        #[trigger] both_take_part(own, relays, mask, floor, j, u, v) && (u < a || (u == a && v < b))
            ==> level_of(own, relays, j, u).lt(level) || level_of(own, relays, j, v).lt(level)
}

/// The level of a bin is no lower than the quieter of any two tracks that take
/// part there, and is that of the first two that reach it.
#[verifier::rlimit(40)]
pub proof fn law_collision_at_a_bin(
    own: Option<Seq<Single>>,
    relays: Seq<MaskTrack>,
    mask: u32,
    floor: Single,
    j: int,
) -> (w: (int, int))
    ensures
        ({
            let c = collision_at(own, relays, mask, floor, j);
            &&& (Single { bits: 0xc2b4_0000 }).le(c.level)
            &&& relays.len() <= 16 ==> forall|a: int, b: int| #[trigger]
                both_take_part(own, relays, mask, floor, j, a, b) ==> level_of(own, relays, j, a).le(
                    c.level,
                ) || level_of(own, relays, j, b).le(c.level)
            &&& c == (Collision { level: Single { bits: 0xc2b4_0000 }, pair: (255, 255) }) || (
            is_collision_of(own, relays, mask, floor, j, w.0, w.1, c.level) && c.pair == (
                id_of(relays, w.0),
                id_of(relays, w.1),
            ))
        }),
{
    let n = relays.len() as int;
    let active = active_at(own, relays, mask, floor, j, n);
    let c = collision_at(own, relays, mask, floor, j);
    assert forall|i: int| 0 <= i < active.len() implies !(#[trigger] active[i]).0.is_nan() by {
        let t = lemma_active_from(own, relays, mask, floor, j, n, i);
    }
    let p = law_collision_is_as_loud_as_the_second(active);
    if relays.len() <= 16 {
        assert forall|a: int, b: int| #[trigger]
            both_take_part(own, relays, mask, floor, j, a, b) implies level_of(own, relays, j, a).le(
            c.level,
        ) || level_of(own, relays, j, b).le(c.level) by {
            lemma_is_active(own, relays, mask, floor, j, n, a);
            lemma_is_active(own, relays, mask, floor, j, n, b);
            lemma_is_active(own, relays, mask, floor, j, b, a);
            let x = place_of(own, relays, mask, floor, j, a);
            let y = place_of(own, relays, mask, floor, j, b);
            assert(active[x].0.le(c.level) || active[y].0.le(c.level));
        }
    }
    if c == (Collision { level: Single { bits: 0xc2b4_0000 }, pair: (255, 255) }) {
        (0, 0)
    } else {
        let w = lemma_places_grow(own, relays, mask, floor, j, p.0, p.1, n);
        if relays.len() <= 16 {
            assert forall|u: int, v: int| #[trigger]
                both_take_part(own, relays, mask, floor, j, u, v) && (u < w.0 || (u == w.0 && v
                    < w.1)) implies level_of(own, relays, j, u).lt(c.level) || level_of(
                own,
                relays,
                j,
                v,
            ).lt(c.level) by {
                lemma_is_active(own, relays, mask, floor, j, n, u);
                lemma_is_active(own, relays, mask, floor, j, n, v);
                lemma_is_active(own, relays, mask, floor, j, v, u);
                if u < w.0 {
                    lemma_is_active(own, relays, mask, floor, j, w.0, u);
                } else {
                    lemma_is_active(own, relays, mask, floor, j, w.1, v);
                }
                let x = place_of(own, relays, mask, floor, j, u);
                let y = place_of(own, relays, mask, floor, j, v);
                assert(active[x].0.lt(c.level) || active[y].0.lt(c.level));
            }
        }
        w
    }
}

/// Whether bin `k` is in the critical band around bin `j`, which reaches `half`
/// bins to each side, but no fewer than two and no more than forty.
pub open spec fn is_near(j: int, half: int, k: int) -> bool {
    let reach = if half < 2 {
        2
    } else if half > 40 {
        40
    } else {
        half
    };
    j - reach <= k <= j + reach
}

proof fn lemma_near(j: int, half: int, bins: int, k: int)
    requires
        0 <= k < bins,
        0 <= j < bins,
    ensures
        is_near(j, half, k) <==> window_start(j, half) <= k < window_end(j, half, bins),
        0 <= window_start(j, half),
        window_end(j, half, bins) <= bins,
{
}

/// A bin shows a level that is no lower than the quieter of any two tracks that
/// take part anywhere in its critical band.
pub proof fn law_collisions_are_heard(
    m: MaskingAnalyzer,
    before: Seq<u32>,
    own: Option<Seq<Single>>,
    relays: Seq<MaskTrack>,
    mask: u32,
    floor: Single,
    bins: nat,
    half_windows: Seq<usize>,
    persistence_min: u32,
    j: int,
    k: int,
    a: int,
    b: int,
)
    requires
        relays.len() <= 16,
        0 <= j < bins,
        0 <= k < bins,
        is_near(j, half_windows[j] as int, k),
        m.shows(
            before,
            collisions(own, relays, mask, floor, bins),
            half_windows,
            floor,
            persistence_min,
            j,
        ),
        both_take_part(own, relays, mask, floor, k, a, b),
    ensures
        level_of(own, relays, k, a).le(m.raw@[j]) || level_of(own, relays, k, b).le(m.raw@[j]),
{
    let half = half_windows[j] as int;
    let scratch = collisions(own, relays, mask, floor, bins);
    lemma_near(j, half, bins as int, k);
    lemma_loudest_bin(scratch, window_start(j, half), window_end(j, half, bins as int), j);
    let w = law_collision_at_a_bin(own, relays, mask, floor, k);
    assert(scratch[k] == collision_at(own, relays, mask, floor, k));
    assert(scratch[k].level.le(m.raw@[j]));
}

/// What a bin shows is the collision of two tracks that take part in its
/// critical band: no louder than either, as loud as one of them, with their
/// names, and louder than those of the pairs and bins before. Without one it is
/// at -90 dB and names no one. While the level is above the floor the bin grows
/// more persistent, up to forty, and else less, and it is on the map once it has
/// lasted for more than `persistence_min` frames.
#[verifier::rlimit(40)]
pub proof fn law_shown_collision(
    m: MaskingAnalyzer,
    before: Seq<u32>,
    own: Option<Seq<Single>>,
    relays: Seq<MaskTrack>,
    mask: u32,
    floor: Single,
    bins: nat,
    half_windows: Seq<usize>,
    persistence_min: u32,
    j: int,
) -> (w: (int, int, int))
    requires
        0 <= j < bins,
        before[j] <= 40,
        m.shows(
            before,
            collisions(own, relays, mask, floor, bins),
            half_windows,
            floor,
            persistence_min,
            j,
        ),
    ensures
        (Single { bits: 0xc2b4_0000 }).le(m.raw@[j]),
        !(Single { bits: 0xc2b4_0000 }).lt(m.raw@[j]) ==> m.raw@[j].bits == 0xc2b4_0000
            && m.masking_ids@[j] == (255u8, 255u8),
        (Single { bits: 0xc2b4_0000 }).lt(m.raw@[j]) ==> {
            &&& 0 <= w.0 < bins
            &&& is_near(j, half_windows[j] as int, w.0)
            &&& is_collision_of(own, relays, mask, floor, w.0, w.1, w.2, m.raw@[j])
            &&& m.masking_ids@[j] == (id_of(relays, w.1), id_of(relays, w.2))
            &&& relays.len() <= 16 ==> forall|k: int, u: int, v: int|
                0 <= k < w.0 && is_near(j, half_windows[j] as int, k) && #[trigger] both_take_part(
                    own,
                    relays,
                    mask,
                    floor,
                    k,
                    u,
                    v,
                ) ==> level_of(own, relays, k, u).lt(m.raw@[j]) || level_of(own, relays, k, v).lt(
                    m.raw@[j],
                )
        },
        m.persistence@[j] == if floor.lt(m.raw@[j]) {
            if before[j] == 40 {
                40
            } else {
                before[j] + 1
            }
        } else {
            if before[j] == 0 {
                0
            } else {
                before[j] - 1
            }
        },
        m.persistence@[j] > persistence_min ==> m.masking_map@[j] == m.raw@[j],
        m.persistence@[j] <= persistence_min ==> m.masking_map@[j].bits == 0xc2b4_0000,
{
    let half = half_windows[j] as int;
    let n = bins as int;
    let scratch = collisions(own, relays, mask, floor, bins);
    lemma_near(j, half, n, j);
    lemma_loudest_bin(scratch, window_start(j, half), window_end(j, half, n), j);
    let band = band_collision(scratch, half, j);
    if silence().lt(band.0) {
        lemma_near(j, half, n, band.1);
        assert(scratch[band.1] == collision_at(own, relays, mask, floor, band.1));
        let w = law_collision_at_a_bin(own, relays, mask, floor, band.1);
        if relays.len() <= 16 {
            assert forall|k: int, u: int, v: int|
                0 <= k < band.1 && is_near(j, half, k) && #[trigger] both_take_part(
                    own,
                    relays,
                    mask,
                    floor,
                    k,
                    u,
                    v,
                ) implies level_of(own, relays, k, u).lt(m.raw@[j]) || level_of(own, relays, k, v).lt(
                m.raw@[j],
            ) by {
                lemma_near(j, half, n, k);
                let x = law_collision_at_a_bin(own, relays, mask, floor, k);
                assert(scratch[k] == collision_at(own, relays, mask, floor, k));
                assert(scratch[k].level.lt(m.raw@[j]));
            }
        }
        (band.1, w.0, w.1)
    } else {
        assert(scratch[j] == collision_at(own, relays, mask, floor, j));
        let w = law_collision_at_a_bin(own, relays, mask, floor, j);
        (0, 0, 0)
    }
}

/// Whether `other` holds the tracks of `relays` in another order: its track `i`
/// is track `p[i]`, and track `k` of `relays` is its track `q[k]`.
pub open spec fn is_reordered(
    relays: Seq<MaskTrack>,
    other: Seq<MaskTrack>,
    p: Seq<int>,
    q: Seq<int>,
) -> bool {
    &&& p.len() == relays.len()
    &&& q.len() == relays.len()
    &&& other.len() == relays.len()
    &&& forall|i: int|
        0 <= i < other.len() ==> 0 <= (#[trigger] p[i]) < relays.len() && q[p[i]] == i && other[i]
            == relays[p[i]]
    &&& forall|k: int|
        0 <= k < relays.len() ==> 0 <= (#[trigger] q[k]) < other.len() && p[q[k]] == k && relays[k]
            == other[q[k]]
}

proof fn lemma_no_quieter(
    m: MaskingAnalyzer,
    o: MaskingAnalyzer,
    m_before: Seq<u32>,
    o_before: Seq<u32>,
    own: Option<Seq<Single>>,
    relays: Seq<MaskTrack>,
    other: Seq<MaskTrack>,
    p: Seq<int>,
    q: Seq<int>,
    mask: u32,
    floor: Single,
    bins: nat,
    half_windows: Seq<usize>,
    persistence_min: u32,
    j: int,
)
    requires
        relays.len() <= 16,
        is_reordered(relays, other, p, q),
        0 <= j < bins,
        m_before[j] <= 40,
        o_before[j] <= 40,
        m.shows(
            m_before,
            collisions(own, relays, mask, floor, bins),
            half_windows,
            floor,
            persistence_min,
            j,
        ),
        o.shows(
            o_before,
            collisions(own, other, mask, floor, bins),
            half_windows,
            floor,
            persistence_min,
            j,
        ),
    ensures
        m.raw@[j].le(o.raw@[j]),
{
    let w = law_shown_collision(
        m,
        m_before,
        own,
        relays,
        mask,
        floor,
        bins,
        half_windows,
        persistence_min,
        j,
    );
    let x = law_shown_collision(
        o,
        o_before,
        own,
        other,
        mask,
        floor,
        bins,
        half_windows,
        persistence_min,
        j,
    );
    if (Single { bits: 0xc2b4_0000 }).lt(m.raw@[j]) {
        let u = if w.1 < 0 {
            -1
        } else {
            q[w.1]
        };
        let v = q[w.2];
        assert(relays[w.2] == other[v]);
        if w.1 >= 0 {
            assert(relays[w.1] == other[u]);
            assert(p[u] == w.1 && p[v] == w.2);
        }
        assert(takes_part(own, other, mask, floor, w.0, u));
        assert(takes_part(own, other, mask, floor, w.0, v));
        if u < v {
            law_collisions_are_heard(
                o,
                o_before,
                own,
                other,
                mask,
                floor,
                bins,
                half_windows,
                persistence_min,
                j,
                w.0,
                u,
                v,
            );
        } else {
            law_collisions_are_heard(
                o,
                o_before,
                own,
                other,
                mask,
                floor,
                bins,
                half_windows,
                persistence_min,
                j,
                w.0,
                v,
                u,
            );
        }
    }
}

/// The level that a bin shows does not depend on the order of the tracks.
pub proof fn law_order_of_tracks_does_not_matter(
    m: MaskingAnalyzer,
    o: MaskingAnalyzer,
    before: Seq<u32>,
    own: Option<Seq<Single>>,
    relays: Seq<MaskTrack>,
    other: Seq<MaskTrack>,
    p: Seq<int>,
    q: Seq<int>,
    mask: u32,
    floor: Single,
    bins: nat,
    half_windows: Seq<usize>,
    persistence_min: u32,
    j: int,
)
    requires
        relays.len() <= 16,
        is_reordered(relays, other, p, q),
        0 <= j < bins,
        before[j] <= 40,
        m.shows(
            before,
            collisions(own, relays, mask, floor, bins),
            half_windows,
            floor,
            persistence_min,
            j,
        ),
        o.shows(
            before,
            collisions(own, other, mask, floor, bins),
            half_windows,
            floor,
            persistence_min,
            j,
        ),
    ensures
        m.raw@[j].equals(o.raw@[j]),
        m.masking_map@[j].equals(o.masking_map@[j]),
        m.persistence@[j] == o.persistence@[j],
{
    lemma_no_quieter(
        m,
        o,
        before,
        before,
        own,
        relays,
        other,
        p,
        q,
        mask,
        floor,
        bins,
        half_windows,
        persistence_min,
        j,
    );
    lemma_no_quieter(
        o,
        m,
        before,
        before,
        own,
        other,
        relays,
        q,
        p,
        mask,
        floor,
        bins,
        half_windows,
        persistence_min,
        j,
    );
}

proof fn lemma_summits_are_all(map: Seq<Single>, floor: Single, n: int)
    requires
        0 <= n <= map.len(),
        map.len() <= usize::MAX,
    ensures
        ({
            let r = summits(map, floor, n);
            &&& forall|i: int|
                0 <= i < r.len() ==> {
                    let k = (#[trigger] r[i]).0 as int;
                    &&& 0 <= k < n
                    &&& r[i].1 == map[k]
                    &&& !map[k].le(floor)
                    &&& k > 0 ==> !map[k].lt(map[k - 1])
                    &&& k + 1 < map.len() ==> !map[k].lt(map[k + 1])
                }
            &&& forall|i: int, j: int|
                0 <= i < j < r.len() ==> (#[trigger] r[i]).0 < (#[trigger] r[j]).0
        }),
        forall|k: int|
            0 <= k < n && !map[k].le(floor) && (k > 0 ==> !map[k].lt(map[k - 1])) && (k + 1
                < map.len() ==> !map[k].lt(map[k + 1])) ==> #[trigger] summits(
                map,
                floor,
                n,
            ).contains((k as usize, map[k])),
    decreases n,
{
    if n > 0 {
        lemma_summits_are_all(map, floor, n - 1);
        let had = summits(map, floor, n - 1);
        let all = summits(map, floor, n);
        assert forall|k: int|
            0 <= k < n && !map[k].le(floor) && (k > 0 ==> !map[k].lt(map[k - 1])) && (k + 1
                < map.len() ==> !map[k].lt(map[k + 1])) implies #[trigger] all.contains(
            (k as usize, map[k]),
        ) by {
            let p = (k as usize, map[k]);
            if k < n - 1 {
                assert(had.contains(p));
                let i = choose|i: int| 0 <= i < had.len() && had[i] == p;
                assert(all[i] == p);
            } else {
                assert(all == had.push(p));
                assert(all[had.len() as int] == p);
            }
        }
    }
}

/// The collisions of a map are reported at its summits: bins above the floor
/// that are no lower than either neighbour. They come strongest first, at
/// different bins and sixty-four at most; with room left every summit is
/// reported, and else none that is left out is stronger than one that is.
pub proof fn law_every_summit_is_reported(map: Seq<Single>, floor: Single)
    requires
        map.len() <= usize::MAX,
        forall|j: int| 0 <= j < map.len() ==> !(#[trigger] map[j]).is_nan(),
    ensures
        ({
            let r = reported(map, floor);
            &&& r.len() <= 64
            &&& forall|i: int|
                0 <= i < r.len() ==> {
                    let k = (#[trigger] r[i]).0 as int;
                    &&& 0 <= k < map.len()
                    &&& r[i].1 == map[k]
                    &&& !map[k].le(floor)
                    &&& k > 0 ==> !map[k].lt(map[k - 1])
                    &&& k + 1 < map.len() ==> !map[k].lt(map[k + 1])
                }
            &&& forall|i: int, j: int|
                0 <= i < j < r.len() ==> (#[trigger] r[j]).1.le((#[trigger] r[i]).1) && r[i].0 != r[j].0
        }),
        forall|k: int|
            0 <= k < map.len() && !map[k].le(floor) && (k > 0 ==> !map[k].lt(map[k - 1])) && (k + 1
                < map.len() ==> !map[k].lt(map[k + 1])) ==> #[trigger] reported(map, floor).contains(
                (k as usize, map[k]),
            ) || (reported(map, floor).len() == 64 && forall|i: int|
                0 <= i < 64 ==> map[k].le((#[trigger] reported(map, floor)[i]).1)),
{
    let all = summits(map, floor, map.len() as int);
    let r = reported(map, floor);
    lemma_summits_are_all(map, floor, map.len() as int);
    lemma_summits_are_numbers(map, floor);
    law_ranking(all, 64);
    assert forall|i: int| 0 <= i < r.len() implies {
        let k = (#[trigger] r[i]).0 as int;
        &&& 0 <= k < map.len()
        &&& r[i].1 == map[k]
        &&& !map[k].le(floor)
        &&& k > 0 ==> !map[k].lt(map[k - 1])
        &&& k + 1 < map.len() ==> !map[k].lt(map[k + 1])
    } by {
        assert(all.contains(r[i]));
        let m = choose|m: int| 0 <= m < all.len() && all[m] == r[i];
        assert(all[m].0 < map.len());
    }
    assert forall|k: int|
        0 <= k < map.len() && !map[k].le(floor) && (k > 0 ==> !map[k].lt(map[k - 1])) && (k + 1
            < map.len() ==> !map[k].lt(map[k + 1])) implies #[trigger] r.contains(
        (k as usize, map[k]),
    ) || (r.len() == 64 && forall|i: int| 0 <= i < 64 ==> map[k].le((#[trigger] r[i]).1)) by {
        let p = (k as usize, map[k]);
        assert(all.contains(p));
        let m = choose|m: int| 0 <= m < all.len() && all[m] == p;
        if !r.contains(all[m]) {
            assert(all.len() > 64);
        }
    }
}

proof fn lemma_loud_bins_are_all(map: Seq<Single>, floor: Single, n: int)
    requires
        0 <= n <= map.len(),
        map.len() <= usize::MAX,
    ensures
        ({
            let r = loud_bins(map, floor, n);
            &&& forall|i: int|
                0 <= i < r.len() ==> (#[trigger] r[i]).0 < n && r[i].1 == map[r[i].0 as int]
                    && floor.lt(r[i].1)
            &&& forall|i: int, j: int|
                0 <= i < j < r.len() ==> (#[trigger] r[i]).0 < (#[trigger] r[j]).0
            &&& forall|k: int|
                0 <= k < n && floor.lt(#[trigger] map[k]) ==> r.contains((k as usize, map[k]))
        }),
    decreases n,
{
    if n > 0 {
        lemma_loud_bins_are_all(map, floor, n - 1);
        let had = loud_bins(map, floor, n - 1);
        let all = loud_bins(map, floor, n);
        assert forall|k: int| 0 <= k < n && floor.lt(#[trigger] map[k]) implies all.contains(
            (k as usize, map[k]),
        ) by {
            let p = (k as usize, map[k]);
            if k < n - 1 {
                assert(had.contains(p));
                let i = choose|i: int| 0 <= i < had.len() && had[i] == p;
                assert(all[i] == p);
            } else {
                assert(all == had.push(p));
                assert(all[had.len() as int] == p);
            }
        }
    }
}

/// The strongest `n` bins of a map are above the floor, at different bins and in
/// descending order; a bin above the floor that is left out is left out for want
/// of room, and is no stronger than one of them.
pub proof fn law_every_loud_bin_is_on_top(map: Seq<Single>, floor: Single, n: nat)
    requires
        map.len() <= usize::MAX,
    ensures
        ({
            let r = top(loud_bins(map, floor, map.len() as int), n);
            &&& r.len() <= n
            &&& forall|i: int|
                0 <= i < r.len() ==> (#[trigger] r[i]).0 < map.len() && r[i].1 == map[r[i].0 as int]
                    && floor.lt(r[i].1)
            &&& forall|i: int, j: int|
                0 <= i < j < r.len() ==> (#[trigger] r[j]).1.le((#[trigger] r[i]).1) && r[i].0 != r[j].0
            &&& forall|k: int|
                0 <= k < map.len() && floor.lt(#[trigger] map[k]) ==> r.contains(
                    (k as usize, map[k]),
                ) || (r.len() == n && forall|i: int|
                    0 <= i < n ==> map[k].le((#[trigger] r[i]).1))
        }),
{
    let all = loud_bins(map, floor, map.len() as int);
    let r = top(all, n);
    lemma_loud_bins_are_all(map, floor, map.len() as int);
    assert forall|i: int| 0 <= i < all.len() implies !(#[trigger] all[i]).1.is_nan() by {
        assert(floor.lt(all[i].1));
    }
    law_top_is_strongest(all, n);
    assert forall|i: int| 0 <= i < r.len() implies (#[trigger] r[i]).0 < map.len() && r[i].1
        == map[r[i].0 as int] && floor.lt(r[i].1) by {
        assert(all.contains(r[i]));
        let m = choose|m: int| 0 <= m < all.len() && all[m] == r[i];
        assert(all[m].0 < map.len());
    }
    assert forall|k: int| 0 <= k < map.len() && floor.lt(#[trigger] map[k]) implies r.contains(
        (k as usize, map[k]),
    ) || (r.len() == n && forall|i: int| 0 <= i < n ==> map[k].le((#[trigger] r[i]).1)) by {
        let p = (k as usize, map[k]);
        assert(all.contains(p));
        let m = choose|m: int| 0 <= m < all.len() && all[m] == p;
        if !r.contains(all[m]) {
            assert(all.len() > n);
        }
    }
}

/// Those that take part are active in their order, the own bus first, and
/// seventeen at most.
pub proof fn law_first_tracks_are_active(
    own: Option<Seq<Single>>,
    relays: Seq<MaskTrack>,
    mask: u32,
    floor: Single,
    j: int,
    n: int,
)
    requires
        0 <= n < relays.len(),
    ensures
        ({
            let none = active_at(own, relays, mask, floor, j, 0);
            let had = active_at(own, relays, mask, floor, j, n);
            let now = active_at(own, relays, mask, floor, j, n + 1);
            &&& takes_part(own, relays, mask, floor, j, -1) ==> none == seq![
                (level_of(own, relays, j, -1), 254u8),
            ]
            &&& !takes_part(own, relays, mask, floor, j, -1) ==> none.len() == 0
            &&& had.len() <= 17
            &&& takes_part(own, relays, mask, floor, j, n) && had.len() < 17 ==> now == had.push(
                (relays[n].levels@[j], relays[n].slot),
            )
            &&& !takes_part(own, relays, mask, floor, j, n) || had.len() == 17 ==> now == had
        }),
{
    lemma_active_count(own, relays, mask, floor, j, n);
    if takes_part(own, relays, mask, floor, j, -1) {
        assert(has_signal(own->0));
    }
    if takes_part(own, relays, mask, floor, j, n) {
        assert(is_live(relays[n], mask));
    }
}

} // verus!
