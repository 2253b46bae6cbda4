//! Resonances: narrow peaks of a spectrum that last.

use crate::masking::{persisted, PERSIST_CAP};
use crate::peaks::{
    dropped, is_descending, law_ranking, law_sorted_peaks_descend, law_strongest_are_kept,
    law_top_is_strongest, lemma_remaining_len, lemma_strongest_bins_differ, lemma_strongest_from,
    lemma_strongest_len, lemma_strongest_prefix, lemma_strongest_with_room, offer, remaining,
    sort_strongest_first, strongest, strongest_first, suppress_harmonics_in_place, take_top, top,
    MAX_RAW_PEAKS, MAX_RES_PEAKS,
};
use crate::single::Single;
use vstd::prelude::*;

verus! {

/// How far, in bins, the edges of a peak are looked for.
pub const MAX_BW_SEARCH: usize = 24;

/// What the sensitivity asks of a peak.
#[derive(Clone, Copy)]
pub struct SensitivityThresholds {
    pub contrast_min_db: Single,
    pub flatness_max: Single,
    pub floor_db: Single,
    pub score_min: Single,
    pub persistence_min: u32,
    pub masking_floor_db: Single,
    pub min_q: Single,
}

/// What is measured around a bin: how far it rises above its surroundings, how
/// noisy they are, and how sharp it is.
#[derive(Clone, Copy)]
pub struct PeakMeasure {
    pub contrast: Single,
    pub flatness: Single,
    pub q: Single,
}

/// Whether bin `k` is a peak: higher than both neighbours, not below the floor,
/// and not failing one of the three measures.
pub open spec fn is_peak(
    spectrum: Seq<Single>,
    measures: Seq<PeakMeasure>,
    t: SensitivityThresholds,
    k: int,
) -> bool {
    &&& spectrum[k - 1].lt(spectrum[k])
    &&& spectrum[k + 1].lt(spectrum[k])
    &&& !spectrum[k].lt(t.floor_db)
    &&& !measures[k].contrast.lt(t.contrast_min_db)
    &&& !t.flatness_max.lt(measures[k].flatness)
    &&& !measures[k].q.lt(t.min_q)
}

/// The peaks among the bins from 1 up to `n`, in order, with their contrast.
pub open spec fn peaks_below(
    spectrum: Seq<Single>,
    measures: Seq<PeakMeasure>,
    t: SensitivityThresholds,
    n: int,
) -> Seq<(usize, Single)>
    decreases n,
{
    if n <= 1 {
        seq![]
    } else {
        let had = peaks_below(spectrum, measures, t, n - 1);
        if is_peak(spectrum, measures, t, n - 1) {
            had.push(((n - 1) as usize, measures[n - 1].contrast))
        } else {
            had
        }
    }
}

/// The peaks of a spectrum, the strongest as many as are kept. The first and
/// the last bin are none.
pub open spec fn found_peaks(
    spectrum: Seq<Single>,
    measures: Seq<PeakMeasure>,
    t: SensitivityThresholds,
) -> Seq<(usize, Single)> {
    let all = peaks_below(spectrum, measures, t, spectrum.len() - 1);
    strongest(all, MAX_RAW_PEAKS as nat, all.len() as int)
}

/// The edges of the peak at `k`: the farthest bins to each side, within the
/// search range, up to which every bin stays above `cut`.
pub fn bandwidth_edges(spectrum: &Vec<Single>, k: usize, cut: Single) -> (r: (usize, usize))
    requires
        k < spectrum.len(),
    ensures
        r.0 <= k <= r.1,
        r.1 < spectrum.len(),
        k - r.0 <= 24,
        r.1 - k <= 24,
        forall|i: int| r.0 <= i < k ==> cut.lt(#[trigger] spectrum@[i]),
        forall|i: int| k < i <= r.1 ==> cut.lt(#[trigger] spectrum@[i]),
        k - r.0 == 24 || r.0 == 0 || !cut.lt(spectrum@[r.0 - 1]),
        r.1 - k == 24 || r.1 == spectrum.len() - 1 || !cut.lt(spectrum@[r.1 + 1]),
{
    let mut lo: usize = k;
    while lo > 0 && k - lo < MAX_BW_SEARCH && spectrum[lo - 1].above(cut)
        invariant
            lo <= k < spectrum.len(),
            k - lo <= MAX_BW_SEARCH,
            forall|i: int| lo <= i < k ==> cut.lt(#[trigger] spectrum@[i]),
        decreases lo,
    {
        lo -= 1;
    }
    let mut hi: usize = k;
    while hi < spectrum.len() - 1 && hi - k < MAX_BW_SEARCH && spectrum[hi + 1].above(cut)
        invariant
            k <= hi < spectrum.len(),
            hi - k <= MAX_BW_SEARCH,
            forall|i: int| k < i <= hi ==> cut.lt(#[trigger] spectrum@[i]),
        decreases spectrum.len() - hi,
    {
        hi += 1;
    }
    (lo, hi)
}

/// Whether one of the peaks stands at bin `k`.
pub open spec fn marks(peaks: Seq<(usize, Single)>, k: int) -> bool {
    exists|i: int| 0 <= i < peaks.len() && (#[trigger] peaks[i]).0 == k
}

/// The prominences after the first `n` peaks have been noted.
pub open spec fn noted(before: Seq<Single>, peaks: Seq<(usize, Single)>, n: int) -> Seq<Single>
    decreases n,
{
    if n <= 0 {
        before
    } else {
        let had = noted(before, peaks, n - 1);
        if peaks[n - 1].0 < before.len() {
            had.update(peaks[n - 1].0 as int, peaks[n - 1].1)
        } else {
            had
        }
    }
}

/// The bins from 1 up to `n` whose score and persistence pass the thresholds,
/// in order, with their scores.
pub open spec fn lasting(
    scores: Seq<Single>,
    persistence: Seq<u32>,
    t: SensitivityThresholds,
    n: int,
) -> Seq<(usize, Single)>
    decreases n,
{
    if n <= 1 {
        seq![]
    } else {
        let had = lasting(scores, persistence, t, n - 1);
        if t.score_min.lt(scores[n - 1]) && persistence[n - 1] > t.persistence_min {
            had.push(((n - 1) as usize, scores[n - 1]))
        } else {
            had
        }
    }
}

/// The resonances, strongest first, of which the strongest as many as are kept.
pub open spec fn ranked(scores: Seq<Single>, persistence: Seq<u32>, t: SensitivityThresholds) -> Seq<
    (usize, Single),
> {
    let all = lasting(scores, persistence, t, scores.len() - 1);
    let kept = strongest(all, MAX_RAW_PEAKS as nat, all.len() as int);
    strongest_first(kept, kept.len() as int)
}

/// The resonances that are reported.
pub open spec fn resonances(scores: Seq<Single>, persistence: Seq<u32>, t: SensitivityThresholds) -> Seq<
    (usize, Single),
> {
    let all = ranked(scores, persistence, t);
    if all.len() < MAX_RES_PEAKS {
        all
    } else {
        all.take(MAX_RES_PEAKS as int)
    }
}

/// Follows the peaks of a spectrum from frame to frame.
pub struct PeakTracker {
    /// For how many frames a bin has been a peak.
    pub persistence: Vec<u32>,
    /// How far a bin rose when it was a peak last.
    pub last_prominence: Vec<Single>,
    /// The score of each bin.
    pub resonance_score: Vec<Single>,
    /// The peaks of the frame.
    pub peaks: Vec<(usize, Single)>,
    /// The resonances that were reported last.
    pub res: Vec<(usize, Single)>,
}

proof fn lemma_noted_len(before: Seq<Single>, peaks: Seq<(usize, Single)>, n: int)
    ensures
        noted(before, peaks, n).len() == before.len(),
    decreases n,
{
    if n > 0 {
        lemma_noted_len(before, peaks, n - 1);
    }
}

/// Notes peaks: their prominence, and how long each bin has been a peak.
fn note(persistence: &mut Vec<u32>, last_prominence: &mut Vec<Single>, list: &Vec<(usize, Single)>)
    requires
        old(last_prominence).len() == old(persistence).len(),
        forall|j: int|
            0 <= j < old(persistence).len() ==> #[trigger] old(persistence)@[j] <= PERSIST_CAP,
    ensures
        final(last_prominence).len() == old(last_prominence).len(),
        final(persistence).len() == old(persistence).len(),
        forall|j: int|
            0 <= j < final(persistence).len() ==> #[trigger] final(persistence)@[j] <= PERSIST_CAP,
        final(last_prominence)@ == noted(old(last_prominence)@, list@, list.len() as int),
        forall|k: int|
            0 <= k < old(persistence).len() ==> #[trigger] final(persistence)@[k] == persisted(
                old(persistence)@[k],
                marks(list@, k),
            ),
{
    let bins: usize = persistence.len();
    let ghost peaks = list@;
    let ghost before = persistence@;
    let ghost prominence = last_prominence@;
    let mut flag: Vec<bool> = Vec::new();
    let mut i: usize = 0;
    while i < bins
        invariant
            i <= bins,
            flag.len() == i,
            forall|k: int| 0 <= k < i ==> flag@[k] == false,
        decreases bins - i,
    {
        flag.push(false);
        i += 1;
    }
    let mut i: usize = 0;
    while i < list.len()
        invariant
            i <= list.len(),
            list@ == peaks,
            persistence@ == before,
            last_prominence.len() == persistence.len(),
            forall|j: int| 0 <= j < persistence.len() ==> #[trigger] persistence@[j] <= PERSIST_CAP,
            bins == persistence.len(),
            flag.len() == bins,
            prominence.len() == bins,
            last_prominence@ == noted(prominence, peaks, i as int),
            forall|k: int|
                0 <= k < bins ==> #[trigger] flag@[k] == marks(peaks.take(i as int), k),
        decreases list.len() - i,
    {
        let (k, prom) = list[i];
        proof {
            lemma_noted_len(prominence, peaks, i as int);
            let had = peaks.take(i as int);
            let new = peaks.take(i + 1);
            assert(new == had.push(peaks[i as int]));
            assert forall|j: int| 0 <= j < bins implies #[trigger] marks(new, j) == (marks(had, j)
                || j == k) by {
                if marks(had, j) {
                    let m = choose|m: int| 0 <= m < had.len() && (#[trigger] had[m]).0 == j;
                    assert(new[m].0 == j);
                }
                if marks(new, j) {
                    let m = choose|m: int| 0 <= m < new.len() && (#[trigger] new[m]).0 == j;
                    if m < had.len() {
                        assert(had[m].0 == j);
                    }
                }
                if j == k {
                    assert(new[i as int].0 == j);
                }
            }
        }
        let ghost was = flag@;
        if k < bins {
            flag.set(k, true);
            last_prominence.set(k, prom);
        }
        proof {
            assert forall|j: int| 0 <= j < bins implies #[trigger] flag@[j] == marks(
                peaks.take(i + 1),
                j,
            ) by {
                assert(was[j] == marks(peaks.take(i as int), j));
            }
        }
        i += 1;
    }
    assert(peaks.take(i as int) == peaks);
    let mut k: usize = 0;
    while k < bins
        invariant
            k <= bins,
            last_prominence@ == noted(prominence, peaks, peaks.len() as int),
            last_prominence.len() == persistence.len(),
            forall|j: int| 0 <= j < persistence.len() ==> #[trigger] persistence@[j] <= PERSIST_CAP,
            before == old(persistence)@,
            prominence == old(last_prominence)@,
            peaks == list@,
            bins == persistence.len(),
            flag.len() == bins,
            forall|j: int| 0 <= j < bins ==> #[trigger] flag@[j] == marks(peaks, j),
            forall|j: int| k <= j < bins ==> #[trigger] persistence@[j] == before[j],
            forall|j: int|
                0 <= j < k ==> #[trigger] persistence@[j] == persisted(
                    before[j],
                    marks(peaks, j),
                ),
        decreases bins - k,
    {
        let was: u32 = persistence[k];
        let marked: bool = flag[k];
        assert(marked == marks(peaks, k as int));
        assert(was == before[k as int]);
        let now: u32 = if marked {
            if was >= PERSIST_CAP {
                PERSIST_CAP
            } else {
                was + 1
            }
        } else if was == 0 {
            0
        } else {
            was - 1
        };
        persistence.set(k, now);
        k += 1;
    }
}

impl PeakTracker {
    /// All maps have one entry per bin, and no persistence passes the cap.
    pub open spec fn wf(self) -> bool {
        &&& self.last_prominence.len() == self.persistence.len()
        &&& self.resonance_score.len() == self.persistence.len()
        &&& forall|j: int| 0 <= j < self.persistence.len()
            ==> #[trigger] self.persistence@[j] <= PERSIST_CAP
        &&& self.peaks.len() <= MAX_RAW_PEAKS
        &&& self.res.len() <= MAX_RES_PEAKS
    }

    /// A tracker that has seen nothing.
    pub fn new(bins: usize) -> (r: PeakTracker)
        ensures
            r.wf(),
            r.persistence.len() == bins,
            forall|j: int| 0 <= j < bins ==> #[trigger] r.persistence@[j] == 0,
            forall|j: int| 0 <= j < bins ==> (#[trigger] r.last_prominence@[j]).bits == 0,
            forall|j: int| 0 <= j < bins ==> (#[trigger] r.resonance_score@[j]).bits == 0,
            r.peaks.len() == 0,
            r.res.len() == 0,
    {
        let zero = Single { bits: 0 };
        let mut persistence: Vec<u32> = Vec::new();
        let mut last_prominence: Vec<Single> = Vec::new();
        let mut resonance_score: Vec<Single> = Vec::new();
        let mut i: usize = 0;
        while i < bins
            invariant
                i <= bins,
                zero.bits == 0,
                persistence.len() == i,
                last_prominence.len() == i,
                resonance_score.len() == i,
                forall|j: int| 0 <= j < i ==> #[trigger] persistence@[j] == 0,
                forall|j: int| 0 <= j < i ==> (#[trigger] last_prominence@[j]).bits == 0,
                forall|j: int| 0 <= j < i ==> (#[trigger] resonance_score@[j]).bits == 0,
            decreases bins - i,
        {
            persistence.push(0);
            last_prominence.push(zero);
            resonance_score.push(zero);
            i += 1;
        }
        PeakTracker {
            persistence,
            last_prominence,
            resonance_score,
            peaks: Vec::new(),
            res: Vec::new(),
        }
    }

    /// Finds the peaks of a spectrum.
    pub fn find_peaks_into(
        &mut self,
        spectrum: &Vec<Single>,
        measures: &Vec<PeakMeasure>,
        t: &SensitivityThresholds,
    )
        requires
            old(self).wf(),
            measures.len() == spectrum.len(),
        ensures
            final(self).wf(),
            final(self).peaks@ == found_peaks(spectrum@, measures@, *t),
            final(self).peaks.len() <= 64,
            forall|i: int|
                0 <= i < final(self).peaks@.len() ==> {
                    let k = (#[trigger] final(self).peaks@[i]).0 as int;
                    &&& 0 < k < spectrum@.len() - 1
                    &&& spectrum@[k - 1].lt(spectrum@[k])
                    &&& spectrum@[k + 1].lt(spectrum@[k])
                    &&& !spectrum@[k].lt(t.floor_db)
                    &&& !measures@[k].contrast.lt(t.contrast_min_db)
                    &&& !t.flatness_max.lt(measures@[k].flatness)
                    &&& !measures@[k].q.lt(t.min_q)
                    &&& final(self).peaks@[i].1 == measures@[k].contrast
                },
            forall|i: int, j: int|
                0 <= i < j < final(self).peaks@.len() ==> (#[trigger] final(self).peaks@[i]).0 != (
                #[trigger] final(self).peaks@[j]).0 && (final(self).peaks@.len() < 64
                    ==> final(self).peaks@[i].0 < final(self).peaks@[j].0),
            final(self).peaks@.len() < 64 ==> forall|k: int|
                0 < k < spectrum@.len() - 1 && spectrum@[k - 1].lt(spectrum@[k]) && spectrum@[k + 1].lt(
                    spectrum@[k],
                ) && !spectrum@[k].lt(t.floor_db) && !(#[trigger] measures@[k]).contrast.lt(
                    t.contrast_min_db,
                ) && !t.flatness_max.lt(measures@[k].flatness) && !measures@[k].q.lt(t.min_q)
                    ==> final(self).peaks@.contains((k as usize, measures@[k].contrast)),
            (forall|k: int| 0 <= k < measures@.len() ==> !(#[trigger] measures@[k]).contrast.is_nan())
                ==> forall|k: int, i: int|
                0 < k < spectrum@.len() - 1 && spectrum@[k - 1].lt(spectrum@[k]) && spectrum@[k + 1].lt(
                    spectrum@[k],
                ) && !spectrum@[k].lt(t.floor_db) && !(#[trigger] measures@[k]).contrast.lt(
                    t.contrast_min_db,
                ) && !t.flatness_max.lt(measures@[k].flatness) && !measures@[k].q.lt(t.min_q)
                    && 0 <= i < final(self).peaks@.len()
                    && !final(self).peaks@.contains((k as usize, measures@[k].contrast))
                    ==> measures@[k].contrast.le((#[trigger] final(self).peaks@[i]).1),
            final(self).persistence == old(self).persistence,
            final(self).last_prominence == old(self).last_prominence,
            final(self).resonance_score == old(self).resonance_score,
            final(self).res == old(self).res,
    {
        let mut peaks: Vec<(usize, Single)> = Vec::new();
        let n: usize = spectrum.len();
        let mut k: usize = 1;
        while n >= 2 && k < n - 1
            invariant
                n == spectrum.len(),
                measures.len() == spectrum.len(),
                1 <= k,
                n >= 2 ==> k <= n - 1,
                n < 2 ==> k == 1,
                peaks.len() <= MAX_RAW_PEAKS,
                ({
                    let all = peaks_below(spectrum@, measures@, *t, k as int);
                    peaks@ == strongest(all, MAX_RAW_PEAKS as nat, all.len() as int)
                }),
            decreases n - k,
        {
            let center = spectrum[k];
            let m = measures[k];
            if center.above(spectrum[k - 1]) && center.above(spectrum[k + 1]) && !center.below(
                t.floor_db,
            ) && !m.contrast.below(t.contrast_min_db) && !m.flatness.above(t.flatness_max)
                && !m.q.below(t.min_q) {
                proof {
                    let had = peaks_below(spectrum@, measures@, *t, k as int);
                    let new = peaks_below(spectrum@, measures@, *t, k + 1);
                    assert(new == had.push((k, m.contrast)));
                    lemma_strongest_prefix(new, had, MAX_RAW_PEAKS as nat, had.len() as int);
                }
                offer(&mut peaks, MAX_RAW_PEAKS, (k, m.contrast));
            }
            k += 1;
        }
        proof {
            if n < 2 {
                assert(peaks_below(spectrum@, measures@, *t, n - 1) == peaks_below(
                    spectrum@,
                    measures@,
                    *t,
                    1,
                ));
            }
        }
        self.peaks = peaks;
        proof {
            law_found_peaks_stand_out(spectrum@, measures@, *t);
        }
    }

    /// Notes the peaks of the frame: their prominence, and how long each bin has
    /// been a peak.
    pub fn update_from_scratch(&mut self)
        requires
            old(self).wf(),
        ensures
            final(self).wf(),
            final(self).persistence.len() == old(self).persistence.len(),
            final(self).last_prominence@ == noted(
                old(self).last_prominence@,
                old(self).peaks@,
                old(self).peaks.len() as int,
            ),
            forall|k: int|
                0 <= k < old(self).persistence.len() ==> #[trigger] final(self).persistence@[k]
                    == persisted(old(self).persistence@[k], marks(old(self).peaks@, k)),
            forall|k: int|
                0 <= k < old(self).persistence@.len()
                    ==> #[trigger] final(self).persistence@[k] == if exists|i: int|
                    0 <= i < old(self).peaks@.len() && (#[trigger] old(self).peaks@[i]).0 == k {
                    if old(self).persistence@[k] == 40 {
                        40
                    } else {
                        old(self).persistence@[k] + 1
                    }
                } else {
                    if old(self).persistence@[k] == 0 {
                        0
                    } else {
                        old(self).persistence@[k] - 1
                    }
                },
            forall|i: int|
                0 <= i < old(self).peaks@.len()
                    && (#[trigger] old(self).peaks@[i]).0 < old(self).last_prominence@.len()
                    && (forall|j: int|
                    i < j < old(self).peaks@.len()
                        ==> (#[trigger] old(self).peaks@[j]).0 != old(self).peaks@[i].0)
                    ==> final(self).last_prominence@[old(self).peaks@[i].0 as int] == old(self).peaks@[i].1,
            forall|k: int|
                0 <= k < old(self).last_prominence@.len() && !(exists|i: int|
                    0 <= i < old(self).peaks@.len() && (#[trigger] old(self).peaks@[i]).0 == k)
                        ==> #[trigger] final(self).last_prominence@[k]
                    == old(self).last_prominence@[k],
            final(self).resonance_score == old(self).resonance_score,
            final(self).peaks == old(self).peaks,
            final(self).res == old(self).res,
    {
        note(&mut self.persistence, &mut self.last_prominence, &self.peaks);
        proof {
            lemma_noted(old(self).last_prominence@, old(self).peaks@, old(self).peaks.len() as int);
        }
    }

    /// Notes peaks: their prominence, and how long each bin has been a peak.
    pub fn update(&mut self, peaks: &Vec<(usize, Single)>)
        requires
            old(self).wf(),
            forall|i: int|
                0 <= i < peaks.len() ==> (#[trigger] peaks@[i]).0 < old(self).persistence.len(),
        ensures
            final(self).wf(),
            final(self).persistence.len() == old(self).persistence.len(),
            final(self).last_prominence@ == noted(
                old(self).last_prominence@,
                peaks@,
                peaks.len() as int,
            ),
            forall|k: int|
                0 <= k < old(self).persistence.len() ==> #[trigger] final(self).persistence@[k]
                    == persisted(old(self).persistence@[k], marks(peaks@, k)),
            forall|k: int|
                0 <= k < old(self).persistence@.len()
                    ==> #[trigger] final(self).persistence@[k] == if exists|i: int|
                    0 <= i < peaks@.len() && (#[trigger] peaks@[i]).0 == k {
                    if old(self).persistence@[k] == 40 {
                        40
                    } else {
                        old(self).persistence@[k] + 1
                    }
                } else {
                    if old(self).persistence@[k] == 0 {
                        0
                    } else {
                        old(self).persistence@[k] - 1
                    }
                },
            forall|i: int|
                0 <= i < peaks@.len() && (#[trigger] peaks@[i]).0 < old(self).last_prominence@.len()
                    && (forall|j: int|
                    i < j < peaks@.len() ==> (#[trigger] peaks@[j]).0 != peaks@[i].0)
                    ==> final(self).last_prominence@[peaks@[i].0 as int] == peaks@[i].1,
            forall|k: int|
                0 <= k < old(self).last_prominence@.len() && !(exists|i: int|
                    0 <= i < peaks@.len() && (#[trigger] peaks@[i]).0 == k)
                        ==> #[trigger] final(self).last_prominence@[k]
                    == old(self).last_prominence@[k],
            final(self).resonance_score == old(self).resonance_score,
            final(self).peaks == old(self).peaks,
            final(self).res == old(self).res,
    {
        note(&mut self.persistence, &mut self.last_prominence, peaks);
        proof {
            lemma_noted(old(self).last_prominence@, peaks@, peaks.len() as int);
        }
    }

    /// The peaks of a spectrum, all of them, from the lowest bin up.
    pub fn find_peaks(
        &self,
        spectrum: &Vec<Single>,
        measures: &Vec<PeakMeasure>,
        t: &SensitivityThresholds,
    ) -> (r: Vec<(usize, Single)>)
        requires
            measures.len() == spectrum.len(),
        ensures
            r@ == peaks_below(spectrum@, measures@, *t, spectrum.len() - 1),
            forall|i: int|
                0 <= i < r@.len() ==> {
                    let k = (#[trigger] r@[i]).0 as int;
                    &&& 0 < k < spectrum@.len() - 1
                    &&& spectrum@[k - 1].lt(spectrum@[k])
                    &&& spectrum@[k + 1].lt(spectrum@[k])
                    &&& !spectrum@[k].lt(t.floor_db)
                    &&& !measures@[k].contrast.lt(t.contrast_min_db)
                    &&& !t.flatness_max.lt(measures@[k].flatness)
                    &&& !measures@[k].q.lt(t.min_q)
                    &&& r@[i].1 == measures@[k].contrast
                },
            forall|i: int, j: int|
                0 <= i < j < r@.len() ==> (#[trigger] r@[i]).0 < (#[trigger] r@[j]).0,
            forall|k: int|
                0 < k < spectrum@.len() - 1 && spectrum@[k - 1].lt(spectrum@[k]) && spectrum@[k + 1].lt(
                    spectrum@[k],
                ) && !spectrum@[k].lt(t.floor_db) && !(#[trigger] measures@[k]).contrast.lt(
                    t.contrast_min_db,
                ) && !t.flatness_max.lt(measures@[k].flatness) && !measures@[k].q.lt(t.min_q)
                    ==> r@.contains((k as usize, measures@[k].contrast)),
    {
        let mut peaks: Vec<(usize, Single)> = Vec::new();
        let n: usize = spectrum.len();
        if n < 2 {
            return peaks;
        }
        let mut k: usize = 1;
        while k < n - 1
            invariant
                n == spectrum.len(),
                measures.len() == spectrum.len(),
                1 <= k <= n - 1,
                peaks@ == peaks_below(spectrum@, measures@, *t, k as int),
            decreases n - k,
        {
            let center = spectrum[k];
            let m = measures[k];
            if center.above(spectrum[k - 1]) && center.above(spectrum[k + 1]) && !center.below(
                t.floor_db,
            ) && !m.contrast.below(t.contrast_min_db) && !m.flatness.above(t.flatness_max)
                && !m.q.below(t.min_q) {
                peaks.push((k, m.contrast));
            }
            k += 1;
        }
        proof {
            lemma_peaks_below(spectrum@, measures@, *t, n - 1);
        }
        peaks
    }

    /// The bins whose score and persistence pass the thresholds, strongest
    /// first, as many as are reported.
    pub fn resonance_peaks(&self, t: &SensitivityThresholds) -> (r: Vec<(usize, Single)>)
        requires
            self.wf(),
        ensures
            r@ == top(
                lasting(
                    self.resonance_score@,
                    self.persistence@,
                    *t,
                    self.resonance_score.len() - 1,
                ),
                MAX_RES_PEAKS as nat,
            ),
            r@.len() <= 16,
            forall|i: int|
                0 <= i < r@.len() ==> {
                    let k = (#[trigger] r@[i]).0 as int;
                    &&& 0 < k < self.resonance_score@.len() - 1
                    &&& r@[i].1 == self.resonance_score@[k]
                    &&& t.score_min.lt(self.resonance_score@[k])
                    &&& self.persistence@[k] > t.persistence_min
                },
            forall|i: int, j: int|
                0 <= i < j < r@.len() ==> (#[trigger] r@[j]).1.le((#[trigger] r@[i]).1) && r@[i].0
                    != r@[j].0,
            forall|k: int|
                0 < k < self.resonance_score@.len() - 1
                    && t.score_min.lt(#[trigger] self.resonance_score@[k]) && self.persistence@[k]
                    > t.persistence_min ==> r@.contains((k as usize, self.resonance_score@[k]))
                        || (r@.len() == 16
                    && forall|i: int| 0 <= i < 16
                        ==> self.resonance_score@[k].le((#[trigger] r@[i]).1)),
    {
        let n: usize = self.resonance_score.len();
        let mut peaks: Vec<(usize, Single)> = Vec::new();
        let mut k: usize = 1;
        while n >= 2 && k < n - 1
            invariant
                n == self.resonance_score.len(),
                self.persistence.len() == n,
                1 <= k,
                n >= 2 ==> k <= n - 1,
                n < 2 ==> k == 1,
                peaks@ == lasting(self.resonance_score@, self.persistence@, *t, k as int),
            decreases n - k,
        {
            let score = self.resonance_score[k];
            if score.above(t.score_min) && self.persistence[k] > t.persistence_min {
                peaks.push((k, score));
            }
            k += 1;
        }
        proof {
            if n < 2 {
                assert(lasting(self.resonance_score@, self.persistence@, *t, n - 1) == lasting(
                    self.resonance_score@,
                    self.persistence@,
                    *t,
                    1,
                ));
            }
            lemma_every_lasting_bin_is_on_top(self.resonance_score@, self.persistence@, *t);
        }
        take_top(&peaks, MAX_RES_PEAKS)
    }

    /// Takes a frame: finds the peaks of the spectrum, drops the overtones among
    /// them, and notes the rest.
    pub fn observe(
        &mut self,
        spectrum: &Vec<Single>,
        raised: &Vec<Single>,
        measures: &Vec<PeakMeasure>,
        t: &SensitivityThresholds,
    )
        requires
            old(self).wf(),
            measures.len() == spectrum.len(),
            raised.len() == spectrum.len(),
        ensures
            final(self).wf(),
            final(self).persistence.len() == old(self).persistence.len(),
            ({
                let found = found_peaks(spectrum@, measures@, *t);
                let gone = dropped(spectrum@, raised@, found, found.len() as int);
                let peaks = remaining(found, gone, found.len() as int);
                &&& final(self).peaks@ == peaks
                &&& final(self).last_prominence@ == noted(
                    old(self).last_prominence@,
                    peaks,
                    peaks.len() as int,
                )
                &&& forall|k: int|
                    0 <= k < old(self).persistence.len() ==> #[trigger] final(self).persistence@[k]
                        == persisted(old(self).persistence@[k], marks(peaks, k))
            }),
            forall|k: int|
                0 <= k < old(self).persistence@.len()
                    ==> #[trigger] final(self).persistence@[k] == if exists|i: int|
                    0 <= i < final(self).peaks@.len() && (#[trigger] final(self).peaks@[i]).0 == k {
                    if old(self).persistence@[k] == 40 {
                        40
                    } else {
                        old(self).persistence@[k] + 1
                    }
                } else {
                    if old(self).persistence@[k] == 0 {
                        0
                    } else {
                        old(self).persistence@[k] - 1
                    }
                },
            forall|i: int|
                0 <= i < final(self).peaks@.len()
                    && (#[trigger] final(self).peaks@[i]).0 < old(self).last_prominence@.len()
                    && (forall|j: int|
                    i < j < final(self).peaks@.len()
                        ==> (#[trigger] final(self).peaks@[j]).0 != final(self).peaks@[i].0)
                    ==> final(self).last_prominence@[final(self).peaks@[i].0 as int] == final(self).peaks@[i].1,
            forall|k: int|
                0 <= k < old(self).last_prominence@.len() && !(exists|i: int|
                    0 <= i < final(self).peaks@.len() && (#[trigger] final(self).peaks@[i]).0 == k)
                        ==> #[trigger] final(self).last_prominence@[k]
                    == old(self).last_prominence@[k],
            final(self).resonance_score == old(self).resonance_score,
            final(self).res == old(self).res,
    {
        self.find_peaks_into(spectrum, measures, t);
        let ghost found = self.peaks@;
        suppress_harmonics_in_place(spectrum, raised, &mut self.peaks);
        proof {
            lemma_remaining_len(
                found,
                dropped(spectrum@, raised@, found, found.len() as int),
                found.len() as int,
            );
        }
        self.update_from_scratch();
    }

    /// Takes the scores of the frame and reports the resonances.
    pub fn fill_resonance(&mut self, scores: Vec<Single>, t: &SensitivityThresholds)
        requires
            old(self).wf(),
            scores.len() == old(self).persistence.len(),
        ensures
            final(self).wf(),
            final(self).resonance_score == scores,
            final(self).persistence == old(self).persistence,
            final(self).last_prominence == old(self).last_prominence,
            final(self).peaks@ == ranked(scores@, old(self).persistence@, *t),
            final(self).res@ == resonances(scores@, old(self).persistence@, *t),
            final(self).res@.len() <= 16,
            forall|i: int|
                0 <= i < final(self).res@.len() ==> {
                    let k = (#[trigger] final(self).res@[i]).0 as int;
                    &&& 0 < k < scores@.len() - 1
                    &&& final(self).res@[i].1 == scores@[k]
                    &&& t.score_min.lt(scores@[k])
                    &&& old(self).persistence@[k] > t.persistence_min
                },
            forall|i: int, j: int|
                0 <= i < j < final(self).res@.len()
                    ==> (#[trigger] final(self).res@[j]).1.le((#[trigger] final(self).res@[i]).1)
                    && final(self).res@[i].0
                    != final(self).res@[j].0,
            forall|k: int|
                0 < k < scores@.len() - 1 && t.score_min.lt(#[trigger] scores@[k])
                    && old(self).persistence@[k]
                    > t.persistence_min ==> final(self).res@.contains((k as usize, scores@[k]))
                        || (final(self).res@.len() == 16
                    && forall|i: int| 0 <= i < 16
                        ==> scores@[k].le((#[trigger] final(self).res@[i]).1)),
    {
        let n: usize = scores.len();
        let mut peaks: Vec<(usize, Single)> = Vec::new();
        let mut k: usize = 1;
        while n >= 2 && k < n - 1
            invariant
                n == scores.len(),
                self.persistence.len() == n,
                1 <= k,
                n >= 2 ==> k <= n - 1,
                n < 2 ==> k == 1,
                peaks.len() <= MAX_RAW_PEAKS,
                ({
                    let all = lasting(scores@, self.persistence@, *t, k as int);
                    peaks@ == strongest(all, MAX_RAW_PEAKS as nat, all.len() as int)
                }),
            decreases n - k,
        {
            let score = scores[k];
            if score.above(t.score_min) && self.persistence[k] > t.persistence_min {
                proof {
                    let had = lasting(scores@, self.persistence@, *t, k as int);
                    let new = lasting(scores@, self.persistence@, *t, k + 1);
                    assert(new == had.push((k, score)));
                    lemma_strongest_prefix(new, had, MAX_RAW_PEAKS as nat, had.len() as int);
                }
                offer(&mut peaks, MAX_RAW_PEAKS, (k, score));
            }
            k += 1;
        }
        proof {
            if n < 2 {
                assert(lasting(scores@, self.persistence@, *t, n - 1) == lasting(
                    scores@,
                    self.persistence@,
                    *t,
                    1,
                ));
            }
        }
        let sorted = sort_strongest_first(&peaks);
        let mut res: Vec<(usize, Single)> = Vec::new();
        let mut i: usize = 0;
        while i < sorted.len() && i < MAX_RES_PEAKS
            invariant
                i <= sorted.len(),
                i <= MAX_RES_PEAKS,
                res@ == sorted@.take(i as int),
            decreases sorted.len() - i,
        {
            res.push(sorted[i]);
            i += 1;
            assert(sorted@.take(i as int) == sorted@.take(i - 1).push(sorted@[i - 1]));
        }
        if sorted.len() < MAX_RES_PEAKS {
            assert(sorted@.take(i as int) == sorted@);
        }
        proof {
            law_every_lasting_bin_is_reported(scores@, self.persistence@, *t);
        }
        self.resonance_score = scores;
        self.peaks = sorted;
        self.res = res;
    }

    /// The resonances that were reported last.
    pub fn res_peaks(&self) -> (r: &Vec<(usize, Single)>)
        ensures
            *r == self.res,
    {
        &self.res
    }
}

proof fn lemma_lasting(
    scores: Seq<Single>,
    persistence: Seq<u32>,
    t: SensitivityThresholds,
    n: int,
    i: int,
)
    requires
        n <= scores.len(),
        scores.len() <= usize::MAX,
        0 <= i < lasting(scores, persistence, t, n).len(),
    ensures
        ({
            let p = lasting(scores, persistence, t, n)[i];
            &&& 1 <= p.0 < n
            &&& p.1 == scores[p.0 as int]
            &&& t.score_min.lt(p.1)
            &&& persistence[p.0 as int] > t.persistence_min
        }),
    decreases n,
{
    if n > 1 && i < lasting(scores, persistence, t, n - 1).len() {
        lemma_lasting(scores, persistence, t, n - 1, i);
    }
}

/// At most sixteen resonances are reported, strongest first, and each of them
/// scores above the threshold and has lasted longer than it must.
pub proof fn law_resonances_last(
    scores: Seq<Single>,
    persistence: Seq<u32>,
    t: SensitivityThresholds,
    i: int,
)
    requires
        scores.len() <= usize::MAX,
        0 <= i < resonances(scores, persistence, t).len(),
    ensures
        resonances(scores, persistence, t).len() <= MAX_RES_PEAKS,
        is_descending(resonances(scores, persistence, t)),
        ({
            let p = resonances(scores, persistence, t)[i];
            &&& 1 <= p.0 < scores.len() - 1
            &&& p.1 == scores[p.0 as int]
            &&& t.score_min.lt(p.1)
            &&& persistence[p.0 as int] > t.persistence_min
        }),
{
    broadcast use vstd::seq_lib::group_to_multiset_ensures;

    let all = lasting(scores, persistence, t, scores.len() - 1);
    assert forall|k: int| 0 <= k < all.len() implies !(#[trigger] all[k]).1.is_nan() by {
        lemma_lasting(scores, persistence, t, scores.len() - 1, k);
    }
    let kept = strongest(all, MAX_RAW_PEAKS as nat, all.len() as int);
    law_strongest_are_kept(all, MAX_RAW_PEAKS as nat, all.len() as int);
    law_sorted_peaks_descend(kept, kept.len() as int);
    assert(kept.take(kept.len() as int) == kept);
    let r = ranked(scores, persistence, t);
    assert(resonances(scores, persistence, t)[i] == r[i]);
    assert(r.to_multiset().contains(r[i]));
    assert(kept.contains(r[i]));
    let k = choose|k: int| 0 <= k < kept.len() && kept[k] == r[i];
    assert(all.take(all.len() as int).contains(kept[k]));
    assert(all.take(all.len() as int) == all);
    let m = choose|m: int| 0 <= m < all.len() && all[m] == kept[k];
    lemma_lasting(scores, persistence, t, scores.len() - 1, m);
}

proof fn lemma_peaks_below(
    spectrum: Seq<Single>,
    measures: Seq<PeakMeasure>,
    t: SensitivityThresholds,
    n: int,
)
    requires
        n <= spectrum.len() - 1,
        spectrum.len() <= usize::MAX,
        measures.len() == spectrum.len(),
    ensures
        forall|i: int|
            0 <= i < peaks_below(spectrum, measures, t, n).len() ==> {
                let k = (#[trigger] peaks_below(spectrum, measures, t, n)[i]).0 as int;
                &&& 0 < k < n
                &&& spectrum[k - 1].lt(spectrum[k])
                &&& spectrum[k + 1].lt(spectrum[k])
                &&& !spectrum[k].lt(t.floor_db)
                &&& !measures[k].contrast.lt(t.contrast_min_db)
                &&& !t.flatness_max.lt(measures[k].flatness)
                &&& !measures[k].q.lt(t.min_q)
                &&& peaks_below(spectrum, measures, t, n)[i].1 == measures[k].contrast
            },
        forall|i: int, j: int|
            0 <= i < j < peaks_below(spectrum, measures, t, n).len() ==> (#[trigger] peaks_below(
                spectrum,
                measures,
                t,
                n,
            )[i]).0 < (#[trigger] peaks_below(spectrum, measures, t, n)[j]).0,
        forall|k: int|
            0 < k < n && spectrum[k - 1].lt(spectrum[k]) && spectrum[k + 1].lt(spectrum[k])
                && !spectrum[k].lt(t.floor_db) && !(#[trigger] measures[k]).contrast.lt(
                t.contrast_min_db,
            ) && !t.flatness_max.lt(measures[k].flatness) && !measures[k].q.lt(t.min_q)
                ==> peaks_below(spectrum, measures, t, n).contains(
                (k as usize, measures[k].contrast),
            ),
    decreases n,
{
    if n > 1 {
        lemma_peaks_below(spectrum, measures, t, n - 1);
        let had = peaks_below(spectrum, measures, t, n - 1);
        let all = peaks_below(spectrum, measures, t, n);
        assert forall|k: int|
            0 < k < n && spectrum[k - 1].lt(spectrum[k]) && spectrum[k + 1].lt(spectrum[k])
                && !spectrum[k].lt(t.floor_db) && !(#[trigger] measures[k]).contrast.lt(
                t.contrast_min_db,
            ) && !t.flatness_max.lt(measures[k].flatness)
                && !measures[k].q.lt(t.min_q) implies all.contains(
            (k as usize, measures[k].contrast),
        ) by {
            let p = (k as usize, measures[k].contrast);
            if k < n - 1 {
                assert(had.contains(p));
                let i = choose|i: int| 0 <= i < had.len() && had[i] == p;
                assert(all[i] == p);
            } else {
                assert(all == had.push(p));
                assert(all[had.len() as int] == p);
            }
        }
    }
}

/// Every peak that is found is higher than both of its neighbours and passes
/// the four thresholds, and no bin is found twice. While there is room every
/// inner bin that does so is found; without room none that is left out stands
/// out more than one that is found.
#[verifier::rlimit(40)]
pub proof fn law_found_peaks_stand_out(
    spectrum: Seq<Single>,
    measures: Seq<PeakMeasure>,
    t: SensitivityThresholds,
)
    requires
        spectrum.len() <= usize::MAX,
        measures.len() == spectrum.len(),
    ensures
        ({
            let r = found_peaks(spectrum, measures, t);
            &&& r.len() <= 64
            &&& forall|i: int|
                0 <= i < r.len() ==> {
                    let k = (#[trigger] r[i]).0 as int;
                    &&& 0 < k < spectrum.len() - 1
                    &&& spectrum[k - 1].lt(spectrum[k])
                    &&& spectrum[k + 1].lt(spectrum[k])
                    &&& !spectrum[k].lt(t.floor_db)
                    &&& !measures[k].contrast.lt(t.contrast_min_db)
                    &&& !t.flatness_max.lt(measures[k].flatness)
                    &&& !measures[k].q.lt(t.min_q)
                    &&& r[i].1 == measures[k].contrast
                }
            &&& forall|i: int, j: int|
                0 <= i < j < r.len() ==> (#[trigger] r[i]).0 != (#[trigger] r[j]).0 && (r.len() < 64
                    ==> r[i].0 < r[j].0)
            &&& r.len() < 64 ==> forall|k: int|
                0 < k < spectrum.len() - 1 && spectrum[k - 1].lt(spectrum[k]) && spectrum[k + 1].lt(
                    spectrum[k],
                ) && !spectrum[k].lt(t.floor_db) && !(#[trigger] measures[k]).contrast.lt(
                    t.contrast_min_db,
                ) && !t.flatness_max.lt(measures[k].flatness) && !measures[k].q.lt(t.min_q)
                    ==> r.contains((k as usize, measures[k].contrast))
            &&& (forall|k: int|
                0 <= k < measures.len() ==> !(#[trigger] measures[k]).contrast.is_nan()) ==> forall|
                k: int,
                i: int,
            |
                0 < k < spectrum.len() - 1 && spectrum[k - 1].lt(spectrum[k]) && spectrum[k + 1].lt(
                    spectrum[k],
                ) && !spectrum[k].lt(t.floor_db) && !(#[trigger] measures[k]).contrast.lt(
                    t.contrast_min_db,
                ) && !t.flatness_max.lt(measures[k].flatness) && !measures[k].q.lt(t.min_q) && 0 <= i
                    < r.len() && !r.contains((k as usize, measures[k].contrast))
                    ==> measures[k].contrast.le((#[trigger] r[i]).1)
        }),
{
    let all = peaks_below(spectrum, measures, t, spectrum.len() - 1);
    let r = found_peaks(spectrum, measures, t);
    let n = all.len() as int;
    lemma_peaks_below(spectrum, measures, t, spectrum.len() - 1);
    lemma_strongest_len(all, 64, n);
    lemma_strongest_bins_differ(all, 64, n);
    assert forall|i: int| 0 <= i < r.len() implies {
        let k = (#[trigger] r[i]).0 as int;
        &&& 0 < k < spectrum.len() - 1
        &&& spectrum[k - 1].lt(spectrum[k])
        &&& spectrum[k + 1].lt(spectrum[k])
        &&& !spectrum[k].lt(t.floor_db)
        &&& !measures[k].contrast.lt(t.contrast_min_db)
        &&& !t.flatness_max.lt(measures[k].flatness)
        &&& !measures[k].q.lt(t.min_q)
        &&& r[i].1 == measures[k].contrast
    } by {
        let a = lemma_strongest_from(all, 64, n, i);
        assert(r[i] == all[a]);
    }
    if r.len() < 64 {
        lemma_strongest_with_room(all, 64, n);
        assert(all.take(n) == all);
    }
    if forall|k: int| 0 <= k < measures.len() ==> !(#[trigger] measures[k]).contrast.is_nan() {
        assert forall|i: int| 0 <= i < all.len() implies !(#[trigger] all[i]).1.is_nan() by {
            assert(!measures[all[i].0 as int].contrast.is_nan());
        }
        law_strongest_are_kept(all, 64, n);
        assert forall|k: int, i: int|
            0 < k < spectrum.len() - 1 && spectrum[k - 1].lt(spectrum[k]) && spectrum[k + 1].lt(
                    spectrum[k],
                ) && !spectrum[k].lt(t.floor_db) && !(#[trigger] measures[k]).contrast.lt(
                    t.contrast_min_db,
                ) && !t.flatness_max.lt(measures[k].flatness) && !measures[k].q.lt(t.min_q)
                    && 0 <= i < r.len() && !r.contains(
                (k as usize, measures[k].contrast),
            ) implies measures[k].contrast.le(
            (#[trigger] r[i]).1,
        ) by {
            let p = (k as usize, measures[k].contrast);
            assert(all.contains(p));
            let m = choose|m: int| 0 <= m < all.len() && all[m] == p;
            assert(!r.contains(all[m]));
        }
    }
}

/// Of two neighbouring bins at most one is a peak.
pub proof fn law_neighbours_are_not_both_found(
    spectrum: Seq<Single>,
    measures: Seq<PeakMeasure>,
    t: SensitivityThresholds,
    i: int,
    j: int,
)
    requires
        spectrum.len() <= usize::MAX,
        measures.len() == spectrum.len(),
        0 <= i < found_peaks(spectrum, measures, t).len(),
        0 <= j < found_peaks(spectrum, measures, t).len(),
    ensures
        found_peaks(spectrum, measures, t)[j].0 != found_peaks(spectrum, measures, t)[i].0 + 1,
{
    law_found_peaks_stand_out(spectrum, measures, t);
    let r = found_peaks(spectrum, measures, t);
    assert(r[i].0 < spectrum.len() && r[j].0 < spectrum.len());
}

proof fn lemma_noted(before: Seq<Single>, peaks: Seq<(usize, Single)>, n: int)
    requires
        0 <= n <= peaks.len(),
    ensures
        noted(before, peaks, n).len() == before.len(),
        forall|i: int|
            0 <= i < n && (#[trigger] peaks[i]).0 < before.len() && (forall|j: int|
                i < j < n ==> (#[trigger] peaks[j]).0 != peaks[i].0) ==> noted(
                before,
                peaks,
                n,
            )[peaks[i].0 as int] == peaks[i].1,
        forall|k: int|
            0 <= k < before.len() && !(exists|i: int| 0 <= i < n && (#[trigger] peaks[i]).0 == k)
                ==> #[trigger] noted(before, peaks, n)[k] == before[k],
    decreases n,
{
    if n > 0 {
        lemma_noted(before, peaks, n - 1);
        let had = noted(before, peaks, n - 1);
        let new = noted(before, peaks, n);
        assert forall|i: int|
            0 <= i < n && (#[trigger] peaks[i]).0 < before.len() && (forall|j: int|
                i < j < n ==> (#[trigger] peaks[j]).0 != peaks[i].0) implies new[peaks[i].0 as int]
            == peaks[i].1 by {
            if i < n - 1 {
                assert(peaks[n - 1].0 != peaks[i].0);
                assert(had[peaks[i].0 as int] == peaks[i].1);
            }
        }
        assert forall|k: int|
            0 <= k < before.len() && !(exists|i: int| 0 <= i < n
                && (#[trigger] peaks[i]).0 == k) implies #[trigger] new[k]
            == before[k] by {
            assert(peaks[n - 1].0 != k);
            assert(had[k] == before[k]);
        }
    }
}

proof fn lemma_lasting_are_all(
    scores: Seq<Single>,
    persistence: Seq<u32>,
    t: SensitivityThresholds,
    n: int,
)
    requires
        n <= scores.len(),
        scores.len() <= usize::MAX,
    ensures
        ({
            let r = lasting(scores, persistence, t, n);
            &&& forall|i: int|
                0 <= i < r.len() ==> {
                    let k = (#[trigger] r[i]).0 as int;
                    &&& 0 < k < n
                    &&& r[i].1 == scores[k]
                    &&& t.score_min.lt(scores[k])
                    &&& persistence[k] > t.persistence_min
                }
            &&& forall|i: int, j: int|
                0 <= i < j < r.len() ==> (#[trigger] r[i]).0 < (#[trigger] r[j]).0
            &&& forall|k: int|
                0 < k < n && t.score_min.lt(#[trigger] scores[k]) && persistence[k]
                    > t.persistence_min ==> r.contains((k as usize, scores[k]))
        }),
    decreases n,
{
    if n > 1 {
        lemma_lasting_are_all(scores, persistence, t, n - 1);
        let had = lasting(scores, persistence, t, n - 1);
        let all = lasting(scores, persistence, t, n);
        assert forall|k: int|
            0 < k < n && t.score_min.lt(#[trigger] scores[k])
                && persistence[k] > t.persistence_min implies all.contains(
            (k as usize, scores[k]),
        ) by {
            let p = (k as usize, scores[k]);
            if k < n - 1 {
                assert(had.contains(p));
                let i = choose|i: int| 0 <= i < had.len() && had[i] == p;
                assert(all[i] == p);
            } else {
                assert(all == had.push(p));
                assert(all[had.len() as int] == p);
            }
        }
    }
}

/// The resonances are inner bins that score above the threshold and have lasted
/// longer than they must, at different bins, strongest first and sixteen at
/// most. One that is left out is left out for want of room, and is no stronger
/// than any of them.
#[verifier::rlimit(40)]
pub proof fn law_every_lasting_bin_is_reported(
    scores: Seq<Single>,
    persistence: Seq<u32>,
    t: SensitivityThresholds,
)
    requires
        scores.len() <= usize::MAX,
    ensures
        ({
            let r = resonances(scores, persistence, t);
            &&& r.len() <= 16
            &&& forall|i: int|
                0 <= i < r.len() ==> {
                    let k = (#[trigger] r[i]).0 as int;
                    &&& 0 < k < scores.len() - 1
                    &&& r[i].1 == scores[k]
                    &&& t.score_min.lt(scores[k])
                    &&& persistence[k] > t.persistence_min
                }
            &&& forall|i: int, j: int|
                0 <= i < j < r.len() ==> (#[trigger] r[j]).1.le((#[trigger] r[i]).1) && r[i].0 != r[j].0
            &&& forall|k: int|
                0 < k < scores.len() - 1 && t.score_min.lt(#[trigger] scores[k]) && persistence[k]
                    > t.persistence_min ==> r.contains((k as usize, scores[k])) || (r.len() == 16
                    && forall|i: int| 0 <= i < 16 ==> scores[k].le((#[trigger] r[i]).1))
        }),
{
    let all = lasting(scores, persistence, t, scores.len() - 1);
    let r = resonances(scores, persistence, t);
    let full = ranked(scores, persistence, t);
    lemma_lasting_are_all(scores, persistence, t, scores.len() - 1);
    assert forall|i: int| 0 <= i < all.len() implies !(#[trigger] all[i]).1.is_nan() by {
        assert(t.score_min.lt(scores[all[i].0 as int]));
    }
    law_ranking(all, 64);
    assert forall|i: int| 0 <= i < r.len() implies all.contains(#[trigger] r[i]) by {
        assert(r[i] == full[i]);
    }
    assert forall|i: int| 0 <= i < r.len() implies {
        let k = (#[trigger] r[i]).0 as int;
        &&& 0 < k < scores.len() - 1
        &&& r[i].1 == scores[k]
        &&& t.score_min.lt(scores[k])
        &&& persistence[k] > t.persistence_min
    } by {
        let m = choose|m: int| 0 <= m < all.len() && all[m] == r[i];
        assert(all[m].0 < scores.len());
    }
    assert forall|i: int, j: int| 0 <= i < j < r.len() implies (#[trigger] r[j]).1.le(
        (#[trigger] r[i]).1,
    ) && r[i].0 != r[j].0 by {
        assert(r[i] == full[i] && r[j] == full[j]);
    }
    assert forall|k: int|
        0 < k < scores.len() - 1 && t.score_min.lt(#[trigger] scores[k]) && persistence[k]
            > t.persistence_min implies r.contains((k as usize, scores[k])) || (r.len() == 16
        && forall|i: int| 0 <= i < 16 ==> scores[k].le((#[trigger] r[i]).1)) by {
        let p = (k as usize, scores[k]);
        assert(all.contains(p));
        let m = choose|m: int| 0 <= m < all.len() && all[m] == p;
        if full.contains(p) {
            let f = choose|f: int| 0 <= f < full.len() && full[f] == p;
            if f < r.len() {
                assert(r[f] == p);
            } else {
                assert forall|i: int| 0 <= i < 16 implies scores[k].le((#[trigger] r[i]).1) by {
                    assert(r[i] == full[i]);
                    assert(full[f].1.le(full[i].1));
                }
            }
        } else {
            assert(!full.contains(all[m]));
            assert forall|i: int| 0 <= i < 16 implies scores[k].le((#[trigger] r[i]).1) by {
                assert(r[i] == full[i]);
            }
        }
    }
}

proof fn lemma_every_lasting_bin_is_on_top(
    scores: Seq<Single>,
    persistence: Seq<u32>,
    t: SensitivityThresholds,
)
    requires
        scores.len() <= usize::MAX,
    ensures
        ({
            let r = top(lasting(scores, persistence, t, scores.len() - 1), 16);
            &&& r.len() <= 16
            &&& forall|i: int|
                0 <= i < r.len() ==> {
                    let k = (#[trigger] r[i]).0 as int;
                    &&& 0 < k < scores.len() - 1
                    &&& r[i].1 == scores[k]
                    &&& t.score_min.lt(scores[k])
                    &&& persistence[k] > t.persistence_min
                }
            &&& forall|i: int, j: int|
                0 <= i < j < r.len() ==> (#[trigger] r[j]).1.le((#[trigger] r[i]).1) && r[i].0 != r[j].0
            &&& forall|k: int|
                0 < k < scores.len() - 1 && t.score_min.lt(#[trigger] scores[k]) && persistence[k]
                    > t.persistence_min ==> r.contains((k as usize, scores[k])) || (r.len() == 16
                    && forall|i: int| 0 <= i < 16 ==> scores[k].le((#[trigger] r[i]).1))
        }),
{
    let all = lasting(scores, persistence, t, scores.len() - 1);
    let r = top(all, 16);
    lemma_lasting_are_all(scores, persistence, t, scores.len() - 1);
    assert forall|i: int| 0 <= i < all.len() implies !(#[trigger] all[i]).1.is_nan() by {
        assert(t.score_min.lt(scores[all[i].0 as int]));
    }
    law_top_is_strongest(all, 16);
    assert forall|i: int| 0 <= i < r.len() implies {
        let k = (#[trigger] r[i]).0 as int;
        &&& 0 < k < scores.len() - 1
        &&& r[i].1 == scores[k]
        &&& t.score_min.lt(scores[k])
        &&& persistence[k] > t.persistence_min
    } by {
        assert(all.contains(r[i]));
        let m = choose|m: int| 0 <= m < all.len() && all[m] == r[i];
        assert(all[m].0 < scores.len());
    }
    assert forall|k: int|
        0 < k < scores.len() - 1 && t.score_min.lt(#[trigger] scores[k]) && persistence[k]
            > t.persistence_min implies r.contains((k as usize, scores[k])) || (r.len() == 16
        && forall|i: int| 0 <= i < 16 ==> scores[k].le((#[trigger] r[i]).1)) by {
        let p = (k as usize, scores[k]);
        assert(all.contains(p));
        let m = choose|m: int| 0 <= m < all.len() && all[m] == p;
        if !r.contains(all[m]) {
            assert(all.len() > 16);
        }
    }
}

} // verus!
