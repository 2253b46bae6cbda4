//! Which filters of Meridian have to be made anew when its settings change.

use crate::single::{Single, ONE_BITS, ZERO_BITS};
use vstd::prelude::*;

verus! {

/// The settings of an equaliser band.
#[derive(Clone, Copy)]
pub struct EqBand {
    pub gain: Single,
    pub slope: i64,
    pub freq: Single,
}

/// The settings that filters are made from.
#[derive(Clone, Copy)]
pub struct FilterSettings {
    pub hpf_freq: Single,
    pub lpf_freq: Single,
    pub cut_slope: i64,
    pub bands: [EqBand; 5],
    pub tilt_gain: Single,
    pub excite_freq: Single,
    pub sample_rate: Single,
}

/// What happens to the cut filters.
#[derive(Clone, Copy, PartialEq, Eq, Structural)]
pub struct CutPlan {
    /// They are made anew.
    pub remake: bool,
    /// They are made of two stages each.
    pub steep: bool,
    /// The state of the high-pass is cleared first.
    pub reset_hpf: bool,
    /// The state of the low-pass is cleared first.
    pub reset_lpf: bool,
}

/// What happens to the filters.
#[derive(Clone, Copy)]
pub struct FilterPlan {
    pub cut: CutPlan,
    pub bands: [bool; 5],
    pub tilt: bool,
    pub excite: bool,
}

/// Sixteen times a frequency, which is four octaves: a larger change of it
/// clears a filter.
pub const JUMP_BITS: u32 = 0x4180_0000;

/// Whether a change of frequency is so large that the filter's state is
/// cleared: more than four octaves. `ratio` is the larger of the two frequencies over the smaller.
/// Below one hertz there is no ratio, and every change clears the state.
pub open spec fn is_jump(before: Single, now: Single, ratio: Single) -> bool {
    let one = Single { bits: ONE_BITS };
    if one.lt(before) && one.lt(now) {
        (Single { bits: JUMP_BITS }).lt(ratio)
    } else {
        !now.equals(before)
    }
}

/// Whether the cut filters were made from other settings.
pub open spec fn cut_is_stale(c: FilterSettings, s: FilterSettings) -> bool {
    ||| !s.hpf_freq.equals(c.hpf_freq)
    ||| !s.lpf_freq.equals(c.lpf_freq)
    ||| s.cut_slope != c.cut_slope
    ||| !s.sample_rate.equals(c.sample_rate)
}

/// Whether a band's filter was made from other settings.
pub open spec fn band_is_stale(c: FilterSettings, s: FilterSettings, i: int) -> bool {
    ||| !s.bands@[i].gain.equals(c.bands@[i].gain)
    ||| s.bands@[i].slope != c.bands@[i].slope
    ||| !s.bands@[i].freq.equals(c.bands@[i].freq)
    ||| !s.sample_rate.equals(c.sample_rate)
}

/// Whether the tilt filter was made from other settings.
pub open spec fn tilt_is_stale(c: FilterSettings, s: FilterSettings) -> bool {
    !s.tilt_gain.equals(c.tilt_gain) || !s.sample_rate.equals(c.sample_rate)
}

/// Whether the exciter's filter was made from other settings.
pub open spec fn excite_is_stale(c: FilterSettings, s: FilterSettings) -> bool {
    !s.excite_freq.equals(c.excite_freq) || !s.sample_rate.equals(c.sample_rate)
}

/// Whether the settings that filters were made from are, filter by filter,
/// either those of before or, where they were stale, the new ones.
pub open spec fn is_cache_after(c: FilterSettings, s: FilterSettings, after: FilterSettings) -> bool {
    &&& after.sample_rate == s.sample_rate
    &&& if cut_is_stale(c, s) {
        after.hpf_freq == s.hpf_freq && after.lpf_freq == s.lpf_freq && after.cut_slope == s.cut_slope
    } else {
        after.hpf_freq == c.hpf_freq && after.lpf_freq == c.lpf_freq && after.cut_slope == c.cut_slope
    }
    &&& forall|i: int|
        0 <= i < 5 ==> #[trigger] after.bands@[i] == if band_is_stale(c, s, i) {
            s.bands@[i]
        } else {
            c.bands@[i]
        }
    &&& after.tilt_gain == if tilt_is_stale(c, s) {
        s.tilt_gain
    } else {
        c.tilt_gain
    }
    &&& after.excite_freq == if excite_is_stale(c, s) {
        s.excite_freq
    } else {
        c.excite_freq
    }
}

/// Whether two bands are set alike.
fn same_band(a: &EqBand, b: &EqBand) -> (r: bool)
    ensures
        r == (a.gain.equals(b.gain) && a.slope == b.slope && a.freq.equals(b.freq)),
{
    a.gain.same(b.gain) && a.slope == b.slope && a.freq.same(b.freq)
}

/// Whether a change of frequency clears the filter's state.
fn jumps(before: Single, now: Single, ratio: Single) -> (r: bool)
    ensures
        r == is_jump(before, now, ratio),
{
    let one = Single { bits: ONE_BITS };
    if before.above(one) && now.above(one) {
        ratio.above(Single { bits: JUMP_BITS })
    } else {
        !now.same(before)
    }
}

/// What no setting is, -999.
pub const UNSET_BITS: u32 = 0xc479_c000;

impl FilterSettings {
    /// Settings that no filter was made from, so that every filter is made anew
    /// from the first that are taken.
    pub fn new() -> (r: FilterSettings)
        ensures
            is_unset(r),
            r.sample_rate.bits == UNSET_BITS,
            r.hpf_freq.bits == 0xc479_c000,
            r.lpf_freq.bits == 0xc479_c000,
            r.cut_slope == -999,
            forall|i: int|
                0 <= i < 5 ==> (#[trigger] r.bands@[i]).gain.bits == 0xc479_c000 && r.bands@[i].slope
                    == -999 && r.bands@[i].freq.bits == 0xc479_c000,
            r.tilt_gain.bits == 0xc479_c000,
            r.excite_freq.bits == 0xc479_c000,
            r.sample_rate.bits == 0xc479_c000,
    {
        let unset = Single { bits: UNSET_BITS };
        let band = EqBand { gain: unset, slope: -999, freq: unset };
        FilterSettings {
            hpf_freq: unset,
            lpf_freq: unset,
            cut_slope: -999,
            bands: [band, band, band, band, band],
            tilt_gain: unset,
            excite_freq: unset,
            sample_rate: unset,
        }
    }

    /// Takes the settings of a block, and says which filters have to be made
    /// anew. The ratios are those of the cut frequencies before and now.
    pub fn update(&mut self, s: &FilterSettings, hpf_ratio: Single, lpf_ratio: Single) -> (r: FilterPlan)
        ensures
            r.cut.remake == cut_is_stale(*old(self), *s),
            r.cut.steep == (s.cut_slope >= 1),
            r.cut.reset_hpf == (r.cut.remake && is_jump(old(self).hpf_freq, s.hpf_freq, hpf_ratio)),
            r.cut.reset_lpf == (r.cut.remake && is_jump(old(self).lpf_freq, s.lpf_freq, lpf_ratio)),
            forall|i: int| 0 <= i < 5 ==> #[trigger] r.bands@[i] == band_is_stale(*old(self), *s, i),
            r.tilt == tilt_is_stale(*old(self), *s),
            r.excite == excite_is_stale(*old(self), *s),
            is_cache_after(*old(self), *s, *final(self)),
            r.cut.remake <==> (!s.hpf_freq.equals(old(self).hpf_freq) || !s.lpf_freq.equals(
                old(self).lpf_freq,
            ) || s.cut_slope != old(self).cut_slope || !s.sample_rate.equals(old(self).sample_rate)),
            r.cut.reset_hpf <==> r.cut.remake && if (Single { bits: 0x3f80_0000 }).lt(
                old(self).hpf_freq,
            ) && (Single { bits: 0x3f80_0000 }).lt(s.hpf_freq) {
                (Single { bits: 0x4180_0000 }).lt(hpf_ratio)
            } else {
                !s.hpf_freq.equals(old(self).hpf_freq)
            },
            r.cut.reset_lpf <==> r.cut.remake && if (Single { bits: 0x3f80_0000 }).lt(
                old(self).lpf_freq,
            ) && (Single { bits: 0x3f80_0000 }).lt(s.lpf_freq) {
                (Single { bits: 0x4180_0000 }).lt(lpf_ratio)
            } else {
                !s.lpf_freq.equals(old(self).lpf_freq)
            },
            forall|i: int|
                0 <= i < 5 ==> (#[trigger] r.bands@[i] <==> (!s.bands@[i].gain.equals(
                    old(self).bands@[i].gain,
                ) || s.bands@[i].slope != old(self).bands@[i].slope || !s.bands@[i].freq.equals(
                    old(self).bands@[i].freq,
                ) || !s.sample_rate.equals(old(self).sample_rate))),
            r.tilt <==> (!s.tilt_gain.equals(old(self).tilt_gain) || !s.sample_rate.equals(
                old(self).sample_rate,
            )),
            r.excite <==> (!s.excite_freq.equals(old(self).excite_freq) || !s.sample_rate.equals(
                old(self).sample_rate,
            )),
            final(self).sample_rate == s.sample_rate,
            final(self).cut_slope == s.cut_slope,
            !s.hpf_freq.is_nan() ==> final(self).hpf_freq.equals(s.hpf_freq),
            !s.lpf_freq.is_nan() ==> final(self).lpf_freq.equals(s.lpf_freq),
            !s.tilt_gain.is_nan() ==> final(self).tilt_gain.equals(s.tilt_gain),
            !s.excite_freq.is_nan() ==> final(self).excite_freq.equals(s.excite_freq),
            forall|i: int|
                0 <= i < 5 ==> {
                    let b = #[trigger] final(self).bands@[i];
                    &&& b.slope == s.bands@[i].slope
                    &&& !s.bands@[i].gain.is_nan() ==> b.gain.equals(s.bands@[i].gain)
                    &&& !s.bands@[i].freq.is_nan() ==> b.freq.equals(s.bands@[i].freq)
                },
            r.cut.remake ==> final(self).hpf_freq == s.hpf_freq && final(self).lpf_freq
                == s.lpf_freq,
            forall|i: int|
                0 <= i < 5 && #[trigger] r.bands@[i] ==> final(self).bands@[i] == s.bands@[i],
            r.tilt ==> final(self).tilt_gain == s.tilt_gain,
            r.excite ==> final(self).excite_freq == s.excite_freq,
    {
        let rate_changed: bool = !s.sample_rate.same(self.sample_rate);
        self.sample_rate = s.sample_rate;
        let remake: bool = !s.hpf_freq.same(self.hpf_freq) || !s.lpf_freq.same(self.lpf_freq)
            || s.cut_slope != self.cut_slope || rate_changed;
        let mut reset_hpf: bool = false;
        let mut reset_lpf: bool = false;
        if remake {
            reset_hpf = jumps(self.hpf_freq, s.hpf_freq, hpf_ratio);
            reset_lpf = jumps(self.lpf_freq, s.lpf_freq, lpf_ratio);
            self.hpf_freq = s.hpf_freq;
            self.lpf_freq = s.lpf_freq;
            self.cut_slope = s.cut_slope;
        }
        let mut bands: [bool; 5] = [false, false, false, false, false];
        let ghost before = *old(self);
        let mut i: usize = 0;
        while i < 5
            invariant
                i <= 5,
                before == *old(self),
                rate_changed == !s.sample_rate.equals(before.sample_rate),
                self.sample_rate == s.sample_rate,
                remake == cut_is_stale(before, *s),
                remake ==> self.hpf_freq == s.hpf_freq && self.lpf_freq == s.lpf_freq && self.cut_slope
                    == s.cut_slope,
                !remake ==> self.hpf_freq == before.hpf_freq && self.lpf_freq == before.lpf_freq
                    && self.cut_slope == before.cut_slope,
                self.tilt_gain == before.tilt_gain,
                self.excite_freq == before.excite_freq,
                forall|k: int| i <= k < 5 ==> #[trigger] self.bands@[k] == before.bands@[k],
                forall|k: int| 0 <= k < i ==> #[trigger] bands@[k] == band_is_stale(before, *s, k),
                forall|k: int|
                    0 <= k < i ==> #[trigger] self.bands@[k] == if band_is_stale(before, *s, k) {
                        s.bands@[k]
                    } else {
                        before.bands@[k]
                    },
            decreases 5 - i,
        {
            assert(self.bands@[i as int] == before.bands@[i as int]);
            let stale: bool = !same_band(&s.bands[i], &self.bands[i]) || rate_changed;
            if stale {
                self.bands[i] = s.bands[i];
            }
            bands[i] = stale;
            i += 1;
        }
        let tilt: bool = !s.tilt_gain.same(self.tilt_gain) || rate_changed;
        if tilt {
            self.tilt_gain = s.tilt_gain;
        }
        let excite: bool = !s.excite_freq.same(self.excite_freq) || rate_changed;
        if excite {
            self.excite_freq = s.excite_freq;
        }
        proof {
            assert forall|k: int| 0 <= k < 5 implies #[trigger] bands@[k] == band_is_stale(
                before,
                *s,
                k,
            ) by {}
            assert forall|k: int| 0 <= k < 5 implies {
                let b = #[trigger] self.bands@[k];
                &&& b.slope == s.bands@[k].slope
                &&& !s.bands@[k].gain.is_nan() ==> b.gain.equals(s.bands@[k].gain)
                &&& !s.bands@[k].freq.is_nan() ==> b.freq.equals(s.bands@[k].freq)
            } by {
                assert(band_is_stale(before, *s, k) || !band_is_stale(before, *s, k));
            }
        }
        FilterPlan {
            cut: CutPlan { remake, steep: s.cut_slope >= 1, reset_hpf, reset_lpf },
            bands,
            tilt,
            excite,
        }
    }
}

/// Whether the drawn curve was made from other settings: any but the
/// frequency of the exciter, which it does not show.
pub open spec fn curve_is_stale(c: FilterSettings, s: FilterSettings) -> bool {
    ||| cut_is_stale(c, s)
    ||| tilt_is_stale(c, s)
    ||| exists|i: int| 0 <= i < 5 && #[trigger] band_is_stale(c, s, i)
}

/// Whether the curve has to be drawn anew, given the settings that it was drawn
/// from last, if it was.
pub fn curve_changed(drawn: Option<&FilterSettings>, s: &FilterSettings) -> (r: bool)
    ensures
        r == match drawn {
            Some(c) => curve_is_stale(*c, *s),
            None => true,
        },
        drawn is None ==> r,
        drawn is Some ==> (!r <==> {
            let c = drawn->0;
            &&& s.hpf_freq.equals(c.hpf_freq)
            &&& s.lpf_freq.equals(c.lpf_freq)
            &&& s.cut_slope == c.cut_slope
            &&& s.tilt_gain.equals(c.tilt_gain)
            &&& s.sample_rate.equals(c.sample_rate)
            &&& forall|i: int|
                0 <= i < 5 ==> (#[trigger] s.bands@[i]).gain.equals(c.bands@[i].gain) && s.bands@[i].slope
                    == c.bands@[i].slope && s.bands@[i].freq.equals(c.bands@[i].freq)
        }),
{
    match drawn {
        None => true,
        Some(c) => {
            if !s.sample_rate.same(c.sample_rate) || !s.hpf_freq.same(c.hpf_freq) || !s.lpf_freq.same(
                c.lpf_freq,
            ) || s.cut_slope != c.cut_slope || !s.tilt_gain.same(c.tilt_gain) {
                return true;
            }
            let mut i: usize = 0;
            while i < 5
                invariant
                    i <= 5,
                    drawn == Some(c),
                    s.sample_rate.equals(c.sample_rate),
                    forall|k: int| 0 <= k < i ==> !#[trigger] band_is_stale(*c, *s, k),
                decreases 5 - i,
            {
                if !same_band(&s.bands[i], &c.bands[i]) {
                    assert(band_is_stale(*c, *s, i as int));
                    assert(!(s.bands@[i as int].gain.equals(c.bands@[i as int].gain)
                        && s.bands@[i as int].slope == c.bands@[i as int].slope
                        && s.bands@[i as int].freq.equals(c.bands@[i as int].freq)));
                    return true;
                }
                i += 1;
            }
            assert forall|k: int| 0 <= k < 5 implies (#[trigger] s.bands@[k]).gain.equals(
                c.bands@[k].gain,
            ) && s.bands@[k].slope == c.bands@[k].slope && s.bands@[k].freq.equals(c.bands@[k].freq) by {
                assert(!band_is_stale(*c, *s, k));
            }
            false
        },
    }
}

/// Whether every setting is a number.
pub open spec fn all_set(s: FilterSettings) -> bool {
    &&& !s.hpf_freq.is_nan()
    &&& !s.lpf_freq.is_nan()
    &&& !s.tilt_gain.is_nan()
    &&& !s.excite_freq.is_nan()
    &&& !s.sample_rate.is_nan()
    &&& forall|i: int| 0 <= i < 5 ==> !(#[trigger] s.bands@[i]).gain.is_nan() && !s.bands@[i].freq.is_nan()
}

/// Settings that have been taken do not make any filter anew when they are
/// taken again.
pub proof fn law_unchanged_settings_remake_nothing(
    c: FilterSettings,
    s: FilterSettings,
    after: FilterSettings,
)
    requires
        all_set(s),
        is_cache_after(c, s, after),
    ensures
        !cut_is_stale(after, s),
        forall|i: int| 0 <= i < 5 ==> !#[trigger] band_is_stale(after, s, i),
        !tilt_is_stale(after, s),
        !excite_is_stale(after, s),
{
    assert forall|i: int| 0 <= i < 5 implies !#[trigger] band_is_stale(after, s, i) by {
        assert(!s.bands@[i].gain.is_nan());
        assert(after.bands@[i] == s.bands@[i] || after.bands@[i] == c.bands@[i]);
    }
}

/// After settings have been taken every setting that filters are made from
/// equals the one that was taken.
pub proof fn law_settings_are_taken(c: FilterSettings, s: FilterSettings, after: FilterSettings)
    requires
        is_cache_after(c, s, after),
        !s.hpf_freq.is_nan(),
        !s.lpf_freq.is_nan(),
        !s.tilt_gain.is_nan(),
        !s.excite_freq.is_nan(),
        !s.sample_rate.is_nan(),
        forall|i: int|
            0 <= i < 5 ==> !(#[trigger] s.bands@[i]).gain.is_nan() && !s.bands@[i].freq.is_nan(),
    ensures
        after.hpf_freq.equals(s.hpf_freq),
        after.lpf_freq.equals(s.lpf_freq),
        after.cut_slope == s.cut_slope,
        after.tilt_gain.equals(s.tilt_gain),
        after.excite_freq.equals(s.excite_freq),
        after.sample_rate.equals(s.sample_rate),
        forall|i: int|
            0 <= i < 5 ==> (#[trigger] after.bands@[i]).gain.equals(s.bands@[i].gain)
                && after.bands@[i].slope == s.bands@[i].slope && after.bands@[i].freq.equals(
                s.bands@[i].freq,
            ),
{
    assert forall|i: int| 0 <= i < 5 implies (#[trigger] after.bands@[i]).gain.equals(
        s.bands@[i].gain,
    ) && after.bands@[i].slope == s.bands@[i].slope && after.bands@[i].freq.equals(s.bands@[i].freq) by {
        assert(!s.bands@[i].gain.is_nan());
        assert(after.bands@[i] == s.bands@[i] || after.bands@[i] == c.bands@[i]);
    }
}

/// A filter is made anew just when a setting that it is made from differs: a
/// band's gain, slope or frequency, the cut frequencies and their slope, the
/// tilt, the exciter's frequency, or the sample rate of any.
pub proof fn law_differing_settings_remake(c: FilterSettings, s: FilterSettings, i: int)
    ensures
        band_is_stale(c, s, i) <==> !(c.bands@[i].gain.equals(s.bands@[i].gain) && c.bands@[i].slope
            == s.bands@[i].slope && c.bands@[i].freq.equals(s.bands@[i].freq)
            && c.sample_rate.equals(s.sample_rate)),
        cut_is_stale(c, s) <==> !(c.hpf_freq.equals(s.hpf_freq) && c.lpf_freq.equals(s.lpf_freq)
            && c.cut_slope == s.cut_slope && c.sample_rate.equals(s.sample_rate)),
        tilt_is_stale(c, s) <==> !(c.tilt_gain.equals(s.tilt_gain) && c.sample_rate.equals(
            s.sample_rate,
        )),
        excite_is_stale(c, s) <==> !(c.excite_freq.equals(s.excite_freq) && c.sample_rate.equals(
            s.sample_rate,
        )),
{
}

/// The curve is drawn anew just when a filter that it shows is made anew: a cut,
/// the tilt or a band.
pub proof fn law_curve_follows_its_filters(c: FilterSettings, s: FilterSettings)
    ensures
        curve_is_stale(c, s) <==> !(c.hpf_freq.equals(s.hpf_freq) && c.lpf_freq.equals(s.lpf_freq)
            && c.cut_slope == s.cut_slope && c.tilt_gain.equals(s.tilt_gain) && c.sample_rate.equals(
            s.sample_rate,
        ) && forall|i: int|
            0 <= i < 5 ==> (#[trigger] c.bands@[i]).gain.equals(s.bands@[i].gain) && c.bands@[i].slope
                == s.bands@[i].slope && c.bands@[i].freq.equals(s.bands@[i].freq)),
{
    assert forall|i: int| 0 <= i < 5 implies (#[trigger] band_is_stale(c, s, i) <==> !(
    c.bands@[i].gain.equals(s.bands@[i].gain) && c.bands@[i].slope == s.bands@[i].slope
        && c.bands@[i].freq.equals(s.bands@[i].freq) && c.sample_rate.equals(s.sample_rate))) by {}
    if exists|i: int| 0 <= i < 5 && #[trigger] band_is_stale(c, s, i) {
        let i = choose|i: int| 0 <= i < 5 && #[trigger] band_is_stale(c, s, i);
        assert(c.bands@[i] == c.bands@[i]);
    }
    if c.sample_rate.equals(s.sample_rate) && !curve_is_stale(c, s) {
        assert forall|i: int| 0 <= i < 5 implies (#[trigger] c.bands@[i]).gain.equals(
            s.bands@[i].gain,
        ) && c.bands@[i].slope == s.bands@[i].slope && c.bands@[i].freq.equals(s.bands@[i].freq) by {
            assert(!band_is_stale(c, s, i));
        }
    }
}

/// Whether these are settings that no filter was made from, whatever the sample
/// rate.
pub open spec fn is_unset(s: FilterSettings) -> bool {
    let unset = Single { bits: UNSET_BITS };
    &&& s.hpf_freq == unset
    &&& s.lpf_freq == unset
    &&& s.cut_slope == -999
    &&& forall|i: int|
        0 <= i < 5 ==> #[trigger] s.bands@[i] == (EqBand { gain: unset, slope: -999i64, freq: unset })
    &&& s.tilt_gain == unset
    &&& s.excite_freq == unset
}

/// The first settings make every filter, even where the sample rate is already
/// known.
pub proof fn law_first_settings_make_all(c: FilterSettings, s: FilterSettings)
    requires
        is_unset(c),
        !s.tilt_gain.equals(Single { bits: UNSET_BITS }),
        !s.excite_freq.equals(Single { bits: UNSET_BITS }),
        s.cut_slope != -999,
        forall|i: int| 0 <= i < 5 ==> (#[trigger] s.bands@[i]).slope != -999,
    ensures
        cut_is_stale(c, s),
        forall|i: int| 0 <= i < 5 ==> #[trigger] band_is_stale(c, s, i),
        tilt_is_stale(c, s),
        excite_is_stale(c, s),
{
    assert forall|i: int| 0 <= i < 5 implies #[trigger] band_is_stale(c, s, i) by {
        assert(c.bands@[i].slope == -999);
        assert(s.bands@[i].slope != -999);
    }
}

/// Another sample rate makes every filter anew.
pub proof fn law_sample_rate_remakes_all(c: FilterSettings, s: FilterSettings)
    requires
        !s.sample_rate.equals(c.sample_rate),
    ensures
        cut_is_stale(c, s),
        forall|i: int| 0 <= i < 5 ==> #[trigger] band_is_stale(c, s, i),
        tilt_is_stale(c, s),
        excite_is_stale(c, s),
{
}

/// What the saturating stages are set to.
#[derive(Clone, Copy)]
pub struct StageSettings {
    pub excite_amount: Single,
    pub excite_blend: Single,
    pub warmth_drive: Single,
    pub warmth_mix: Single,
    pub inflate_effect: Single,
}

/// Which of the saturating stages are in the path.
#[derive(Clone, Copy, PartialEq, Eq, Structural)]
pub struct Stages {
    pub excite: bool,
    pub warmth: bool,
    pub inflate: bool,
}

/// Which of the saturating stages are in the path: those that are turned up.
pub fn stages(s: &StageSettings) -> (r: Stages)
    ensures
        ({
            let zero = Single { bits: 0 };
            &&& r.excite == (zero.lt(s.excite_amount) || zero.lt(s.excite_blend))
            &&& r.warmth == (zero.lt(s.warmth_drive) || zero.lt(s.warmth_mix))
            &&& r.inflate == zero.lt(s.inflate_effect)
        }),
{
    let zero = Single { bits: ZERO_BITS };
    Stages {
        excite: s.excite_amount.above(zero) || s.excite_blend.above(zero),
        warmth: s.warmth_drive.above(zero) || s.warmth_mix.above(zero),
        inflate: s.inflate_effect.above(zero),
    }
}

/// How a band filters.
#[derive(Clone, Copy, PartialEq, Eq, Structural)]
pub enum BandShape {
    LowShelf,
    Peak,
    HighShelf,
}

/// The shape of a band: the lowest and the highest are shelves.
pub fn band_shape(i: usize) -> (r: BandShape)
    ensures
        r == if i == 0 {
            BandShape::LowShelf
        } else if i >= 4 {
            BandShape::HighShelf
        } else {
            BandShape::Peak
        },
{
    if i == 0 {
        BandShape::LowShelf
    } else if i >= 4 {
        BandShape::HighShelf
    } else {
        BandShape::Peak
    }
}

/// How steep a band is.
#[derive(Clone, Copy, PartialEq, Eq, Structural)]
pub enum SlopeChoice {
    Gentle,
    Medium,
    Steep,
}

/// The slope that a choice stands for.
pub fn slope_choice(index: i64) -> (r: SlopeChoice)
    ensures
        r == if index == 0 {
            SlopeChoice::Gentle
        } else if index == 1 {
            SlopeChoice::Medium
        } else {
            SlopeChoice::Steep
        },
{
    match index {
        0 => SlopeChoice::Gentle,
        1 => SlopeChoice::Medium,
        _ => SlopeChoice::Steep,
    }
}

} // verus!
