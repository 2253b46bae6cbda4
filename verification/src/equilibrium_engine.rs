//! What Equilibrium decides from block to block around its filters.

use crate::editor::higher;
use crate::single::{Single, ONE_BITS, ZERO_BITS};
use crate::snap::{delta_in_phase, mono_in_phase};
use vstd::prelude::*;

verus! {

// ─── Control ─────────────────────────────────────────────────────────────────

/// The switches of the plugin.
#[derive(Clone, Copy)]
pub struct Switches {
    pub solo: [bool; 5],
    pub bypass: bool,
    pub mono: bool,
    pub delta: bool,
    pub listen: bool,
    pub auto_gain: bool,
}

/// What holds for a block.
#[derive(Clone, Copy)]
pub struct ProcessControl {
    pub audible: [bool; 5],
    pub bypass: bool,
    pub snap_phase: u8,
    pub mono: bool,
    pub delta: bool,
    pub listen: bool,
    pub auto_gain: bool,
    pub is_measuring: bool,
}

/// Whether a band is soloed.
pub open spec fn any_solo(solo: Seq<bool>) -> bool {
    exists|i: int| 0 <= i < solo.len() && solo[i] == true
}

/// Whether a band is heard: it is soloed, or none is.
pub open spec fn is_audible(solo: Seq<bool>, i: int) -> bool {
    solo[i] == true || !any_solo(solo)
}

/// What holds for a block: a band is audible if it is soloed, or if none is.
pub fn param_update(s: &Switches, snap_phase: u8, is_measuring: bool) -> (r: ProcessControl)
    ensures
        forall|i: int|
            0 <= i < 5 ==> r.audible@[i] == #[trigger] is_audible(s.solo@, i),
        forall|i: int|
            0 <= i < 5 ==> (#[trigger] r.audible@[i] <==> (s.solo@[i] || !(s.solo@[0] || s.solo@[1]
                || s.solo@[2] || s.solo@[3] || s.solo@[4]))),
        r.bypass == s.bypass,
        r.snap_phase == snap_phase,
        r.mono == (snap_phase == 2 || s.mono),
        r.delta == (snap_phase == 3 || s.delta),
        r.listen == s.listen,
        r.auto_gain == s.auto_gain,
        r.is_measuring == is_measuring,
{
    let any: bool = s.solo[0] || s.solo[1] || s.solo[2] || s.solo[3] || s.solo[4];
    assert(any == any_solo(s.solo@)) by {
        if any {
            assert(s.solo@[0] == true || s.solo@[1] == true || s.solo@[2] == true || s.solo@[3] == true
                || s.solo@[4] == true);
        }
    }
    let audible: [bool; 5] = [
        !any || s.solo[0],
        !any || s.solo[1],
        !any || s.solo[2],
        !any || s.solo[3],
        !any || s.solo[4],
    ];
    ProcessControl {
        audible,
        bypass: s.bypass,
        snap_phase,
        mono: mono_in_phase(snap_phase, s.mono),
        delta: delta_in_phase(snap_phase, s.delta),
        listen: s.listen,
        auto_gain: s.auto_gain,
        is_measuring,
    }
}

/// There is always an audible band.
pub proof fn law_some_band_is_audible(solo: Seq<bool>)
    requires
        solo.len() == 5,
    ensures
        exists|i: int| 0 <= i < 5 && #[trigger] is_audible(solo, i),
{
    if any_solo(solo) {
        let i = choose|i: int| 0 <= i < solo.len() && solo[i] == true;
        assert(is_audible(solo, i));
    } else {
        assert(is_audible(solo, 0));
    }
}

/// The sample rate from which on the ultrasonic low-pass is in the path, 88.2 kHz.
pub const HIGH_RATE_BITS: u32 = 0x47ac_4400;

/// Whether the ultrasonic low-pass is in the path.
pub fn uses_high_cut(sample_rate: Single) -> (r: bool)
    ensures
        r == (Single { bits: 0x47ac_4400 }).le(sample_rate),
{
    (Single { bits: HIGH_RATE_BITS }).at_most(sample_rate)
}

/// The settings that the mono floor's filter was made for.
#[derive(Clone, Copy)]
pub struct FloorCache {
    pub freq: Single,
    pub sample_rate: Single,
}

/// Whether the filter of the mono floor has to be made anew: the floor or the
/// sample rate has changed, and the floor is on.
pub open spec fn floor_is_stale(c: FloorCache, freq: Single, sample_rate: Single) -> bool {
    (!freq.equals(c.freq) || !sample_rate.equals(c.sample_rate)) && (Single { bits: ONE_BITS }).lt(freq)
}

impl FloorCache {
    /// Takes the floor and the sample rate of a block, and says whether the
    /// filter has to be made anew.
    pub fn update(&mut self, freq: Single, sample_rate: Single) -> (r: bool)
        ensures
            r == floor_is_stale(*old(self), freq, sample_rate),
            r <==> (!freq.equals(old(self).freq) || !sample_rate.equals(old(self).sample_rate))
                && (Single { bits: 0x3f80_0000 }).lt(freq),
            final(self).freq == if r {
                freq
            } else {
                old(self).freq
            },
            final(self).sample_rate == if sample_rate.equals(old(self).sample_rate) {
                old(self).sample_rate
            } else {
                sample_rate
            },
    {
        let rate_changed: bool = !sample_rate.same(self.sample_rate);
        if rate_changed {
            self.sample_rate = sample_rate;
        }
        if (!freq.same(self.freq) || rate_changed) && freq.above(Single { bits: ONE_BITS }) {
            self.freq = freq;
            true
        } else {
            false
        }
    }
}

// ─── Listening ───────────────────────────────────────────────────────────────

/// What a block does to the listening analysis.
#[derive(Clone, Copy, PartialEq, Eq, Structural)]
pub enum ListenStep {
    /// Add the block to it.
    Accumulate,
    /// Forget it.
    Forget,
    /// Nothing.
    Idle,
}

/// For how many samples the plugin has listened.
pub struct Listening {
    pub samples: u64,
}

impl Listening {
    /// Takes a block of `n` samples, during which the plugin listens or not. It
    /// forgets what it has heard once it no longer listens.
    pub fn step(&mut self, listens: bool, n: usize) -> (r: ListenStep)
        requires
            old(self).samples + n <= u64::MAX,
        ensures
            r == if listens {
                ListenStep::Accumulate
            } else if old(self).samples > 0 {
                ListenStep::Forget
            } else {
                ListenStep::Idle
            },
            final(self).samples == if listens {
                (old(self).samples + n) as u64
            } else {
                0
            },
    {
        if listens {
            self.samples = self.samples + n as u64;
            ListenStep::Accumulate
        } else if self.samples > 0 {
            self.samples = 0;
            ListenStep::Forget
        } else {
            ListenStep::Idle
        }
    }
}

/// A hundred samples.
pub const HUNDRED_BITS: u32 = 0x42c8_0000;

/// Whether the plugin has listened for long enough that the result can be applied.
pub fn listen_is_ready(samples: Single) -> (r: bool)
    ensures
        r == (Single { bits: 0x42c8_0000 }).lt(samples),
{
    samples.above(Single { bits: HUNDRED_BITS })
}

// ─── Loudness ────────────────────────────────────────────────────────────────

/// The power below which a signal counts as silence, 1e-9.
pub const QUIET_POWER_BITS: u32 = 0x3089_705f;

/// Whether the automatic gain follows the ratio of the powers of a block; else
/// it is taken back.
pub fn auto_gain_follows(on: bool, samples: usize, power_in: Single, power_out: Single) -> (r: bool)
    ensures
        r == (on && samples > 0 && (Single { bits: 0x3089_705f }).lt(power_out) && (Single {
            bits: 0x3089_705f,
        }).lt(power_in)),
{
    let quiet = Single { bits: QUIET_POWER_BITS };
    on && samples > 0 && power_out.above(quiet) && power_in.above(quiet)
}

/// What a block does to a loudness measurement.
#[derive(Clone, Copy, PartialEq, Eq, Structural)]
pub struct LoudStep {
    /// The measurement starts: the meters are reset.
    pub starts: bool,
    /// The block is fed to the meters.
    pub feeds: bool,
}

/// What a block does at first: a measurement that was asked for starts, and one
/// that ran when the block began goes on.
pub fn loud_step(asked: bool, measuring: bool) -> (r: LoudStep)
    ensures
        r.starts == asked,
        r.feeds == measuring,
{
    LoudStep { starts: asked, feeds: measuring }
}

/// Whether a measurement ends with the block: it is fed, and has run for long enough.
pub fn loud_ends(feeds: bool, samples: u64, target: u64) -> (r: bool)
    ensures
        r == (feeds && samples >= target),
{
    feeds && samples >= target
}

/// Whether a measurement runs after the block.
pub fn loud_runs(measuring: bool, starts: bool, ends: bool) -> (r: bool)
    ensures
        r == (!ends && (measuring || starts)),
{
    !ends && (measuring || starts)
}

/// The deepest cut that a loudness measurement asks for, -24 dB.
pub const DEEPEST_CUT_BITS: u32 = 0xc1c0_0000;

/// The gain that a loudness measurement asks for: what takes the output to the
/// loudness of the input, but no deeper cut than the deepest and no more than
/// leaves the true peak under its ceiling.
pub fn loud_offset(offset: Single, peak_limit: Single) -> (r: Single)
    requires
        (Single { bits: DEEPEST_CUT_BITS }).le(peak_limit),
    ensures
        r == offset.clamped(Single { bits: DEEPEST_CUT_BITS }, peak_limit),
        offset.lt(Single { bits: 0xc1c0_0000 }) ==> r.bits == 0xc1c0_0000,
        peak_limit.lt(offset) ==> r == peak_limit,
        !offset.lt(Single { bits: 0xc1c0_0000 }) && !peak_limit.lt(offset) ==> r == offset,
{
    offset.clamp(Single { bits: DEEPEST_CUT_BITS }, peak_limit)
}

/// The gain stage before mastering: it measures the peak for a while, and then
/// holds the gain that takes it to the target.
#[derive(Clone, Copy)]
pub struct PreMaster {
    pub gain: Single,
    pub active_prev: bool,
    pub measure_peak: Single,
    pub measure_count: u32,
}

impl PreMaster {
    /// The stage after it has been switched: on, it measures anew if it was
    /// off; off, it leaves the signal as it is.
    pub open spec fn switched(self, on: bool) -> PreMaster {
        let one = Single { bits: ONE_BITS };
        if !on {
            PreMaster { gain: one, active_prev: false, ..self }
        } else if self.active_prev {
            self
        } else {
            PreMaster {
                gain: one,
                active_prev: true,
                measure_peak: Single { bits: ZERO_BITS },
                measure_count: 0,
            }
        }
    }

    /// The stage after a block, which counts while it measures.
    pub open spec fn measured(self, block_peak: Single, n: u32, measure_samples: u32) -> PreMaster {
        if self.measure_count < measure_samples {
            PreMaster {
                measure_peak: higher(self.measure_peak, block_peak),
                measure_count: (self.measure_count + n) as u32,
                ..self
            }
        } else {
            self
        }
    }

    /// Whether the measurement is complete and no gain is held yet.
    pub open spec fn is_complete(self, measure_samples: u32) -> bool {
        self.measure_count >= measure_samples && self.gain.equals(Single { bits: ONE_BITS })
    }

    /// The stage once it looks whether the measurement is complete: it then
    /// holds the gain if the peak was above the threshold, and else measures
    /// anew.
    pub open spec fn engaged(self, measure_samples: u32, threshold: Single, gain: Single) -> PreMaster {
        if !self.is_complete(measure_samples) {
            self
        } else if threshold.lt(self.measure_peak) {
            PreMaster { gain, ..self }
        } else {
            PreMaster { measure_peak: Single { bits: ZERO_BITS }, measure_count: 0, ..self }
        }
    }

    /// The stage is off.
    pub fn new() -> (r: PreMaster)
        ensures
            r.gain.bits == 0x3f80_0000,
            r.active_prev == false,
            r.measure_peak.bits == 0,
            r.measure_count == 0,
    {
        PreMaster {
            gain: Single { bits: ONE_BITS },
            active_prev: false,
            measure_peak: Single { bits: ZERO_BITS },
            measure_count: 0,
        }
    }

    /// Takes whether the stage is on, and says whether the held peaks are to be
    /// dropped, as they are when it is switched.
    pub fn switch(&mut self, on: bool) -> (drop_holds: bool)
        ensures
            drop_holds == (on != old(self).active_prev),
            *final(self) == old(self).switched(on),
            final(self).active_prev == on,
            on && old(self).active_prev ==> *final(self) == *old(self),
            !(on && old(self).active_prev) ==> final(self).gain.bits == 0x3f80_0000,
            on && !old(self).active_prev ==> final(self).measure_peak.bits == 0
                && final(self).measure_count == 0,
            !on ==> final(self).measure_peak == old(self).measure_peak && final(self).measure_count
                == old(self).measure_count,
    {
        let was: bool = self.active_prev;
        if on {
            if !was {
                self.measure_peak = Single { bits: ZERO_BITS };
                self.measure_count = 0;
                self.gain = Single { bits: ONE_BITS };
                self.active_prev = true;
            }
        } else {
            self.gain = Single { bits: ONE_BITS };
            self.active_prev = false;
        }
        on != was
    }

    /// Takes the peak of a block of `n` samples.
    pub fn measure(&mut self, block_peak: Single, n: u32, measure_samples: u32)
        requires
            old(self).measure_count < measure_samples ==> old(self).measure_count + n <= u32::MAX,
        ensures
            *final(self) == old(self).measured(block_peak, n, measure_samples),
            final(self).gain == old(self).gain,
            final(self).active_prev == old(self).active_prev,
            old(self).measure_count < measure_samples ==> {
                &&& final(self).measure_count == old(self).measure_count + n
                &&& final(self).measure_peak == if old(self).measure_peak.lt(block_peak) {
                    block_peak
                } else {
                    old(self).measure_peak
                }
            },
            old(self).measure_count >= measure_samples ==> *final(self) == *old(self),
    {
        if self.measure_count < measure_samples {
            if block_peak.above(self.measure_peak) {
                self.measure_peak = block_peak;
            }
            self.measure_count = self.measure_count + n;
        }
    }

    /// Sets the gain once the measurement is complete and no gain is held yet.
    /// Says whether the held peaks are to be dropped.
    pub fn engage(&mut self, measure_samples: u32, threshold: Single, gain: Single) -> (drop_holds: bool)
        ensures
            drop_holds == (old(self).is_complete(measure_samples) && threshold.lt(
                old(self).measure_peak,
            )),
            *final(self) == old(self).engaged(measure_samples, threshold, gain),
            drop_holds <==> old(self).measure_count >= measure_samples && old(self).gain.equals(
                Single { bits: 0x3f80_0000 },
            ) && threshold.lt(old(self).measure_peak),
            drop_holds ==> *final(self) == (PreMaster { gain, ..*old(self) }),
            !drop_holds ==> final(self).gain == old(self).gain && final(self).active_prev == old(self).active_prev,
            !drop_holds && old(self).measure_count >= measure_samples && old(self).gain.equals(
                Single { bits: 0x3f80_0000 },
            ) ==> final(self).measure_count == 0 && final(self).measure_peak.bits == 0,
            !(old(self).measure_count >= measure_samples && old(self).gain.equals(
                Single { bits: 0x3f80_0000 },
            )) ==> *final(self) == *old(self),
    {
        if self.measure_count >= measure_samples && self.gain.same(Single { bits: ONE_BITS }) {
            if self.measure_peak.above(threshold) {
                self.gain = gain;
                true
            } else {
                self.measure_count = 0;
                self.measure_peak = Single { bits: ZERO_BITS };
                false
            }
        } else {
            false
        }
    }
}

/// A gain that is held stays, whatever the following blocks bring, until the
/// stage is switched off.
pub proof fn law_pre_master_gain_is_held(
    p: PreMaster,
    block_peak: Single,
    n: u32,
    measure_samples: u32,
    threshold: Single,
    gain: Single,
)
    requires
        p.active_prev,
        !p.gain.equals(Single { bits: ONE_BITS }),
    ensures
        p.switched(true) == p,
        p.measured(block_peak, n, measure_samples).engaged(measure_samples, threshold, gain).gain
            == p.gain,
        p.switched(false).gain.bits == ONE_BITS,
{
}

/// A stage that is switched off and on measures anew.
pub proof fn law_pre_master_starts_anew(p: PreMaster)
    ensures
        p.switched(false).switched(true).gain.bits == ONE_BITS,
        p.switched(false).switched(true).measure_peak.bits == ZERO_BITS,
        p.switched(false).switched(true).measure_count == 0,
{
}

} // verus!
