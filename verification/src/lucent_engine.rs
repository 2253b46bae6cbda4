//! What Lucent publishes of a frame in each analysis mode.

use crate::peaks::AttributedPeak;
use crate::registry::{first_feeds, Findings};
use crate::relay_state::{feeds_of, Feed, RelaySlot};
use crate::single::Single;
use vstd::prelude::*;

verus! {

/// What is analyzed.
#[derive(Clone, Copy, PartialEq, Eq, Structural)]
pub enum AnalyzeMode {
    /// The own bus alone.
    Own,
    /// The own bus and the relays.
    Both,
    /// The relays alone.
    Relay,
}

/// The mode that a setting stands for.
pub fn analyze_mode(setting: i64) -> (r: AnalyzeMode)
    ensures
        r == if setting == 0 {
            AnalyzeMode::Own
        } else if setting == 1 {
            AnalyzeMode::Both
        } else {
            AnalyzeMode::Relay
        },
{
    match setting {
        0 => AnalyzeMode::Own,
        1 => AnalyzeMode::Both,
        _ => AnalyzeMode::Relay,
    }
}

/// How many samples of a block are analyzed at most.
pub const MAX_BLOCK: usize = 8192;

/// How many samples of a block are analyzed.
pub fn analyzed_samples(n: usize) -> (r: usize)
    ensures
        r == if n < 8192 {
            n
        } else {
            8192
        },
{
    if n < MAX_BLOCK {
        n
    } else {
        MAX_BLOCK
    }
}

/// The level above which a signal is heard, -80 dB.
pub const HEARD_BITS: u32 = 0xc2a0_0000;

/// Whether the mean spectrum is brought up to a frame of the given level: only
/// while a signal is heard.
pub fn updates_mean(level: Single) -> (r: bool)
    ensures
        r == (Single { bits: 0xc2a0_0000 }).lt(level),
{
    level.above(Single { bits: HEARD_BITS })
}

/// What a mode asks of a frame.
#[derive(Clone, Copy, PartialEq, Eq, Structural)]
pub struct FramePlan {
    /// The own bus is searched for resonances.
    pub search_own: bool,
    /// The relays are read, and searched together for resonances.
    pub search_relays: bool,
    /// Masking is computed.
    pub masks: bool,
    /// The own bus takes part in masking.
    pub masks_own: bool,
    /// The own spectrum is shown; else it is shown silent.
    pub shows_own: bool,
}

/// What a mode asks of a frame.
pub fn frame_plan(mode: AnalyzeMode) -> (r: FramePlan)
    ensures
        r.search_own == (mode != AnalyzeMode::Relay),
        r.search_relays == (mode != AnalyzeMode::Own),
        r.masks == (mode != AnalyzeMode::Own),
        r.masks_own == (mode == AnalyzeMode::Both),
        r.shows_own == (mode != AnalyzeMode::Relay),
{
    let own: bool = match mode {
        AnalyzeMode::Relay => false,
        _ => true,
    };
    let relays: bool = match mode {
        AnalyzeMode::Own => false,
        _ => true,
    };
    FramePlan {
        search_own: own,
        search_relays: relays,
        masks: relays,
        masks_own: own && relays,
        shows_own: own,
    }
}

/// Publishes what a frame gave: of the own bus unless only the relays are
/// analyzed, and of the relays and of masking unless only the own bus is. What
/// is not analyzed is published as empty.
pub fn publish_frame(
    findings: &mut Findings,
    key: usize,
    mode: AnalyzeMode,
    own: &Vec<(usize, Single)>,
    group: &Vec<AttributedPeak>,
    masking: &Vec<AttributedPeak>,
    feeds: &Vec<RelaySlot>,
)
    ensures
        final(findings).own_resonance_of(key) == if mode == AnalyzeMode::Relay {
            Seq::empty()
        } else {
            own@
        },
        final(findings).relay_resonance_of(key) == if mode == AnalyzeMode::Own {
            Seq::empty()
        } else {
            group@
        },
        final(findings).masking_of(key) == if mode == AnalyzeMode::Own {
            Seq::empty()
        } else {
            masking@
        },
        final(findings).relays_of(key) == if mode == AnalyzeMode::Own {
            Seq::empty()
        } else {
            first_feeds(feeds_of(feeds@))
        },
        mode == AnalyzeMode::Own ==> final(findings).relays_of(key).len() == 0,
        mode != AnalyzeMode::Own ==> {
            &&& final(findings).relays_of(key).len() == if feeds.len() < 8 {
                feeds.len()
            } else {
                8
            }
            &&& forall|i: int|
                0 <= i < final(findings).relays_of(key).len() ==> #[trigger] final(findings).relays_of(key)[i] == (Feed {
                    slot: feeds@[i].slot,
                    name: feeds@[i].name@,
                    bins: feeds@[i].bins@,
                })
        },
        forall|k: usize| k != key ==> #[trigger] final(findings).own_resonance_of(k) == old(findings).own_resonance_of(k),
        forall|k: usize| k != key ==> #[trigger] final(findings).relay_resonance_of(k) == old(findings).relay_resonance_of(k),
        forall|k: usize| k != key ==> #[trigger] final(findings).masking_of(k) == old(findings).masking_of(k),
        forall|k: usize| k != key ==> #[trigger] final(findings).relays_of(k) == old(findings).relays_of(k),
{
    let no_own: Vec<(usize, Single)> = Vec::new();
    let no_peaks: Vec<AttributedPeak> = Vec::new();
    let no_feeds: Vec<RelaySlot> = Vec::new();
    assert(feeds_of(no_feeds@) == Seq::<Feed>::empty());
    match mode {
        AnalyzeMode::Own => {
            findings.publish_relays(key, &no_feeds);
            findings.publish_resonance(key, own, &no_peaks);
            findings.publish_masking(key, &no_peaks);
        },
        AnalyzeMode::Both => {
            findings.publish_relays(key, feeds);
            findings.publish_resonance(key, own, group);
            findings.publish_masking(key, masking);
        },
        AnalyzeMode::Relay => {
            findings.publish_relays(key, feeds);
            findings.publish_resonance(key, &no_own, group);
            findings.publish_masking(key, masking);
        },
    }
}

} // verus!
