//! The relays as the editor shows them, with the user's toggles.

use crate::peaks::{slot_is_on, RELAY_MASK_DRIVEN};
use crate::registry::copy_list;
use crate::single::Single;
use vstd::prelude::*;

verus! {

/// The number of bins of a spectrum.
pub const SPECTRUM_BINS: usize = 1024;

/// A relay feed: its slot, its name, and its spectrum in dB.
pub struct RelaySlot {
    pub slot: u8,
    pub name: String,
    pub bins: Vec<Single>,
}

/// What a feed holds.
pub struct Feed {
    pub slot: u8,
    pub name: Seq<char>,
    pub bins: Seq<Single>,
}

impl View for RelaySlot {
    type V = Feed;

    open spec fn view(&self) -> Feed {
        Feed { slot: self.slot, name: self.name@, bins: self.bins@ }
    }
}

/// The feeds that a list holds.
pub open spec fn feeds_of(v: Seq<RelaySlot>) -> Seq<Feed> {
    Seq::new(v.len(), |i: int| v[i]@)
}

/// A relay in the editor: its slot, its name, its smoothed spectrum, and
/// whether the user has it switched on.
pub struct RelayUi {
    pub slot: u8,
    pub name: String,
    pub spectrum: Vec<Single>,
    pub active: bool,
}

/// The relays that the editor shows.
pub struct RelayState {
    pub relays: Vec<RelayUi>,
}

/// Where the first relay with the given slot stands, counted from `i`; the
/// number of relays if there is none.
pub open spec fn relay_index(relays: Seq<RelayUi>, slot: u8, i: int) -> int
    decreases relays.len() - i,
{
    if i >= relays.len() {
        relays.len() as int
    } else if relays[i].slot == slot {
        i
    } else {
        relay_index(relays, slot, i + 1)
    }
}

/// Whether the relay with the given slot is switched on; one that is not shown yet is.
pub open spec fn toggle_of(relays: Seq<RelayUi>, slot: u8) -> bool {
    let i = relay_index(relays, slot, 0);
    if i < relays.len() {
        relays[i].active
    } else {
        true
    }
}

/// The spectrum that a feed is blended with: that of the relay with its slot,
/// if it is of full length.
pub open spec fn blend_with(relays: Seq<RelayUi>, slot: u8) -> Option<Seq<Single>> {
    let i = relay_index(relays, slot, 0);
    if i < relays.len() && relays[i].spectrum.len() == SPECTRUM_BINS {
        Some(relays[i].spectrum@)
    } else {
        None
    }
}

/// The bit of a slot.
pub open spec fn slot_bit(slot: u8) -> u32 {
    1u32 << slot
}

/// The bits of the slots of the first `n` relays that are switched on.
pub open spec fn mask_of(relays: Seq<RelayUi>, n: int) -> u32
    decreases n,
{
    if n <= 0 {
        0
    } else if relays[n - 1].active {
        mask_of(relays, n - 1) | slot_bit(relays[n - 1].slot)
    } else {
        mask_of(relays, n - 1)
    }
}

/// Whether a relay with the given slot is switched on.
pub open spec fn is_switched_on(relays: Seq<RelayUi>, slot: u8, n: int) -> bool {
    exists|i: int| 0 <= i < n && (#[trigger] relays[i]).slot == slot && relays[i].active
}

impl Default for RelayState {
    fn default() -> (r: RelayState)
        ensures
            r.relays.len() == 0,
    {
        RelayState { relays: Vec::new() }
    }
}

impl RelayState {
    /// Forgets every relay.
    pub fn clear(&mut self)
        ensures
            final(self).relays.len() == 0,
    {
        self.relays = Vec::new();
    }

    fn find(&self, slot: u8) -> (r: usize)
        ensures
            r == relay_index(self.relays@, slot, 0),
            r <= self.relays.len(),
    {
        let mut i: usize = 0;
        while i < self.relays.len() && self.relays[i].slot != slot
            invariant
                i <= self.relays.len(),
                relay_index(self.relays@, slot, 0) == relay_index(self.relays@, slot, i as int),
            decreases self.relays.len() - i,
        {
            i += 1;
        }
        i
    }

    /// The spectrum that a feed in the given slot is blended with.
    pub fn previous(&self, slot: u8) -> (r: Option<&Vec<Single>>)
        ensures
            match r {
                Some(v) => blend_with(self.relays@, slot) == Some(v@),
                None => blend_with(self.relays@, slot) is None,
            },
            forall|k: int|
                0 <= k < self.relays.len() && (#[trigger] self.relays@[k]).slot == slot && (forall|
                    j: int,
                |
                    0 <= j < k ==> (#[trigger] self.relays@[j]).slot != slot) ==> (r is Some
                    <==> self.relays@[k].spectrum.len() == 1024) && (r is Some ==> (r->0)@
                    == self.relays@[k].spectrum@),
            (forall|k: int| 0 <= k < self.relays.len() ==> (#[trigger] self.relays@[k]).slot != slot)
                ==> r is None,
    {
        proof {
            law_first_relay_of_a_slot(self.relays@, slot, 0);
            assert forall|k: int|
                0 <= k < self.relays.len() && (#[trigger] self.relays@[k]).slot == slot && (forall|
                    j: int,
                |
                    0 <= j < k ==> (#[trigger] self.relays@[j]).slot != slot) implies relay_index(
                self.relays@,
                slot,
                0,
            ) == k by {
                law_first_relay_of_a_slot(self.relays@, slot, k);
            }
        }
        let i: usize = self.find(slot);
        if i < self.relays.len() && self.relays[i].spectrum.len() == SPECTRUM_BINS {
            Some(&self.relays[i].spectrum)
        } else {
            None
        }
    }

    /// Shows the given feeds and no others. A relay that was shown keeps the
    /// user's toggle, by its slot, and takes the spectrum that was blended for
    /// it; one that was not, or whose spectrum was not of full length, takes
    /// that of its feed.
    pub fn sync(&mut self, feeds: &Vec<RelaySlot>, blended: Vec<Vec<Single>>)
        requires
            blended.len() == feeds.len(),
        ensures
            final(self).relays.len() == feeds.len(),
            forall|i: int|
                0 <= i < feeds.len() ==> {
                    let r = #[trigger] final(self).relays@[i];
                    &&& r.slot == feeds@[i].slot
                    &&& r.name@ == feeds@[i].name@
                    &&& r.spectrum@ == match blend_with(old(self).relays@, feeds@[i].slot) {
                        Some(_) => blended@[i]@,
                        None => feeds@[i].bins@,
                    }
                    &&& r.active == toggle_of(old(self).relays@, feeds@[i].slot)
                },
            forall|i: int|
                0 <= i < feeds.len() && (forall|k: int|
                    0 <= k < old(self).relays.len() ==> (#[trigger] old(self).relays@[k]).slot
                        != feeds@[i].slot) ==> (#[trigger] final(self).relays@[i]).active == true
                    && final(self).relays@[i].spectrum@ == feeds@[i].bins@,
            forall|i: int, k: int|
                0 <= i < feeds.len() && 0 <= k < old(self).relays.len() && (
                #[trigger] old(self).relays@[k]).slot == feeds@[i].slot && (forall|j: int|
                    0 <= j < k ==> (#[trigger] old(self).relays@[j]).slot != feeds@[i].slot) ==> {
                    let r = #[trigger] final(self).relays@[i];
                    &&& r.active == old(self).relays@[k].active
                    &&& r.spectrum@ == if old(self).relays@[k].spectrum.len() == 1024 {
                        blended@[i]@
                    } else {
                        feeds@[i].bins@
                    }
                },
    {
        let mut relays: Vec<RelayUi> = Vec::new();
        let mut blended = blended;
        let ghost all = blended@;
        let mut spectra: Vec<Vec<Single>> = Vec::new();
        while blended.len() > 0
            invariant
                spectra.len() + blended.len() == all.len(),
                blended@ == all.take(blended.len() as int),
                forall|j: int|
                    0 <= j < spectra.len() ==> #[trigger] spectra@[j] == all[all.len() - 1 - j],
            decreases blended.len(),
        {
            let ghost had = blended@;
            let last = blended.pop();
            if let Some(s) = last {
                assert(s == had.last());
                spectra.push(s);
            }
            assert(blended@ == all.take(blended.len() as int));
        }
        let mut i: usize = 0;
        while i < feeds.len()
            invariant
                i <= feeds.len(),
                *self == *old(self),
                relays.len() == i,
                all.len() == feeds.len(),
                spectra.len() == feeds.len() - i,
                forall|j: int|
                    0 <= j < spectra.len() ==> #[trigger] spectra@[j] == all[all.len() - 1 - j],
                forall|j: int|
                    0 <= j < i ==> {
                        let r = #[trigger] relays@[j];
                        &&& r.slot == feeds@[j].slot
                        &&& r.name@ == feeds@[j].name@
                        &&& r.spectrum@ == match blend_with(self.relays@, feeds@[j].slot) {
                            Some(_) => all[j]@,
                            None => feeds@[j].bins@,
                        }
                        &&& r.active == toggle_of(self.relays@, feeds@[j].slot)
                    },
            decreases feeds.len() - i,
        {
            let f = &feeds[i];
            let at: usize = self.find(f.slot);
            let active: bool = if at < self.relays.len() {
                self.relays[at].active
            } else {
                true
            };
            let ghost had = spectra@;
            if let Some(ready) = spectra.pop() {
                assert(ready == had[had.len() - 1]);
                assert(ready == all[i as int]);
                let blends: bool = at < self.relays.len() && self.relays[at].spectrum.len()
                    == SPECTRUM_BINS;
                let spectrum: Vec<Single> = if blends {
                    ready
                } else {
                    copy_list(&f.bins)
                };
                relays.push(RelayUi { slot: f.slot, name: f.name.clone(), spectrum, active });
            }
            i += 1;
        }
        proof {
            assert forall|i: int, k: int|
                0 <= i < feeds.len() && 0 <= k < self.relays.len() && (
                #[trigger] self.relays@[k]).slot == feeds@[i].slot && (forall|j: int|
                    0 <= j < k ==> (#[trigger] self.relays@[j]).slot != feeds@[i].slot) implies {
                let r = #[trigger] relays@[i];
                &&& r.active == self.relays@[k].active
                &&& r.spectrum@ == if self.relays@[k].spectrum.len() == 1024 {
                    all[i]@
                } else {
                    feeds@[i].bins@
                }
            } by {
                law_first_relay_of_a_slot(self.relays@, feeds@[i].slot, k);
            }
            assert forall|i: int|
                0 <= i < feeds.len() && (forall|k: int|
                    0 <= k < self.relays.len() ==> (#[trigger] self.relays@[k]).slot
                        != feeds@[i].slot) implies (#[trigger] relays@[i]).active == true
                && relays@[i].spectrum@ == feeds@[i].bins@ by {
                law_first_relay_of_a_slot(self.relays@, feeds@[i].slot, 0);
            }
        }
        self.relays = relays;
    }

    /// Switches the relay at position `i` on or off.
    pub fn set_active(&mut self, i: usize, active: bool)
        requires
            i < old(self).relays.len(),
        ensures
            final(self).relays.len() == old(self).relays.len(),
            final(self).relays@[i as int].slot == old(self).relays@[i as int].slot,
            final(self).relays@[i as int].name@ == old(self).relays@[i as int].name@,
            final(self).relays@[i as int].spectrum == old(self).relays@[i as int].spectrum,
            final(self).relays@[i as int].active == active,
            forall|k: int|
                0 <= k < old(self).relays.len() && k != i ==> #[trigger] final(self).relays@[k] == old(
                    self,
                ).relays@[k],
    {
        self.relays[i].active = active;
    }

    /// The mask of the relays that are switched on: bit `s` for slot `s`.
    pub fn active_mask(&self) -> (r: u32)
        requires
            forall|i: int| 0 <= i < self.relays.len() ==> (#[trigger] self.relays@[i]).slot < 32,
        ensures
            r == mask_of(self.relays@, self.relays.len() as int),
            forall|slot: u8|
                slot < 32 ==> (#[trigger] (r & (1u32 << slot)) != 0 <==> exists|i: int|
                    0 <= i < self.relays.len() && (#[trigger] self.relays@[i]).slot == slot
                        && self.relays@[i].active),
    {
        let mut mask: u32 = 0;
        let mut i: usize = 0;
        while i < self.relays.len()
            invariant
                i <= self.relays.len(),
                forall|i: int| 0 <= i < self.relays.len() ==> (#[trigger] self.relays@[i]).slot < 32,
                mask == mask_of(self.relays@, i as int),
            decreases self.relays.len() - i,
        {
            if self.relays[i].active {
                assert(self.relays@[i as int].slot < 32);
                mask = mask | (1u32 << self.relays[i].slot);
            }
            i += 1;
        }
        proof {
            assert forall|slot: u8| slot < 32 implies (#[trigger] (mask & (1u32 << slot)) != 0
                <==> exists|i: int|
                0 <= i < self.relays.len() && (#[trigger] self.relays@[i]).slot == slot
                    && self.relays@[i].active) by {
                law_mask_reflects_toggles(self.relays@, slot, self.relays.len() as int);
            }
        }
        mask
    }

    /// The mask that the editor drives: that of the relays that are switched
    /// on, in force even if none is.
    pub fn driven_mask(&self) -> (r: u32)
        requires
            forall|i: int| 0 <= i < self.relays.len() ==> (#[trigger] self.relays@[i]).slot < 32,
        ensures
            r == mask_of(self.relays@, self.relays.len() as int) | RELAY_MASK_DRIVEN,
            r == mask_of(self.relays@, self.relays.len() as int) | 0x8000_0000,
    {
        self.active_mask() | RELAY_MASK_DRIVEN
    }
}

/// Bit `slot` of the mask is set if and only if a relay with that slot is
/// switched on.
pub proof fn law_mask_reflects_toggles(relays: Seq<RelayUi>, slot: u8, n: int)
    requires
        0 <= n <= relays.len(),
        slot < 32,
        forall|i: int| 0 <= i < relays.len() ==> (#[trigger] relays[i]).slot < 32,
    ensures
        (mask_of(relays, n) & slot_bit(slot) != 0) <==> is_switched_on(relays, slot, n),
    decreases n,
{
    if n > 0 {
        law_mask_reflects_toggles(relays, slot, n - 1);
        let m = mask_of(relays, n - 1);
        let a = relays[n - 1].slot;
        assert((m | (1u32 << a)) & (1u32 << slot) != 0 <==> (m & (1u32 << slot) != 0 || a == slot))
            by (bit_vector)
            requires
                a < 32,
                slot < 32,
        ;
    } else {
        assert(0u32 & (1u32 << slot) == 0) by (bit_vector);
    }
}

/// With the mask that the editor drives, a relay takes part in the analysis if
/// and only if it is switched on.
pub proof fn law_driven_mask_selects_relays(relays: Seq<RelayUi>, slot: u8)
    requires
        slot < 31,
        forall|i: int| 0 <= i < relays.len() ==> (#[trigger] relays[i]).slot < 31,
    ensures
        slot_is_on(mask_of(relays, relays.len() as int) | RELAY_MASK_DRIVEN, slot) <==> is_switched_on(
            relays,
            slot,
            relays.len() as int,
        ),
{
    let m = mask_of(relays, relays.len() as int);
    law_mask_reflects_toggles(relays, slot, relays.len() as int);
    assert((m | 0x8000_0000u32) & 0x8000_0000u32 != 0) by (bit_vector);
    assert((m | 0x8000_0000u32) & (1u32 << slot) == m & (1u32 << slot)) by (bit_vector)
        requires
            slot < 31,
    ;
}

/// A relay that is shown again keeps the user's toggle, by its slot and
/// whatever its name.
pub proof fn law_toggle_survives_sync(before: Seq<RelayUi>, feeds: Seq<RelaySlot>, new: Seq<RelayUi>, i: int)
    requires
        new.len() == feeds.len(),
        forall|k: int|
            0 <= k < feeds.len() ==> (#[trigger] new[k]).slot == feeds[k].slot && new[k].active
                == toggle_of(before, feeds[k].slot),
        0 <= i < feeds.len(),
    ensures
        toggle_of(new, feeds[i].slot) == toggle_of(before, feeds[i].slot),
{
    lemma_relay_index(new, feeds[i].slot, 0, i);
    let k = relay_index(new, feeds[i].slot, 0);
    assert(new[k].slot == feeds[k].slot);
}

proof fn lemma_relay_index(relays: Seq<RelayUi>, slot: u8, from: int, i: int)
    requires
        0 <= from <= i < relays.len(),
        relays[i].slot == slot,
    ensures
        from <= relay_index(relays, slot, from) <= i,
        relays[relay_index(relays, slot, from)].slot == slot,
    decreases i - from,
{
    if relays[from].slot != slot {
        lemma_relay_index(relays, slot, from + 1, i);
    }
}

/// The toggle and the spectrum of a slot are those of the first relay with it: a
/// spectrum that is not of 1024 bins is not blended with. A slot without a relay
/// is on, and there is nothing to blend with.
pub proof fn law_first_relay_of_a_slot(relays: Seq<RelayUi>, slot: u8, k: int)
    ensures
        0 <= k < relays.len() && relays[k].slot == slot && (forall|j: int|
            0 <= j < k ==> (#[trigger] relays[j]).slot != slot) ==> {
            &&& relay_index(relays, slot, 0) == k
            &&& toggle_of(relays, slot) == relays[k].active
            &&& relays[k].spectrum.len() == 1024 ==> blend_with(relays, slot) == Some(
                relays[k].spectrum@,
            )
            &&& relays[k].spectrum.len() != 1024 ==> blend_with(relays, slot) is None
        },
        (forall|j: int| 0 <= j < relays.len() ==> (#[trigger] relays[j]).slot != slot) ==> toggle_of(
            relays,
            slot,
        ) == true && blend_with(relays, slot) is None && relay_index(relays, slot, 0) == relays.len(),
{
    if 0 <= k < relays.len() && relays[k].slot == slot {
        lemma_relay_index(relays, slot, 0, k);
    }
    if forall|j: int| 0 <= j < relays.len() ==> (#[trigger] relays[j]).slot != slot {
        lemma_no_relay(relays, slot, 0);
    }
}

proof fn lemma_no_relay(relays: Seq<RelayUi>, slot: u8, i: int)
    requires
        0 <= i <= relays.len(),
        forall|j: int| 0 <= j < relays.len() ==> (#[trigger] relays[j]).slot != slot,
    ensures
        relay_index(relays, slot, i) == relays.len(),
    decreases relays.len() - i,
{
    if i < relays.len() {
        lemma_no_relay(relays, slot, i + 1);
    }
}

} // verus!
