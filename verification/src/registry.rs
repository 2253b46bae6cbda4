//! What each plugin instance has published, by the instance's key.

use crate::peaks::AttributedPeak;
use crate::relay_state::{feeds_of, Feed, RelaySlot};
use crate::single::Single;
use std::collections::HashMap;
use vstd::prelude::*;

verus! {

broadcast use vstd::std_specs::hash::group_hash_axioms;

/// How many relay feeds are published.
pub const MAX_RELAY_SLOTS: usize = 8;

/// The resonances of an instance: those of its own bus, and those of the relays
/// together.
pub struct ResonanceLists {
    pub own: Vec<(usize, Single)>,
    pub relay: Vec<AttributedPeak>,
}

/// The items of a list once more.
pub fn copy_list<T: Copy>(src: &Vec<T>) -> (r: Vec<T>)
    ensures
        r@ == src@,
{
    let mut r: Vec<T> = Vec::new();
    let mut i: usize = 0;
    while i < src.len()
        invariant
            i <= src.len(),
            r@ == src@.take(i as int),
        decreases src.len() - i,
    {
        r.push(src[i]);
        i += 1;
        assert(src@.take(i as int) == src@.take(i - 1).push(src@[i - 1]));
    }
    assert(src@.take(i as int) == src@);
    r
}

/// The first feeds once more, as many as are published.
fn copy_feeds(src: &Vec<RelaySlot>) -> (r: Vec<RelaySlot>)
    ensures
        feeds_of(r@) == first_feeds(feeds_of(src@)),
{
    let n: usize = if src.len() < MAX_RELAY_SLOTS {
        src.len()
    } else {
        MAX_RELAY_SLOTS
    };
    copy_first(src, n)
}

fn copy_first(src: &Vec<RelaySlot>, n: usize) -> (r: Vec<RelaySlot>)
    requires
        n <= src.len(),
    ensures
        feeds_of(r@) == feeds_of(src@).take(n as int),
{
    let mut r: Vec<RelaySlot> = Vec::new();
    let mut i: usize = 0;
    while i < n
        invariant
            i <= n <= src.len(),
            feeds_of(r@) == feeds_of(src@).take(i as int),
        decreases n - i,
    {
        let s = RelaySlot {
            slot: src[i].slot,
            name: src[i].name.clone(),
            bins: copy_list(&src[i].bins),
        };
        let ghost had = r@;
        let ghost f = s@;
        r.push(s);
        i += 1;
        assert(feeds_of(r@) == feeds_of(had).push(f));
        assert(feeds_of(src@).take(i as int) == feeds_of(src@).take(i - 1).push(feeds_of(src@)[i - 1]));
    }
    r
}

/// The feeds that are published of a list.
pub open spec fn first_feeds(feeds: Seq<Feed>) -> Seq<Feed> {
    if feeds.len() < MAX_RELAY_SLOTS {
        feeds
    } else {
        feeds.take(MAX_RELAY_SLOTS as int)
    }
}

/// Everything that the instances have published.
pub struct Findings {
    own_resonance: HashMap<usize, Vec<(usize, Single)>>,
    relay_resonance: HashMap<usize, Vec<AttributedPeak>>,
    masking: HashMap<usize, Vec<AttributedPeak>>,
    relays: HashMap<usize, Vec<RelaySlot>>,
}

impl Findings {
    /// The resonances of an instance's own bus; none before it publishes.
    pub closed spec fn own_resonance_of(&self, key: usize) -> Seq<(usize, Single)> {
        if self.own_resonance@.contains_key(key) {
            self.own_resonance@[key]@
        } else {
            seq![]
        }
    }

    /// The resonances of an instance's relays; none before it publishes.
    pub closed spec fn relay_resonance_of(&self, key: usize) -> Seq<AttributedPeak> {
        if self.relay_resonance@.contains_key(key) {
            self.relay_resonance@[key]@
        } else {
            seq![]
        }
    }

    /// The masking collisions of an instance; none before it publishes.
    pub closed spec fn masking_of(&self, key: usize) -> Seq<AttributedPeak> {
        if self.masking@.contains_key(key) {
            self.masking@[key]@
        } else {
            seq![]
        }
    }

    /// The relay feeds of an instance; none before it publishes.
    pub closed spec fn relays_of(&self, key: usize) -> Seq<Feed> {
        if self.relays@.contains_key(key) {
            feeds_of(self.relays@[key]@)
        } else {
            seq![]
        }
    }

    /// Nothing published.
    pub fn new() -> (r: Findings)
        ensures
            forall|key: usize| #[trigger] r.own_resonance_of(key) == Seq::<(usize, Single)>::empty(),
            forall|key: usize|
                #[trigger] r.relay_resonance_of(key) == Seq::<AttributedPeak>::empty(),
            forall|key: usize| #[trigger] r.masking_of(key) == Seq::<AttributedPeak>::empty(),
            forall|key: usize| #[trigger] r.relays_of(key) == Seq::<Feed>::empty(),
    {
        Findings {
            own_resonance: HashMap::new(),
            relay_resonance: HashMap::new(),
            masking: HashMap::new(),
            relays: HashMap::new(),
        }
    }

    /// Publishes the resonances of an instance in place of those before.
    pub fn publish_resonance(
        &mut self,
        key: usize,
        own: &Vec<(usize, Single)>,
        relay: &Vec<AttributedPeak>,
    )
        ensures
            final(self).own_resonance_of(key) == own@,
            final(self).relay_resonance_of(key) == relay@,
            forall|k: usize| k != key ==> #[trigger] final(self).own_resonance_of(k) == old(self).own_resonance_of(k),
            forall|k: usize| k != key ==> #[trigger] final(self).relay_resonance_of(k) == old(self).relay_resonance_of(k),
            forall|k: usize| #[trigger] final(self).masking_of(k) == old(self).masking_of(k),
            forall|k: usize| #[trigger] final(self).relays_of(k) == old(self).relays_of(k),
    {
        self.own_resonance.insert(key, copy_list(own));
        self.relay_resonance.insert(key, copy_list(relay));
    }

    /// The resonances of an instance.
    pub fn read_resonance(&self, key: usize) -> (r: ResonanceLists)
        ensures
            r.own@ == self.own_resonance_of(key),
            r.relay@ == self.relay_resonance_of(key),
    {
        let own = match self.own_resonance.get(&key) {
            Some(v) => copy_list(v),
            None => Vec::new(),
        };
        let relay = match self.relay_resonance.get(&key) {
            Some(v) => copy_list(v),
            None => Vec::new(),
        };
        ResonanceLists { own, relay }
    }

    /// Forgets the resonances of an instance.
    pub fn remove_resonance(&mut self, key: usize)
        ensures
            final(self).own_resonance_of(key) == Seq::<(usize, Single)>::empty(),
            final(self).relay_resonance_of(key) == Seq::<AttributedPeak>::empty(),
            forall|k: usize| k != key ==> #[trigger] final(self).own_resonance_of(k) == old(self).own_resonance_of(k),
            forall|k: usize| k != key ==> #[trigger] final(self).relay_resonance_of(k) == old(self).relay_resonance_of(k),
            forall|k: usize| #[trigger] final(self).masking_of(k) == old(self).masking_of(k),
            forall|k: usize| #[trigger] final(self).relays_of(k) == old(self).relays_of(k),
    {
        self.own_resonance.remove(&key);
        self.relay_resonance.remove(&key);
    }

    /// Publishes the masking collisions of an instance in place of those before.
    pub fn publish_masking(&mut self, key: usize, peaks: &Vec<AttributedPeak>)
        ensures
            final(self).masking_of(key) == peaks@,
            forall|k: usize| k != key ==> #[trigger] final(self).masking_of(k) == old(self).masking_of(k),
            forall|k: usize| #[trigger] final(self).own_resonance_of(k) == old(self).own_resonance_of(k),
            forall|k: usize| #[trigger] final(self).relay_resonance_of(k) == old(self).relay_resonance_of(k),
            forall|k: usize| #[trigger] final(self).relays_of(k) == old(self).relays_of(k),
    {
        self.masking.insert(key, copy_list(peaks));
    }

    /// The masking collisions of an instance.
    pub fn read_masking(&self, key: usize) -> (r: Vec<AttributedPeak>)
        ensures
            r@ == self.masking_of(key),
    {
        match self.masking.get(&key) {
            Some(v) => copy_list(v),
            None => Vec::new(),
        }
    }

    /// Forgets the masking collisions of an instance.
    pub fn remove_masking(&mut self, key: usize)
        ensures
            final(self).masking_of(key) == Seq::<AttributedPeak>::empty(),
            forall|k: usize| k != key ==> #[trigger] final(self).masking_of(k) == old(self).masking_of(k),
            forall|k: usize| #[trigger] final(self).own_resonance_of(k) == old(self).own_resonance_of(k),
            forall|k: usize| #[trigger] final(self).relay_resonance_of(k) == old(self).relay_resonance_of(k),
            forall|k: usize| #[trigger] final(self).relays_of(k) == old(self).relays_of(k),
    {
        self.masking.remove(&key);
    }

    /// Publishes the first relay feeds of an instance in place of those before.
    pub fn publish_relays(&mut self, key: usize, feeds: &Vec<RelaySlot>)
        ensures
            final(self).relays_of(key) == first_feeds(feeds_of(feeds@)),
            final(self).relays_of(key).len() == if feeds.len() < 8 {
                feeds.len()
            } else {
                8
            },
            forall|i: int|
                0 <= i < final(self).relays_of(key).len() ==> #[trigger] final(self).relays_of(key)[i]
                    == (Feed { slot: feeds@[i].slot, name: feeds@[i].name@, bins: feeds@[i].bins@ }),
            forall|k: usize| k != key ==> #[trigger] final(self).relays_of(k) == old(self).relays_of(k),
            forall|k: usize| #[trigger] final(self).own_resonance_of(k) == old(self).own_resonance_of(k),
            forall|k: usize| #[trigger] final(self).relay_resonance_of(k) == old(self).relay_resonance_of(k),
            forall|k: usize| #[trigger] final(self).masking_of(k) == old(self).masking_of(k),
    {
        self.relays.insert(key, copy_feeds(feeds));
    }

    /// The relay feeds of an instance.
    pub fn read_relays(&self, key: usize) -> (r: Vec<RelaySlot>)
        ensures
            feeds_of(r@) == self.relays_of(key),
    {
        match self.relays.get(&key) {
            Some(v) => {
                let r = copy_first(v, v.len());
                assert(feeds_of(v@).take(v.len() as int) == feeds_of(v@));
                r
            },
            None => {
                let r: Vec<RelaySlot> = Vec::new();
                assert(feeds_of(r@) == Seq::<Feed>::empty());
                r
            },
        }
    }

    /// Forgets the relay feeds of an instance.
    pub fn remove_relays(&mut self, key: usize)
        ensures
            final(self).relays_of(key) == Seq::<Feed>::empty(),
            forall|k: usize| k != key ==> #[trigger] final(self).relays_of(k) == old(self).relays_of(k),
            forall|k: usize| #[trigger] final(self).own_resonance_of(k) == old(self).own_resonance_of(k),
            forall|k: usize| #[trigger] final(self).relay_resonance_of(k) == old(self).relay_resonance_of(k),
            forall|k: usize| #[trigger] final(self).masking_of(k) == old(self).masking_of(k),
    {
        self.relays.remove(&key);
    }
}

} // verus!
