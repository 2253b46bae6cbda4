//! How relays and analyzers find each other: slots, names and targets.

use crate::number::{decimal, write_decimal};
use crate::text::{opt_string, same_text, strings, text_of};
use vstd::prelude::*;
use vstd::string::*;

verus! {

/// How long a resolved target stands before it is resolved again, in milliseconds.
pub const RESOLVE_INTERVAL_MS: u64 = 250;

/// The name of a relay that has none.
pub open spec fn relay_name(slot: u8) -> Seq<char> {
    "Relay "@ + decimal((slot + 1) as nat)
}

/// The name of a relay that has none.
pub fn fallback_name(slot: u8) -> (r: String)
    ensures
        r@ == relay_name(slot),
        r@ == "Relay "@ + decimal((slot + 1) as nat),
{
    let mut s: String = "Relay ".to_owned();
    s.append(text_of(&write_decimal(slot as u64 + 1)).as_str());
    s
}

/// The slot that a shared slot number stands for by its lowest eight bits; a
/// negative one stands for none.
pub open spec fn slot_of(shared: i32) -> Option<u8> {
    if shared >= 0 {
        Some((shared % 256) as u8)
    } else {
        None
    }
}

/// The slot that a shared slot number stands for.
fn shared_as_slot(shared: i32) -> (r: Option<u8>)
    ensures
        r == slot_of(shared),
{
    if shared >= 0 {
        let low: u32 = shared as u32 % 256;
        Some(low as u8)
    } else {
        None
    }
}

/// The shared number of a slot.
pub open spec fn shared_slot(slot: Option<u8>) -> i32 {
    match slot {
        Some(s) => s as i32,
        None => -1i32,
    }
}

/// A slot that is shared is read back as the same slot.
pub proof fn law_shared_slot_reads_back(slot: Option<u8>)
    ensures
        slot_of(shared_slot(slot)) == slot,
{
}

// ─── Publisher ───────────────────────────────────────────────────────────────

/// What a relay knows of itself while it publishes.
pub struct Publisher {
    pub claimed_slot: Option<u8>,
    pub claimed_generation: u32,
    pub cached_name: String,
    pub fallback_label: String,
    pub cached_target: String,
    pub resolved_target: String,
    pub last_resolve_ms: Option<u64>,
}

/// What has changed since the last block.
#[derive(Clone, Copy)]
pub struct Refreshed {
    pub changed: bool,
    pub target_changed: bool,
}

/// Whether a target has to be resolved again: when it is forced, when it never
/// was, and when the interval has passed.
pub open spec fn is_resolve_due(last: Option<u64>, now: u64, force: bool) -> bool {
    force || match last {
        Some(last) => elapsed(now, last) >= RESOLVE_INTERVAL_MS,
        None => true,
    }
}

/// The time between two readings of a clock that may wrap around.
pub open spec fn elapsed(now: u64, last: u64) -> int {
    if now >= last {
        now - last
    } else {
        now - last + 0x1_0000_0000_0000_0000
    }
}

impl Publisher {
    /// A relay that has claimed nothing.
    pub fn new() -> (r: Publisher)
        ensures
            r.claimed_slot is None,
            r.claimed_generation == 0,
            r.cached_name@ == ""@,
            r.fallback_label@ == "Relay"@,
            r.cached_target@ == ""@,
            r.resolved_target@ == ""@,
            r.last_resolve_ms is None,
    {
        Publisher {
            claimed_slot: None,
            claimed_generation: 0,
            cached_name: "".to_owned(),
            fallback_label: "Relay".to_owned(),
            cached_target: "".to_owned(),
            resolved_target: "".to_owned(),
            last_resolve_ms: None,
        }
    }

    /// Whether the hub has to be asked for a slot: none is claimed, and none is
    /// shared that could be adopted.
    pub fn needs_hub_slot(&self, shared: i32) -> (r: bool)
        ensures
            r == (self.claimed_slot is None && shared < 0),
    {
        self.claimed_slot.is_none() && shared < 0
    }

    /// Claims a slot, unless one is claimed: the one that is shared, with its
    /// generation, or else the one that the hub gave. Gives what to share.
    pub fn claim_slot(
        &mut self,
        shared: i32,
        shared_generation: u32,
        from_hub: Option<(u8, u32)>,
    ) -> (r: (i32, u32))
        ensures
            ({
                let got = if old(self).claimed_slot is Some {
                    None
                } else {
                    match slot_of(shared) {
                        Some(slot) => Some((slot, shared_generation)),
                        None => from_hub,
                    }
                };
                match got {
                    Some((slot, generation)) => {
                        &&& final(self).claimed_slot == Some(slot)
                        &&& final(self).claimed_generation == generation
                        &&& final(self).fallback_label@ == relay_name(slot)
                    },
                    None => {
                        &&& final(self).claimed_slot == old(self).claimed_slot
                        &&& final(self).claimed_generation == old(self).claimed_generation
                        &&& final(self).fallback_label == old(self).fallback_label
                    },
                }
            }),
            r.0 == shared_slot(final(self).claimed_slot),
            final(self).claimed_slot is None ==> r.0 == -1,
            final(self).claimed_slot is Some ==> r.0 == final(self).claimed_slot->0,
            old(self).claimed_slot is None && 0 <= shared < 256 ==> final(self).claimed_slot == Some(
                shared as u8,
            ) && r == (shared, shared_generation),
            old(self).claimed_slot is None && shared < 0 && from_hub is Some
                ==> final(self).claimed_slot == Some((from_hub->0).0)
                && final(self).claimed_generation == (from_hub->0).1,
            old(self).claimed_slot is Some ==> final(self).claimed_slot == old(self).claimed_slot
                && final(self).claimed_generation == old(self).claimed_generation,
            r.1 == final(self).claimed_generation,
            final(self).cached_name == old(self).cached_name,
            final(self).cached_target == old(self).cached_target,
            final(self).resolved_target == old(self).resolved_target,
            final(self).last_resolve_ms == old(self).last_resolve_ms,
    {
        if self.claimed_slot.is_none() {
            if let Some(slot) = shared_as_slot(shared) {
                self.claimed_slot = Some(slot);
                self.claimed_generation = shared_generation;
                self.fallback_label = fallback_name(slot);
            } else if let Some((slot, generation)) = from_hub {
                self.claimed_slot = Some(slot);
                self.claimed_generation = generation;
                self.fallback_label = fallback_name(slot);
            }
        }
        let shared_now: i32 = match self.claimed_slot {
            Some(s) => s as i32,
            None => -1,
        };
        (shared_now, self.claimed_generation)
    }

    /// Takes the name and the target as they are kept with the session, and says
    /// what has changed.
    pub fn refresh(&mut self, name: String, target: String) -> (r: Refreshed)
        ensures
            r.target_changed == (target@ != old(self).cached_target@),
            r.changed == (name@ != old(self).cached_name@ || r.target_changed),
            final(self).cached_name@ == name@,
            final(self).cached_target@ == target@,
            final(self).claimed_slot == old(self).claimed_slot,
            final(self).claimed_generation == old(self).claimed_generation,
            final(self).fallback_label == old(self).fallback_label,
            final(self).resolved_target == old(self).resolved_target,
            final(self).last_resolve_ms == old(self).last_resolve_ms,
    {
        let name_changed: bool = !same_text(name.as_str(), self.cached_name.as_str());
        if name_changed {
            self.cached_name = name;
        }
        let target_changed: bool = !same_text(target.as_str(), self.cached_target.as_str());
        if target_changed {
            self.cached_target = target;
        }
        Refreshed { changed: name_changed || target_changed, target_changed }
    }

    /// Whether the target has to be resolved again.
    pub fn resolve_due(&self, now_ms: u64, force: bool) -> (r: bool)
        ensures
            r == is_resolve_due(self.last_resolve_ms, now_ms, force),
            force || self.last_resolve_ms is None ==> r,
            !force && self.last_resolve_ms is Some && now_ms >= self.last_resolve_ms->0 ==> (r
                <==> now_ms - self.last_resolve_ms->0 >= 250),
            !force && self.last_resolve_ms is Some && now_ms < self.last_resolve_ms->0 ==> (r
                <==> now_ms + 0x1_0000_0000_0000_0000 - self.last_resolve_ms->0 >= 250),
    {
        if force {
            return true;
        }
        match self.last_resolve_ms {
            Some(last) => {
                let passed: u64 = now_ms.wrapping_sub(last);
                passed >= RESOLVE_INTERVAL_MS
            },
            None => true,
        }
    }

    /// Takes the target that the selected one was resolved to.
    pub fn take_resolution(&mut self, now_ms: u64, resolved: String)
        ensures
            final(self).last_resolve_ms == Some(now_ms),
            final(self).resolved_target@ == resolved@,
            final(self).cached_target@ == resolved@,
            final(self).claimed_slot == old(self).claimed_slot,
            final(self).claimed_generation == old(self).claimed_generation,
            final(self).cached_name == old(self).cached_name,
            final(self).fallback_label == old(self).fallback_label,
    {
        self.last_resolve_ms = Some(now_ms);
        if !same_text(resolved.as_str(), self.cached_target.as_str()) {
            self.cached_target = resolved.clone();
        }
        self.resolved_target = resolved;
    }

    /// The name to publish under: its own, or the one that goes with its slot.
    pub fn label(&self) -> (r: &str)
        ensures
            r@ == if self.cached_name@.len() == 0 {
                self.fallback_label@
            } else {
                self.cached_name@
            },
    {
        if self.cached_name.as_str().is_empty() {
            self.fallback_label.as_str()
        } else {
            self.cached_name.as_str()
        }
    }

    /// Takes whether the hub accepted what was published; a slot that it did not
    /// accept is given up.
    pub fn published(&mut self, accepted: bool)
        ensures
            final(self).claimed_slot == if accepted {
                old(self).claimed_slot
            } else {
                None
            },
            final(self).claimed_generation == old(self).claimed_generation,
            final(self).cached_name == old(self).cached_name,
            final(self).fallback_label == old(self).fallback_label,
            final(self).cached_target == old(self).cached_target,
            final(self).resolved_target == old(self).resolved_target,
            final(self).last_resolve_ms == old(self).last_resolve_ms,
    {
        if !accepted {
            self.claimed_slot = None;
        }
    }
}

/// A target that has just been resolved is not resolved again within the
/// interval, unless that is forced, and is when the interval has passed.
pub proof fn law_resolution_is_throttled(last: u64, now: u64)
    ensures
        is_resolve_due(Some(last), now, true),
        is_resolve_due(Some(last), now, false) <==> elapsed(now, last) >= RESOLVE_INTERVAL_MS,
        now >= last && now - last < RESOLVE_INTERVAL_MS ==> !is_resolve_due(Some(last), now, false),
{
}

/// What a kept target is replaced by when the selected one was resolved to
/// another: the resolved one, unless that is kept already. A selection of
/// nothing replaces nothing.
pub fn stale_target(selected: &str, kept: &str, resolved: &str) -> (r: Option<String>)
    ensures
        match r {
            Some(t) => t@ == resolved@ && selected@.len() > 0 && resolved@ != selected@ && kept@
                != resolved@,
            None => selected@.len() == 0 || resolved@ == selected@ || kept@ == resolved@,
        },
{
    if !selected.is_empty() && !same_text(resolved, selected) && !same_text(kept, resolved) {
        Some(resolved.to_owned())
    } else {
        None
    }
}

/// The name under which the editor keeps a relay alive.
pub fn heartbeat_label(raw: &str, slot: u8) -> (r: String)
    ensures
        r@ == if raw@.len() == 0 {
            relay_name(slot)
        } else {
            raw@
        },
{
    if raw.is_empty() {
        fallback_name(slot)
    } else {
        raw.to_owned()
    }
}

/// Whether the editor has to ask the hub for a slot before it keeps a relay
/// alive: none is shared.
pub fn heartbeat_needs_slot(shared: i32) -> (r: bool)
    ensures
        r == (shared < 0),
{
    shared < 0
}

/// The slot that the editor keeps alive, with its generation: the one that is
/// shared, or else the one that the hub gave. Without either there is none.
pub fn heartbeat_slot(
    shared: i32,
    shared_generation: u32,
    from_hub: Option<(u8, u32)>,
) -> (r: Option<(u8, u32)>)
    ensures
        r == match slot_of(shared) {
            Some(slot) => Some((slot, shared_generation)),
            None => from_hub,
        },
        0 <= shared < 256 ==> r == Some((shared as u8, shared_generation)),
        shared < 0 ==> r == from_hub,
{
    match shared_as_slot(shared) {
        Some(slot) => Some((slot, shared_generation)),
        None => from_hub,
    }
}

// ─── Targets in the editor ───────────────────────────────────────────────────

/// The choices of a target: everyone, and then each consumer.
pub open spec fn options_of(consumers: Seq<Seq<char>>) -> Seq<Seq<char>> {
    seq!["(broadcast)"@] + consumers
}

/// Where a consumer stands in the list, counted from `i`; its length if it does not.
pub open spec fn consumer_index(consumers: Seq<Seq<char>>, name: Seq<char>, i: int) -> int
    decreases consumers.len() - i,
{
    if i >= consumers.len() {
        consumers.len() as int
    } else if consumers[i] == name {
        i
    } else {
        consumer_index(consumers, name, i + 1)
    }
}

/// The choice that stands for a target: the first one for none, and for one
/// that is not there.
pub open spec fn index_of_target(consumers: Seq<Seq<char>>, current: Seq<char>) -> int {
    let i = consumer_index(consumers, current, 0);
    if current.len() == 0 || i >= consumers.len() {
        0
    } else {
        i + 1
    }
}

/// The target that a choice stands for.
pub open spec fn target_of_index(consumers: Seq<Seq<char>>, index: int) -> Seq<char> {
    if 1 <= index <= consumers.len() {
        consumers[index - 1]
    } else {
        ""@
    }
}

/// The choices of a target.
pub fn target_options(consumers: &Vec<String>) -> (r: Vec<String>)
    ensures
        strings(r@) == options_of(strings(consumers@)),
        r.len() == consumers.len() + 1,
        r@[0]@ == "(broadcast)"@,
        forall|k: int| 0 <= k < consumers.len() ==> r@[k + 1]@ == (#[trigger] consumers@[k])@,
{
    let mut r: Vec<String> = Vec::new();
    r.push("(broadcast)".to_owned());
    let mut i: usize = 0;
    while i < consumers.len()
        invariant
            i <= consumers.len(),
            r.len() == i + 1,
            r@[0]@ == "(broadcast)"@,
            forall|k: int| 1 <= k <= i ==> (#[trigger] r@[k])@ == consumers@[k - 1]@,
        decreases consumers.len() - i,
    {
        r.push(consumers[i].clone());
        i += 1;
    }
    assert(strings(r@) == options_of(strings(consumers@)));
    r
}

fn find_consumer(consumers: &Vec<String>, name: &str) -> (r: usize)
    ensures
        r == consumer_index(strings(consumers@), name@, 0),
        r <= consumers.len(),
{
    let mut i: usize = 0;
    let ghost all = strings(consumers@);
    while i < consumers.len() && !same_text(consumers[i].as_str(), name)
        invariant
            i <= consumers.len(),
            all == strings(consumers@),
            consumer_index(all, name@, 0) == consumer_index(all, name@, i as int),
        decreases consumers.len() - i,
    {
        assert(all[i as int] == consumers@[i as int]@);
        i += 1;
    }
    if i < consumers.len() {
        assert(all[i as int] == consumers@[i as int]@);
    }
    i
}

/// The choice that stands for a target.
pub fn target_index(consumers: &Vec<String>, current: &str) -> (r: usize)
    ensures
        r == index_of_target(strings(consumers@), current@),
        r <= consumers.len(),
        current@.len() == 0 ==> r == 0,
        current@.len() > 0 ==> (r == 0 <==> forall|k: int|
            0 <= k < consumers.len() ==> (#[trigger] consumers@[k])@ != current@),
        r > 0 ==> consumers@[r - 1]@ == current@,
        forall|k: int| 0 <= k < r - 1 ==> (#[trigger] consumers@[k])@ != current@,
{
    proof {
        let all = strings(consumers@);
        lemma_consumer_index(all, current@, 0);
        law_first_consumer(all, current@, 0);
        assert forall|k: int| 0 <= k < consumers.len() implies all[k] == (#[trigger] consumers@[k])@ by {}
    }
    if current.is_empty() {
        return 0;
    }
    let i: usize = find_consumer(consumers, current);
    if i < consumers.len() {
        i + 1
    } else {
        0
    }
}

/// The target that a choice stands for. A choice below the first is the first.
pub fn target_at(consumers: &Vec<String>, index: i32) -> (r: String)
    ensures
        r@ == target_of_index(strings(consumers@), index as int),
        1 <= index <= consumers.len() ==> r@ == consumers@[index - 1]@,
        index < 1 || index > consumers.len() ==> r@.len() == 0,
{
    proof {
        reveal_strlit("");
    }
    if index >= 1 {
        let i: usize = (index - 1) as usize;
        if i < consumers.len() {
            assert(strings(consumers@)[i as int] == consumers@[i as int]@);
            return consumers[i].clone();
        }
    }
    "".to_owned()
}

/// Whether a relay reaches an analyzer: when it sends to everyone, if there is
/// one; else if the hub knows its target. Without a hub it reaches none.
pub fn is_connected(hub: bool, current: &str, consumers: &Vec<String>, target_known: bool) -> (r: bool)
    ensures
        r == (hub && if current@.len() == 0 {
            consumers.len() > 0
        } else {
            target_known
        }),
{
    if !hub {
        false
    } else if current.is_empty() {
        consumers.len() > 0
    } else {
        target_known
    }
}

/// The status line of a relay.
pub fn status_text(connected: bool, no_consumers: bool) -> (r: &'static str)
    ensures
        r@ == if connected {
            "connected"@
        } else if no_consumers {
            "no Lucent online"@
        } else {
            "select target"@
        },
{
    if connected {
        "connected"
    } else if no_consumers {
        "no Lucent online"
    } else {
        "select target"
    }
}

/// What a target is replaced by when it was resolved: by what it stands for now
/// if that is another, where one that stands for nothing becomes no target.
pub fn reconciled_target(current: &str, resolved: Option<String>) -> (r: Option<String>)
    ensures
        ({
            let now = match opt_string(resolved) {
                Some(t) => t,
                None => ""@,
            };
            match r {
                Some(t) => t@ == now && now != current@,
                None => now == current@,
            }
        }),
{
    let now: String = match resolved {
        Some(t) => t,
        None => "".to_owned(),
    };
    if same_text(now.as_str(), current) {
        None
    } else {
        Some(now)
    }
}

/// What a target is replaced by when the list of consumers is looked at: no
/// target by the only consumer there is, and one that is gone by none.
pub fn retarget(current: &str, consumers: &Vec<String>) -> (r: Option<String>)
    ensures
        ({
            let all = strings(consumers@);
            match r {
                Some(t) => if current@.len() == 0 {
                    all.len() == 1 && t@ == all[0]
                } else {
                    !all.contains(current@) && t@ == ""@
                },
                None => if current@.len() == 0 {
                    all.len() != 1
                } else {
                    all.contains(current@)
                },
            }
        }),
{
    let ghost all = strings(consumers@);
    if current.is_empty() {
        if consumers.len() == 1 {
            assert(all[0] == consumers@[0]@);
            Some(consumers[0].clone())
        } else {
            None
        }
    } else {
        let i: usize = find_consumer(consumers, current);
        proof {
            lemma_consumer_index(all, current@, 0);
        }
        if i < consumers.len() {
            None
        } else {
            Some("".to_owned())
        }
    }
}

proof fn lemma_consumer_index(consumers: Seq<Seq<char>>, name: Seq<char>, i: int)
    requires
        0 <= i,
    ensures
        consumer_index(consumers, name, i) < consumers.len() ==> {
            let k = consumer_index(consumers, name, i);
            i <= k && consumers[k] == name && consumers.contains(name)
        },
        consumer_index(consumers, name, i) >= consumers.len() ==> forall|k: int|
            i <= k < consumers.len() ==> #[trigger] consumers[k] != name,
        i == 0 && consumer_index(consumers, name, i) >= consumers.len() ==> !consumers.contains(name),
    decreases consumers.len() - i,
{
    if i < consumers.len() && consumers[i] != name {
        lemma_consumer_index(consumers, name, i + 1);
    }
}

/// The choice that is shown for a target that is there stands for that target.
pub proof fn law_shown_choice_is_the_target(consumers: Seq<Seq<char>>, current: Seq<char>)
    requires
        current.len() > 0,
        consumers.contains(current),
    ensures
        target_of_index(consumers, index_of_target(consumers, current)) == current,
        options_of(consumers)[index_of_target(consumers, current)] == current,
{
    lemma_consumer_index(consumers, current, 0);
}

// ─── Consumer ────────────────────────────────────────────────────────────────

/// What an analyzer knows of its place among the consumers.
pub struct Consumer {
    pub claimed_slot: Option<u8>,
    pub display_name_slot: Option<u8>,
    pub cached_name: String,
    pub cached_display_name: String,
}

impl Consumer {
    /// An analyzer that has claimed nothing.
    pub fn new() -> (r: Consumer)
        ensures
            r.claimed_slot is None,
            r.display_name_slot is None,
            r.cached_name@ == ""@,
            r.cached_display_name@ == ""@,
    {
        Consumer {
            claimed_slot: None,
            display_name_slot: None,
            cached_name: "".to_owned(),
            cached_display_name: "".to_owned(),
        }
    }

    /// Whether the hub has to be asked for a slot: none is claimed, and none is
    /// shared that could be adopted.
    pub fn needs_hub_slot(&self, shared: i32) -> (r: bool)
        ensures
            r == (self.claimed_slot is None && shared < 0),
    {
        self.claimed_slot.is_none() && shared < 0
    }

    /// Claims a slot, unless one is claimed: the one that is shared, or else the
    /// one that the hub gave. Gives what to share, if anything was claimed anew
    /// or could not be.
    pub fn ensure_consumer_slot(&mut self, shared: i32, from_hub: Option<u8>) -> (r: Option<i32>)
        ensures
            final(self).claimed_slot == if old(self).claimed_slot is Some {
                old(self).claimed_slot
            } else if shared >= 0 {
                slot_of(shared)
            } else {
                from_hub
            },
            r == if old(self).claimed_slot is Some {
                None
            } else {
                Some(shared_slot(final(self).claimed_slot))
            },
            old(self).claimed_slot is None && 0 <= shared < 256 ==> final(self).claimed_slot == Some(
                shared as u8,
            ) && r == Some(shared),
            old(self).claimed_slot is None && shared < 0 && from_hub is Some ==> r == Some(
                from_hub->0 as i32,
            ),
            old(self).claimed_slot is None && shared < 0 && from_hub is None ==> r == Some(-1i32),
            final(self).display_name_slot == old(self).display_name_slot,
            final(self).cached_name == old(self).cached_name,
            final(self).cached_display_name == old(self).cached_display_name,
    {
        if self.claimed_slot.is_some() {
            return None;
        }
        if shared >= 0 {
            self.claimed_slot = shared_as_slot(shared);
        } else {
            self.claimed_slot = from_hub;
        }
        match self.claimed_slot {
            Some(s) => Some(s as i32),
            None => Some(-1),
        }
    }

    /// Takes the name, where it could be read, and says whether it has changed.
    pub fn note_name(&mut self, name: Option<String>) -> (changed: bool)
        ensures
            changed == (name is Some && name->0@ != old(self).cached_name@),
            final(self).cached_name@ == if changed {
                name->0@
            } else {
                old(self).cached_name@
            },
            final(self).claimed_slot == old(self).claimed_slot,
            final(self).display_name_slot == old(self).display_name_slot,
            final(self).cached_display_name == old(self).cached_display_name,
    {
        if let Some(n) = name {
            if !same_text(n.as_str(), self.cached_name.as_str()) {
                self.cached_name = n;
                return true;
            }
        }
        false
    }

    /// Whether the shown name has to be made anew: the name or the slot has changed.
    pub fn needs_display_name(&self, name_changed: bool) -> (r: bool)
        ensures
            r == (name_changed || self.display_name_slot != self.claimed_slot),
    {
        let slot_changed: bool = match (self.display_name_slot, self.claimed_slot) {
            (Some(a), Some(b)) => a != b,
            (None, None) => false,
            _ => true,
        };
        name_changed || slot_changed
    }

    /// Takes the shown name: the one made for the slot, or without a slot the
    /// name itself.
    pub fn set_display_name(&mut self, made: String)
        ensures
            final(self).display_name_slot == old(self).claimed_slot,
            final(self).cached_display_name@ == if old(self).claimed_slot is Some {
                made@
            } else {
                old(self).cached_name@
            },
            final(self).claimed_slot == old(self).claimed_slot,
            final(self).cached_name == old(self).cached_name,
    {
        self.display_name_slot = self.claimed_slot;
        if self.claimed_slot.is_some() {
            self.cached_display_name = made;
        } else {
            self.cached_display_name = self.cached_name.clone();
        }
    }
}

/// What the editor asks the hub next so that the analyzer has a live slot.
#[derive(Clone, Copy, PartialEq, Eq, Structural)]
pub enum SlotQuery {
    /// Ask for a slot.
    Claim,
    /// Ask whether the slot is live.
    IsLive(u8),
    /// Ask for another slot in place of one that is not live.
    Reclaim,
    /// Nothing more: the slot to publish under.
    Publish(u8),
    /// Nothing more: there is no slot.
    GiveUp,
}

/// What the hub answered.
#[derive(Clone, Copy, PartialEq, Eq, Structural)]
pub enum HubReply {
    /// There is no hub.
    Absent,
    /// The slot that it gave, if it had one.
    Slot(Option<u8>),
    /// Whether the slot is live.
    Live(bool),
}

/// The first question for a shared slot number.
pub open spec fn query_first(shared: i32) -> SlotQuery {
    match slot_of(shared) {
        Some(slot) => SlotQuery::IsLive(slot),
        None => SlotQuery::Claim,
    }
}

/// The first question for a shared slot number.
pub fn first_query(shared: i32) -> (r: SlotQuery)
    ensures
        r == query_first(shared),
        shared < 0 ==> r == SlotQuery::Claim,
        0 <= shared < 256 ==> r == SlotQuery::IsLive(shared as u8),
{
    match shared_as_slot(shared) {
        Some(slot) => SlotQuery::IsLive(slot),
        None => SlotQuery::Claim,
    }
}

/// The question after an answer. A slot that was given is looked at before it
/// is published under; one that is not live is replaced if the hub has another,
/// and given up if not.
pub open spec fn query_after(query: SlotQuery, reply: HubReply) -> SlotQuery {
    match (query, reply) {
        (SlotQuery::Claim, HubReply::Slot(Some(s))) => SlotQuery::IsLive(s),
        (SlotQuery::Claim, _) => SlotQuery::GiveUp,
        (SlotQuery::IsLive(s), HubReply::Live(false)) => SlotQuery::Reclaim,
        (SlotQuery::IsLive(s), _) => SlotQuery::Publish(s),
        (SlotQuery::Reclaim, HubReply::Slot(Some(s))) => SlotQuery::Publish(s),
        (SlotQuery::Reclaim, _) => SlotQuery::GiveUp,
        (q, _) => q,
    }
}

/// The question after an answer.
pub fn next_query(query: SlotQuery, reply: HubReply) -> (r: SlotQuery)
    ensures
        r == query_after(query, reply),
        query == SlotQuery::Claim ==> match reply {
            HubReply::Slot(Some(s)) => r == SlotQuery::IsLive(s),
            _ => r == SlotQuery::GiveUp,
        },
        query is IsLive && reply == HubReply::Live(false) ==> r == SlotQuery::Reclaim,
        query is IsLive && reply != HubReply::Live(false) ==> r == SlotQuery::Publish(query->IsLive_0),
        query == SlotQuery::Reclaim ==> match reply {
            HubReply::Slot(Some(s)) => r == SlotQuery::Publish(s),
            _ => r == SlotQuery::GiveUp,
        },
        query is Publish || query is GiveUp ==> r == query,
{
    match query {
        SlotQuery::Claim => match reply {
            HubReply::Slot(Some(s)) => SlotQuery::IsLive(s),
            _ => SlotQuery::GiveUp,
        },
        SlotQuery::IsLive(s) => match reply {
            HubReply::Live(false) => SlotQuery::Reclaim,
            _ => SlotQuery::Publish(s),
        },
        SlotQuery::Reclaim => match reply {
            HubReply::Slot(Some(s)) => SlotQuery::Publish(s),
            _ => SlotQuery::GiveUp,
        },
        SlotQuery::Publish(s) => SlotQuery::Publish(s),
        SlotQuery::GiveUp => SlotQuery::GiveUp,
    }
}

/// Whether nothing more is asked.
pub open spec fn is_settled(query: SlotQuery) -> bool {
    query is Publish || query is GiveUp
}

/// At most three questions settle under which slot an analyzer publishes.
pub proof fn law_slot_is_settled(shared: i32, a: HubReply, b: HubReply, c: HubReply)
    ensures
        is_settled(query_after(query_after(query_after(query_first(shared), a), b), c)),
{
}

/// A shared number stands for the slot with its lowest eight bits, and a
/// negative one for none.
pub proof fn law_slot_is_the_lowest_bits(shared: i32)
    ensures
        slot_of(shared) is None <==> shared < 0,
        shared >= 0 ==> (shared - slot_of(shared)->0) % 256 == 0,
        0 <= shared < 256 ==> slot_of(shared)->0 == shared,
{
}

/// The time between two readings of a clock is what, added to the earlier one,
/// gives the later, where the clock starts at zero again after 2^64 - 1.
pub proof fn law_elapsed_wraps_around(now: u64, last: u64)
    ensures
        0 <= elapsed(now, last) < 0x1_0000_0000_0000_0000,
        (last + elapsed(now, last)) % 0x1_0000_0000_0000_0000 == now,
{
}

/// A consumer is found at the first position that it has in the list, and not
/// where it has none.
pub proof fn law_first_consumer(consumers: Seq<Seq<char>>, name: Seq<char>, i: int)
    requires
        0 <= i <= consumers.len(),
    ensures
        i <= consumer_index(consumers, name, i) <= consumers.len(),
        consumer_index(consumers, name, i) < consumers.len() ==> consumers[consumer_index(
            consumers,
            name,
            i,
        )] == name,
        forall|k: int| i <= k < consumer_index(consumers, name, i) ==> #[trigger] consumers[k] != name,
    decreases consumers.len() - i,
{
    if i < consumers.len() && consumers[i] != name {
        law_first_consumer(consumers, name, i + 1);
    }
}

/// What is published under is live or was given in place of a slot that is not:
/// a slot that the hub calls dead is asked to be replaced, and without another
/// it is given up.
pub proof fn law_dead_slots_are_not_published(shared: i32, given: Option<u8>)
    requires
        0 <= shared < 256,
    ensures
        ({
            let asked = query_first(shared);
            let dead = query_after(asked, HubReply::Live(false));
            let live = query_after(asked, HubReply::Live(true));
            &&& asked == SlotQuery::IsLive(shared as u8)
            &&& live == SlotQuery::Publish(shared as u8)
            &&& dead == SlotQuery::Reclaim
            &&& given is Some ==> query_after(dead, HubReply::Slot(given)) == SlotQuery::Publish(
                given->0,
            )
            &&& given is None ==> query_after(dead, HubReply::Slot(given)) == SlotQuery::GiveUp
        }),
{
}

/// Without a slot one is claimed, and looked at before it is published under.
pub proof fn law_claimed_slots_are_looked_at(shared: i32, given: Option<u8>, live: bool)
    requires
        shared < 0,
    ensures
        ({
            let asked = query_first(shared);
            let next = query_after(asked, HubReply::Slot(given));
            &&& asked == SlotQuery::Claim
            &&& given is None ==> next == SlotQuery::GiveUp
            &&& given is Some ==> next == SlotQuery::IsLive(given->0)
            &&& given is Some ==> query_after(next, HubReply::Live(live)) == if live {
                SlotQuery::Publish(given->0)
            } else {
                SlotQuery::Reclaim
            }
        }),
{
}

} // verus!
