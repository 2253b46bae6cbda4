//! Scans that run in the background, and what the editor takes over from them.

use vstd::prelude::*;

verus! {

/// The result of the last background scan, and whether it has come since the
/// editor looked last.
pub struct PendingPresets<T> {
    pub ready: bool,
    pub generation: u32,
    pub presets: Option<(u32, Vec<T>)>,
}

impl<T> PendingPresets<T> {
    /// No scan has been asked for.
    pub fn new() -> (r: PendingPresets<T>)
        ensures
            r.ready == false,
            r.generation == 0,
            r.presets is None,
    {
        PendingPresets { ready: false, generation: 0, presets: None }
    }

    /// Starts a new generation of scans, and gives its number. What earlier
    /// scans have left is dropped.
    pub fn bump_generation(&mut self) -> (r: u32)
        ensures
            r == next_generation(old(self).generation),
            r == if old(self).generation == 0xffff_ffff {
                0
            } else {
                old(self).generation + 1
            },
            final(self).generation == r,
            final(self).ready == false,
            final(self).presets is None,
    {
        let new: u32 = self.generation.wrapping_add(1);
        self.generation = new;
        self.ready = false;
        self.presets = None;
        new
    }

    /// Leaves the result of a scan that was started in the given generation.
    pub fn complete(&mut self, generation: u32, scanned: Vec<T>)
        ensures
            final(self).ready,
            final(self).generation == old(self).generation,
            final(self).presets == Some((generation, scanned)),
    {
        self.presets = Some((generation, scanned));
        self.ready = true;
    }

    /// The result of a scan to take over, if there is one since the last time
    /// and it was started in the current generation. It stays here until the
    /// next scan.
    pub fn drain(&mut self) -> (r: Option<&Vec<T>>)
        ensures
            final(self).ready == false,
            final(self).generation == old(self).generation,
            final(self).presets == old(self).presets,
            match r {
                Some(scanned) => taken_over(*old(self)) == Some(*scanned),
                None => taken_over(*old(self)) is None,
            },
            r is Some <==> old(self).ready && old(self).presets is Some && (old(self).presets->0).0
                == old(self).generation,
            r is Some ==> *(r->0) == (old(self).presets->0).1,
    {
        let was_ready: bool = self.ready;
        self.ready = false;
        match &self.presets {
            Some((generation, scanned)) => if was_ready && *generation == self.generation {
                Some(scanned)
            } else {
                None
            },
            None => None,
        }
    }
}

/// The generation after another.
pub open spec fn next_generation(generation: u32) -> u32 {
    if generation == u32::MAX {
        0
    } else {
        (generation + 1) as u32
    }
}

/// What is taken over from a scan.
pub open spec fn taken_over<T>(p: PendingPresets<T>) -> Option<Vec<T>> {
    match p.presets {
        Some((generation, scanned)) => if p.ready && generation == p.generation {
            Some(scanned)
        } else {
            None
        },
        None => None,
    }
}

/// A scan of the generation before is not taken over, and one of the current
/// generation is.
pub proof fn law_only_current_scans_are_taken_over<T>(before: u32, scanned: Vec<T>)
    ensures
        taken_over(
            (PendingPresets {
                ready: true,
                generation: next_generation(before),
                presets: Some((before, scanned)),
            }),
        ) is None,
        taken_over(
            (PendingPresets {
                ready: true,
                generation: next_generation(before),
                presets: Some((next_generation(before), scanned)),
            }),
        ) == Some(scanned),
{
}

/// A result is taken over once: it stays, but is no longer new.
pub proof fn law_scan_is_taken_over_once<T>(before: PendingPresets<T>, after: PendingPresets<T>)
    requires
        after.ready == false,
        after.generation == before.generation,
        after.presets == before.presets,
    ensures
        taken_over(after) is None,
{
}

/// A result is taken over just when it is new and was started in the current
/// generation, whatever the generation.
pub proof fn law_stale_scans_are_not_taken_over<T>(p: PendingPresets<T>)
    ensures
        taken_over(p) is Some <==> p.ready && p.presets is Some && (p.presets->0).0 == p.generation,
        taken_over(p) is Some ==> taken_over(p) == Some((p.presets->0).1),
{
}

} // verus!
