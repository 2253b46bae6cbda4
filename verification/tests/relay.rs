//! Relays and analyzers: slots, names, targets and what the editor shows.

use lx_plugins::peaks::RELAY_MASK_DRIVEN;
use lx_plugins::relay::{
    fallback_name, first_query, heartbeat_label, heartbeat_needs_slot, heartbeat_slot,
    is_connected, next_query, reconciled_target, retarget, stale_target, status_text, target_at, target_index, target_options, Consumer, HubReply, Publisher, SlotQuery,
};
use lx_plugins::relay_state::{RelaySlot, RelayState, SPECTRUM_BINS};
use lx_plugins::single::Single;

fn feed(slot: u8, name: &str, v: f32) -> RelaySlot {
    RelaySlot {
        slot,
        name: name.to_string(),
        bins: vec![Single::from_bits(v.to_bits()); SPECTRUM_BINS],
    }
}

fn value(s: Single) -> f32 {
    f32::from_bits(s.bits)
}

/// Blends feeds with what is shown, as the editor does before it shows them.
fn sync(ui: &mut RelayState, feeds: &Vec<RelaySlot>) {
    let alpha = 1.0f32 / 6.0;
    let mut blended: Vec<Vec<Single>> = Vec::new();
    for feed in feeds {
        let new = match ui.previous(feed.slot) {
            Some(old) => old
                .iter()
                .zip(feed.bins.iter())
                .map(|(o, n)| Single::from_bits((value(*o) * (1.0 - alpha) + value(*n) * alpha).to_bits()))
                .collect(),
            None => feed.bins.clone(),
        };
        blended.push(new);
    }
    ui.sync(feeds, blended);
}

#[test]
fn sync_relays_applies_ema_smoothing() {
    let mut ui = RelayState::default();
    sync(&mut ui, &vec![feed(0, "Kick", -40.0)]);
    sync(&mut ui, &vec![feed(0, "Kick", -34.0)]);
    let alpha = 1.0 / 6.0;
    let expect = -40.0 * (1.0 - alpha) + -34.0 * alpha;
    assert!(
        (value(ui.relays[0].spectrum[0]) - expect).abs() < 1e-4,
        "EMA α=1/6 expected {expect}, got {}",
        value(ui.relays[0].spectrum[0])
    );
}

#[test]
fn sync_relays_preserves_active_toggle_by_slot() {
    let mut ui = RelayState::default();
    sync(&mut ui, &vec![feed(0, "Kick", -40.0)]);
    ui.relays[0].active = false;

    sync(&mut ui, &vec![feed(0, "Kick Renamed", -30.0)]);
    assert!(!ui.relays[0].active);
    assert_eq!(ui.relays[0].name, "Kick Renamed");
}

#[test]
fn relay_active_mask_reflects_toggles() {
    let mut ui = RelayState::default();
    sync(&mut ui, &vec![feed(0, "A", -90.0), feed(2, "B", -90.0)]);
    ui.relays[0].active = false;
    assert_eq!(ui.active_mask(), 1u32 << 2);
}

#[test]
fn relays_that_are_gone_are_not_shown() {
    let mut ui = RelayState::default();
    sync(&mut ui, &vec![feed(0, "A", -90.0), feed(2, "B", -90.0)]);
    sync(&mut ui, &vec![feed(2, "B", -80.0)]);
    assert_eq!(ui.relays.len(), 1);
    assert!(ui.previous(0).is_none());
    ui.set_active(0, false);
    assert_eq!(ui.active_mask(), 0);
    assert_eq!(ui.driven_mask(), RELAY_MASK_DRIVEN);
    ui.clear();
    assert_eq!(ui.relays.len(), 0);
}

#[test]
fn a_slot_is_claimed_once() {
    let mut p = Publisher::new();
    assert!(p.needs_hub_slot(-1));
    assert!(!p.needs_hub_slot(3));
    assert_eq!(p.claim_slot(-1, 0, None), (-1, 0));
    assert_eq!(p.claim_slot(-1, 0, Some((4, 9))), (4, 9));
    assert_eq!(p.fallback_label, "Relay 5");
    assert_eq!(p.claim_slot(7, 1, None), (4, 9));
    p.published(false);
    assert_eq!(p.claimed_slot, None);
    assert_eq!(p.claim_slot(7, 1, None), (7, 1));
    p.published(true);
    assert_eq!(p.claimed_slot, Some(7));
}

#[test]
fn a_relay_is_called_by_its_name_or_slot() {
    let mut p = Publisher::new();
    assert_eq!(p.label(), "Relay");
    p.claim_slot(0, 0, None);
    assert_eq!(p.label(), "Relay 1");
    let r = p.refresh("Kick".to_string(), "".to_string());
    assert!(r.changed && !r.target_changed);
    assert_eq!(p.label(), "Kick");
    let r = p.refresh("Kick".to_string(), "Bus".to_string());
    assert!(r.changed && r.target_changed);
    let r = p.refresh("Kick".to_string(), "Bus".to_string());
    assert!(!r.changed && !r.target_changed);
    assert_eq!(fallback_name(15), "Relay 16");
    assert_eq!(heartbeat_label("", 2), "Relay 3");
    assert_eq!(heartbeat_label("Snare", 2), "Snare");
}

#[test]
fn resolution_is_throttled() {
    let mut p = Publisher::new();
    assert!(p.resolve_due(0, false));
    p.take_resolution(1000, "Bus".to_string());
    assert_eq!(p.resolved_target, "Bus");
    assert_eq!(p.cached_target, "Bus");
    assert!(!p.resolve_due(1249, false));
    assert!(p.resolve_due(1250, false));
    assert!(p.resolve_due(1001, true));
    // A clock that went back counts as one that has wrapped around.
    assert!(p.resolve_due(999, false));
}

#[test]
fn a_stale_target_is_replaced() {
    assert_eq!(stale_target("", "", "Bus"), None);
    assert_eq!(stale_target("Bus", "Bus", "Bus"), None);
    assert_eq!(stale_target("Old", "Old", "Bus"), Some("Bus".to_string()));
    assert_eq!(stale_target("Old", "Bus", "Bus"), None);
}

#[test]
fn shown_choice_is_the_target() {
    let consumers = vec!["Mix".to_string(), "Drums".to_string()];
    assert_eq!(
        target_options(&consumers),
        vec!["(broadcast)".to_string(), "Mix".to_string(), "Drums".to_string()]
    );
    assert_eq!(target_index(&consumers, "Drums"), 2);
    assert_eq!(target_at(&consumers, 2), "Drums");
    assert_eq!(target_index(&consumers, ""), 0);
    assert_eq!(target_index(&consumers, "Gone"), 0);
    assert_eq!(target_at(&consumers, 0), "");
    assert_eq!(target_at(&consumers, -3), "");
    assert_eq!(target_at(&consumers, 9), "");
}

#[test]
fn connection_and_status() {
    let none: Vec<String> = Vec::new();
    let one = vec!["Mix".to_string()];
    assert!(!is_connected(false, "", &one, true));
    assert!(is_connected(true, "", &one, false));
    assert!(!is_connected(true, "", &none, true));
    assert!(is_connected(true, "Mix", &none, true));
    assert_eq!(status_text(true, false), "connected");
    assert_eq!(status_text(false, true), "no Lucent online");
    assert_eq!(status_text(false, false), "select target");
    assert_eq!(retarget("", &one), Some("Mix".to_string()));
    assert_eq!(retarget("", &none), None);
    assert_eq!(retarget("Mix", &one), None);
    assert_eq!(retarget("Gone", &one), Some("".to_string()));
}

#[test]
fn a_consumer_keeps_its_slot_and_name() {
    let mut c = Consumer::new();
    assert!(c.needs_hub_slot(-1));
    assert!(!c.needs_hub_slot(0));
    assert_eq!(c.ensure_consumer_slot(-1, None), Some(-1));
    assert!(!c.needs_display_name(false));
    assert_eq!(c.ensure_consumer_slot(-1, Some(3)), Some(3));
    assert!(c.needs_display_name(false));
    assert!(c.note_name(Some("Mix".to_string())));
    assert!(!c.note_name(Some("Mix".to_string())));
    assert!(!c.note_name(None));
    c.set_display_name("Mix (4)".to_string());
    assert_eq!(c.cached_display_name, "Mix (4)");
    assert!(!c.needs_display_name(false));
    assert_eq!(c.ensure_consumer_slot(5, None), None);
    assert!(!c.needs_hub_slot(-1));
    let mut wide = Consumer::new();
    assert_eq!(wide.ensure_consumer_slot(300, None), Some(44));
    let mut free = Consumer::new();
    free.note_name(Some("Bus".to_string()));
    free.set_display_name("made".to_string());
    assert_eq!(free.cached_display_name, "Bus");
}

#[test]
fn three_questions_settle_the_slot() {
    let q = first_query(-1);
    assert!(q == SlotQuery::Claim);
    let q = next_query(q, HubReply::Slot(Some(2)));
    assert!(q == SlotQuery::IsLive(2));
    let q = next_query(q, HubReply::Live(false));
    assert!(q == SlotQuery::Reclaim);
    assert!(next_query(q, HubReply::Slot(Some(6))) == SlotQuery::Publish(6));
    assert!(next_query(q, HubReply::Slot(None)) == SlotQuery::GiveUp);
    assert!(next_query(SlotQuery::Claim, HubReply::Absent) == SlotQuery::GiveUp);
    assert!(first_query(4) == SlotQuery::IsLive(4));
    assert!(next_query(SlotQuery::IsLive(4), HubReply::Live(true)) == SlotQuery::Publish(4));
    assert!(next_query(SlotQuery::GiveUp, HubReply::Slot(Some(1))) == SlotQuery::GiveUp);
}

#[test]
fn the_heartbeat_keeps_the_shared_slot() {
    assert!(heartbeat_needs_slot(-1));
    assert!(!heartbeat_needs_slot(0));
    assert_eq!(heartbeat_slot(3, 7, None), Some((3, 7)));
    assert_eq!(heartbeat_slot(-1, 7, Some((5, 8))), Some((5, 8)));
    assert_eq!(heartbeat_slot(-1, 7, None), None);
}

#[test]
fn a_resolved_target_is_taken_over() {
    assert_eq!(reconciled_target("Mix", Some("Mix".to_string())), None);
    assert_eq!(reconciled_target("Hub 1", Some("Mix".to_string())), Some("Mix".to_string()));
    assert_eq!(reconciled_target("Gone", None), Some("".to_string()));
    assert_eq!(reconciled_target("", None), None);
}

#[test]
fn a_new_relay_shows_its_own_spectrum() {
    let mut ui = RelayState::default();
    let silent = vec![Single::from_bits((-90.0f32).to_bits()); SPECTRUM_BINS];
    ui.sync(&vec![feed(0, "Kick", -40.0)], vec![silent.clone()]);
    assert_eq!(value(ui.relays[0].spectrum[7]), -40.0);
    ui.sync(&vec![feed(0, "Kick", -30.0), feed(1, "Bass", -20.0)], vec![silent.clone(), silent]);
    assert_eq!(value(ui.relays[0].spectrum[7]), -90.0);
    assert_eq!(value(ui.relays[1].spectrum[7]), -20.0);
}
