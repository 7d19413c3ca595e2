//! How many records a packet holds.

use umwelt::budget::{PacketBudget, DEFAULT_PAYLOAD_BYTES};
use umwelt::codec::RecordCodec;
use umwelt::config::WorldConfig;

fn world(region_m: i32) -> WorldConfig {
    WorldConfig::builder()
        .region_size_m(region_m)
        .vertical_extent_m(1024)
        .horizontal_view_radius_m(256)
        .max_horizontal_speed_m_per_sec(40)
        .tick_hz(20)
        .build()
        .expect("config is valid")
}

fn budget(region_m: i32) -> PacketBudget {
    PacketBudget::new(&RecordCodec::new(&world(region_m)), DEFAULT_PAYLOAD_BYTES)
}

#[test]
fn an_idle_packet_holds_ninety_eight_records() {
    // 1200 - 16 = 1184, and 1184 / 12 = 98.
    let b = budget(4096);
    assert_eq!(b.record_bytes(), 12);
    assert_eq!(b.state_bytes_available(0), 1184);
    assert_eq!(b.max_slots(), 98);
}

#[test]
fn a_full_backlog_leaves_seventy_seven() {
    // 1200 - (16 + 256) = 928, and 928 / 12 = 77.
    let b = budget(4096);
    assert_eq!(b.state_bytes_available(256), 928);
    assert_eq!(b.min_slots(), 77);
}

#[test]
fn the_reserve_is_a_floor_not_a_subtraction() {
    let b = budget(4096);
    assert_eq!(b.slots(0), 98, "no events pending, so state takes everything");
    assert_eq!(b.slots(100), 90, "events take what they have queued");
    assert_eq!(b.slots(256), 77);
    assert_eq!(b.slots(100_000), 77, "a backlog past the reserve waits its turn");
}

#[test]
fn slots_never_rise_as_events_queue() {
    let b = budget(4096);
    let mut last = usize::MAX;
    for pending in 0..600 {
        let s = b.slots(pending);
        assert!(s <= last, "slots rose at {pending} pending bytes");
        last = s;
    }
}

#[test]
fn a_bigger_region_costs_a_slot() {
    // A 16 km region needs 13 bytes per record, so 1184 / 13 = 91.
    let b = budget(16_384);
    assert_eq!(b.record_bytes(), 13);
    assert_eq!(b.max_slots(), 91);
}

#[test]
fn a_packet_too_small_for_a_record_yields_no_slots() {
    let b = PacketBudget::with_overhead(&RecordCodec::new(&world(4096)), 20, 16, 0);
    assert_eq!(b.state_bytes_available(0), 4);
    assert_eq!(b.max_slots(), 0, "four bytes hold no twelve-byte record");
}

#[test]
fn overheads_are_swept_not_fixed() {
    let codec = RecordCodec::new(&world(4096));
    let b = PacketBudget::with_overhead(&codec, 1200, 8, 512);
    assert_eq!(b.max_slots(), (1200 - 8) / 12);
    assert_eq!(b.min_slots(), (1200 - 8 - 512) / 12);
}

#[test]
fn the_budget_is_eight_bytes() {
    // One per viewer, so it rides along with the rest of the per-viewer
    // state rather than sitting behind a pointer.
    assert_eq!(core::mem::size_of::<PacketBudget>(), 8);
}
