//! Entities, and which are alive.

use umwelt::entity::{EntityId, LiveSet};

#[test]
fn entity_layout_is_transparent() {
    assert_eq!(core::mem::size_of::<EntityId>(), core::mem::size_of::<u32>());
}

#[test]
fn raw_round_trips() {
    assert_eq!(EntityId::from_raw(9001).raw(), 9001);
    assert_eq!(EntityId::from_raw(9001).index(), 9001usize);
}

#[test]
fn ordering_follows_raw_value() {
    assert!(EntityId::from_raw(3) < EntityId::from_raw(4));
}

fn set(of: &[u32]) -> LiveSet {
    let mut live = LiveSet::new();
    for &n in of {
        live.insert(EntityId::from_raw(n));
    }
    live
}

fn walked(live: &LiveSet) -> Vec<u32> {
    live.iter().collect().iter().map(|id| id.raw()).collect()
}

#[test]
fn iter_yields_nothing_when_nothing_is_live() {
    assert!(walked(&LiveSet::new()).is_empty());
}

#[test]
fn iter_yields_live_entities_in_ascending_order() {
    assert_eq!(walked(&set(&[5, 0, 63, 64, 200])), vec![0, 5, 63, 64, 200]);
}

#[test]
fn iter_skips_a_long_run_of_dead_ids() {
    // One live entity either side of 10,000 dead ones.
    let mut live = set(&[0, 10_001]);
    assert_eq!(walked(&live), vec![0, 10_001]);
    live.remove(EntityId::from_raw(0));
    assert_eq!(walked(&live), vec![10_001]);
}

#[test]
fn iter_follows_removals() {
    let mut live = set(&[1, 2, 3, 64, 65]);
    live.remove(EntityId::from_raw(2));
    live.remove(EntityId::from_raw(64));
    assert_eq!(walked(&live), vec![1, 3, 65]);
}

#[test]
fn iter_yields_a_full_word() {
    let live = set(&(0..64).collect::<Vec<u32>>());
    assert_eq!(walked(&live), (0..64).collect::<Vec<u32>>());
}

#[test]
fn iter_agrees_with_contains_across_every_id() {
    // The property the two walks in `snapshot` and `odometer` rely on.
    let mut live = LiveSet::new();
    for n in 0..1_000u32 {
        if n % 7 == 0 || n % 11 == 0 {
            live.insert(EntityId::from_raw(n));
        }
    }
    live.insert(EntityId::from_raw(4_000));
    for n in 0..500u32 {
        if n % 3 == 0 {
            live.remove(EntityId::from_raw(n));
        }
    }
    let by_contains: Vec<u32> = (0..live.id_space() as u32)
        .filter(|&n| live.contains(EntityId::from_raw(n)))
        .collect();
    assert_eq!(walked(&live), by_contains);
    assert_eq!(walked(&live).len(), live.live());
}

#[test]
fn iter_counts_what_live_reports() {
    let mut live = set(&(0..300).collect::<Vec<u32>>());
    for n in (0..300).step_by(2) {
        live.remove(EntityId::from_raw(n));
    }
    assert_eq!(walked(&live).len(), live.live());
}

fn id(n: u32) -> EntityId {
    EntityId::from_raw(n)
}

#[test]
fn insert_then_contains() {
    let mut s = LiveSet::new();
    s.insert(id(0));
    s.insert(id(63));
    s.insert(id(64));
    s.insert(id(1000));
    for n in [0, 63, 64, 1000] {
        assert!(s.contains(id(n)), "entity {n} should be live");
    }
    assert!(!s.contains(id(1)));
    assert!(!s.contains(id(999)));
    assert_eq!(s.live(), 4);
    assert_eq!(s.id_space(), 1001);
}

#[test]
fn remove_clears_one_bit_only() {
    let mut s = LiveSet::new();
    for n in 0..128 {
        s.insert(id(n));
    }
    s.remove(id(64));
    assert!(!s.contains(id(64)));
    assert!(s.contains(id(63)));
    assert!(s.contains(id(65)));
    assert_eq!(s.live(), 127);
}

#[test]
fn id_space_does_not_shrink_on_remove() {
    let mut s = LiveSet::new();
    s.insert(id(500));
    s.remove(id(500));
    assert_eq!(s.live(), 0);
    assert_eq!(s.id_space(), 501, "an id must stay valid for its entity's lifetime");
}

#[test]
fn repeated_operations_do_not_double_count() {
    let mut s = LiveSet::new();
    s.insert(id(7));
    s.insert(id(7));
    assert_eq!(s.live(), 1);
    s.remove(id(7));
    s.remove(id(7));
    assert_eq!(s.live(), 0);
}

#[test]
fn absent_ids_are_not_live() {
    let s = LiveSet::new();
    assert!(!s.contains(id(0)));
    assert!(!s.contains(id(9999)));
    assert!(s.is_empty());
}
