//! What a viewer has been told of.

use umwelt::entity::EntityId;
use umwelt::ghost::{GhostTable, Record};

use std::collections::HashSet;

fn id(n: u32) -> EntityId {
    EntityId::from_raw(n)
}

/// `n` distinct entity ids, scattered so they do not arrive in table order.
fn scatter(n: usize, seed: u64) -> Vec<u32> {
    let mut s = seed | 1;
    let mut seen = HashSet::new();
    let mut out = Vec::with_capacity(n);
    while out.len() < n {
        s ^= s << 13;
        s ^= s >> 7;
        s ^= s << 17;
        let e = (s % 200_000) as u32;
        if seen.insert(e) {
            out.push(e);
        }
    }
    out
}

#[test]
fn a_ghost_record_is_twelve_bytes() {
    assert_eq!(size_of::<Record>(), 12, "id, mark, and tick with no padding");
}

#[test]
fn an_unknown_entity_has_no_mark() {
    let mut t = GhostTable::new();
    assert_eq!(t.mark(id(7)), None);
    assert_eq!(t.seen(id(7), 1), None);
    assert!(t.is_empty());
}

#[test]
fn being_a_candidate_does_not_create_a_ghost() {
    let mut t = GhostTable::with_capacity(64);
    for tick in 0..10 {
        assert_eq!(t.seen(id(7), tick), None);
    }
    assert_eq!(t.len(), 0, "only a send creates a ghost");
}

#[test]
fn a_sent_entity_reports_its_mark() {
    let mut t = GhostTable::new();
    t.sent(id(7), 4096, 1);
    assert_eq!(t.mark(id(7)), Some(4096));
    assert_eq!(t.seen(id(7), 2), Some(4096));
    assert_eq!(t.len(), 1);
}

#[test]
fn sending_again_moves_the_mark_without_adding_a_ghost() {
    let mut t = GhostTable::new();
    t.sent(id(7), 4096, 1);
    t.sent(id(7), 9000, 2);
    assert_eq!(t.mark(id(7)), Some(9000));
    assert_eq!(t.len(), 1);
}

#[test]
fn growth_preserves_every_ghost() {
    let mut t = GhostTable::new();
    let ids = scatter(1000, 0x51);
    for (n, &e) in ids.iter().enumerate() {
        t.sent(id(e), n as u32, 1);
    }
    assert_eq!(t.len(), ids.len());
    for (n, &e) in ids.iter().enumerate() {
        assert_eq!(t.mark(id(e)), Some(n as u32), "ghost {e} lost across growth");
    }
}

#[test]
fn the_table_stays_at_or_below_half_full() {
    let mut t = GhostTable::new();
    for (n, &e) in scatter(500, 0x52).iter().enumerate() {
        t.sent(id(e), 0, 1);
        assert!(t.slots() >= (n + 1) * 2, "{} slots for {} ghosts", t.slots(), n + 1);
    }
}

#[test]
fn eviction_reports_what_it_drops() {
    let mut t = GhostTable::new();
    t.sent(id(1), 0, 10);
    t.sent(id(2), 0, 10);
    t.sent(id(3), 0, 20);

    let mut gone = Vec::new();
    t.evict(20, 5, &mut gone);
    gone.sort_unstable();
    assert_eq!(gone, vec![id(1), id(2)]);
    assert_eq!(t.len(), 1);
    assert_eq!(t.mark(id(3)), Some(0));
    assert_eq!(t.mark(id(1)), None);
}

#[test]
fn a_candidate_survives_eviction() {
    let mut t = GhostTable::new();
    t.sent(id(1), 0, 0);
    for tick in 1..100 {
        t.seen(id(1), tick);
    }
    let mut gone = Vec::new();
    t.evict(99, 5, &mut gone);
    assert!(gone.is_empty(), "a ghost seen every tick must not depart");
    assert_eq!(t.len(), 1);
}

#[test]
fn eviction_leaves_every_survivor_findable() {
    // Catches broken backward-shift deletion, and settles whether one
    // forward pass suffices. A small table makes a probe chain wrapping the
    // end of the table proportionally more likely, so both sizes run.
    //
    // Measured with temporary instrumentation: these 128 configurations
    // wrap the probe scan 24 times, so the case the single-pass argument
    // turns on is exercised rather than assumed.
    for &n in &[30usize, 600] {
        for seed in 0..64u64 {
            let ids = scatter(n, seed);
            let mut t = GhostTable::new();
            for (k, &e) in ids.iter().enumerate() {
                // Two thirds go stale.
                let tick = if k % 3 == 0 { 100 } else { 0 };
                t.sent(id(e), k as u32, tick);
            }
            let live = ids.iter().enumerate().filter(|(k, _)| k % 3 == 0).count();

            let mut gone = Vec::new();
            t.evict(100, 5, &mut gone);

            assert_eq!(t.len(), live, "n {n} seed {seed}: wrong survivor count");
            assert_eq!(
                gone.len(),
                n - live,
                "n {n} seed {seed}: wrong departure count"
            );
            for (k, &e) in ids.iter().enumerate() {
                if k % 3 == 0 {
                    assert_eq!(
                        t.mark(id(e)),
                        Some(k as u32),
                        "n {n} seed {seed}: lost {e}"
                    );
                } else {
                    assert_eq!(t.mark(id(e)), None, "n {n} seed {seed}: kept {e}");
                }
            }
        }
    }
}

#[test]
fn eviction_does_not_shrink_the_allocation() {
    let mut t = GhostTable::new();
    for &e in scatter(300, 0x53).iter() {
        t.sent(id(e), 0, 0);
    }
    let slots = t.slots();
    let mut gone = Vec::new();
    t.evict(100, 5, &mut gone);
    assert_eq!(t.len(), 0);
    assert_eq!(t.slots(), slots, "capacity is a high-water mark");
}

#[test]
fn a_steady_candidate_set_stops_allocating() {
    let mut t = GhostTable::with_capacity(128);
    let ids = scatter(95, 0x54);
    for &e in &ids {
        t.sent(id(e), 0, 0);
    }
    let slots = t.slots();
    for tick in 1..500 {
        for &e in &ids {
            let m = t.seen(id(e), tick).expect("ghost present");
            t.sent(id(e), m + 1, tick);
        }
    }
    assert_eq!(t.slots(), slots, "steady state must not grow");
}

#[test]
fn ghosts_can_be_re_added_after_departing() {
    let mut t = GhostTable::new();
    t.sent(id(42), 111, 0);
    let mut gone = Vec::new();
    t.evict(100, 5, &mut gone);
    assert_eq!(gone, vec![id(42)]);
    t.sent(id(42), 222, 100);
    assert_eq!(t.mark(id(42)), Some(222));
    assert_eq!(t.len(), 1);
}
