//! What an edge holds, through everything that happens to it.

use umwelt::config::WorldConfig;
use umwelt::entity::{EntityId, EntityKind};
use umwelt::game::TeleportDecision;
use umwelt::id::{ClientId, EntityHandle, EntityKey, RegionId};
use umwelt::map::{Placement, WorldMap};
use umwelt::net::edge::handle::EdgeHandle;
use umwelt::net::edge::model::{
    Effect, Notice, Outgoing, RegionWorld, Report, TELEPORT_TIMEOUT,
};
use umwelt::net::edge::protocol::{EdgeInfo, FromClient, ToClient};
use umwelt::net::edge::server::{in_datagram, on_stream, span, EdgeServer};
use umwelt::net::error::NetError;
use umwelt::net::region::names::EdgeName;
use umwelt::net::region::protocol::{Presence, Spawn};
use umwelt::net::wire::Cursor;
use umwelt::pos::{Pos3, WorldPos};

type Said = Effect<Vec<u8>>;

fn r(n: u32) -> RegionId {
    RegionId::from_raw(n)
}

fn e(n: u32) -> EntityId {
    EntityId::from_raw(n)
}

fn h(n: u32) -> EntityHandle {
    EntityHandle::from_raw(n)
}

/// Regions 1 and 2 side by side, and region 9 off the map.
fn edge() -> EdgeHandle {
    let mut map = WorldMap::new();
    map.place(r(1), Placement::new(0, 0)).unwrap();
    map.place(r(2), Placement::new(1, 0)).unwrap();
    let mut edge = EdgeHandle::new(map, 7);
    for (region, at) in [(1, Some(Placement::new(0, 0))), (2, Some(Placement::new(1, 0))), (9, None)] {
        let config = WorldConfig::default();
        edge.learn(
            r(region),
            RegionWorld {
                info: EdgeInfo {
                    region: r(region),
                    region_size_m: 4096,
                    vertical_extent_m: 1024,
                    placement: at,
                },
                config,
            },
        );
    }
    edge
}

/// A client with one observer in region 1, which calls it 5.
fn settled() -> (EdgeHandle, ClientId, EntityKey) {
    let mut edge = edge();
    let client = edge.connect();
    let spawn = FromClient::Spawn {
        handle: h(1),
        position: WorldPos::from_meters(2048, 2048, 0),
        kind: EntityKind::observer(0),
    };
    assert!(edge.on_client(client, spawn).is_none());
    let key = edge.named(client, h(1)).expect("just asked for");
    edge.on_presence(r(1), Report::Added { entity: e(5), token: key.raw() });
    edge.take_effects();
    (edge, client, key)
}

#[test]
fn a_spawn_is_asked_for_and_then_answered() {
    let mut edge = edge();
    let client = edge.connect();
    let spawn = FromClient::Spawn {
        handle: h(1),
        position: WorldPos::from_meters(4096 + 10, 20, 3),
        kind: EntityKind::observer(4),
    };
    edge.on_client(client, spawn);
    let key = edge.named(client, h(1)).expect("named at once");
    assert_eq!(
        edge.take_effects(),
        vec![Said::Tell(Outgoing::Spawn(
            r(2),
            Spawn {
                position: Pos3::from_meters(10, 20, 3),
                kind: EntityKind::observer(4),
                token: key.raw()
            },
            key
        ))]
    );
    assert_eq!(edge.entity_id(key), None, "the region has not answered");
    edge.on_presence(r(2), Report::Added { entity: e(8), token: key.raw() });
    assert_eq!(edge.entity_id(key), Some((r(2), e(8))));
    assert_eq!(edge.key_of(r(2), e(8)), Some(key));
    assert_eq!(edge.client_of(key), Some(client));
    assert_eq!(
        edge.take_effects(),
        vec![
            Said::Post(client, ToClient::Spawned { handle: h(1), region: r(2), entity: e(8) }),
            Said::Game(Notice::Spawned(key, Some(client), r(2), e(8))),
        ]
    );
    assert!(edge.take_effects().is_empty(), "said once");
}

#[test]
fn a_handle_cannot_be_spent_twice() {
    let (mut edge, client, key) = settled();
    let again = FromClient::Spawn {
        handle: h(1),
        position: WorldPos::from_meters(1, 1, 0),
        kind: EntityKind::observer(0),
    };
    edge.on_client(client, again);
    assert!(edge.take_effects().is_empty());
    assert_eq!(edge.named(client, h(1)), Some(key));
    assert_eq!(edge.stats().refused, 1);
    assert_eq!(edge.stats().commands, 2);
}

#[test]
fn a_position_off_the_map_is_counted_apart_from_a_refusal() {
    let (mut edge, client, _) = settled();
    let nowhere = FromClient::Spawn {
        handle: h(2),
        position: WorldPos::from_meters(-1, 0, 0),
        kind: EntityKind::observer(0),
    };
    edge.on_client(client, nowhere);
    assert_eq!(edge.stats().off_map, 1);
    assert_eq!(edge.stats().refused, 0);
    assert_eq!(
        edge.spawn(client, WorldPos::from_meters(-1, 0, 0), EntityKind::observer(0)),
        Err(NetError::OffMap)
    );
}

#[test]
fn a_region_off_the_map_is_its_own_frame() {
    let mut edge = edge();
    let key = edge
        .spawn_detached_into(r(9), WorldPos::from_meters(-5, 6, 7), EntityKind::unattended(0))
        .expect("fits");
    let said = edge.take_effects();
    assert!(matches!(
        &said[..],
        [Said::Tell(Outgoing::Spawn(region, spawn, name))]
            if *region == r(9) && spawn.position == Pos3::from_meters(-5, 6, 7) && *name == key
    ));
    assert_eq!(edge.client_of(key), None);
}

#[test]
fn a_move_before_the_answer_is_held_and_the_latest_wins() {
    let mut edge = edge();
    let client = edge.connect();
    let key = edge
        .spawn(client, WorldPos::from_meters(1, 1, 0), EntityKind::observer(0))
        .expect("on the map");
    edge.move_entity(key, WorldPos::from_meters(2, 2, 0));
    edge.move_entity(key, WorldPos::from_meters(3, 3, 0));
    assert!(edge.flush_moves().is_empty(), "there is no id to move yet");
    edge.on_presence(r(1), Report::Added { entity: e(5), token: key.raw() });
    let batches = edge.flush_moves();
    assert_eq!(batches.len(), 1);
    assert_eq!(batches[0].region, r(1));
    assert_eq!(batches[0].items, vec![(e(5), Pos3::from_meters(3, 3, 0))]);
    assert!(edge.flush_moves().is_empty(), "flushed once");
}

#[test]
fn moves_are_published_by_region_latest_only() {
    let (mut edge, _, a) = settled();
    let b = edge
        .spawn_detached(WorldPos::from_meters(5000, 5, 0), EntityKind::unattended(0))
        .expect("on the map");
    edge.on_presence(r(2), Report::Added { entity: e(5), token: b.raw() });
    edge.move_entities(&[
        (a, WorldPos::from_meters(1, 1, 0)),
        (b, WorldPos::from_meters(4100, 9, 0)),
        (a, WorldPos::from_meters(7, 8, 9)),
        (EntityKey::from_raw(12345), WorldPos::from_meters(1, 1, 1)),
    ]);
    let mut batches: Vec<_> =
        edge.flush_moves().into_iter().map(|p| (p.region.raw(), p.items)).collect();
    batches.sort_by_key(|b| b.0);
    assert_eq!(
        batches,
        vec![
            (1, vec![(e(5), Pos3::from_meters(7, 8, 9))]),
            (2, vec![(e(5), Pos3::from_meters(4, 9, 0))]),
        ]
    );
}

#[test]
fn an_entity_given_back_stops_moving_and_goes_when_its_region_says_so() {
    let (mut edge, client, key) = settled();
    edge.move_entity(key, WorldPos::from_meters(1, 1, 0));
    edge.on_client(client, FromClient::Despawn { handle: h(1) });
    assert!(edge.flush_moves().is_empty());
    edge.move_entity(key, WorldPos::from_meters(2, 2, 0));
    assert!(edge.flush_moves().is_empty());
    assert_eq!(edge.take_effects(), vec![Said::Tell(Outgoing::Despawn(r(1), e(5)))]);
    assert!(edge.regions().is_empty(), "nothing live is left there");
    edge.on_presence(r(1), Report::Removed { entity: e(5) });
    assert_eq!(
        edge.take_effects(),
        vec![
            Said::Post(client, ToClient::Removed { handle: h(1) }),
            Said::Game(Notice::Removed(key, Some(client))),
        ]
    );
    assert_eq!(edge.client_of(key), None);
    assert_eq!(edge.stats().observers, 0);
}

#[test]
fn an_answer_to_a_forgotten_request_is_given_straight_back() {
    let mut edge = edge();
    let key = edge
        .spawn_detached(WorldPos::from_meters(1, 1, 0), EntityKind::unattended(0))
        .expect("on the map");
    edge.despawn(key);
    edge.take_effects();
    edge.on_presence(r(1), Report::Added { entity: e(3), token: key.raw() });
    assert_eq!(edge.take_effects(), vec![Said::Tell(Outgoing::Despawn(r(1), e(3)))]);
}

#[test]
fn a_client_cannot_touch_what_is_not_its_own() {
    let (mut edge, _, key) = settled();
    let other = edge.connect();
    edge.on_client(other, FromClient::Despawn { handle: h(1) });
    edge.on_client(
        other,
        FromClient::Move { handle: h(1), position: WorldPos::from_meters(9, 9, 0) },
    );
    edge.on_client(other, FromClient::EntityMessage { handle: h(1), body: vec![1] });
    assert!(edge.take_effects().is_empty());
    assert!(edge.flush_moves().is_empty());
    assert_eq!(edge.stats().refused, 3);
    assert_eq!(edge.entity_id(key), Some((r(1), e(5))));
}

#[test]
fn disconnected_comes_when_the_last_entity_is_gone() {
    let (mut edge, client, key) = settled();
    let other = edge
        .spawn(client, WorldPos::from_meters(1, 1, 0), EntityKind::unattended(0))
        .expect("on the map");
    edge.on_presence(r(1), Report::Added { entity: e(6), token: other.raw() });
    edge.take_effects();
    edge.sweep(client);
    assert_eq!(
        edge.take_effects(),
        vec![
            Said::Tell(Outgoing::Despawn(r(1), e(5))),
            Said::Tell(Outgoing::Despawn(r(1), e(6))),
        ]
    );
    assert!(edge.is_connected(client));
    edge.on_presence(r(1), Report::Removed { entity: e(6) });
    assert_eq!(edge.take_effects(), vec![Said::Game(Notice::Removed(other, Some(client)))]);
    edge.on_presence(r(1), Report::Removed { entity: e(5) });
    assert_eq!(
        edge.take_effects(),
        vec![
            Said::Post(client, ToClient::Removed { handle: h(1) }),
            Said::Game(Notice::Removed(key, Some(client))),
            Said::Game(Notice::Disconnected(client)),
        ]
    );
    assert!(!edge.is_connected(client));
    edge.sweep(client);
    assert!(edge.take_effects().is_empty(), "gone already");
}

#[test]
fn a_client_that_goes_takes_only_its_own() {
    let (mut edge, client, key) = settled();
    let stays = edge
        .spawn_detached(WorldPos::from_meters(1, 1, 0), EntityKind::unattended(3))
        .expect("on the map");
    edge.on_presence(r(1), Report::Added { entity: e(6), token: stays.raw() });
    edge.take_effects();
    edge.sweep(client);
    assert_eq!(edge.take_effects(), vec![Said::Tell(Outgoing::Despawn(r(1), e(5)))]);
    edge.on_presence(r(1), Report::Removed { entity: e(5) });
    assert_eq!(edge.entity_id(key), None);
    assert_eq!(edge.entity_id(stays), Some((r(1), e(6))));
    assert_eq!(edge.client_of(stays), None);
    assert_eq!(edge.stats().entities, 1);
}

#[test]
fn a_client_that_held_nothing_goes_at_once() {
    let mut edge = edge();
    let client = edge.connect();
    edge.sweep(client);
    assert_eq!(edge.take_effects(), vec![Said::Game(Notice::Disconnected(client))]);
}

#[test]
fn a_teleport_carries_everything_over() {
    let (mut edge, client, key) = settled();
    edge.on_client(client, FromClient::EntityMessage { handle: h(1), body: b"walk".to_vec() });
    edge.take_effects();
    let to = WorldPos::from_meters(4096 + 100, 200, 0);
    let d = edge
        .on_client(client, FromClient::Teleport { handle: h(1), at: to })
        .expect("a departure to put to the game");
    assert_eq!((d.key, d.from, d.dest), (key, r(1), r(2)));
    assert_eq!(d.position, Pos3::from_meters(100, 200, 0));
    edge.teleport(client, h(1), d, TeleportDecision::Carry(b"sack".to_vec()), 1_000);
    let said = edge.take_effects();
    let copy = match &said[..] {
        [Said::Tell(Outgoing::Spawn(region, spawn, name))] => {
            assert_eq!((*region, *name), (r(2), key), "under the name it always had");
            EntityKey::from_raw(spawn.token)
        }
        other => panic!("{other:?}"),
    };
    assert_eq!(edge.stats().transitions, 1);
    assert_eq!(edge.stats().observers, 2, "the copy is counted until one is gone");

    // What arrives in transit waits for the destination.
    edge.on_client(client, FromClient::EntityMessage { handle: h(1), body: b"run".to_vec() });
    edge.on_client(client, FromClient::Move { handle: h(1), position: to });
    edge.on_client(
        client,
        FromClient::Move { handle: h(1), position: WorldPos::from_meters(4096 + 101, 202, 0) },
    );
    assert!(edge.take_effects().is_empty());
    assert!(edge.flush_moves().is_empty());

    edge.on_presence(r(2), Report::Added { entity: e(77), token: copy.raw() });
    assert_eq!(
        edge.take_effects(),
        vec![
            Said::Tell(Outgoing::Despawn(r(1), e(5))),
            Said::Tell(Outgoing::Message(r(2), e(77), b"run".to_vec())),
            Said::Tell(Outgoing::Message(r(2), e(77), b"run".to_vec())),
            Said::Post(client, ToClient::Spawned { handle: h(1), region: r(2), entity: e(77) }),
            Said::Post(client, ToClient::Teleported { handle: h(1), region: r(2) }),
            Said::Game(Notice::Spawned(copy, Some(client), r(2), e(77))),
            Said::Game(Notice::Arrived(copy, Some(client), r(1), r(2), b"sack".to_vec())),
        ]
    );
    let batches = edge.flush_moves();
    assert_eq!(batches.len(), 1);
    assert_eq!(batches[0].items, vec![(e(77), Pos3::from_meters(101, 202, 0))]);
    assert_eq!(edge.named(client, h(1)), Some(copy));
    assert_eq!(edge.entities_of(client), vec![copy]);
    assert_eq!(edge.client_of(key), None);
    assert_eq!(edge.stats().observers, 1);
    assert_eq!(edge.stats().transitions, 0);
}

#[test]
fn an_arrival_is_listed_in_the_others_place() {
    let mut edge = edge();
    let client = edge.connect();
    let key = edge
        .spawn(client, WorldPos::from_meters(4095, 2048, 0), EntityKind::unattended(0))
        .expect("on the map");
    edge.on_presence(r(1), Report::Added { entity: e(5), token: key.raw() });
    assert_eq!(edge.entities_of(client), vec![key]);
    let d = edge
        .on_presence(
            r(1),
            Report::BoundaryCollision { entity: e(5), target: Pos3::from_meters(4097, 2048, 0) },
        )
        .expect("a region lies beyond");
    edge.take_effects();
    edge.cross(d, TeleportDecision::Allow, 0);
    let copy = match &edge.take_effects()[..] {
        [Said::Tell(Outgoing::Spawn(_, spawn, _))] => EntityKey::from_raw(spawn.token),
        other => panic!("{other:?}"),
    };
    edge.on_presence(r(2), Report::Added { entity: e(7), token: copy.raw() });
    assert_eq!(edge.entities_of(client), vec![copy], "without a handle of the client's");
    edge.sweep(client);
    edge.take_effects();
    edge.on_presence(r(2), Report::Removed { entity: e(7) });
    assert_eq!(
        edge.take_effects(),
        vec![
            Said::Game(Notice::Removed(copy, Some(client))),
            Said::Game(Notice::Disconnected(client)),
        ]
    );
}

#[test]
fn a_region_on_the_last_square_is_served_like_any_other() {
    let mut map = WorldMap::new();
    let last = Placement::new(i32::MAX, i32::MIN);
    map.place(r(1), last).unwrap();
    let mut edge = EdgeHandle::new(map, 7);
    assert!(!edge.has_met(r(1)));
    edge.learn(r(1), RegionWorld::new(r(1), WorldConfig::default(), Some(last)));
    assert!(edge.has_met(r(1)));
    let client = edge.connect();
    let at = WorldPos::from_local(
        Pos3::from_meters(4090, 5, 0),
        last,
        WorldConfig::default().region_size(),
    );
    let key = edge.spawn(client, at, EntityKind::observer(0)).expect("on the map");
    edge.on_presence(r(1), Report::Added { entity: e(5), token: key.raw() });
    edge.take_effects();
    edge.on_presence(
        r(1),
        Report::ViewCollision { entity: e(5), position: Pos3::from_meters(4090, 5, 0) },
    );
    assert!(edge.take_effects().is_empty(), "nothing lies beyond");
    assert_eq!(edge.entities_of(client), vec![key]);
}

#[test]
fn a_teleport_that_is_denied_or_pointless_is_reported() {
    let (mut edge, client, _) = settled();
    let d = edge
        .on_client(client, FromClient::TeleportInto { handle: h(1), region: r(9), at: WorldPos::from_meters(1, 1, 1) })
        .expect("a departure");
    edge.teleport(client, h(1), d, TeleportDecision::Deny, 0);
    assert_eq!(
        edge.take_effects(),
        vec![Said::Post(client, ToClient::TeleportFailed { handle: h(1), region: r(9) })]
    );
    // To where it is already.
    let none = edge.on_client(client, FromClient::Teleport { handle: h(1), at: WorldPos::from_meters(5, 5, 0) });
    assert!(none.is_none());
    assert_eq!(
        edge.take_effects(),
        vec![Said::Post(client, ToClient::TeleportFailed { handle: h(1), region: r(1) })]
    );
}

#[test]
fn a_teleport_that_times_out_leaves_the_entity_where_it_was() {
    let (mut edge, client, key) = settled();
    let d = edge
        .on_client(client, FromClient::Teleport { handle: h(1), at: WorldPos::from_meters(5000, 1, 0) })
        .expect("a departure");
    let copy = edge.begin_teleport(d, TeleportDecision::Allow, 1_000).expect("allowed");
    edge.take_effects();
    edge.on_client(client, FromClient::EntityMessage { handle: h(1), body: b"a".to_vec() });
    edge.on_client(client, FromClient::EntityMessage { handle: h(1), body: b"b".to_vec() });
    edge.on_client(client, FromClient::Move { handle: h(1), position: WorldPos::from_meters(9, 9, 0) });
    edge.expire_transitions(1_000 + TELEPORT_TIMEOUT - 1);
    assert!(edge.take_effects().is_empty(), "not yet");
    edge.expire_transitions(1_000 + TELEPORT_TIMEOUT);
    assert_eq!(
        edge.take_effects(),
        vec![
            Said::Tell(Outgoing::Message(r(1), e(5), b"a".to_vec())),
            Said::Tell(Outgoing::Message(r(1), e(5), b"b".to_vec())),
            Said::Post(client, ToClient::TeleportFailed { handle: h(1), region: r(2) }),
        ]
    );
    assert_eq!(edge.flush_moves()[0].items, vec![(e(5), Pos3::from_meters(9, 9, 0))]);
    assert_eq!(edge.stats().teleport_timeouts, 1);
    assert_eq!(edge.stats().observers, 1);
    assert_eq!(edge.named(client, h(1)), Some(key));
    // The destination answers too late, and is given its copy back.
    edge.on_presence(r(2), Report::Added { entity: e(4), token: copy.raw() });
    assert_eq!(edge.take_effects(), vec![Said::Tell(Outgoing::Despawn(r(2), e(4)))]);
}

#[test]
fn a_boundary_is_crossed_where_a_region_lies_beyond_and_a_wall_where_none_does() {
    let (mut edge, _, key) = settled();
    let d = edge
        .on_presence(
            r(1),
            Report::BoundaryCollision { entity: e(5), target: Pos3::from_meters(4097, 10, 0) },
        )
        .expect("region 2 is there");
    assert_eq!((d.key, d.dest, d.position), (key, r(2), Pos3::from_meters(1, 10, 0)));
    edge.cross(d, TeleportDecision::Allow, 0);
    assert_eq!(edge.stats().crossings, 1);
    let again = edge.on_presence(
        r(1),
        Report::BoundaryCollision { entity: e(5), target: Pos3::from_meters(4097, 10, 0) },
    );
    assert!(again.is_none(), "it is in transit already");
    assert_eq!(edge.stats().walls, 0);

    let (mut edge, _, _) = settled();
    let wall = edge.on_presence(
        r(1),
        Report::BoundaryCollision { entity: e(5), target: Pos3::from_meters(-1, 10, 0) },
    );
    assert!(wall.is_none());
    assert_eq!(edge.stats().walls, 1);
}

#[test]
fn a_view_past_a_seam_keeps_a_shadow_there() {
    let (mut edge, client, key) = settled();
    let near = Pos3::from_meters(4050, 2048, 0);
    edge.on_presence(r(1), Report::ViewCollision { entity: e(5), position: near });
    let said = edge.take_effects();
    let shadow = match &said[..] {
        [Said::Tell(Outgoing::Spawn(region, spawn, _))] => {
            assert_eq!(*region, r(2));
            assert_eq!(spawn.position, Pos3::from_meters(0, 2048, 0), "on the seam");
            assert!(spawn.kind.is_shadow());
            EntityKey::from_raw(spawn.token)
        }
        other => panic!("{other:?}"),
    };
    assert_eq!(edge.stats().shadows, 1);
    assert_eq!(edge.entities_of(client), vec![key], "the client never asked for it");
    edge.on_presence(r(2), Report::Added { entity: e(31), token: shadow.raw() });
    assert!(edge.take_effects().is_empty(), "and is never told of it");
    assert_eq!(edge.recipient(r(2), e(31)), Some((client, h(1))));

    // Moved rather than asked for again.
    let nearer = Pos3::from_meters(4060, 2000, 0);
    edge.on_presence(r(1), Report::ViewCollision { entity: e(5), position: nearer });
    assert!(edge.take_effects().is_empty());
    assert_eq!(edge.flush_moves()[0].items, vec![(e(31), Pos3::from_meters(0, 2000, 0))]);

    edge.on_presence(r(1), Report::ViewCleared { entity: e(5) });
    assert_eq!(edge.take_effects(), vec![Said::Tell(Outgoing::Despawn(r(2), e(31)))]);
    edge.on_presence(r(2), Report::Removed { entity: e(31) });
    assert!(edge.take_effects().is_empty());
    assert_eq!(edge.stats().shadows, 0);
}

#[test]
fn an_owner_takes_its_shadows_with_it() {
    let (mut edge, _, _) = settled();
    edge.on_presence(
        r(1),
        Report::ViewCollision { entity: e(5), position: Pos3::from_meters(4050, 2048, 0) },
    );
    edge.take_effects();
    edge.on_presence(r(1), Report::Removed { entity: e(5) });
    assert_eq!(edge.stats().shadows, 0, "its region had not answered, so it is forgotten");
    assert_eq!(edge.stats().entities, 0);
}

#[test]
fn a_client_is_told_once_how_to_read_a_region() {
    let (mut edge, client, _) = settled();
    edge.connect();
    edge.tell_the_world(r(1));
    let said = edge.take_effects();
    assert!(matches!(
        &said[..],
        [Said::Post(to, ToClient::Region(info))] if *to == client && info.region == r(1)
    ));
    edge.tell_the_world(r(1));
    assert!(edge.take_effects().is_empty());
    edge.tell_the_world(r(2));
    assert!(edge.take_effects().is_empty(), "nobody holds anything there");
}

#[test]
fn a_packet_goes_to_the_client_that_owns_its_avatar() {
    let (mut edge, client, _) = settled();
    let (to, message) = edge.relay(r(1), e(5), b"packet").expect("somebody is there");
    assert_eq!(to, client);
    assert_eq!(message, ToClient::State { handle: h(1), region: r(1), packet: b"packet" });
    assert_eq!(edge.relay(r(1), e(6), b"packet"), None);
    edge.count_relayed(true);
    assert_eq!(edge.stats().relayed, 1);
    assert_eq!(edge.stats().undeliverable, 1);
}

#[test]
fn a_frame_that_does_not_decode_is_counted_and_the_next_is_heard() {
    let (mut edge, client, key) = settled();
    assert!(edge.on_frame(client, &[200]).is_none());
    assert_eq!(edge.stats().refused, 1);
    assert_eq!(edge.stats().commands, 1, "only the spawn before was a command");
    let mut frame = Vec::new();
    FromClient::Teleport { handle: h(1), at: WorldPos::from_meters(5000, 0, 0) }.encode(&mut frame);
    let (handle, d) = edge.on_frame(client, &frame).expect("a departure");
    assert_eq!((handle, d.key), (h(1), key));
    FromClient::Message(b"hello".to_vec()).encode(&mut frame);
    assert!(edge.on_frame(client, &frame).is_none());
    assert_eq!(
        edge.take_effects(),
        vec![Said::Game(Notice::Message(client, b"hello".to_vec()))]
    );
}

#[test]
fn what_is_sent_to_a_client_is_framed_for_its_transport() {
    let (edge, client, key) = settled();
    let stream = edge.send(client, b"hi").expect("connected");
    assert_eq!(stream, on_stream(&ToClient::Message(b"hi")));
    assert_eq!(&stream[..4], &3u32.to_le_bytes());
    assert_eq!(edge.send_to_entity(key, b"hi").expect("owned"), (client, stream));
    let datagram = edge.send_datagram(client, b"hi", Some(1200), 4096).expect("fits");
    assert_eq!(datagram, in_datagram(&ToClient::Message(b"hi"), Some(3), 3).expect("just fits"));
    assert_eq!(edge.send_datagram(client, b"hi", Some(2), 4096), Err(NetError::Congested));
    assert_eq!(edge.send_datagram(client, b"hi", None, 4096), Err(NetError::Congested));
    assert_eq!(edge.send_datagram(client, b"hi", Some(1200), 2), Err(NetError::Congested));
    let nobody = ClientId::from_raw(99);
    assert_eq!(edge.send(nobody, b"hi"), Err(NetError::Unknown("client")));
    assert_eq!(
        edge.send_to_entity(EntityKey::from_raw(99), b"hi"),
        Err(NetError::Unknown("entity"))
    );
    let state = ToClient::State { handle: h(1), region: r(1), packet: b"p" };
    assert_eq!(edge.post_to(client, &state, Some(9), 9), Err(NetError::Congested));
    assert!(edge.post_to(client, &state, Some(10), 10).is_ok(), "a state packet rides a datagram");
}

#[test]
fn a_message_for_an_entity_goes_to_its_region() {
    let (mut edge, _, key) = settled();
    assert_eq!(edge.send_to_region(key, b"dig"), Ok(()));
    assert_eq!(
        edge.take_effects(),
        vec![Said::Tell(Outgoing::Message(r(1), e(5), b"dig".to_vec()))]
    );
    assert_eq!(
        edge.send_to_region(EntityKey::from_raw(1), b"dig"),
        Err(NetError::Unknown("entity"))
    );
}

#[test]
fn a_wire_report_is_read_as_it_says() {
    assert_eq!(
        Report::read(Presence::Added { entity: e(3), token: 9 }),
        Report::Added { entity: e(3), token: 9 }
    );
    assert_eq!(Report::read(Presence::Removed { entity: e(3) }), Report::Removed { entity: e(3) });
}

#[test]
fn an_edge_heartbeat_carries_what_happened_since_the_last() {
    let (mut edge, client, _) = settled();
    let mut server = EdgeServer::new(EdgeName::new("edge-000000000001").expect("valid"));
    server.set_heartbeat_interval(500_000_000);
    assert!(server.beat(&edge).is_none(), "half an interval");
    let body = server.beat(&edge).expect("due");
    let first = umwelt::net::control::EdgeHeartbeat::decode(&body).expect("well formed");
    assert_eq!(first.edge.as_str(), "edge-000000000001");
    assert_eq!(first.regions, vec![r(1)]);
    assert_eq!((first.load.clients, first.load.entities, first.load.commands), (1, 1, 1));
    edge.on_client(client, FromClient::Message(Vec::new()));
    assert!(server.beat(&edge).is_none());
    let body = server.beat(&edge).expect("due again");
    let second = umwelt::net::control::EdgeHeartbeat::decode(&body).expect("well formed");
    assert_eq!(second.load.commands, 1, "one more since");
    server.set_heartbeat_interval(0);
    for _ in 0..10 {
        assert!(server.beat(&edge).is_none(), "switched off");
    }
    let now = edge.stats();
    assert_eq!(span(now, now).commands, 0);
    assert_eq!(span(now, now).clients, now.clients);
}

#[test]
fn a_cursor_stops_where_the_bytes_do() {
    let mut c = Cursor::new(&[1, 0, 0, 0], "four");
    assert_eq!(c.u32().unwrap(), 1);
    assert_eq!(c.u8(), Err(NetError::Malformed("four")));
}
