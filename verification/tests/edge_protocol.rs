//! Messages between an edge and a game client.

use umwelt::entity::{EntityId, EntityKind};
use umwelt::id::{EntityHandle, RegionId};
use umwelt::map::Placement;
use umwelt::net::edge::protocol::{
    kind_name, EdgeInfo, Framer, FromClient, ToClient, KIND_ENTITY_MESSAGE, KIND_MOVES,
    KIND_REMOVED, KIND_SPAWN, KIND_SPAWNED, MAX_MOVES_PER_DATAGRAM, WORLD_BYTES,
};
use umwelt::net::error::NetError;
use umwelt::pos::WorldPos;

/// Shorthand, since every message in here names one.
fn h(raw: u32) -> EntityHandle {
    EntityHandle::from_raw(raw)
}

fn pos() -> WorldPos {
    WorldPos::from_meters(-100, 200_000, 5)
}

fn up() -> Vec<FromClient> {
    vec![
        FromClient::Spawn {
            handle: h(7),
            position: pos(),
            kind: EntityKind::observer(0),
        },
        FromClient::Spawn {
            handle: h(0),
            position: WorldPos::from_raw(i64::MIN, i64::MAX, 0),
            kind: EntityKind::unattended(0),
        },
        FromClient::SpawnInto {
            handle: h(8),
            region: RegionId::from_raw(4_000_000_000),
            position: pos(),
            kind: EntityKind::observer(3),
        },
        FromClient::Move { handle: h(9), position: pos() },
        FromClient::Moves(vec![(h(1), pos()), (h(2), pos()), (h(3), pos())]),
        FromClient::Moves(Vec::new()),
        FromClient::Despawn { handle: h(4_000_000_000) },
        FromClient::Message(b"the game's own".to_vec()),
        FromClient::Message(Vec::new()),
        FromClient::EntityMessage { handle: h(3), body: b"plant lettuce".to_vec() },
        FromClient::EntityMessage { handle: h(3), body: Vec::new() },
        FromClient::Teleport { handle: h(5), at: pos() },
        FromClient::TeleportInto {
            handle: h(5),
            region: RegionId::from_raw(42),
            at: pos(),
        },
    ]
}

fn down() -> Vec<ToClient<'static>> {
    vec![
        ToClient::Region(EdgeInfo {
            region: RegionId::from_raw(9),
            region_size_m: 4096,
            vertical_extent_m: 1024,
            placement: Some(Placement::new(-3, 7)),
        }),
        ToClient::Region(EdgeInfo {
            region: RegionId::from_raw(10),
            region_size_m: 4096,
            vertical_extent_m: 1024,
            placement: None,
        }),
        ToClient::Spawned {
            handle: h(7),
            region: RegionId::from_raw(9),
            entity: EntityId::from_raw(42),
        },
        ToClient::Removed { handle: h(7) },
        ToClient::State {
            handle: h(7),
            region: RegionId::from_raw(9),
            packet: b"a packet",
        },
        ToClient::State { handle: h(7), region: RegionId::from_raw(10), packet: b"" },
        ToClient::Message(b"the game's own"),
        ToClient::Teleported { handle: h(5), region: RegionId::from_raw(42) },
        ToClient::TeleportFailed { handle: h(5), region: RegionId::from_raw(42) },
    ]
}

#[test]
fn client_messages_round_trip() {
    let mut buf = Vec::new();
    for m in up() {
        m.encode(&mut buf);
        assert_eq!(FromClient::decode(&buf).expect("well formed"), m, "{m:?}");
    }
}

#[test]
fn edge_messages_round_trip() {
    let mut buf = Vec::new();
    for m in down() {
        m.encode(&mut buf);
        assert_eq!(ToClient::decode(&buf).expect("well formed"), m, "{m:?}");
    }
}

#[test]
fn a_truncated_client_message_is_refused() {
    let mut buf = Vec::new();
    for m in up() {
        // A `Message` is bytes with no shape, so any prefix of one is a
        // shorter valid message. `EntityMessage` has a fixed handle before
        // a variable tail, so the same applies past the handle.
        if matches!(m, FromClient::Message(_) | FromClient::EntityMessage { .. }) {
            continue;
        }
        m.encode(&mut buf);
        for cut in 0..buf.len() {
            assert!(
                FromClient::decode(&buf[..cut]).is_err(),
                "{m:?} at {cut} bytes must not parse"
            );
        }
    }
}

#[test]
fn protocol_trailing_bytes_are_refused() {
    let mut buf = Vec::new();
    for m in up() {
        if matches!(m, FromClient::Message(_) | FromClient::EntityMessage { .. }) {
            continue;
        }
        m.encode(&mut buf);
        buf.push(0);
        assert!(FromClient::decode(&buf).is_err(), "{m:?} with a trailing byte");
    }
}

#[test]
fn a_full_batch_of_moves_fits_one_datagram() {
    // What batching saves is packets, not bytes: sixty-eight moves are
    // 1,093 bytes together against 1,156 apart, but one datagram against
    // sixty-eight, each of which would carry its own UDP and QUIC headers
    // and cost a send.
    let batch: Vec<(EntityHandle, WorldPos)> =
        (0..MAX_MOVES_PER_DATAGRAM as u32).map(|n| (h(n), pos())).collect();
    let mut framed = Vec::new();
    FromClient::Moves(batch.clone()).encode(&mut framed);
    assert!(
        framed.len() <= 1200,
        "a full batch is {} bytes and must fit the protocol's own cap",
        framed.len()
    );
    assert_eq!(
        FromClient::decode(&framed).expect("well formed"),
        FromClient::Moves(batch)
    );
}

#[test]
fn a_batch_past_the_cap_is_refused() {
    let mut body = vec![KIND_MOVES];
    body.extend_from_slice(&(u32::MAX).to_le_bytes());
    assert!(
        FromClient::decode(&body).is_err(),
        "an absurd count must not be believed"
    );
}

#[test]
fn the_wire_sizes_are_what_they_look_like() {
    let mut buf = Vec::new();
    FromClient::Move { handle: h(1), position: pos() }.encode(&mut buf);
    assert_eq!(buf.len(), 1 + 4 + WORLD_BYTES, "kind, handle, world position");
    FromClient::Spawn {
        handle: h(1),
        position: pos(),
        kind: EntityKind::observer(0),
    }
    .encode(&mut buf);
    assert_eq!(
        buf.len(),
        1 + 4 + WORLD_BYTES + 3,
        "a world position and a 3-byte kind"
    );
    ToClient::Region(EdgeInfo {
        region: RegionId::from_raw(1),
        region_size_m: 4096,
        vertical_extent_m: 1024,
        placement: None,
    })
    .encode(&mut buf);
    assert_eq!(buf.len(), 1 + EdgeInfo::BYTES, "a region's frame is fixed width");
    FromClient::Despawn { handle: h(1) }.encode(&mut buf);
    assert_eq!(buf.len(), 1 + 4);
}

/// The two links number their messages separately, so an error about a
/// byte that arrived here must name it from this table. Kind 4 is
/// `spawned` on this link and `keepalive` on the region link; kind 5 is
/// `removed` here and `game message` there.
#[test]
fn an_unexpected_kind_is_named_by_this_links_table() {
    let refused = ToClient::decode(&[KIND_SPAWN]).expect_err("a client kind");
    let NetError::Unexpected { got, name, .. } = refused else {
        panic!("expected an unexpected-kind error, got {refused:?}");
    };
    assert_eq!(got, KIND_SPAWN);
    assert_eq!(name, "spawn");

    assert_eq!(kind_name(KIND_SPAWNED), "spawned");
    assert_eq!(kind_name(KIND_REMOVED), "removed");
    assert_eq!(kind_name(200), "unknown");
    for kind in 1..=KIND_ENTITY_MESSAGE {
        assert_ne!(kind_name(kind), "unknown", "kind {kind} needs a name");
    }
}

#[test]
fn an_unknown_kind_is_refused() {
    assert!(matches!(
        FromClient::decode(&[200, 0, 0, 0, 0]),
        Err(NetError::Unexpected { got: 200, .. })
    ));
    assert!(matches!(
        ToClient::decode(&[200]),
        Err(NetError::Unexpected { got: 200, .. })
    ));
}

#[test]
fn a_message_going_the_wrong_way_is_refused() {
    // One kind space across both directions, so a `Spawned` arriving at an
    // edge does not decode as something an edge acts on.
    let mut buf = Vec::new();
    ToClient::Spawned {
        handle: h(1),
        region: RegionId::from_raw(1),
        entity: EntityId::from_raw(1),
    }
    .encode(&mut buf);
    assert!(FromClient::decode(&buf).is_err());

    FromClient::Despawn { handle: h(1) }.encode(&mut buf);
    assert!(ToClient::decode(&buf).is_err());
}

#[test]
fn only_the_latest_only_kinds_ride_datagrams() {
    for m in up() {
        let expected = matches!(m, FromClient::Move { .. } | FromClient::Moves(_));
        assert_eq!(m.is_latest_only(), expected, "{m:?}");
    }
    for m in down() {
        assert_eq!(m.is_latest_only(), matches!(m, ToClient::State { .. }), "{m:?}");
    }
}

#[test]
fn a_framer_reassembles_messages_split_across_reads() {
    let mut buf = Vec::new();
    let mut wire = Vec::new();
    let mut framed = Vec::new();
    for m in up() {
        m.encode(&mut buf);
        Framer::frame(&buf, &mut framed);
        wire.extend_from_slice(&framed);
    }

    // One byte at a time, which is the worst a stream can do.
    let mut f = Framer::new();
    let mut got = Vec::new();
    for b in &wire {
        f.push(&[*b]);
        while let Some(body) = f.take().expect("well formed") {
            got.push(FromClient::decode(&body).expect("well formed"));
        }
    }
    assert_eq!(got, up());
}

/// Taking a message advances a cursor instead of removing bytes, and the
/// dead prefix is dropped on the next push. A burst arriving in one read
/// exercises the cursor, and a message straddling the compaction is what
/// would corrupt if the prefix were dropped by the wrong amount.
#[test]
fn a_framer_survives_compaction_with_a_message_straddling_it() {
    let mut buf = Vec::new();
    let mut framed = Vec::new();
    let mut wire = Vec::new();
    for m in up() {
        m.encode(&mut buf);
        Framer::frame(&buf, &mut framed);
        wire.extend_from_slice(&framed);
    }

    // A whole burst in one read: every message must come out in order.
    let mut f = Framer::new();
    f.push(&wire);
    let mut got = Vec::new();
    while let Some(body) = f.take().expect("well formed") {
        got.push(FromClient::decode(&body).expect("well formed"));
    }
    assert_eq!(got, up(), "a burst in one read");

    // Now cut the wire mid-message so a partial tail is still buffered
    // when the next push compacts, and the message completes across it.
    for cut in [1usize, 7, wire.len() / 3, wire.len() - 2] {
        let mut f = Framer::new();
        f.push(&wire[..cut]);
        let mut got = Vec::new();
        while let Some(body) = f.take().expect("well formed") {
            got.push(FromClient::decode(&body).expect("well formed"));
        }
        // Whatever was left half-read is completed by the second push.
        f.push(&wire[cut..]);
        while let Some(body) = f.take().expect("well formed") {
            got.push(FromClient::decode(&body).expect("well formed"));
        }
        assert_eq!(got, up(), "split at {cut}");
    }
}

#[test]
fn a_framer_refuses_a_length_it_would_have_to_allocate() {
    let mut f = Framer::new();
    f.push(&(u32::MAX).to_le_bytes());
    assert!(f.take().is_err(), "an absurd length must not be believed");
}

#[test]
fn a_framer_holds_a_partial_length_prefix() {
    let mut f = Framer::new();
    f.push(&[1, 2, 3]);
    assert_eq!(f.take().expect("not yet a length"), None);
}
