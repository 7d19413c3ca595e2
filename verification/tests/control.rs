//! Heartbeats.

use umwelt::id::RegionId;
use umwelt::net::control::{edge_subject, subject, EdgeHeartbeat, EdgeLoad, Heartbeat, RegionLoad};
use umwelt::net::region::names::EdgeName;
use umwelt::net::region::protocol::protocol_version;
use umwelt::net::version::ServerVersion;

fn sample() -> Heartbeat {
    Heartbeat {
        region: RegionId::from_raw(7),
        protocol: protocol_version(),
        server: ServerVersion::current(),
        protocol_hash: 0x0123_4567_89AB_CDEF,
        edges: 4,
        load: RegionLoad {
            tick_count: 1_234_567,
            entities: 8_192,
            slots: 63_712,
            viewers: 8_188,
            mean_tick: 15_540_000,
            worst_tick: 17_420_000,
            late: 3,
            dropped: 0,
        },
    }
}

#[test]
fn a_heartbeat_round_trips() {
    let m = sample();
    let mut buf = Vec::new();
    m.encode(&mut buf);
    assert_eq!(buf.len(), Heartbeat::BYTES);
    assert_eq!(Heartbeat::decode(&buf).expect("well formed"), m);
}

#[test]
fn a_truncated_heartbeat_is_refused() {
    let mut buf = Vec::new();
    sample().encode(&mut buf);
    for cut in 0..buf.len() {
        assert!(
            Heartbeat::decode(&buf[..cut]).is_err(),
            "{cut} bytes must not parse"
        );
    }
}

#[test]
fn control_trailing_bytes_are_refused() {
    let mut buf = Vec::new();
    sample().encode(&mut buf);
    buf.push(0);
    assert!(Heartbeat::decode(&buf).is_err());
}

fn edge_sample() -> EdgeHeartbeat {
    EdgeHeartbeat {
        edge: EdgeName::new("herd-3fd3d8").expect("valid name"),
        protocol: protocol_version(),
        server: ServerVersion::current(),
        regions: vec![RegionId::from_raw(7), RegionId::from_raw(8)],
        load: EdgeLoad {
            clients: 512,
            entities: 1_024,
            observers: 512,
            relayed: 10_240,
            undeliverable: 3,
            commands: 20_480,
            refused: 1,
        },
    }
}

#[test]
fn an_edge_heartbeat_round_trips() {
    let m = edge_sample();
    let mut buf = Vec::new();
    m.encode(&mut buf);
    assert_eq!(EdgeHeartbeat::decode(&buf).expect("well formed"), m);
}

#[test]
fn an_edge_heartbeat_is_its_fixed_part_plus_what_varies() {
    let m = edge_sample();
    let mut buf = Vec::new();
    m.encode(&mut buf);
    let varies = m.edge.as_str().len() + m.regions.len() * 4;
    assert_eq!(buf.len(), EdgeHeartbeat::FIXED_BYTES + varies);
}

#[test]
fn an_edge_heartbeat_carries_no_regions_when_it_holds_nothing() {
    let mut m = edge_sample();
    m.regions.clear();
    let mut buf = Vec::new();
    m.encode(&mut buf);
    assert_eq!(EdgeHeartbeat::decode(&buf).expect("well formed"), m);
}

#[test]
fn a_truncated_edge_heartbeat_is_refused() {
    let mut buf = Vec::new();
    edge_sample().encode(&mut buf);
    for cut in 0..buf.len() {
        assert!(
            EdgeHeartbeat::decode(&buf[..cut]).is_err(),
            "{cut} bytes must not parse"
        );
    }
}

#[test]
fn trailing_bytes_after_an_edge_heartbeat_are_refused() {
    let mut buf = Vec::new();
    edge_sample().encode(&mut buf);
    buf.push(0);
    assert!(EdgeHeartbeat::decode(&buf).is_err());
}

#[test]
fn an_edge_name_that_could_address_another_edge_does_not_decode() {
    // The name is validated on the way back in, not only on the way out, so
    // a hand-built message cannot smuggle a wildcard through a watcher.
    let mut buf = Vec::new();
    edge_sample().encode(&mut buf);
    let name = b"herd-3fd3d8";
    let at = 1 + name.iter().position(|&b| b == b'3').expect("in the name");
    buf[at] = b'*';
    assert!(EdgeHeartbeat::decode(&buf).is_err());
}

#[test]
fn an_absurd_tick_saturates_rather_than_wrapping() {
    let mut m = sample();
    m.load.worst_tick = 30_000_000_000;
    let mut buf = Vec::new();
    m.encode(&mut buf);
    let back = Heartbeat::decode(&buf).expect("well formed");
    assert_eq!(back.load.worst_tick, u64::from(u32::MAX));
}

/// Whether a NATS subject matches a `*`-wildcard pattern token by token.
fn matches(pattern: &str, concrete: &str) {
    let (p, c): (Vec<_>, Vec<_>) =
        (pattern.split('.').collect(), concrete.split('.').collect());
    assert_eq!(p.len(), c.len(), "{concrete} against {pattern}");
    assert!(
        p.iter().zip(&c).all(|(a, b)| *a == "*" || a == b),
        "{concrete} against {pattern}"
    );
}

#[test]
fn the_documented_wildcards_match_what_is_published() {
    // Building a subject is crate-private, so a watcher outside the crate
    // subscribes to the patterns written in this module's doc. Nothing
    // constructs them any more, which is why they are spelled out here:
    // this is what keeps the doc honest if a subject ever changes shape.
    for region in [1u32, 7, 4_000_000] {
        matches(
            "umwelt.control.region.*.heartbeat",
            &subject(RegionId::from_raw(region)),
        );
    }
    for edge in ["herd-3fd3d8", "e1"] {
        let name = EdgeName::new(edge).expect("valid name");
        matches("umwelt.control.edge.*.heartbeat", &edge_subject(&name));
    }
}

#[test]
fn a_heartbeat_prints_one_line() {
    let shown = sample().line("15.54", "17.42");
    assert!(shown.contains("region 7"), "{shown}");
    assert!(shown.contains("8192 entities"), "{shown}");
    assert!(!shown.contains('\n'), "a watcher prints one per line");
}
