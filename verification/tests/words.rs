//! What values and failures look like in words.

use umwelt::config::{Axis, ConfigError, WorldConfig};
use umwelt::entity::{EntityId, EntityKind};
use umwelt::fixed::{DistSq, Fixed};
use umwelt::id::{ClientId, EntityHandle, EntityKey, RegionId};
use umwelt::map::{MapError, Placement};
use umwelt::net::control::{EdgeHeartbeat, EdgeLoad};
use umwelt::net::error::NetError;
use umwelt::net::region::names::EdgeName;
use umwelt::net::region::protocol::protocol_version;
use umwelt::net::version::{ProtocolVersion, ServerVersion};

#[test]
fn a_config_says_why_it_is_refused() {
    let base = || {
        WorldConfig::builder()
            .region_size_m(4096)
            .vertical_extent_m(1024)
            .horizontal_view_radius_m(256)
            .max_horizontal_speed_m_per_sec(40)
            .tick_hz(20)
    };
    let err = WorldConfig::builder().build().unwrap_err();
    assert!(matches!(err, ConfigError::Missing(_)));
    assert_eq!(
        base().region_size_m(-1).build().unwrap_err().to_string(),
        "`region_size` must be greater than zero"
    );
    let err = base().region_size_m(3000).build().unwrap_err();
    assert_eq!(
        err,
        ConfigError::ExtentNotPowerOfTwo {
            axis: Axis::Horizontal,
            extent: Fixed::from_meters(3000)
        }
    );
    assert_eq!(
        err.to_string(),
        "horizontal extent 3000.000m is not a power of two; the wire encoding would not divide evenly"
    );
    let err = base().vertical_extent_m(1000).build().unwrap_err();
    assert!(matches!(err, ConfigError::ExtentNotPowerOfTwo { axis: Axis::Vertical, .. }));
    let err = base().horizontal_view_radius_m(5000).build().unwrap_err();
    assert_eq!(err.to_string(), "view radius 5000.000m exceeds region size 4096.000m");
    let err = base().tick_hz(30).build().unwrap_err();
    assert_eq!(err, ConfigError::TickRateIndivisible { tick_hz: 30 });
    assert_eq!(err.to_string(), "tick rate 30 Hz does not divide evenly into 1000 ms");
    let err = base().horizontal_view_radius_m(2).build().unwrap_err();
    assert_eq!(
        err.to_string(),
        "an entity moves 2.000m per tick but cells are 1.000m; it could skip a cell, invalidating strip-delta subscription updates"
    );
    assert_eq!(ConfigError::Missing("tick_hz").to_string(), "required field `tick_hz` was not set");
}

#[test]
fn a_link_says_what_went_wrong() {
    let said = [
        (NetError::Nats("down".into()), "nats: down"),
        (NetError::Quic("reset".into()), "quic: reset"),
        (NetError::Io("eof".into()), "io: eof"),
        (NetError::Closed, "connection closed"),
        (NetError::Congested, "no room on the connection"),
        (NetError::OffMap, "no placed region there"),
        (NetError::Unknown("client"), "no such client"),
        (NetError::Malformed("presence"), "malformed presence"),
        (
            NetError::Unexpected { expected: "a client command", got: 4, name: "spawned" },
            "expected a client command, got spawned (kind 4)",
        ),
        (
            NetError::MessageTooLarge { claimed: 5000, max: 4096 },
            "message claims 5000 bytes, past the 4096 byte cap",
        ),
        (
            NetError::FrameTooLarge { claimed: 70000, max: 65536 },
            "frame claims 70000 bytes, past the 65536 byte cap",
        ),
        (NetError::BadEdgeName("empty"), "edge name: empty"),
        (NetError::BadSubject, "subject does not parse"),
        (
            NetError::ProtocolMismatch {
                ours: ProtocolVersion::from_raw(1),
                theirs: ProtocolVersion::from_raw(2),
            },
            "this end speaks protocol v1, the other speaks v2",
        ),
        (
            NetError::Config(ConfigError::Missing("tick_hz")),
            "advertised world parameters are not valid: required field `tick_hz` was not set",
        ),
        (
            NetError::ConfigMismatch { ours: 1, theirs: 0xdead_beef },
            "world config digest 0x0000000000000001 does not match the region's 0x00000000deadbeef",
        ),
    ];
    for (error, words) in said {
        assert_eq!(error.to_string(), words);
        assert_eq!(
            error.source().is_some(),
            matches!(error, NetError::Nats(_) | NetError::Quic(_) | NetError::Io(_)),
            "{words}"
        );
    }
}

#[test]
fn a_map_says_why_it_is_refused() {
    let said = [
        (MapError::BadLength(5), "a map of 5 bytes is not 4 + 12n"),
        (MapError::UnknownVersion(2), "map format version 2 is not read here"),
        (MapError::DuplicateRegion(RegionId::from_raw(3)), "region 3 is placed twice"),
        (MapError::DuplicateSquare(Placement::new(3, -1)), "square (3, -1) holds two regions"),
        (
            MapError::RegionIdTooWide(RegionId::from_raw(0x8000_0000)),
            "region 2147483648 does not fit 31 bits",
        ),
        (MapError::Broker("gone".into()), "map on the broker: gone"),
    ];
    for (error, words) in said {
        assert_eq!(error.to_string(), words);
    }
}

#[test]
fn ids_name_themselves() {
    assert_eq!(EntityId::from_raw(7).short(), "E7");
    assert_eq!(RegionId::from_raw(7).short(), "R7");
    assert_eq!(ClientId::from_raw(7).short(), "C7");
    assert_eq!(EntityKey::from_raw(7).to_string(), "entity key 7");
    assert_eq!(EntityHandle::from_raw(7).to_string(), "handle 7");
    assert_eq!(ServerVersion::current().to_string(), "0.1.0");
    assert_eq!(Fixed::from_raw(i32::MIN).to_string(), "-2097152.000m");
    assert_eq!(Fixed::from_raw(-1).to_string(), "-0.000m");
    assert_eq!(DistSq::from_raw(26).sqrt_approx(), Fixed::from_raw(5));
}

#[test]
fn an_edge_heartbeat_prints_one_line() {
    let beat = EdgeHeartbeat {
        edge: EdgeName::new("herd-1").expect("valid"),
        protocol: protocol_version(),
        server: ServerVersion::current(),
        regions: vec![RegionId::from_raw(7)],
        load: EdgeLoad {
            clients: 1,
            entities: 2,
            observers: 3,
            relayed: 4,
            undeliverable: 5,
            commands: 6,
            refused: 7,
        },
    };
    assert_eq!(
        beat.to_string(),
        "edge herd-1 umwelt 0.1.0 proto v1 | 1 clients | 2 entities, 3 observing | 1 regions | relayed 4, undeliverable 5 | commands 6, refused 7"
    );
}

#[test]
fn a_name_that_is_not_text_does_not_decode() {
    let beat = EdgeHeartbeat {
        edge: EdgeName::new("abc").expect("valid"),
        protocol: protocol_version(),
        server: ServerVersion::current(),
        regions: Vec::new(),
        load: EdgeLoad {
            clients: 0,
            entities: 0,
            observers: 0,
            relayed: 0,
            undeliverable: 0,
            commands: 0,
            refused: 0,
        },
    };
    let mut buf = Vec::new();
    beat.encode(&mut buf);
    assert_eq!(EdgeHeartbeat::decode(&buf).expect("well formed").edge.as_str(), "abc");
    let at = buf.iter().position(|&b| b == b'b').expect("in the name");
    buf[at] = 0xff;
    assert!(EdgeHeartbeat::decode(&buf).is_err());
}

#[test]
fn a_kind_says_what_is_behind_it() {
    assert!(EntityKind::observer(3).observes());
    assert!(EntityKind::shadow().is_shadow());
    assert!(!EntityKind::unattended(3).observes());
    assert_eq!(EntityKind::unattended(9).tag(), 9);
}
