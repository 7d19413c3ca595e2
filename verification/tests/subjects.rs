//! The subjects messages go by.

use umwelt::id::RegionId;
use umwelt::net::region::names::EdgeName;
use umwelt::net::region::subjects::{command, commands_to, info, origin, payload, sender, to_edge};

fn edge() -> EdgeName {
    EdgeName::new("edge-3").expect("valid")
}

#[test]
fn subjects_have_the_shape_the_wildcards_expect() {
    let r = RegionId::from_raw(7);
    assert_eq!(info(r), "umwelt.7.info");
    assert_eq!(payload(r, &edge()), "umwelt.7.edge.edge-3.payload");
    assert_eq!(command(r, &edge()), "umwelt.7.edge.edge-3.command");
    assert_eq!(commands_to(r), "umwelt.7.edge.*.command");
    assert_eq!(to_edge(&edge(), "payload"), "umwelt.*.edge.edge-3.payload");
}

#[test]
fn an_edges_subscription_matches_every_region() {
    // The property the whole migration story rests on: one subscription,
    // taken at startup, matches regions that did not exist then.
    let pattern = to_edge(&edge(), "payload");
    for region in [1u32, 7, 4_000_000] {
        let concrete = payload(RegionId::from_raw(region), &edge());
        let (p, c): (Vec<_>, Vec<_>) =
            (pattern.split('.').collect(), concrete.split('.').collect());
        assert_eq!(p.len(), c.len());
        assert!(p.iter().zip(&c).all(|(a, b)| *a == "*" || a == b), "{concrete}");
    }
}

#[test]
fn a_command_subject_names_its_sender() {
    assert_eq!(sender("umwelt.7.edge.edge-3.command").expect("parses").as_str(), "edge-3");
    assert!(sender("umwelt.7.edge.edge-3.payload").is_err());
    assert!(sender("umwelt.7.info").is_err());
    assert!(sender("nonsense").is_err());
}

#[test]
fn a_payload_subject_names_its_region() {
    assert_eq!(origin("umwelt.7.edge.e.payload").expect("parses"), RegionId::from_raw(7));
    assert_eq!(origin("umwelt.12.edge.e.reply").expect("parses"), RegionId::from_raw(12));
    assert!(origin("umwelt.seven.edge.e.payload").is_err());
    assert!(origin("umwelt.7.edge.e.command").is_err());
}
