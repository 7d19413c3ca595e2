//! The edges a region has heard from.

use umwelt::entity::EntityId;
use umwelt::net::region::edges::{ClaimError, EdgeId, Edges};
use umwelt::net::region::names::EdgeName;

fn ent(n: u32) -> EntityId {
    EntityId::from_raw(n)
}

fn name(s: &str) -> EdgeName {
    EdgeName::new(s).expect("valid")
}

#[test]
fn an_edge_name_refuses_what_would_break_a_subject() {
    assert!(EdgeName::new("edge-1").is_ok());
    assert!(EdgeName::new("edge_1").is_ok());
    // A dot would split into another subject token, and the wildcards would
    // reach subjects belonging to other edges.
    assert!(EdgeName::new("edge.1").is_err());
    assert!(EdgeName::new("*").is_err());
    assert!(EdgeName::new(">").is_err());
    assert!(EdgeName::new("").is_err());
    assert!(EdgeName::new(&"x".repeat(65)).is_err());
}

#[test]
fn an_edge_id_round_trips() {
    assert_eq!(EdgeId::from_raw(9001).raw(), 9001);
    assert_eq!(EdgeId::from_raw(9001).index(), 9001usize);
    assert_eq!(core::mem::size_of::<EdgeId>(), core::mem::size_of::<u32>());
    assert_eq!(EdgeId::from_raw(3).short(), "Ed3");
}

#[test]
fn a_new_set_holds_nothing() {
    let mut edges = Edges::new();
    assert!(edges.is_empty());
    assert_eq!(edges.accepted(), 0);
    assert!(edges.view(0).is_empty());
    assert_eq!(edges.edge_for(ent(0)), None);
}

#[test]
fn an_edge_is_admitted_once_however_often_it_speaks() {
    let mut edges = Edges::new();
    let a = edges.admit_edge(&name("alpha"), 0);
    assert_eq!(edges.admit_edge(&name("alpha"), 0), a, "the same name is the same edge");
    assert_eq!(edges.len(), 1);
    assert_eq!(edges.accepted(), 1);

    let b = edges.admit_edge(&name("beta"), 0);
    assert_ne!(a, b);
    assert_eq!(edges.len(), 2);
}

#[test]
fn silence_past_the_expiry_drops_an_edge() {
    let mut edges = Edges::new();
    let a = edges.admit_edge(&name("alpha"), 0);
    edges.claim(a, ent(10)).expect("unclaimed");

    assert_eq!(edges.expire(60_000_000_000, 0), 0, "not silent long enough");
    assert_eq!(edges.len(), 1);

    assert_eq!(edges.expire(0, 1), 1);
    assert!(edges.is_empty());
    assert_eq!(edges.edge_for(ent(10)), None, "its entities stop routing");
    assert_eq!(edges.take_detached(), vec![ent(10)], "and go to the tick loop");
}

#[test]
fn speaking_again_resets_the_silence() {
    let mut edges = Edges::new();
    let a = edges.admit_edge(&name("alpha"), 0);
    edges.admit_edge(&name("alpha"), 20_000_000); // a command arriving
    assert_eq!(edges.expire(15_000_000, 20_000_000), 0);
    assert_eq!(edges.len(), 1);
    let _ = a;
}

#[test]
fn a_freed_id_is_reused_and_inherits_nothing() {
    let mut edges = Edges::new();
    let a = edges.admit_edge(&name("alpha"), 0);
    edges.claim(a, ent(10)).expect("unclaimed");
    edges.expire(0, 1);

    let reused = edges.admit_edge(&name("gamma"), 0);
    assert_eq!(reused, a, "the same slot came back");
    assert_eq!(edges.entity_count(reused), 0, "with none of the old claims");
    assert_eq!(edges.edge_for(ent(10)), None);
}

#[test]
fn routing_finds_the_edge_that_manages_an_entity() {
    let mut edges = Edges::new();
    let a = edges.admit_edge(&name("alpha"), 0);
    let b = edges.admit_edge(&name("beta"), 0);
    edges.claim(a, ent(10)).expect("unclaimed");
    edges.claim(b, ent(20)).expect("unclaimed");

    assert_eq!(edges.edge_for(ent(10)), Some(a));
    assert_eq!(edges.edge_for(ent(20)), Some(b));
    assert_eq!(edges.edge_for(ent(30)), None, "an unmanaged entity routes nowhere");
}

#[test]
fn two_edges_cannot_manage_one_entity() {
    let mut edges = Edges::new();
    let a = edges.admit_edge(&name("alpha"), 0);
    let b = edges.admit_edge(&name("beta"), 0);
    edges.claim(a, ent(10)).expect("unclaimed");

    assert_eq!(
        edges.claim(b, ent(10)),
        Err(ClaimError::AlreadyClaimed { entity: ent(10), by: a })
    );
    assert_eq!(edges.edge_for(ent(10)), Some(a), "the first claim stands");
    assert_eq!(edges.entity_count(b), 0);
}

#[test]
fn reclaiming_an_entity_this_edge_already_has_changes_nothing() {
    let mut edges = Edges::new();
    let a = edges.admit_edge(&name("alpha"), 0);
    edges.claim(a, ent(10)).expect("unclaimed");
    edges.claim(a, ent(10)).expect("the same edge may repeat itself");
    assert_eq!(edges.entity_count(a), 1, "and it is not counted twice");
}

#[test]
fn claiming_through_a_stale_edge_id_is_refused() {
    let mut edges = Edges::new();
    let a = edges.admit_edge(&name("alpha"), 0);
    edges.expire(0, 1);
    assert_eq!(edges.claim(a, ent(10)), Err(ClaimError::NoSuchEdge(a)));
    assert_eq!(edges.edge_for(ent(10)), None);
}

#[test]
fn releasing_an_entity_stops_it_routing() {
    let mut edges = Edges::new();
    let a = edges.admit_edge(&name("alpha"), 0);
    edges.claim(a, ent(10)).expect("unclaimed");
    edges.claim(a, ent(11)).expect("unclaimed");

    assert_eq!(edges.release(ent(10)), Some(a));
    assert_eq!(edges.edge_for(ent(10)), None);
    assert_eq!(edges.entity_count(a), 1, "the rest are untouched");
    assert_eq!(edges.release(ent(10)), None, "releasing twice reports nobody");
    assert_eq!(edges.release(ent(99)), None, "so does releasing what nobody held");
}

#[test]
fn a_released_entity_can_move_to_another_edge() {
    let mut edges = Edges::new();
    let a = edges.admit_edge(&name("alpha"), 0);
    let b = edges.admit_edge(&name("beta"), 0);
    edges.claim(a, ent(10)).expect("unclaimed");
    edges.release(ent(10));
    edges.claim(b, ent(10)).expect("free again");
    assert_eq!(edges.edge_for(ent(10)), Some(b));
    assert_eq!(edges.entity_count(a), 0);
}
