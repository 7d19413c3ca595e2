//! What a region's edges ask of it.

use umwelt::entity::EntityId;
use umwelt::fixed::Fixed;
use umwelt::net::region::edges::{EdgeId, Edges};
use umwelt::net::region::names::EdgeName;
use umwelt::net::region::protocol::{MoveEntities, KIND_KEEPALIVE, KIND_MOVE_ENTITIES};
use umwelt::net::region::session::Inbound;
use umwelt::pos::Pos3;
use umwelt::sim::ViewerId;

fn ent(n: u32) -> EntityId {
    EntityId::from_raw(n)
}

// Routing and publishing need a broker, so they are covered in
// tests/region_edge.rs. What is left here runs without one.

/// A queue, and the one edge it has heard from.
fn admitted() -> (Inbound, EdgeId) {
    let mut edges = Edges::new();
    let edge = edges.admit_edge(&EdgeName::new("alpha").expect("valid"), 0);
    (Inbound::new(edges), edge)
}

#[test]
fn the_watcher_map_is_the_direction_the_simulation_lacks() {
    // Dropping a viewer when its entity despawns needs entity to viewer,
    // and `WorldSimulation` only answers the other way.
    let mut inbound = Inbound::new(Edges::new());
    assert_eq!(inbound.take_watcher(ent(4)), None);

    inbound.set_watcher(ent(4), ViewerId::from_raw(9));
    assert_eq!(inbound.take_watcher(ent(4)), Some(ViewerId::from_raw(9)));
    assert_eq!(inbound.take_watcher(ent(4)), None, "taken once");
}

#[test]
fn a_position_survives_the_wire_exactly() {
    // What apply writes into the arrays has to be what the edge sent, or a
    // stationary entity would drift a little every tick.
    let sent =
        Pos3::new(Fixed::from_millimeters(7, 500), Fixed::zero(), Fixed::from_raw(1));
    let mut body = Vec::new();
    MoveEntities { moves: vec![(ent(1), sent)] }.encode(&mut body);
    let back = MoveEntities::decode(&body[1..]).expect("well formed");
    assert_eq!(back.moves[0].1, sent);
}

#[test]
fn a_command_that_does_not_decode_is_counted_and_dropped() {
    let (mut inbound, edge) = admitted();

    inbound.accept(edge, &[]);
    inbound.accept(edge, &[200, 1, 2, 3]);
    inbound.accept(edge, &[KIND_MOVE_ENTITIES, 0xFF]);
    assert_eq!(inbound.refused(), 3);
    assert_eq!(inbound.received(), 0, "nothing was queued");
}

#[test]
fn a_keepalive_says_nothing_but_is_not_a_fault() {
    let (mut inbound, edge) = admitted();
    inbound.accept(edge, &[KIND_KEEPALIVE]);
    assert_eq!(inbound.refused(), 0);
    assert_eq!(inbound.received(), 0);
}

#[test]
fn a_well_formed_command_is_queued() {
    let (mut inbound, edge) = admitted();

    let mut body = Vec::new();
    MoveEntities { moves: vec![(ent(1), Pos3::from_meters(1, 2, 3))] }
        .encode(&mut body);
    inbound.accept(edge, &body);
    assert_eq!(inbound.received(), 1);
    assert_eq!(inbound.refused(), 0);
}
