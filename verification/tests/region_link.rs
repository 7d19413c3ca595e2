//! A region and the edges that relay for it, through what they say to each
//! other.

use umwelt::config::WorldConfig;
use umwelt::entity::{EntityId, EntityKind};
use umwelt::id::RegionId;
use umwelt::net::control::Heartbeat;
use umwelt::net::error::NetError;
use umwelt::net::region::client::{Incoming, Offer, RegionClient};
use umwelt::net::region::edges::{ClaimError, EdgeId, Edges};
use umwelt::net::region::names::EdgeName;
use umwelt::net::region::protocol::{
    protocol_version, DespawnEntities, MoveEntities, Presence, ServerInfo, Spawn, SpawnEntities,
    WorldParams, MAX_DESPAWN_PER_MESSAGE, MAX_MOVES_PER_MESSAGE, MAX_SPAWN_PER_MESSAGE,
};
use umwelt::net::region::server::RegionServer;
use umwelt::net::region::session::{Act, EdgeSink, Inbound, Load, Settled};
use umwelt::net::version::{ProtocolVersion, ServerVersion};
use umwelt::pos::Pos3;
use umwelt::sim::{Step, TickSpan, ViewerId};

fn ent(n: u32) -> EntityId {
    EntityId::from_raw(n)
}

fn name(s: &str) -> EdgeName {
    EdgeName::new(s).expect("valid")
}

fn want(x: i32, kind: EntityKind, token: u64) -> Spawn {
    Spawn { position: Pos3::from_meters(x, 2, 3), kind, token }
}

fn idle() -> Load {
    Load { tick_count: 0, entities: 0, slots: 0, span: TickSpan::new() }
}

/// A queue that has heard from two edges, and a region to apply it to.
fn region() -> (Inbound, EdgeId, EdgeId, Step) {
    let mut edges = Edges::new();
    let a = edges.admit_edge(&name("alpha"), 0);
    let b = edges.admit_edge(&name("beta"), 0);
    (Inbound::new(edges), a, b, Step::new(WorldConfig::default()))
}

fn ask(inbound: &mut Inbound, edge: EdgeId, spawns: Vec<Spawn>) {
    let mut body = Vec::new();
    SpawnEntities { spawns }.encode(&mut body);
    inbound.accept(edge, &body);
}

fn put(inbound: &mut Inbound, edge: EdgeId, moves: Vec<(EntityId, Pos3)>) {
    let mut body = Vec::new();
    MoveEntities { moves }.encode(&mut body);
    inbound.accept(edge, &body);
}

fn drop_all(inbound: &mut Inbound, edge: EdgeId, ids: Vec<EntityId>) {
    let mut body = Vec::new();
    DespawnEntities { ids }.encode(&mut body);
    inbound.accept(edge, &body);
}

#[test]
fn a_spawn_makes_an_entity_its_edge_manages() {
    let (mut inbound, a, _, mut step) = region();
    ask(&mut inbound, a, vec![want(1, EntityKind::observer(7), 99), want(2, EntityKind::unattended(0), 100)]);
    let done = inbound.apply(&mut step);
    assert_eq!((done.spawned, done.refused), (2, 0));
    assert_eq!(step.count(), 2);
    assert_eq!(step.position(ent(0)), Some(Pos3::from_meters(1, 2, 3)));
    assert_eq!(inbound.edges().edge_for(ent(0)), Some(a));
    assert_eq!(
        inbound.settle(&[], idle()),
        vec![
            Act::Register(a, ent(0)),
            Act::Report(a, Presence::Added { entity: ent(0), token: 99 }),
            Act::Report(a, Presence::Added { entity: ent(1), token: 100 }),
        ]
    );
    assert!(inbound.settle(&[], idle()).is_empty(), "reported once");
}

#[test]
fn a_spawn_outside_the_region_is_refused() {
    let (mut inbound, a, _, mut step) = region();
    ask(&mut inbound, a, vec![want(4096, EntityKind::observer(0), 1), want(4095, EntityKind::observer(0), 2)]);
    let done = inbound.apply(&mut step);
    assert_eq!((done.spawned, done.refused), (1, 1));
}

#[test]
fn an_edge_moves_and_removes_only_its_own() {
    let (mut inbound, a, b, mut step) = region();
    ask(&mut inbound, a, vec![want(1, EntityKind::unattended(0), 1)]);
    inbound.apply(&mut step);
    put(&mut inbound, b, vec![(ent(0), Pos3::from_meters(9, 9, 9))]);
    drop_all(&mut inbound, b, vec![ent(0)]);
    let done = inbound.apply(&mut step);
    assert_eq!((done.moved, done.despawned, done.refused), (0, 0, 2));
    assert_eq!(step.position(ent(0)), Some(Pos3::from_meters(1, 2, 3)));

    put(&mut inbound, a, vec![(ent(0), Pos3::from_meters(9, 9, 9)), (ent(0), Pos3::from_meters(-1, 0, 0))]);
    let done = inbound.apply(&mut step);
    assert_eq!((done.moved, done.refused), (1, 1));
    assert_eq!(step.position(ent(0)), Some(Pos3::from_meters(9, 9, 9)));

    drop_all(&mut inbound, a, vec![ent(0), ent(0)]);
    let done = inbound.apply(&mut step);
    assert_eq!((done.despawned, done.refused), (1, 1));
    assert!(!step.contains(ent(0)));
    assert_eq!(inbound.received(), 5);
}

#[test]
fn what_an_edge_held_goes_with_it() {
    let (mut inbound, a, _, mut step) = region();
    ask(&mut inbound, a, vec![want(1, EntityKind::observer(0), 1)]);
    inbound.apply(&mut step);
    inbound.settle(&[], idle());
    inbound.registered(a, ent(0), ViewerId::from_raw(3));
    assert_eq!(inbound.edges_mut().expire(10, 20), 2);
    let done = inbound.apply(&mut step);
    assert_eq!(done.orphaned, 1);
    assert!(!step.contains(ent(0)));
    let gone = step.take_despawned();
    assert_eq!(gone, vec![ent(0)]);
    let acts = inbound.settle(&gone, idle());
    assert_eq!(acts, vec![Act::Drop(ViewerId::from_raw(3))], "there is no edge left to tell");
}

#[test]
fn a_despawn_is_reported_to_the_edge_that_managed_it() {
    let (mut inbound, a, _, mut step) = region();
    ask(&mut inbound, a, vec![want(1, EntityKind::observer(0), 1)]);
    inbound.apply(&mut step);
    inbound.settle(&[], idle());
    inbound.registered(a, ent(0), ViewerId::from_raw(3));
    step.despawn(ent(0));
    let gone = step.take_despawned();
    let acts = inbound.settle(&gone, idle());
    assert_eq!(
        acts,
        vec![
            Act::Drop(ViewerId::from_raw(3)),
            Act::Report(a, Presence::Removed { entity: ent(0) }),
        ]
    );
    let mut settled = Settled::new();
    for act in acts {
        settled.count(act, true);
    }
    assert_eq!((settled.unregistered, settled.reported, settled.registered), (1, 1, 0));
    assert_eq!(inbound.edges().edge_for(ent(0)), None);
}

#[test]
fn a_payload_goes_to_the_edge_of_the_avatar_it_was_built_for() {
    let mut edges = Edges::new();
    let a = edges.admit_edge(&name("alpha"), 0);
    edges.claim(a, ent(4)).expect("unclaimed");
    let mut sink = EdgeSink::new(RegionId::from_raw(7));
    let viewer = ViewerId::from_raw(2);
    assert!(sink.send(&edges, viewer, b"state").is_none(), "bound to nothing");
    assert_eq!(sink.undeliverable(), 1);
    sink.bind(viewer, ent(4));
    assert_eq!(sink.avatar_of(viewer), Some(ent(4)));
    let out = sink.send(&edges, viewer, b"state").expect("routed");
    assert_eq!(out.subject, "umwelt.7.edge.alpha.payload");
    assert_eq!(out.body, [&4u32.to_le_bytes()[..], &b"state"[..]].concat());
    sink.published(true);
    sink.published(false);
    assert_eq!((sink.sent(), sink.failed()), (1, 1));
    let said = sink.presence(&edges, a, Presence::Removed { entity: ent(4) }).expect("attached");
    assert_eq!(said.subject, "umwelt.7.edge.alpha.reply");
    sink.unbind(viewer);
    assert!(sink.send(&edges, viewer, b"state").is_none());
}

#[test]
fn commands_are_split_where_a_message_is_full() {
    let link = RegionClient::new(name("alpha"));
    let region = RegionId::from_raw(7);
    let spawns = vec![want(1, EntityKind::observer(0), 1); MAX_SPAWN_PER_MESSAGE + 1];
    let batch = link.spawn(region, &spawns);
    assert_eq!(batch.subject, "umwelt.7.edge.alpha.command");
    assert_eq!(batch.bodies.len(), 2);
    let first = SpawnEntities::decode(&batch.bodies[0][1..]).expect("well formed").spawns;
    let rest = SpawnEntities::decode(&batch.bodies[1][1..]).expect("well formed").spawns;
    assert_eq!((first.len(), rest.len()), (MAX_SPAWN_PER_MESSAGE, 1));
    let moves = vec![(ent(1), Pos3::zero()); MAX_MOVES_PER_MESSAGE * 2];
    assert_eq!(link.move_entities(region, &moves).bodies.len(), 2);
    let ids = vec![ent(1); MAX_DESPAWN_PER_MESSAGE * 2 + 1];
    assert_eq!(link.despawn(region, &ids).bodies.len(), 3);
    assert!(link.despawn(region, &[]).bodies.is_empty());
    assert_eq!(link.keepalive(region).bodies, vec![vec![4u8]]);
    let observers = link.spawn_observers(region, &[Pos3::zero()]);
    let one = SpawnEntities::decode(&observers.bodies[0][1..]).expect("well formed");
    assert!(one.spawns[0].kind.observes());
    assert_eq!(link.name().as_str(), "alpha");
}

#[test]
fn a_packet_is_read_off_the_subject_it_came_on() {
    let mut payload = 41u32.to_le_bytes().to_vec();
    payload.extend_from_slice(b"a packet");
    let held = bytes::Bytes::from(payload);
    match Incoming::state("umwelt.7.edge.alpha.payload", &held) {
        Some(Incoming::State { region, entity, packet }) => {
            assert_eq!((region.raw(), entity.raw()), (7, 41));
            assert_eq!(&packet[..], b"a packet");
        }
        other => panic!("{other:?}"),
    }
    assert!(Incoming::state("umwelt.x.edge.alpha.payload", &held).is_none());
    assert!(Incoming::state("umwelt.7.edge.alpha.payload", &held.slice(..3)).is_none());
    let mut body = Vec::new();
    Presence::Added { entity: ent(3), token: 9 }.encode(&mut body);
    match Incoming::presence("umwelt.7.edge.alpha.reply", &body) {
        Some(Incoming::Presence { region, what }) => {
            assert_eq!(region.raw(), 7);
            assert_eq!(what, Presence::Added { entity: ent(3), token: 9 });
        }
        other => panic!("{other:?}"),
    }
    assert!(Incoming::presence("umwelt.7.edge.alpha.reply", &body[..4]).is_none());
}

#[test]
fn an_offer_is_checked_before_it_is_believed() {
    let cfg = WorldConfig::default();
    let server = RegionServer::new(RegionId::from_raw(7), cfg);
    let info = ServerInfo::decode(&server.info()).expect("well formed");
    let offer = Offer::check(&info).expect("ours");
    assert_eq!(offer.region, RegionId::from_raw(7));
    assert_eq!(offer.config, cfg);
    assert_eq!(offer.server, ServerVersion::current());
    let newer = ServerInfo { protocol: ProtocolVersion::from_raw(2), ..info };
    assert_eq!(
        Offer::check(&newer).err(),
        Some(NetError::ProtocolMismatch {
            ours: protocol_version(),
            theirs: ProtocolVersion::from_raw(2)
        })
    );
    let unread = ServerInfo {
        params: WorldParams { region_size_m: i32::MAX, ..newer.params },
        ..newer
    };
    assert!(
        matches!(Offer::check(&unread), Err(NetError::ProtocolMismatch { .. })),
        "the parameters of another protocol are not read"
    );
    let odd = ServerInfo {
        params: WorldParams { protocol_hash: info.params.protocol_hash ^ 1, ..info.params },
        ..info
    };
    assert!(matches!(Offer::check(&odd), Err(NetError::ConfigMismatch { .. })));
    let broken = ServerInfo {
        params: WorldParams { region_size_m: 1000, ..info.params },
        ..info
    };
    assert!(matches!(Offer::check(&broken), Err(NetError::Config(_))));
}

#[test]
fn a_command_is_its_senders_and_a_heartbeat_is_the_spans() {
    let mut inbound = Inbound::new(Edges::new());
    let mut server = RegionServer::new(RegionId::from_raw(7), WorldConfig::default());
    let mut body = Vec::new();
    SpawnEntities { spawns: vec![want(1, EntityKind::observer(0), 1)] }.encode(&mut body);
    server.command(&mut inbound, "umwelt.7.edge.alpha.command", &body, 5);
    server.command(&mut inbound, "umwelt.7.info", &body, 5);
    assert_eq!(inbound.received(), 1);
    assert_eq!(inbound.edges().len(), 1);
    assert_eq!(inbound.edges().name(EdgeId::from_raw(0)).expect("admitted").as_str(), "alpha");
    let mut step = Step::new(WorldConfig::default());
    inbound.apply(&mut step);
    let span = TickSpan { viewers: 6, ticks: 3, total: 9_000, worst: 5_000, late: 1, dropped: 0 };
    inbound.settle(&[], Load { tick_count: 40, entities: 1, slots: 1, span });
    server.set_heartbeat_interval(250_000_000);
    let beat = Heartbeat::decode(&server.beat(&mut inbound).expect("due")).expect("well formed");
    assert_eq!(beat.region, RegionId::from_raw(7));
    assert_eq!(beat.edges, 1);
    assert_eq!(beat.protocol_hash, WorldConfig::default().protocol_hash());
    assert_eq!((beat.load.mean_tick, beat.load.worst_tick, beat.load.viewers), (3_000, 5_000, 2));
    let next = Heartbeat::decode(&server.beat(&mut inbound).expect("due")).expect("well formed");
    assert_eq!((next.load.mean_tick, next.load.late), (0, 0), "drained");
    assert_eq!(next.load.entities, 1, "and what is held stays");
}

#[test]
fn an_edges_record_says_what_it_has_done() {
    let mut edges = Edges::new();
    let a = edges.admit_edge(&name("alpha"), 10);
    edges.admit_edge(&name("alpha"), 30);
    edges.claim(a, ent(1)).expect("unclaimed");
    let seen = edges.view(50);
    assert_eq!(seen.len(), 1);
    assert_eq!((seen[0].uptime, seen[0].silent, seen[0].entities), (40, 20, 1));
    assert_eq!(seen[0].name.as_str(), "alpha");
    assert_eq!(
        edges.claim(EdgeId::from_raw(9), ent(2)),
        Err(ClaimError::NoSuchEdge(EdgeId::from_raw(9)))
    );
    assert_eq!(ClaimError::NoSuchEdge(a).to_string(), "Ed0 is not attached");
    assert_eq!(
        ClaimError::AlreadyClaimed { entity: ent(3), by: a }.to_string(),
        "E3 is already managed by Ed0"
    );
}

#[test]
fn what_edges_sent_fits_while_there_are_ids() {
    let (mut inbound, a, b, mut step) = region();
    assert!(inbound.fits(&step));
    ask(&mut inbound, a, vec![want(1, EntityKind::unattended(0), 1)]);
    put(&mut inbound, b, vec![(ent(0), Pos3::from_meters(9, 9, 9))]);
    drop_all(&mut inbound, b, vec![ent(0)]);
    assert!(inbound.fits(&step));
    assert_eq!(inbound.apply(&mut step).spawned, 1);
    assert_eq!(inbound.edges_mut().expire(1, 10), 2, "both edges are silent");
    assert!(inbound.fits(&step), "with an orphan waiting");
    assert_eq!(inbound.apply(&mut step).orphaned, 1);
}

#[test]
fn an_act_is_counted_where_its_own_count_has_room() {
    let full = Settled { registered: u32::MAX, unregistered: 3, reported: u32::MAX };
    let mut settled = full;
    settled.count(Act::Drop(ViewerId::from_raw(4)), false);
    assert_eq!(settled, Settled { unregistered: 4, ..full });
    settled.count(Act::Report(EdgeId::from_raw(0), Presence::Removed { entity: ent(1) }), false);
    assert_eq!(settled, Settled { unregistered: 4, ..full }, "a report that was not delivered");
}

#[test]
fn an_expiry_takes_only_the_silent() {
    let mut edges = Edges::new();
    let a = edges.admit_edge(&name("alpha"), 0);
    let b = edges.admit_edge(&name("beta"), 90);
    let c = edges.admit_edge(&name("gamma"), 5);
    for (edge, n) in [(a, 1), (b, 2), (c, 3), (a, 4)] {
        edges.claim(edge, ent(n)).expect("nobody's");
    }
    assert_eq!(edges.expire(50, 100), 2);
    assert_eq!(edges.len(), 1);
    assert_eq!((edges.name(a), edges.name(c)), (None, None));
    assert_eq!(edges.name(b), Some(name("beta")));
    assert_eq!((edges.edge_for(ent(1)), edges.edge_for(ent(3))), (None, None));
    assert_eq!(edges.edge_for(ent(2)), Some(b));
    assert_eq!(edges.waiting(), 3);
    assert_eq!(edges.take_detached(), vec![ent(1), ent(4), ent(3)]);
}
