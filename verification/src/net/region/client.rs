//! An edge's side of the link to its regions.
//!
//! [`RegionClient`] is the edge's own name, and what it makes of everything
//! the edge says and hears. Reaching a region it has never heard of costs
//! nothing: its two subscriptions are wildcards, so a payload from a region
//! that did not exist when they were taken matches one it already holds.

use vstd::prelude::*;
use vstd::slice::{slice_subrange, slice_to_vec};

use crate::config::WorldConfig;
use crate::entity::{EntityId, EntityKind, Role};
use crate::id::RegionId;
use crate::le;
use crate::le::read_u32;
use crate::net::error::NetError;
use crate::net::octets;
use crate::net::octets::{octets, past};
use crate::net::region::names::EdgeName;
use crate::net::region::protocol;
use crate::net::region::protocol::{
    protocol_version, DespawnEntities, MoveEntities, Presence, ServerInfo, Spawn, SpawnEntities,
    KIND_DESPAWN_ENTITIES, KIND_KEEPALIVE, KIND_MOVE_ENTITIES, KIND_SPAWN_ENTITIES,
    MAX_DESPAWN_PER_MESSAGE, MAX_MOVES_PER_MESSAGE, MAX_SPAWN_PER_MESSAGE,
};
use crate::net::region::subjects;
use crate::net::version::{ProtocolVersion, ServerVersion};
use crate::pos::Pos3;

verus! {

/// What a region says it is, checked before an edge uses it.
///
/// The config here has been rebuilt from the region's parameters and checked
/// against its digest, so an edge holding an `Offer` holds a world it can
/// decode packets against.
#[derive(Clone, Copy, Debug)]
pub struct Offer {
    /// Which region.
    pub region: RegionId,
    /// The crate version the region is running. Informational.
    pub server: ServerVersion,
    /// The world it runs.
    pub config: WorldConfig,
}

impl Offer {
    /// Checks what a region answered. Rebuilding the config is also the check
    /// that this end decodes the region's packets the way the region encodes
    /// them.
    pub fn check(info: &ServerInfo) -> (r: Result<Offer, NetError>)
        requires
            info.protocol == ProtocolVersion(1) ==> info.params.expressible(),
        ensures
            match r {
                Ok(offer) => {
                    &&& info.protocol == ProtocolVersion(1)
                    &&& offer.region == info.region
                    &&& offer.server == info.server
                    &&& info.params.builder().refusal() is None
                    &&& offer.config@ == info.params.builder().world()
                    &&& offer.config@.protocol_hash() == info.params.protocol_hash
                },
                Err(e) => if info.protocol != ProtocolVersion(1) {
                    e == (NetError::ProtocolMismatch {
                        ours: ProtocolVersion(1),
                        theirs: info.protocol,
                    })
                } else if info.params.builder().refusal() is Some {
                    e == NetError::Config(info.params.builder().refusal()->0)
                } else {
                    &&& info.params.builder().world().protocol_hash()
                        != info.params.protocol_hash
                    &&& e == (NetError::ConfigMismatch {
                        ours: info.params.builder().world().protocol_hash(),
                        theirs: info.params.protocol_hash,
                    })
                },
            },
    {
        if info.protocol != protocol_version() {
            return Err(
                NetError::ProtocolMismatch { ours: protocol_version(), theirs: info.protocol },
            );
        }
        match info.params.to_config() {
            Ok(config) => Ok(Offer { region: info.region, server: info.server, config }),
            Err(e) => Err(e),
        }
    }
}

/// What a region sent this edge.
#[derive(Debug)]
pub enum Incoming {
    /// One observer's packet, named by the entity it belongs to.
    State {
        /// Which region.
        region: RegionId,
        /// Whose packet.
        entity: EntityId,
        /// The packet.
        packet: bytes::Bytes,
    },
    /// An entity this edge owns appeared or left, whatever caused it.
    Presence {
        /// Which region.
        region: RegionId,
        /// What happened.
        what: Presence,
    },
}

impl Incoming {
    /// Reads one observer's packet off the subject and payload it came on. The
    /// packet itself is not copied. `None` for a message on a subject that
    /// names no region, or one too short to name an entity.
    pub fn state(subject: &str, payload: &bytes::Bytes) -> (r: Option<Incoming>)
        ensures
            match (subjects::origin_of(subject@), r) {
                (Some(from), Some(Incoming::State { region, entity, packet })) => {
                    &&& octets::held(*payload).len() >= 4
                    &&& region == from
                    &&& entity.0 == le::from_le(octets::held(*payload).take(4))
                    &&& octets::held(packet) == octets::held(*payload).skip(4)
                },
                (Some(_), None) => octets::held(*payload).len() < 4,
                (None, None) => true,
                _ => false,
            },
    {
        let region = match subjects::origin(subject) {
            Ok(region) => region,
            Err(_) => return None,
        };
        let body = octets(payload);
        if body.len() < 4 {
            return None;
        }
        let raw: u32 = read_u32(body, 0);
        assert(body@.subrange(0, 4) =~= body@.take(4));
        Some(
            Incoming::State {
                region,
                entity: EntityId::from_raw(raw),
                packet: past(payload, 4),
            },
        )
    }

    /// Reads what happened to an entity off the subject and payload it came
    /// on. `None` for a message that does not decode.
    pub fn presence(subject: &str, payload: &[u8]) -> (r: Option<Incoming>)
        ensures
            match (subjects::origin_of(subject@), r) {
                (Some(from), Some(Incoming::Presence { region, what })) => {
                    &&& region == from
                    &&& Presence::refusal(payload@) is None
                    &&& what.wire() == payload@
                },
                (Some(_), None) => Presence::refusal(payload@) is Some,
                (None, None) => true,
                _ => false,
            },
    {
        let region = match subjects::origin(subject) {
            Ok(region) => region,
            Err(_) => return None,
        };
        match Presence::decode(payload) {
            Ok(what) => Some(Incoming::Presence { region, what }),
            Err(_) => None,
        }
    }
}

/// Commands to one region: where they go, and the messages, in order.
#[derive(Clone, Debug)]
pub struct Batch {
    /// Where.
    pub subject: String,
    /// What.
    pub bodies: Vec<Vec<u8>>,
}

/// The messages that ask for entities, no more in each than one may hold.
pub open spec fn spawn_messages(spawns: Seq<Spawn>) -> Seq<Seq<u8>>
    decreases spawns.len(),
{
    if spawns.len() == 0 {
        Seq::empty()
    } else {
        let n = if spawns.len() <= MAX_SPAWN_PER_MESSAGE {
            spawns.len() as int
        } else {
            MAX_SPAWN_PER_MESSAGE as int
        };
        seq![seq![KIND_SPAWN_ENTITIES] + le::le_bytes(n as nat, 4) + protocol::spawns_bytes(
            spawns.take(n),
        )] + spawn_messages(spawns.skip(n))
    }
}

/// The messages that move entities, no more in each than one may hold.
pub open spec fn move_messages(moves: Seq<(EntityId, Pos3)>) -> Seq<Seq<u8>>
    decreases moves.len(),
{
    if moves.len() == 0 {
        Seq::empty()
    } else {
        let n = if moves.len() <= MAX_MOVES_PER_MESSAGE {
            moves.len() as int
        } else {
            MAX_MOVES_PER_MESSAGE as int
        };
        seq![seq![KIND_MOVE_ENTITIES] + le::le_bytes(n as nat, 4) + protocol::moves_bytes(
            moves.take(n),
        )] + move_messages(moves.skip(n))
    }
}

/// The messages that give entities back, no more in each than one may hold.
pub open spec fn despawn_messages(ids: Seq<EntityId>) -> Seq<Seq<u8>>
    decreases ids.len(),
{
    if ids.len() == 0 {
        Seq::empty()
    } else {
        let n = if ids.len() <= MAX_DESPAWN_PER_MESSAGE {
            ids.len() as int
        } else {
            MAX_DESPAWN_PER_MESSAGE as int
        };
        seq![seq![KIND_DESPAWN_ENTITIES] + le::le_bytes(n as nat, 4) + protocol::ids_bytes(
            ids.take(n),
        )] + despawn_messages(ids.skip(n))
    }
}

impl Batch {
    /// The messages.
    pub open spec fn messages(self) -> Seq<Seq<u8>> {
        self.bodies@.map_values(|b: Vec<u8>| b@)
    }
}

/// One edge's side of the link to the region tier.
#[derive(Clone, Debug)]
pub struct RegionClient {
    edge: EdgeName,
}

impl RegionClient {
    /// The edge's name.
    pub closed spec fn edge(&self) -> Seq<char> {
        self.edge@
    }

    /// For an edge of this name.
    pub fn new(edge: EdgeName) -> (c: RegionClient)
        ensures
            c.edge() == edge@,
    {
        RegionClient { edge }
    }

    /// What the edge is called.
    pub fn name(&self) -> (name: &EdgeName)
        ensures
            name@ == self.edge(),
    {
        &self.edge
    }

    /// Asks a region to create entities and record this edge as managing them.
    ///
    /// Each carries its kind, because whether a viewer is registered for it is
    /// the difference between an entity that costs 12 bytes of snapshot and one
    /// that costs the whole per-viewer pipeline every tick.
    pub fn spawn(&self, region: RegionId, spawns: &[Spawn]) -> (b: Batch)
        ensures
            b.subject@ == subjects::edge_subject(region, self.edge(), "command"@),
            b.messages() == spawn_messages(spawns@),
    {
        let mut bodies: Vec<Vec<u8>> = Vec::new();
        let mut at: usize = 0;
        assert(spawns@.skip(0) =~= spawns@);
        assert(bodies@.map_values(|b: Vec<u8>| b@) + spawn_messages(spawns@)
            =~= spawn_messages(spawns@));
        while at < spawns.len()
            invariant
                at <= spawns@.len(),
                bodies@.map_values(|b: Vec<u8>| b@) + spawn_messages(spawns@.skip(at as int))
                    == spawn_messages(spawns@),
            decreases spawns@.len() - at,
        {
            let left: usize = spawns.len() - at;
            let n: usize = if left <= MAX_SPAWN_PER_MESSAGE {
                left
            } else {
                MAX_SPAWN_PER_MESSAGE
            };
            let chunk = slice_to_vec(slice_subrange(spawns, at, at + n));
            let mut body: Vec<u8> = Vec::new();
            let m = SpawnEntities { spawns: chunk };
            m.encode(&mut body);
            let ghost before = bodies@;
            let ghost one = body@;
            bodies.push(body);
            proof {
                let rest = spawns@.skip(at as int);
                assert(m.spawns@ =~= rest.take(n as int));
                assert(rest.skip(n as int) =~= spawns@.skip(at + n));
                assert(one =~= seq![KIND_SPAWN_ENTITIES] + le::le_bytes(n as nat, 4)
                    + protocol::spawns_bytes(rest.take(n as int)));
                assert(bodies@.map_values(|b: Vec<u8>| b@) =~= before.map_values(
                    |b: Vec<u8>| b@,
                ).push(one));
                assert(bodies@.map_values(|b: Vec<u8>| b@) + spawn_messages(spawns@.skip(at + n))
                    =~= before.map_values(|b: Vec<u8>| b@) + (seq![one] + spawn_messages(
                    spawns@.skip(at + n),
                )));
            }
            at = at + n;
        }
        proof {
            assert(spawns@.skip(at as int).len() == 0);
            assert(bodies@.map_values(|b: Vec<u8>| b@) =~= spawn_messages(spawns@));
        }
        Batch { subject: subjects::command(region, &self.edge), bodies }
    }

    /// Asks for entities that each have a client behind them.
    pub fn spawn_observers(&self, region: RegionId, positions: &[Pos3]) -> (b: Batch)
        ensures
            b.subject@ == subjects::edge_subject(region, self.edge(), "command"@),
            b.messages() == spawn_messages(
                protocol::spawn_each(
                    positions@,
                    EntityKind { role: Role::Observer, tag: 0 },
                ),
            ),
    {
        let m = SpawnEntities::observers(positions);
        self.spawn(region, m.spawns.as_slice())
    }

    /// Sends new absolute positions for entities this edge manages.
    pub fn move_entities(&self, region: RegionId, moves: &[(EntityId, Pos3)]) -> (b: Batch)
        ensures
            b.subject@ == subjects::edge_subject(region, self.edge(), "command"@),
            b.messages() == move_messages(moves@),
    {
        let mut bodies: Vec<Vec<u8>> = Vec::new();
        let mut at: usize = 0;
        assert(moves@.skip(0) =~= moves@);
        assert(bodies@.map_values(|b: Vec<u8>| b@) + move_messages(moves@) =~= move_messages(
            moves@,
        ));
        while at < moves.len()
            invariant
                at <= moves@.len(),
                bodies@.map_values(|b: Vec<u8>| b@) + move_messages(moves@.skip(at as int))
                    == move_messages(moves@),
            decreases moves@.len() - at,
        {
            let left: usize = moves.len() - at;
            let n: usize = if left <= MAX_MOVES_PER_MESSAGE {
                left
            } else {
                MAX_MOVES_PER_MESSAGE
            };
            let chunk = slice_to_vec(slice_subrange(moves, at, at + n));
            let mut body: Vec<u8> = Vec::new();
            let m = MoveEntities { moves: chunk };
            m.encode(&mut body);
            let ghost before = bodies@;
            let ghost one = body@;
            bodies.push(body);
            proof {
                let rest = moves@.skip(at as int);
                assert(m.moves@ =~= rest.take(n as int));
                assert(rest.skip(n as int) =~= moves@.skip(at + n));
                assert(one =~= seq![KIND_MOVE_ENTITIES] + le::le_bytes(n as nat, 4)
                    + protocol::moves_bytes(rest.take(n as int)));
                assert(bodies@.map_values(|b: Vec<u8>| b@) =~= before.map_values(
                    |b: Vec<u8>| b@,
                ).push(one));
                assert(bodies@.map_values(|b: Vec<u8>| b@) + move_messages(moves@.skip(at + n))
                    =~= before.map_values(|b: Vec<u8>| b@) + (seq![one] + move_messages(
                    moves@.skip(at + n),
                )));
            }
            at = at + n;
        }
        proof {
            assert(moves@.skip(at as int).len() == 0);
            assert(bodies@.map_values(|b: Vec<u8>| b@) =~= move_messages(moves@));
        }
        Batch { subject: subjects::command(region, &self.edge), bodies }
    }

    /// Gives entities back, because the game clients behind them have gone.
    pub fn despawn(&self, region: RegionId, ids: &[EntityId]) -> (b: Batch)
        ensures
            b.subject@ == subjects::edge_subject(region, self.edge(), "command"@),
            b.messages() == despawn_messages(ids@),
    {
        let mut bodies: Vec<Vec<u8>> = Vec::new();
        let mut at: usize = 0;
        assert(ids@.skip(0) =~= ids@);
        assert(bodies@.map_values(|b: Vec<u8>| b@) + despawn_messages(ids@) =~= despawn_messages(
            ids@,
        ));
        while at < ids.len()
            invariant
                at <= ids@.len(),
                bodies@.map_values(|b: Vec<u8>| b@) + despawn_messages(ids@.skip(at as int))
                    == despawn_messages(ids@),
            decreases ids@.len() - at,
        {
            let left: usize = ids.len() - at;
            let n: usize = if left <= MAX_DESPAWN_PER_MESSAGE {
                left
            } else {
                MAX_DESPAWN_PER_MESSAGE
            };
            let chunk = slice_to_vec(slice_subrange(ids, at, at + n));
            let mut body: Vec<u8> = Vec::new();
            let m = DespawnEntities { ids: chunk };
            m.encode(&mut body);
            let ghost before = bodies@;
            let ghost one = body@;
            bodies.push(body);
            proof {
                let rest = ids@.skip(at as int);
                assert(m.ids@ =~= rest.take(n as int));
                assert(rest.skip(n as int) =~= ids@.skip(at + n));
                assert(one =~= seq![KIND_DESPAWN_ENTITIES] + le::le_bytes(n as nat, 4)
                    + protocol::ids_bytes(rest.take(n as int)));
                assert(bodies@.map_values(|b: Vec<u8>| b@) =~= before.map_values(
                    |b: Vec<u8>| b@,
                ).push(one));
                assert(bodies@.map_values(|b: Vec<u8>| b@) + despawn_messages(ids@.skip(at + n))
                    =~= before.map_values(|b: Vec<u8>| b@) + (seq![one] + despawn_messages(
                    ids@.skip(at + n),
                )));
            }
            at = at + n;
        }
        proof {
            assert(ids@.skip(at as int).len() == 0);
            assert(bodies@.map_values(|b: Vec<u8>| b@) =~= despawn_messages(ids@));
        }
        Batch { subject: subjects::command(region, &self.edge), bodies }
    }

    /// Says nothing except that this edge is still here.
    ///
    /// A region drops an edge silent past the timeout it was built with, and
    /// despawns what that edge managed. An edge sending moves every tick never
    /// needs this; an idle one does.
    pub fn keepalive(&self, region: RegionId) -> (b: Batch)
        ensures
            b.subject@ == subjects::edge_subject(region, self.edge(), "command"@),
            b.messages() == seq![seq![KIND_KEEPALIVE]],
    {
        let mut body: Vec<u8> = Vec::new();
        body.push(KIND_KEEPALIVE);
        assert(body@ =~= seq![KIND_KEEPALIVE]);
        let mut bodies: Vec<Vec<u8>> = Vec::new();
        bodies.push(body);
        assert(bodies@.map_values(|b: Vec<u8>| b@) =~= seq![seq![KIND_KEEPALIVE]]);
        Batch { subject: subjects::command(region, &self.edge), bodies }
    }
}

/// What the spawn requests in a run of messages add up to.
pub open spec fn spawns_carried(messages: Seq<Seq<u8>>) -> Seq<Spawn>
    decreases messages.len(),
{
    if messages.len() == 0 {
        Seq::empty()
    } else {
        protocol::spawns_in(messages.first().skip(1)) + spawns_carried(messages.drop_first())
    }
}

/// What the moves in a run of messages add up to.
pub open spec fn moves_carried(messages: Seq<Seq<u8>>) -> Seq<(EntityId, Pos3)>
    decreases messages.len(),
{
    if messages.len() == 0 {
        Seq::empty()
    } else {
        protocol::moves_in(messages.first().skip(1)) + moves_carried(messages.drop_first())
    }
}

/// What the despawns in a run of messages add up to.
pub open spec fn ids_carried(messages: Seq<Seq<u8>>) -> Seq<EntityId>
    decreases messages.len(),
{
    if messages.len() == 0 {
        Seq::empty()
    } else {
        protocol::ids_in(messages.first().skip(1)) + ids_carried(messages.drop_first())
    }
}

/// However many messages the cap splits a batch into, what they carry is the
/// batch: nothing is lost, repeated or reordered.
pub proof fn law_spawns_are_split_without_loss(spawns: Seq<Spawn>)
    ensures
        spawns_carried(spawn_messages(spawns)) == spawns,
    decreases spawns.len(),
{
    if spawns.len() > 0 {
        let n = if spawns.len() <= MAX_SPAWN_PER_MESSAGE {
            spawns.len() as int
        } else {
            MAX_SPAWN_PER_MESSAGE as int
        };
        let body = le::le_bytes(n as nat, 4) + protocol::spawns_bytes(spawns.take(n));
        let all = spawn_messages(spawns);
        assert(all.first().skip(1) == body && all.drop_first() == spawn_messages(
            spawns.skip(n),
        )) by {
            assert(all.first() =~= seq![KIND_SPAWN_ENTITIES] + body);
            assert(all.first().skip(1) =~= body);
            assert(all.drop_first() =~= spawn_messages(spawns.skip(n)));
        }
        assert(protocol::spawns_in(body) == spawns.take(n)) by {
            protocol::lemma_spawns_in(spawns.take(n));
        }
        law_spawns_are_split_without_loss(spawns.skip(n));
        assert(spawns.take(n) + spawns.skip(n) =~= spawns);
    }
}

/// However many messages the cap splits a batch into, what they carry is the
/// batch: nothing is lost, repeated or reordered.
pub proof fn law_moves_are_split_without_loss(moves: Seq<(EntityId, Pos3)>)
    ensures
        moves_carried(move_messages(moves)) == moves,
    decreases moves.len(),
{
    if moves.len() > 0 {
        let n = if moves.len() <= MAX_MOVES_PER_MESSAGE {
            moves.len() as int
        } else {
            MAX_MOVES_PER_MESSAGE as int
        };
        let body = le::le_bytes(n as nat, 4) + protocol::moves_bytes(moves.take(n));
        let all = move_messages(moves);
        assert(all.first().skip(1) == body && all.drop_first() == move_messages(
            moves.skip(n),
        )) by {
            assert(all.first() =~= seq![KIND_MOVE_ENTITIES] + body);
            assert(all.first().skip(1) =~= body);
            assert(all.drop_first() =~= move_messages(moves.skip(n)));
        }
        assert(protocol::moves_in(body) == moves.take(n)) by {
            protocol::lemma_moves_in(moves.take(n));
        }
        law_moves_are_split_without_loss(moves.skip(n));
        assert(moves.take(n) + moves.skip(n) =~= moves);
    }
}

/// However many messages the cap splits a batch into, what they carry is the
/// batch: nothing is lost, repeated or reordered.
pub proof fn law_despawns_are_split_without_loss(ids: Seq<EntityId>)
    ensures
        ids_carried(despawn_messages(ids)) == ids,
    decreases ids.len(),
{
    if ids.len() > 0 {
        let n = if ids.len() <= MAX_DESPAWN_PER_MESSAGE {
            ids.len() as int
        } else {
            MAX_DESPAWN_PER_MESSAGE as int
        };
        let body = le::le_bytes(n as nat, 4) + protocol::ids_bytes(ids.take(n));
        let all = despawn_messages(ids);
        assert(all.first().skip(1) == body && all.drop_first() == despawn_messages(
            ids.skip(n),
        )) by {
            assert(all.first() =~= seq![KIND_DESPAWN_ENTITIES] + body);
            assert(all.first().skip(1) =~= body);
            assert(all.drop_first() =~= despawn_messages(ids.skip(n)));
        }
        assert(protocol::ids_in(body) == ids.take(n)) by {
            protocol::lemma_ids_in(ids.take(n));
        }
        law_despawns_are_split_without_loss(ids.skip(n));
        assert(ids.take(n) + ids.skip(n) =~= ids);
    }
}

/// Whether messages are no larger than a region takes, all of one kind, and
/// none but the last has room for another item.
pub open spec fn packed(messages: Seq<Seq<u8>>, kind: u8, width: int) -> bool {
    &&& forall|i: int|
        0 <= i < messages.len() ==> 0 < (#[trigger] messages[i]).len() <= 4096
            && messages[i][0] == kind
    &&& forall|i: int|
        0 <= i < messages.len() - 1 ==> (#[trigger] messages[i]).len() + width > 4096
}

/// A batch is split into as few messages as a region's limit allows: none is
/// larger, and only the last has room left for another item.
pub proof fn law_no_message_is_over_the_limit(
    spawns: Seq<Spawn>,
    moves: Seq<(EntityId, Pos3)>,
    ids: Seq<EntityId>,
)
    ensures
        packed(spawn_messages(spawns), 1, 23),
        packed(move_messages(moves), 2, 16),
        packed(despawn_messages(ids), 3, 4),
    decreases spawns.len() + moves.len() + ids.len(),
{
    if spawns.len() > 0 {
        let n = if spawns.len() <= MAX_SPAWN_PER_MESSAGE {
            spawns.len() as int
        } else {
            MAX_SPAWN_PER_MESSAGE as int
        };
        let all = spawn_messages(spawns);
        let rest = spawn_messages(spawns.skip(n));
        law_no_message_is_over_the_limit(spawns.skip(n), moves, ids);
        protocol::lemma_lists_len(spawns.take(n), Seq::empty(), Seq::empty());
        le::lemma_le_len(n as nat, 4);
        assert(all.drop_first() =~= rest);
        lemma_packed(all, 1, 23);
        if rest.len() > 0 {
            assert(spawns.skip(n).len() > 0);
        }
    } else if moves.len() > 0 {
        let n = if moves.len() <= MAX_MOVES_PER_MESSAGE {
            moves.len() as int
        } else {
            MAX_MOVES_PER_MESSAGE as int
        };
        let all = move_messages(moves);
        let rest = move_messages(moves.skip(n));
        law_no_message_is_over_the_limit(spawns, moves.skip(n), ids);
        protocol::lemma_lists_len(Seq::empty(), moves.take(n), Seq::empty());
        le::lemma_le_len(n as nat, 4);
        assert(all.drop_first() =~= rest);
        lemma_packed(all, 2, 16);
        if rest.len() > 0 {
            assert(moves.skip(n).len() > 0);
        }
    } else if ids.len() > 0 {
        let n = if ids.len() <= MAX_DESPAWN_PER_MESSAGE {
            ids.len() as int
        } else {
            MAX_DESPAWN_PER_MESSAGE as int
        };
        let all = despawn_messages(ids);
        let rest = despawn_messages(ids.skip(n));
        law_no_message_is_over_the_limit(spawns, moves, ids.skip(n));
        protocol::lemma_lists_len(Seq::empty(), Seq::empty(), ids.take(n));
        le::lemma_le_len(n as nat, 4);
        assert(all.drop_first() =~= rest);
        lemma_packed(all, 3, 4);
        if rest.len() > 0 {
            assert(ids.skip(n).len() > 0);
        }
    }
}

proof fn lemma_packed(messages: Seq<Seq<u8>>, kind: u8, width: int)
    requires
        messages.len() > 0,
        packed(messages.drop_first(), kind, width),
        0 < messages[0].len() <= 4096,
        messages[0][0] == kind,
        messages.len() > 1 ==> messages[0].len() + width > 4096,
    ensures
        packed(messages, kind, width),
{
    let rest = messages.drop_first();
    assert forall|i: int| 0 <= i < messages.len() implies 0 < (#[trigger] messages[i]).len() <= 4096
        && messages[i][0] == kind by {
        if i > 0 {
            assert(rest[i - 1] == messages[i]);
        }
    }
    assert forall|i: int| 0 <= i < messages.len() - 1 implies (#[trigger] messages[i]).len() + width
        > 4096 by {
        if i > 0 {
            assert(rest[i - 1] == messages[i]);
        }
    }
}

} // verus!
