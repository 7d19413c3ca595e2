//! An edge's front door: game clients on one side, regions on the other.
//!
//! [`EdgeServer`] is what an edge calls itself and when it says what it is
//! carrying. What it carries is an [`EdgeHandle`].
//!
//! A state packet never enters consumer code. It arrives from a region already
//! assembled, the edge looks up which connection owns the avatar it is
//! addressed to, and the bytes go out on that connection's datagram.

use vstd::prelude::*;
use vstd::string::*;

use crate::entity::EntityId;
use crate::id::{ClientId, EntityKey, RegionId};
use crate::net::beat::Beat;
use crate::net::control::{EdgeHeartbeat, EdgeLoad};
use crate::net::edge::handle::{EdgeHandle, EdgeStats};
use crate::net::edge::model::Edge;
use crate::net::edge::protocol;
use crate::net::edge::protocol::ToClient;
use crate::net::error::NetError;
use crate::net::region::names;
use crate::net::region::names::EdgeName;
use crate::net::region::protocol::protocol_version;
use crate::net::version::{ProtocolVersion, ServerVersion};
use crate::table;
use crate::text;
use crate::text::push_padded;

verus! {

/// How often queued positions are published, in nanoseconds.
///
/// Well under a tick at any rate a region runs, so a move never waits for the
/// tick that would have carried it.
pub const MOVE_FLUSH: u64 = 5_000_000;

/// How long the region reader waits before checking whether it should stop, in
/// nanoseconds.
pub const DRAIN_POLL: u64 = 200_000_000;

/// What remains of a count once an earlier one is taken away.
pub open spec fn since(now: u64, before: u64) -> u64 {
    if now < before {
        0
    } else {
        (now - before) as u64
    }
}

/// What one heartbeat says, of totals now and at the last.
pub open spec fn span_of(now: EdgeStats, before: EdgeStats) -> EdgeLoad {
    EdgeLoad {
        clients: now.clients,
        entities: now.entities,
        observers: now.observers,
        relayed: since(now.relayed, before.relayed),
        undeliverable: since(now.undeliverable, before.undeliverable),
        commands: since(now.commands, before.commands),
        refused: since(now.refused, before.refused),
    }
}

/// Turns cumulative counters into what one heartbeat span carries.
pub fn span(now: EdgeStats, before: EdgeStats) -> (load: EdgeLoad)
    ensures
        load == span_of(now, before),
{
    EdgeLoad {
        clients: now.clients,
        entities: now.entities,
        observers: now.observers,
        relayed: now.relayed.saturating_sub(before.relayed),
        undeliverable: now.undeliverable.saturating_sub(before.undeliverable),
        commands: now.commands.saturating_sub(before.commands),
        refused: now.refused.saturating_sub(before.refused),
    }
}

/// The name an edge makes of a number it drew: `edge-`, and the number's low 48
/// bits as twelve hexadecimal digits.
pub open spec fn minted(drawn: u64) -> Seq<char> {
    "edge-"@ + text::padded(drawn as nat, 16, 12)
}

/// The name an edge makes of a number it drew: `edge-` and twelve hexadecimal
/// digits. Nothing scopes on the name, so anything short and unlikely to
/// repeat does.
pub fn mint_name(drawn: u64) -> (name: String)
    ensures
        name@ == minted(drawn),
        EdgeName::refusal(name@) is None,
{
    let mut name = String::new();
    name.append("edge-");
    push_padded(&mut name, drawn, 16, 12);
    proof {
        assert(name@ =~= minted(drawn));
        reveal_strlit("edge-");
        lemma_hex(drawn as nat, 12);
        assert(names::all_plain(name@));
        vstd::utf8::is_ascii_chars_encode_utf8(name@);
    }
    name
}

/// Hexadecimal digits may stand in a name.
proof fn lemma_hex(n: nat, width: nat)
    ensures
        text::padded(n, 16, width).len() == width,
        names::all_plain(text::padded(n, 16, width)),
    decreases width,
{
    if width > 0 {
        lemma_hex(n / 16, (width - 1) as nat);
    }
}

/// So many hexadecimal digits tell numbers apart that differ in as many.
proof fn lemma_hex_apart(a: nat, b: nat, width: nat)
    requires
        text::padded(a, 16, width) == text::padded(b, 16, width),
    ensures
        a as int % vstd::arithmetic::power::pow(16, width) == b as int
            % vstd::arithmetic::power::pow(16, width),
    decreases width,
{
    reveal(vstd::arithmetic::power::pow);
    if width > 0 {
        let w = (width - 1) as nat;
        let x = text::padded(a, 16, width);
        let y = text::padded(b, 16, width);
        assert(x.last() == y.last());
        assert(x.drop_last() =~= text::padded(a / 16, 16, w));
        assert(y.drop_last() =~= text::padded(b / 16, 16, w));
        vstd::arithmetic::power::lemma_pow_positive(16, w);
        lemma_hex_apart(a / 16, b / 16, w);
        let span = vstd::arithmetic::power::pow(16, w);
        vstd::arithmetic::div_mod::lemma_mod_breakdown(a as int, 16, span);
        vstd::arithmetic::div_mod::lemma_mod_breakdown(b as int, 16, span);
        assert(a % 16 == b % 16);
    }
}

/// Two draws that differ in their low 48 bits make two names.
pub proof fn law_different_draws_make_different_names(a: u64, b: u64)
    requires
        a % 0x1_0000_0000_0000 != b % 0x1_0000_0000_0000,
    ensures
        minted(a) != minted(b),
{
    let head = "edge-"@;
    let x = text::padded(a as nat, 16, 12);
    let y = text::padded(b as nat, 16, 12);
    if head + x == head + y {
        assert((head + x).skip(head.len() as int) =~= x);
        assert((head + y).skip(head.len() as int) =~= y);
        reveal_with_fuel(vstd::arithmetic::power::pow, 13);
        assert(vstd::arithmetic::power::pow(16, 12) == 0x1_0000_0000_0000);
        lemma_hex_apart(a as nat, b as nat, 12);
    }
}

/// Which way a message travels.
#[derive(Clone, Copy, Debug, PartialEq, Eq, Structural)]
pub enum Transport {
    /// Reliable and ordered.
    Stream,
    /// Unreliable, unordered, one message per packet.
    Datagram,
}

/// The transport a message's kind calls for: latest-only messages ride a
/// datagram, everything else the reliable stream.
pub fn transport_of(message: &ToClient<'_>) -> (t: Transport)
    ensures
        t == if message is State {
            Transport::Datagram
        } else {
            Transport::Stream
        },
{
    if message.is_latest_only() {
        Transport::Datagram
    } else {
        Transport::Stream
    }
}

/// A message as it goes on a stream, behind its length. A stream is a byte
/// sequence, so this one needs the prefix.
pub fn on_stream(message: &ToClient<'_>) -> (out: Vec<u8>)
    ensures
        out@ == protocol::framed(message.wire()),
{
    let mut body: Vec<u8> = Vec::new();
    message.encode_onto(&mut body);
    assert(body@ =~= message.wire());
    let mut out: Vec<u8> = Vec::new();
    protocol::Framer::frame(body.as_slice(), &mut out);
    out
}

/// A message as it goes in a datagram, which carries exactly one and so needs
/// no length in front of it.
///
/// `room` is the largest datagram the path carries, and `space` what is left
/// in the send buffer. Refused rather than queued when it does not fit either:
/// state is latest-only, so a packet waiting behind staler ones is worth less
/// than the one after it.
pub fn in_datagram(message: &ToClient<'_>, room: Option<usize>, space: usize) -> (r: Result<
    Vec<u8>,
    NetError,
>)
    ensures
        match r {
            Ok(out) => {
                &&& out@ == message.wire()
                &&& room is Some
                &&& message.wire().len() <= room->0
                &&& message.wire().len() <= space
            },
            Err(e) => {
                &&& e == NetError::Congested
                &&& (room is None || message.wire().len() > room->0 || message.wire().len()
                    > space)
            },
        },
{
    let mut body: Vec<u8> = Vec::new();
    message.encode_onto(&mut body);
    assert(body@ =~= message.wire());
    let fits = match room {
        Some(room) => room >= body.len(),
        None => false,
    };
    if !fits || space < body.len() {
        return Err(NetError::Congested);
    }
    Ok(body)
}

impl EdgeHandle {
    /// Who one packet is for, and the message that carries it to them. The
    /// bytes are not decoded on the way through. `None`, and counted, where no
    /// client is there to receive it.
    pub fn relay<'a>(&mut self, region: RegionId, entity: EntityId, packet: &'a [u8]) -> (r: Option<
        (ClientId, ToClient<'a>),
    >)
        requires
            old(self).wf(),
        ensures
            final(self).wf(),
            match old(self)@.recipient(region, entity) {
                Some((client, handle)) => {
                    &&& final(self)@ == old(self)@
                    &&& r is Some
                    &&& (r->0).0 == client
                    &&& (r->0).1 == (ToClient::State { handle, region, packet })
                },
                None => r is None && final(self)@ == old(self)@.undelivered(),
            },
    {
        match self.recipient(region, entity) {
            Some((client, handle)) => Some((client, ToClient::State { handle, region, packet })),
            None => {
                self.count_relayed(false);
                None
            },
        }
    }
}

/// A message as one transport carries it, or why it does not.
pub open spec fn carried(message: ToClient, by: Transport, room: Option<usize>, space: usize) -> Result<
    Seq<u8>,
    NetError,
> {
    match by {
        Transport::Stream => Ok(protocol::framed(message.wire())),
        Transport::Datagram => if room is None || message.wire().len() > room->0
            || message.wire().len() > space {
            Err(NetError::Congested)
        } else {
            Ok(message.wire())
        },
    }
}

/// Whether some bytes, or a refusal, are what is expected.
pub open spec fn is_as(r: Result<Vec<u8>, NetError>, expected: Result<Seq<u8>, NetError>) -> bool {
    match expected {
        Ok(bytes) => r is Ok && r->Ok_0@ == bytes,
        Err(e) => r is Err && r->Err_0 == e,
    }
}

impl Edge {
    /// What goes on a client's connection for one message, or why nothing
    /// does.
    pub open spec fn posted(
        self,
        client: ClientId,
        message: ToClient,
        by: Transport,
        room: Option<usize>,
        space: usize,
    ) -> Result<Seq<u8>, NetError> {
        if self.clients.contains_key(client.0) {
            carried(message, by, room, space)
        } else {
            Err(NetError::Unknown("client"))
        }
    }
}

impl EdgeHandle {
    /// One message on the transport its kind calls for. `room` and `space` are
    /// the connection's, as for [`in_datagram`].
    pub fn post_to(
        &self,
        client: ClientId,
        message: &ToClient<'_>,
        room: Option<usize>,
        space: usize,
    ) -> (r: Result<Vec<u8>, NetError>)
        requires
            self.wf(),
        ensures
            is_as(
                r,
                self@.posted(
                    client,
                    *message,
                    if message is State {
                        Transport::Datagram
                    } else {
                        Transport::Stream
                    },
                    room,
                    space,
                ),
            ),
    {
        self.post_by(client, message, transport_of(message), room, space)
    }

    /// One message on a named transport.
    ///
    /// Separate from [`post_to`](Self::post_to) only because a consumer's own
    /// messages can go either way, and the kind alone cannot say which.
    pub fn post_by(
        &self,
        client: ClientId,
        message: &ToClient<'_>,
        by: Transport,
        room: Option<usize>,
        space: usize,
    ) -> (r: Result<Vec<u8>, NetError>)
        requires
            self.wf(),
        ensures
            is_as(r, self@.posted(client, *message, by, room, space)),
    {
        if !self.is_connected(client) {
            return Err(NetError::Unknown("client"));
        }
        match by {
            Transport::Datagram => in_datagram(message, room, space),
            Transport::Stream => Ok(on_stream(message)),
        }
    }

    /// The game's own bytes to a client, reliable and ordered: what goes on its
    /// stream.
    pub fn send(&self, client: ClientId, body: &[u8]) -> (r: Result<Vec<u8>, NetError>)
        requires
            self.wf(),
        ensures
            is_as(
                r,
                self@.posted(client, ToClient::Message(body), Transport::Stream, None, 0),
            ),
    {
        self.post_by(client, &ToClient::Message(body), Transport::Stream, None, 0)
    }

    /// The game's own bytes to a client in an unreliable datagram, for anything
    /// latest-only.
    ///
    /// Dropped rather than queued when the connection has no room, on the same
    /// terms as the state umwelt sends: a datagram waiting behind staler ones
    /// is worth less than the one after it.
    pub fn send_datagram(
        &self,
        client: ClientId,
        body: &[u8],
        room: Option<usize>,
        space: usize,
    ) -> (r: Result<Vec<u8>, NetError>)
        requires
            self.wf(),
        ensures
            is_as(
                r,
                self@.posted(client, ToClient::Message(body), Transport::Datagram, room, space),
            ),
    {
        self.post_by(client, &ToClient::Message(body), Transport::Datagram, room, space)
    }

    /// To whoever owns this entity, if anyone does: the client, and what goes
    /// on its stream.
    pub fn send_to_entity(&self, entity: EntityKey, body: &[u8]) -> (r: Result<
        (ClientId, Vec<u8>),
        NetError,
    >)
        requires
            self.wf(),
        ensures
            match self@.owner_of(entity) {
                None => r is Err && r->Err_0 == NetError::Unknown("entity"),
                Some(client) => match self@.posted(
                    client,
                    ToClient::Message(body),
                    Transport::Stream,
                    None,
                    0,
                ) {
                    Ok(bytes) => r is Ok && (r->Ok_0).0 == client && (r->Ok_0).1@ == bytes,
                    Err(e) => r is Err && r->Err_0 == e,
                },
            },
    {
        match self.client_of(entity) {
            None => Err(NetError::Unknown("entity")),
            Some(client) => match self.send(client, body) {
                Ok(bytes) => Ok((client, bytes)),
                Err(e) => Err(e),
            },
        }
    }
}

/// An edge server.
#[derive(Clone, Debug)]
pub struct EdgeServer {
    name: EdgeName,
    beat: Beat,
    before: EdgeStats,
}

impl EdgeServer {
    /// What the edge calls itself.
    pub closed spec fn called(&self) -> Seq<char> {
        self.name@
    }

    /// When the next heartbeat is due.
    pub closed spec fn pulse(&self) -> Beat {
        self.beat
    }

    /// What the edge had done at the last.
    pub closed spec fn reported(&self) -> EdgeStats {
        self.before
    }

    /// Under a name, at the default heartbeat.
    pub fn new(name: EdgeName) -> (s: EdgeServer)
        ensures
            s.called() == name@,
            s.pulse() == (Beat { every: crate::net::beat::DEFAULT_HEARTBEAT, since: 0 }),
            s.reported() == EdgeStats::zero(),
    {
        EdgeServer { name, beat: Beat::new(), before: EdgeStats::none() }
    }

    /// What this edge calls itself.
    pub fn name(&self) -> (name: &EdgeName)
        ensures
            name@ == self.called(),
    {
        &self.name
    }

    /// How often this edge says what it is carrying, in nanoseconds. Thirty
    /// seconds until told otherwise, and zero switches heartbeats off.
    pub fn set_heartbeat_interval(&mut self, every: u64)
        ensures
            final(self).called() == old(self).called(),
            final(self).reported() == old(self).reported(),
            final(self).pulse() == (Beat { every, ..old(self).pulse() }),
    {
        self.beat.set_interval(every);
    }

    /// Wakes once. Where a heartbeat is due, what it says: what the edge has
    /// done since the last.
    pub fn beat(&mut self, edge: &EdgeHandle) -> (body: Option<Vec<u8>>)
        requires
            edge.wf(),
        ensures
            final(self).called() == old(self).called(),
            final(self).pulse() == old(self).pulse().woken(),
            match body {
                None => !old(self).pulse().is_due() && final(self).reported()
                    == old(self).reported(),
                Some(b) => {
                    &&& old(self).pulse().is_due()
                    &&& final(self).reported() == edge@.totals()
                    &&& exists|h: EdgeHeartbeat| #[trigger]
                        h.wire() == b@ && h.edge@ == old(self).called() && h.protocol
                            == ProtocolVersion(1) && h.server == ServerVersion::this()
                            && h.regions@.map_values(|r: RegionId| r.0 as u64)
                            == table::in_order(edge@.occupied()) && h.load == span_of(
                            edge@.totals(),
                            old(self).reported(),
                        )
                },
            },
    {
        if !self.beat.wake() {
            return None;
        }
        let now = edge.stats();
        let heartbeat = EdgeHeartbeat {
            edge: self.name.clone(),
            protocol: protocol_version(),
            server: ServerVersion::current(),
            regions: edge.regions(),
            load: span(now, self.before),
        };
        self.before = now;
        let mut body: Vec<u8> = Vec::new();
        heartbeat.encode(&mut body);
        assert(heartbeat.wire() == body@);
        Some(body)
    }
}

impl Edge {
    /// With one packet more that reached nobody.
    pub open spec fn undelivered(self) -> Edge {
        Edge {
            counters: crate::net::edge::model::Counters {
                undeliverable: crate::net::edge::model::up(self.counters.undeliverable),
                ..self.counters
            },
            ..self
        }
    }
}

/// What a heartbeat says of an edge is what it holds now and how much more it
/// has done than at the last, never less than nothing.
pub proof fn law_a_heartbeat_counts_since_the_last(now: EdgeStats, before: EdgeStats)
    ensures
        ({
            let l = span_of(now, before);
            &&& l.clients == now.clients
            &&& l.entities == now.entities
            &&& l.observers == now.observers
            &&& l.relayed == vstd::math::max(0, now.relayed - before.relayed)
            &&& l.undeliverable == vstd::math::max(0, now.undeliverable - before.undeliverable)
            &&& l.commands == vstd::math::max(0, now.commands - before.commands)
            &&& l.refused == vstd::math::max(0, now.refused - before.refused)
        }),
{
}

/// A message on a stream is its length in four bytes and then itself; one in a
/// datagram is itself, and is refused when the path carries no datagram, or
/// none so large, or the buffer has no room for it. A client that is not
/// connected is sent nothing.
pub proof fn law_a_message_is_carried_whole_or_refused(
    e: Edge,
    client: ClientId,
    message: ToClient,
    room: Option<usize>,
    space: usize,
)
    requires
        message.wire().len() <= u32::MAX,
    ensures
        ({
            let stream = e.posted(client, message, Transport::Stream, room, space);
            let datagram = e.posted(client, message, Transport::Datagram, room, space);
            let n = message.wire().len();
            &&& !e.clients.contains_key(client.0) ==> stream == Err::<Seq<u8>, NetError>(
                NetError::Unknown("client"),
            ) && datagram == Err::<Seq<u8>, NetError>(NetError::Unknown("client"))
            &&& e.clients.contains_key(client.0) ==> {
                &&& stream is Ok
                &&& crate::le::holds(stream->Ok_0, 0, 4, n as int)
                &&& stream->Ok_0.skip(4) == message.wire()
                &&& datagram is Ok <==> room is Some && n <= room->0 && n <= space
                &&& datagram is Ok ==> datagram->Ok_0 == message.wire()
                &&& datagram is Err ==> datagram->Err_0 == NetError::Congested
            }
        }),
{
    let b = protocol::framed(message.wire());
    let n = message.wire().len();
    crate::le::lemma_span();
    crate::le::lemma_le_len(n, 4);
    assert(b.subrange(0, 4) =~= crate::le::le_bytes(n, 4));
    assert(b.skip(4) =~= message.wire());
    crate::le::lemma_holds(b, 0, 4, n);
}

/// A packet that reaches nobody is counted, and nothing else happens.
pub proof fn law_a_packet_that_reaches_nobody_is_counted(e: Edge)
    requires
        e.counters.undeliverable < u64::MAX,
    ensures
        ({
            let after = e.undelivered();
            &&& after.counters.undeliverable == e.counters.undeliverable + 1
            &&& after.counters.relayed == e.counters.relayed
            &&& after == (Edge { counters: after.counters, ..e })
        }),
{
}

} // verus!
