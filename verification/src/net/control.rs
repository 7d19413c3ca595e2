//! What a region says about itself, for whoever is watching the tier.
//!
//! A separate protocol from [`crate::net::region`], and deliberately not
//! sharing types with it. That one is how a region and its edges do their
//! work; this one is how an operator sees that the work is happening.
//!
//! The library publishes and does not subscribe. Deciding anything from a
//! heartbeat — rebalancing, draining, placing regions — belongs to a control
//! plane tier that is a separate program and is not built.
//!
//! **No cadence is defined here**, and no consumer writes one. A server
//! publishes its own heartbeat on a timer it owns, because a heartbeat reports
//! state only the server holds, and asking a consumer to carry that state out
//! and hand it back would make the library's own bookkeeping the consumer's
//! problem.
//!
//! How long silence has to last before anyone believes a server has stopped is
//! a deployment judgment, and belongs to whatever is listening.
//!
//! # Subjects
//!
//! Building a subject is umwelt's on both ends. A watcher outside this crate
//! subscribes to these patterns:
//!
//! | pattern | carries |
//! |---|---|
//! | `umwelt.control.region.*.heartbeat` | every region's [`Heartbeat`] |
//! | `umwelt.control.edge.*.heartbeat` | every edge's [`EdgeHeartbeat`] |
//!
//! That, and what [`Heartbeat::decode`] and [`EdgeHeartbeat::decode`] read, is
//! the whole of what a watcher needs to know about the transport.

use vstd::prelude::*;
use vstd::string::*;

use crate::id::RegionId;
use crate::le;
use crate::le::{push_u16, push_u32, push_u64, push_wide};
use crate::net::error::NetError;
use crate::net::region::names::EdgeName;
use crate::net::region::protocol as region;
use crate::net::region::protocol::{get_version, put_version};
use crate::net::region::subjects;
use crate::net::version::{ProtocolVersion, ServerVersion};
use crate::net::wire::Cursor;
use crate::text;
use crate::text::{push_decimal, push_padded};

verus! {

/// Why some bytes are not text.
#[verifier::external_type_specification]
#[verifier::external_body]
pub struct ExUtf8Error(core::str::Utf8Error);

/// `core::str::from_utf8` gives back the bytes it was given, as text, exactly
/// where they are valid UTF-8.
pub assume_specification[ core::str::from_utf8 ](v: &[u8]) -> (r: Result<
    &str,
    core::str::Utf8Error,
>)
    ensures
        match r {
            Ok(s) => vstd::utf8::valid_utf8(v@) && s.spec_bytes() == v@,
            Err(_) => !vstd::utf8::valid_utf8(v@),
        },
;

/// One region's heartbeat subject.
pub fn subject(region: RegionId) -> (s: String)
    ensures
        s@ == "umwelt.control.region."@ + text::decimal(region.0 as nat) + ".heartbeat"@,
{
    let mut s = String::new();
    s.append("umwelt.control.region.");
    push_decimal(&mut s, region.raw() as u64);
    s.append(".heartbeat");
    assert(s@ =~= "umwelt.control.region."@ + text::decimal(region.0 as nat) + ".heartbeat"@);
    s
}

/// One edge's heartbeat subject.
pub fn edge_subject(edge: &EdgeName) -> (s: String)
    ensures
        s@ == "umwelt.control.edge."@ + edge@ + ".heartbeat"@,
{
    let mut s = String::new();
    s.append("umwelt.control.edge.");
    s.append(edge.as_str());
    s.append(".heartbeat");
    assert(s@ =~= "umwelt.control.edge."@ + edge@ + ".heartbeat"@);
    s
}

/// What only the region's own loop can report.
///
/// The tick figures cover the span since the previous heartbeat, not a fixed
/// second: the interval is the consumer's, so the window is too. `late` and
/// `dropped` are counts over that same span, which says more than a sample
/// would.
#[derive(Clone, Copy, Debug, PartialEq, Eq, Structural)]
pub struct RegionLoad {
    /// Ticks in the span.
    pub tick_count: u32,
    /// Entities alive at the end of it.
    pub entities: u32,
    /// Slots ever allocated. Despawn does not reclaim, so this climbs with
    /// churn while `entities` does not.
    pub slots: u32,
    /// Viewers registered at the end of it.
    pub viewers: u32,
    /// Time inside a tick, averaged over the span, in nanoseconds.
    pub mean_tick: u64,
    /// The longest tick in the span, in nanoseconds.
    pub worst_tick: u64,
    /// Ticks that started after their deadline.
    pub late: u32,
    /// Deadlines skipped rather than caught up on.
    pub dropped: u32,
}

impl RegionLoad {
    /// Nothing yet.
    pub open spec fn zero() -> RegionLoad {
        RegionLoad {
            tick_count: 0,
            entities: 0,
            slots: 0,
            viewers: 0,
            mean_tick: 0,
            worst_tick: 0,
            late: 0,
            dropped: 0,
        }
    }
}

impl Default for RegionLoad {
    /// Nothing yet.
    fn default() -> (l: RegionLoad)
        ensures
            l == RegionLoad::zero(),
    {
        RegionLoad {
            tick_count: 0,
            entities: 0,
            slots: 0,
            viewers: 0,
            mean_tick: 0,
            worst_tick: 0,
            late: 0,
            dropped: 0,
        }
    }
}

/// A tick longer than four seconds saturates rather than wrapping. Anything
/// near it is already a failure the numbers beside it will show.
pub open spec fn held_nanos(n: u64) -> u32 {
    if n > u32::MAX {
        u32::MAX
    } else {
        n as u32
    }
}

/// A time as it is written, held to what 32 bits hold.
fn nanos(n: u64) -> (held: u32)
    ensures
        held == held_nanos(n),
{
    if n > u32::MAX as u64 {
        u32::MAX
    } else {
        n as u32
    }
}

/// A region saying what it is and how it is doing.
///
/// No address, no port, no neighbors. Nothing needs to reach a region: an edge
/// finds it by subject.
#[derive(Clone, Copy, Debug, PartialEq, Eq, Structural)]
pub struct Heartbeat {
    /// Which region is speaking.
    pub region: RegionId,
    /// What it speaks to its edges.
    pub protocol: ProtocolVersion,
    /// The crate version it runs.
    pub server: ServerVersion,
    /// The world's wire layout. Two regions whose digests differ decode each
    /// other's packets into nonsense, and nothing else here would show it.
    pub protocol_hash: u64,
    /// Edges this region has heard from and not yet expired.
    pub edges: u32,
    /// How it is doing.
    pub load: RegionLoad,
}

/// A region's load on the wire.
pub open spec fn load_bytes(l: RegionLoad) -> Seq<u8> {
    le::le_bytes(l.tick_count as nat, 4) + le::le_bytes(l.entities as nat, 4) + le::le_bytes(
        l.slots as nat,
        4,
    ) + le::le_bytes(l.viewers as nat, 4) + le::le_bytes(held_nanos(l.mean_tick) as nat, 4)
        + le::le_bytes(held_nanos(l.worst_tick) as nat, 4) + le::le_bytes(l.late as nat, 4)
        + le::le_bytes(l.dropped as nat, 4)
}

/// Appends a region's load.
fn put_load(l: RegionLoad, out: &mut Vec<u8>)
    ensures
        final(out)@ == old(out)@ + load_bytes(l),
{
    push_u32(out, l.tick_count);
    push_u32(out, l.entities);
    push_u32(out, l.slots);
    push_u32(out, l.viewers);
    push_u32(out, nanos(l.mean_tick));
    push_u32(out, nanos(l.worst_tick));
    push_u32(out, l.late);
    push_u32(out, l.dropped);
    assert(out@ =~= old(out)@ + load_bytes(l));
}

/// Reads a region's load out of a body.
fn get_load(c: &mut Cursor<'_>) -> (r: Result<RegionLoad, NetError>)
    requires
        old(c).wf(),
    ensures
        final(c).wf(),
        final(c).body() == old(c).body(),
        final(c).what() == old(c).what(),
        (r is Err) == (old(c).at() + 32 > old(c).body().len()),
        match r {
            Ok(l) => {
                &&& final(c).at() == old(c).at() + 32
                &&& final(c).done() == old(c).done() + load_bytes(l)
                &&& l.mean_tick <= u32::MAX
                &&& l.worst_tick <= u32::MAX
            },
            Err(e) => e == old(c).fault(),
        },
{
    let tick_count: u32 = c.u32()?;
    let entities: u32 = c.u32()?;
    let slots: u32 = c.u32()?;
    let viewers: u32 = c.u32()?;
    let mean: u32 = c.u32()?;
    let worst: u32 = c.u32()?;
    let late: u32 = c.u32()?;
    let dropped: u32 = c.u32()?;
    let l = RegionLoad {
        tick_count,
        entities,
        slots,
        viewers,
        mean_tick: mean as u64,
        worst_tick: worst as u64,
        late,
        dropped,
    };
    assert(c.done() =~= old(c).done() + load_bytes(l));
    Ok(l)
}

impl Heartbeat {
    /// A heartbeat's width on the wire.
    pub const BYTES: usize = 56;

    /// The heartbeat as bytes.
    pub open spec fn wire(self) -> Seq<u8> {
        le::le_bytes(self.region.0 as nat, 4) + le::le_bytes(self.protocol.0 as nat, 2)
            + region::version_bytes(self.server) + le::le_bytes(self.protocol_hash as nat, 8)
            + le::le_bytes(self.edges as nat, 4) + load_bytes(self.load)
    }

    /// Replaces `out` with the encoded heartbeat.
    pub fn encode(&self, out: &mut Vec<u8>)
        ensures
            final(out)@ == self.wire(),
    {
        out.clear();
        push_u32(out, self.region.raw());
        push_u16(out, self.protocol.raw());
        put_version(self.server, out);
        push_u64(out, self.protocol_hash);
        push_u32(out, self.edges);
        put_load(self.load, out);
        assert(out@ =~= self.wire());
    }

    /// Reads one back.
    pub fn decode(body: &[u8]) -> (r: Result<Heartbeat, NetError>)
        ensures
            match r {
                Ok(h) => {
                    &&& body@.len() == Heartbeat::BYTES
                    &&& h.wire() == body@
                    &&& h.load.mean_tick <= u32::MAX
                    &&& h.load.worst_tick <= u32::MAX
                },
                Err(e) => body@.len() != Heartbeat::BYTES && e == NetError::Malformed("heartbeat"),
            },
    {
        let mut c = Cursor::new(body, "heartbeat");
        let region = RegionId::from_raw(c.u32()?);
        let protocol = ProtocolVersion::from_raw(c.u16()?);
        let server = get_version(&mut c)?;
        let protocol_hash: u64 = c.u64()?;
        let edges: u32 = c.u32()?;
        let load = get_load(&mut c)?;
        c.finish()?;
        let h = Heartbeat { region, protocol, server, protocol_hash, edges, load };
        assert(h.wire() =~= body@);
        Ok(h)
    }

    /// One line, for a watcher that has nothing more elaborate to do with it,
    /// around the two tick times as the watcher writes them.
    pub open spec fn text(self, mean: Seq<char>, worst: Seq<char>) -> Seq<char> {
        "region "@ + text::decimal(self.region.0 as nat) + " umwelt "@ + self.server.text()
            + " proto "@ + self.protocol.text() + " hash 0x"@ + text::padded(
            self.protocol_hash as nat,
            16,
            16,
        ) + " | "@ + text::decimal(self.edges as nat) + " edges | "@ + text::decimal(
            self.load.entities as nat,
        ) + " entities, "@ + text::decimal(self.load.slots as nat) + " slots, "@ + text::decimal(
            self.load.viewers as nat,
        ) + " viewers | tick mean "@ + mean + " ms worst "@ + worst + " ms | "@ + text::decimal(
            self.load.late as nat,
        ) + " late, "@ + text::decimal(self.load.dropped as nat) + " dropped"@
    }

    /// One line, for a watcher that has nothing more elaborate to do with it.
    /// The two tick times are in milliseconds, written the way the watcher
    /// wants them.
    pub fn line(&self, mean: &str, worst: &str) -> (s: String)
        ensures
            s@ == self.text(mean@, worst@),
    {
        let mut s = String::new();
        s.append("region ");
        push_decimal(&mut s, self.region.raw() as u64);
        s.append(" umwelt ");
        s.append(self.server.to_string().as_str());
        s.append(" proto ");
        s.append(self.protocol.to_string().as_str());
        s.append(" hash 0x");
        push_padded(&mut s, self.protocol_hash, 16, 16);
        s.append(" | ");
        push_decimal(&mut s, self.edges as u64);
        s.append(" edges | ");
        push_decimal(&mut s, self.load.entities as u64);
        s.append(" entities, ");
        push_decimal(&mut s, self.load.slots as u64);
        s.append(" slots, ");
        push_decimal(&mut s, self.load.viewers as u64);
        s.append(" viewers | tick mean ");
        s.append(mean);
        s.append(" ms worst ");
        s.append(worst);
        s.append(" ms | ");
        push_decimal(&mut s, self.load.late as u64);
        s.append(" late, ");
        push_decimal(&mut s, self.load.dropped as u64);
        s.append(" dropped");
        assert(s@ =~= self.text(mean@, worst@));
        s
    }
}

/// What only an edge can count about itself.
///
/// The counters are over the span since the previous heartbeat, not a fixed
/// second, because the interval is a deployment choice.
#[derive(Clone, Copy, Debug, PartialEq, Eq, Structural)]
pub struct EdgeLoad {
    /// Game clients connected right now.
    pub clients: u32,
    /// Entities this edge manages, across every region.
    pub entities: u32,
    /// How many of those have a client behind them and so cost a viewer.
    pub observers: u32,
    /// State packets put on a client's connection.
    pub relayed: u64,
    /// State packets that reached no client: it had gone, or its datagram
    /// queue was full.
    pub undeliverable: u64,
    /// Commands read off client connections.
    pub commands: u64,
    /// Commands this edge declined: an unknown handle, or one belonging to
    /// another connection.
    ///
    /// Not commands a *region* declined. A region counts those per edge and
    /// never tells the edge, so an edge cannot report a number it does not
    /// have.
    pub refused: u64,
}

impl Default for EdgeLoad {
    /// Nothing yet.
    fn default() -> (l: EdgeLoad)
        ensures
            l == (EdgeLoad {
                clients: 0,
                entities: 0,
                observers: 0,
                relayed: 0,
                undeliverable: 0,
                commands: 0,
                refused: 0,
            }),
    {
        EdgeLoad {
            clients: 0,
            entities: 0,
            observers: 0,
            relayed: 0,
            undeliverable: 0,
            commands: 0,
            refused: 0,
        }
    }
}

/// An edge's load on the wire.
pub open spec fn edge_load_bytes(l: EdgeLoad) -> Seq<u8> {
    le::le_bytes(l.clients as nat, 4) + le::le_bytes(l.entities as nat, 4) + le::le_bytes(
        l.observers as nat,
        4,
    ) + le::le_bytes(l.relayed as nat, 8) + le::le_bytes(l.undeliverable as nat, 8)
        + le::le_bytes(l.commands as nat, 8) + le::le_bytes(l.refused as nat, 8)
}

/// Appends an edge's load.
fn put_edge_load(l: EdgeLoad, out: &mut Vec<u8>)
    ensures
        final(out)@ == old(out)@ + edge_load_bytes(l),
{
    push_u32(out, l.clients);
    push_u32(out, l.entities);
    push_u32(out, l.observers);
    push_u64(out, l.relayed);
    push_u64(out, l.undeliverable);
    push_u64(out, l.commands);
    push_u64(out, l.refused);
    assert(out@ =~= old(out)@ + edge_load_bytes(l));
}

/// Reads an edge's load out of a body.
fn get_edge_load(c: &mut Cursor<'_>) -> (r: Result<EdgeLoad, NetError>)
    requires
        old(c).wf(),
    ensures
        final(c).wf(),
        final(c).body() == old(c).body(),
        final(c).what() == old(c).what(),
        (r is Err) == (old(c).at() + 44 > old(c).body().len()),
        match r {
            Ok(l) => final(c).at() == old(c).at() + 44 && final(c).done() == old(c).done()
                + edge_load_bytes(l),
            Err(e) => e == old(c).fault(),
        },
{
    let clients: u32 = c.u32()?;
    let entities: u32 = c.u32()?;
    let observers: u32 = c.u32()?;
    let relayed: u64 = c.u64()?;
    let undeliverable: u64 = c.u64()?;
    let commands: u64 = c.u64()?;
    let refused: u64 = c.u64()?;
    let l = EdgeLoad { clients, entities, observers, relayed, undeliverable, commands, refused };
    assert(c.done() =~= old(c).done() + edge_load_bytes(l));
    Ok(l)
}

/// An edge saying what it is and how it is doing.
///
/// No address. An edge's listening address is unlikely to be usable by
/// whatever reads the control plane, which may be on another host, another VM
/// or in another VPC, and a game client is told where to connect by the game's
/// matchmaking rather than by umwelt.
#[derive(Clone, Debug, PartialEq, Eq)]
pub struct EdgeHeartbeat {
    /// Which edge is speaking.
    pub edge: EdgeName,
    /// What it speaks to regions.
    pub protocol: ProtocolVersion,
    /// The crate version it runs.
    pub server: ServerVersion,
    /// Regions this edge currently holds entities in.
    pub regions: Vec<RegionId>,
    /// How it is doing.
    pub load: EdgeLoad,
}

/// A run of regions on the wire.
pub open spec fn regions_bytes(regions: Seq<RegionId>) -> Seq<u8>
    decreases regions.len(),
{
    if regions.len() == 0 {
        Seq::empty()
    } else {
        regions_bytes(regions.drop_last()) + le::le_bytes(regions.last().0 as nat, 4)
    }
}

impl EdgeHeartbeat {
    /// Everything but the name and the region list, both of which vary.
    pub const FIXED_BYTES: usize = 55;

    /// The heartbeat as bytes.
    pub open spec fn wire(self) -> Seq<u8> {
        let name = vstd::utf8::encode_utf8(self.edge@);
        seq![name.len() as u8] + name + le::le_bytes(self.protocol.0 as nat, 2)
            + region::version_bytes(self.server) + le::le_bytes(self.regions@.len(), 2)
            + regions_bytes(self.regions@) + edge_load_bytes(self.load)
    }

    /// Why a body is refused, if it is.
    pub open spec fn refusal(body: Seq<u8>) -> Option<NetError> {
        let bad = Some(NetError::Malformed("edge heartbeat"));
        if body.len() < 1 || body.len() < 1 + body[0] {
            bad
        } else {
            let n = body[0] as int;
            let name = body.subrange(1, 1 + n);
            if !vstd::utf8::valid_utf8(name) {
                bad
            } else {
                match EdgeName::refusal(vstd::utf8::decode_utf8(name)) {
                    Some(e) => Some(e),
                    None => if body.len() < n + 11 {
                        bad
                    } else if body.len() != n + 55 + 4 * le::from_le(
                        body.subrange(n + 9, n + 11),
                    ) {
                        bad
                    } else {
                        None
                    },
                }
            }
        }
    }

    /// Replaces `out` with the encoded heartbeat.
    pub fn encode(&self, out: &mut Vec<u8>)
        ensures
            final(out)@ == self.wire(),
    {
        out.clear();
        let name = self.edge.as_str().as_bytes();
        // An `EdgeName` is at most 64 bytes, checked when it was built.
        out.push(name.len() as u8);
        out.extend_from_slice(name);
        push_u16(out, self.protocol.raw());
        put_version(self.server, out);
        push_wide(out, self.regions.len() as u128, 2);
        let ghost head = out@;
        let mut i: usize = 0;
        assert(self.regions@.take(0) =~= Seq::empty());
        assert(out@ =~= head + regions_bytes(self.regions@.take(0)));
        while i < self.regions.len()
            invariant
                i <= self.regions@.len(),
                out@ == head + regions_bytes(self.regions@.take(i as int)),
            decreases self.regions@.len() - i,
        {
            push_u32(out, self.regions[i].raw());
            proof {
                assert(self.regions@.take(i + 1).drop_last() =~= self.regions@.take(i as int));
                assert(out@ =~= head + regions_bytes(self.regions@.take(i + 1)));
            }
            i = i + 1;
        }
        assert(self.regions@.take(i as int) =~= self.regions@);
        put_edge_load(self.load, out);
        assert(out@ =~= self.wire());
    }

    /// Reads one back.
    pub fn decode(body: &[u8]) -> (r: Result<EdgeHeartbeat, NetError>)
        ensures
            match r {
                Ok(h) => EdgeHeartbeat::refusal(body@) is None && h.wire() == body@
                    && h.regions@.len() < 0x1_0000,
                Err(e) => EdgeHeartbeat::refusal(body@) == Some(e),
            },
    {
        let mut c = Cursor::new(body, "edge heartbeat");
        let len: u8 = c.u8()?;
        let bytes = c.bytes(len as usize)?;
        assert(bytes@ =~= body@.subrange(1, 1 + len));
        let name = match core::str::from_utf8(bytes) {
            Ok(name) => name,
            Err(_) => return Err(NetError::Malformed("edge heartbeat")),
        };
        proof {
            vstd::utf8::encode_utf8_decode_utf8(name@);
        }
        // Through the same validation any other name goes through, so a name
        // that could address another edge's subjects does not decode.
        let edge = EdgeName::new(name)?;
        let protocol = ProtocolVersion::from_raw(c.u16()?);
        let server = get_version(&mut c)?;
        let count: u16 = c.u16()?;
        assert(count == le::from_le(body@.subrange(len + 9, len + 11)));
        let ghost head = c.done();
        let mut regions: Vec<RegionId> = Vec::new();
        let mut i: u16 = 0;
        assert(c.done() =~= head + regions_bytes(regions@));
        while i < count
            invariant
                i <= count,
                regions@.len() == i,
                c.wf(),
                c.body() == body@,
                c.what() == "edge heartbeat",
                c.at() == len + 11 + 4 * i,
                c.done() == head + regions_bytes(regions@),
                EdgeHeartbeat::refusal(body@) == if body@.len() != len + 55 + 4 * count {
                    Some(NetError::Malformed("edge heartbeat"))
                } else {
                    None
                },
            decreases count - i,
        {
            let region = RegionId::from_raw(c.u32()?);
            let ghost before = regions@;
            regions.push(region);
            proof {
                assert(regions@.drop_last() =~= before);
                assert(c.done() =~= head + regions_bytes(regions@));
            }
            i = i + 1;
        }
        let load = get_edge_load(&mut c)?;
        c.finish()?;
        let h = EdgeHeartbeat { edge, protocol, server, regions, load };
        assert(h.wire() =~= body@);
        Ok(h)
    }

    /// One line, for a watcher that has nothing more elaborate to do with it.
    pub open spec fn text(self) -> Seq<char> {
        "edge "@ + self.edge@ + " umwelt "@ + self.server.text() + " proto "@
            + self.protocol.text() + " | "@ + text::decimal(self.load.clients as nat)
            + " clients | "@ + text::decimal(self.load.entities as nat) + " entities, "@
            + text::decimal(self.load.observers as nat) + " observing | "@ + text::decimal(
            self.regions@.len(),
        ) + " regions | relayed "@ + text::decimal(self.load.relayed as nat)
            + ", undeliverable "@ + text::decimal(self.load.undeliverable as nat)
            + " | commands "@ + text::decimal(self.load.commands as nat) + ", refused "@
            + text::decimal(self.load.refused as nat)
    }

    /// One line, for a watcher that has nothing more elaborate to do with it.
    pub fn to_string(&self) -> (s: String)
        ensures
            s@ == self.text(),
    {
        let mut s = String::new();
        s.append("edge ");
        s.append(self.edge.as_str());
        s.append(" umwelt ");
        s.append(self.server.to_string().as_str());
        s.append(" proto ");
        s.append(self.protocol.to_string().as_str());
        s.append(" | ");
        push_decimal(&mut s, self.load.clients as u64);
        s.append(" clients | ");
        push_decimal(&mut s, self.load.entities as u64);
        s.append(" entities, ");
        push_decimal(&mut s, self.load.observers as u64);
        s.append(" observing | ");
        push_decimal(&mut s, self.regions.len() as u64);
        s.append(" regions | relayed ");
        push_decimal(&mut s, self.load.relayed);
        s.append(", undeliverable ");
        push_decimal(&mut s, self.load.undeliverable);
        s.append(" | commands ");
        push_decimal(&mut s, self.load.commands);
        s.append(", refused ");
        push_decimal(&mut s, self.load.refused);
        assert(s@ =~= self.text());
        s
    }
}

// ---------------------------------------------------------------------------
// Laws
// ---------------------------------------------------------------------------

/// A region's load is 32 bytes.
proof fn lemma_load(l: RegionLoad)
    ensures
        load_bytes(l).len() == 32,
{
    le::lemma_le_len(l.tick_count as nat, 4);
    le::lemma_le_len(l.entities as nat, 4);
    le::lemma_le_len(l.slots as nat, 4);
    le::lemma_le_len(l.viewers as nat, 4);
    le::lemma_le_len(held_nanos(l.mean_tick) as nat, 4);
    le::lemma_le_len(held_nanos(l.worst_tick) as nat, 4);
    le::lemma_le_len(l.late as nat, 4);
    le::lemma_le_len(l.dropped as nat, 4);
}

/// A region's load is read back as it was written.
proof fn lemma_load_injective(a: RegionLoad, b: RegionLoad)
    requires
        load_bytes(a) == load_bytes(b),
    ensures
        a.held() == b.held(),
{
    lemma_load(a);
    lemma_load(b);
    let (a1, b1) = (le::le_bytes(a.tick_count as nat, 4), le::le_bytes(b.tick_count as nat, 4));
    let (a2, b2) = (le::le_bytes(a.entities as nat, 4), le::le_bytes(b.entities as nat, 4));
    let (a3, b3) = (le::le_bytes(a.slots as nat, 4), le::le_bytes(b.slots as nat, 4));
    let (a4, b4) = (le::le_bytes(a.viewers as nat, 4), le::le_bytes(b.viewers as nat, 4));
    let (a5, b5) = (
        le::le_bytes(held_nanos(a.mean_tick) as nat, 4),
        le::le_bytes(held_nanos(b.mean_tick) as nat, 4),
    );
    let (a6, b6) = (
        le::le_bytes(held_nanos(a.worst_tick) as nat, 4),
        le::le_bytes(held_nanos(b.worst_tick) as nat, 4),
    );
    let (a7, b7) = (le::le_bytes(a.late as nat, 4), le::le_bytes(b.late as nat, 4));
    let (a8, b8) = (le::le_bytes(a.dropped as nat, 4), le::le_bytes(b.dropped as nat, 4));
    le::lemma_le_len(a.tick_count as nat, 4);
    le::lemma_le_len(b.tick_count as nat, 4);
    le::lemma_le_len(a.entities as nat, 4);
    le::lemma_le_len(b.entities as nat, 4);
    le::lemma_le_len(a.slots as nat, 4);
    le::lemma_le_len(b.slots as nat, 4);
    le::lemma_le_len(a.viewers as nat, 4);
    le::lemma_le_len(b.viewers as nat, 4);
    le::lemma_le_len(held_nanos(a.mean_tick) as nat, 4);
    le::lemma_le_len(held_nanos(b.mean_tick) as nat, 4);
    le::lemma_le_len(held_nanos(a.worst_tick) as nat, 4);
    le::lemma_le_len(held_nanos(b.worst_tick) as nat, 4);
    le::lemma_le_len(a.late as nat, 4);
    le::lemma_le_len(b.late as nat, 4);
    le::lemma_le_len(a.dropped as nat, 4);
    le::lemma_le_len(b.dropped as nat, 4);
    le::lemma_same_back(
        a1 + a2 + a3 + a4 + a5 + a6 + a7,
        a8,
        b1 + b2 + b3 + b4 + b5 + b6 + b7,
        b8,
    );
    le::lemma_same_back(a1 + a2 + a3 + a4 + a5 + a6, a7, b1 + b2 + b3 + b4 + b5 + b6, b7);
    le::lemma_same_back(a1 + a2 + a3 + a4 + a5, a6, b1 + b2 + b3 + b4 + b5, b6);
    le::lemma_same_back(a1 + a2 + a3 + a4, a5, b1 + b2 + b3 + b4, b5);
    le::lemma_same_back(a1 + a2 + a3, a4, b1 + b2 + b3, b4);
    le::lemma_same_back(a1 + a2, a3, b1 + b2, b3);
    le::lemma_same_back(a1, a2, b1, b2);
    le::lemma_u32_injective(a.tick_count, b.tick_count);
    le::lemma_u32_injective(a.entities, b.entities);
    le::lemma_u32_injective(a.slots, b.slots);
    le::lemma_u32_injective(a.viewers, b.viewers);
    le::lemma_u32_injective(held_nanos(a.mean_tick), held_nanos(b.mean_tick));
    le::lemma_u32_injective(held_nanos(a.worst_tick), held_nanos(b.worst_tick));
    le::lemma_u32_injective(a.late, b.late);
    le::lemma_u32_injective(a.dropped, b.dropped);
}

impl RegionLoad {
    /// The load with its times held to what the wire carries.
    pub open spec fn held(self) -> RegionLoad {
        RegionLoad {
            mean_tick: held_nanos(self.mean_tick) as u64,
            worst_tick: held_nanos(self.worst_tick) as u64,
            ..self
        }
    }
}

/// A heartbeat comes back off the wire as it went on, its tick times held to
/// what 32 bits carry. It takes the one length that is not refused: cut short
/// or followed by more it is.
pub proof fn law_heartbeats_round_trip(m: Heartbeat, back: Heartbeat)
    requires
        back.wire() == m.wire(),
        back.load.mean_tick <= u32::MAX,
        back.load.worst_tick <= u32::MAX,
    ensures
        m.wire().len() == Heartbeat::BYTES,
        back == (Heartbeat { load: m.load.held(), ..m }),
{
    lemma_load(m.load);
    lemma_load(back.load);
    region::lemma_version_injective(m.server, back.server);
    region::lemma_version_injective(back.server, m.server);
    le::lemma_le_len(m.region.0 as nat, 4);
    le::lemma_le_len(back.region.0 as nat, 4);
    le::lemma_le_len(m.protocol.0 as nat, 2);
    le::lemma_le_len(back.protocol.0 as nat, 2);
    le::lemma_le_len(m.protocol_hash as nat, 8);
    le::lemma_le_len(back.protocol_hash as nat, 8);
    le::lemma_le_len(m.edges as nat, 4);
    le::lemma_le_len(back.edges as nat, 4);
    let (a1, b1) = (le::le_bytes(m.region.0 as nat, 4), le::le_bytes(back.region.0 as nat, 4));
    let (a2, b2) = (le::le_bytes(m.protocol.0 as nat, 2), le::le_bytes(back.protocol.0 as nat, 2));
    let (a3, b3) = (region::version_bytes(m.server), region::version_bytes(back.server));
    let (a4, b4) = (
        le::le_bytes(m.protocol_hash as nat, 8),
        le::le_bytes(back.protocol_hash as nat, 8),
    );
    let (a5, b5) = (le::le_bytes(m.edges as nat, 4), le::le_bytes(back.edges as nat, 4));
    le::lemma_same_back(
        a1 + a2 + a3 + a4 + a5,
        load_bytes(m.load),
        b1 + b2 + b3 + b4 + b5,
        load_bytes(back.load),
    );
    le::lemma_same_back(a1 + a2 + a3 + a4, a5, b1 + b2 + b3 + b4, b5);
    le::lemma_same_back(a1 + a2 + a3, a4, b1 + b2 + b3, b4);
    le::lemma_same_back(a1 + a2, a3, b1 + b2, b3);
    le::lemma_same_back(a1, a2, b1, b2);
    le::lemma_u32_injective(m.region.0, back.region.0);
    le::lemma_u16_injective(m.protocol.0, back.protocol.0);
    le::lemma_u64_injective(m.protocol_hash, back.protocol_hash);
    le::lemma_u32_injective(m.edges, back.edges);
    lemma_load_injective(m.load, back.load);
}

/// An edge's load is 44 bytes.
proof fn lemma_edge_load(l: EdgeLoad)
    ensures
        edge_load_bytes(l).len() == 44,
{
    le::lemma_le_len(l.clients as nat, 4);
    le::lemma_le_len(l.entities as nat, 4);
    le::lemma_le_len(l.observers as nat, 4);
    le::lemma_le_len(l.relayed as nat, 8);
    le::lemma_le_len(l.undeliverable as nat, 8);
    le::lemma_le_len(l.commands as nat, 8);
    le::lemma_le_len(l.refused as nat, 8);
}

/// An edge's load is read back as it was written.
proof fn lemma_edge_load_injective(a: EdgeLoad, b: EdgeLoad)
    requires
        edge_load_bytes(a) == edge_load_bytes(b),
    ensures
        a == b,
{
    let (a1, b1) = (le::le_bytes(a.clients as nat, 4), le::le_bytes(b.clients as nat, 4));
    let (a2, b2) = (le::le_bytes(a.entities as nat, 4), le::le_bytes(b.entities as nat, 4));
    let (a3, b3) = (le::le_bytes(a.observers as nat, 4), le::le_bytes(b.observers as nat, 4));
    let (a4, b4) = (le::le_bytes(a.relayed as nat, 8), le::le_bytes(b.relayed as nat, 8));
    let (a5, b5) = (
        le::le_bytes(a.undeliverable as nat, 8),
        le::le_bytes(b.undeliverable as nat, 8),
    );
    let (a6, b6) = (le::le_bytes(a.commands as nat, 8), le::le_bytes(b.commands as nat, 8));
    let (a7, b7) = (le::le_bytes(a.refused as nat, 8), le::le_bytes(b.refused as nat, 8));
    le::lemma_le_len(a.clients as nat, 4);
    le::lemma_le_len(b.clients as nat, 4);
    le::lemma_le_len(a.entities as nat, 4);
    le::lemma_le_len(b.entities as nat, 4);
    le::lemma_le_len(a.observers as nat, 4);
    le::lemma_le_len(b.observers as nat, 4);
    le::lemma_le_len(a.relayed as nat, 8);
    le::lemma_le_len(b.relayed as nat, 8);
    le::lemma_le_len(a.undeliverable as nat, 8);
    le::lemma_le_len(b.undeliverable as nat, 8);
    le::lemma_le_len(a.commands as nat, 8);
    le::lemma_le_len(b.commands as nat, 8);
    le::lemma_le_len(a.refused as nat, 8);
    le::lemma_le_len(b.refused as nat, 8);
    le::lemma_same_back(a1 + a2 + a3 + a4 + a5 + a6, a7, b1 + b2 + b3 + b4 + b5 + b6, b7);
    le::lemma_same_back(a1 + a2 + a3 + a4 + a5, a6, b1 + b2 + b3 + b4 + b5, b6);
    le::lemma_same_back(a1 + a2 + a3 + a4, a5, b1 + b2 + b3 + b4, b5);
    le::lemma_same_back(a1 + a2 + a3, a4, b1 + b2 + b3, b4);
    le::lemma_same_back(a1 + a2, a3, b1 + b2, b3);
    le::lemma_same_back(a1, a2, b1, b2);
    le::lemma_u32_injective(a.clients, b.clients);
    le::lemma_u32_injective(a.entities, b.entities);
    le::lemma_u32_injective(a.observers, b.observers);
    le::lemma_u64_injective(a.relayed, b.relayed);
    le::lemma_u64_injective(a.undeliverable, b.undeliverable);
    le::lemma_u64_injective(a.commands, b.commands);
    le::lemma_u64_injective(a.refused, b.refused);
}

/// A run of regions is four bytes each.
proof fn lemma_regions(regions: Seq<RegionId>)
    ensures
        regions_bytes(regions).len() == 4 * regions.len(),
    decreases regions.len(),
{
    if regions.len() > 0 {
        lemma_regions(regions.drop_last());
        le::lemma_le_len(regions.last().0 as nat, 4);
    }
}

/// A run of regions is read back as it was written.
proof fn lemma_regions_injective(a: Seq<RegionId>, b: Seq<RegionId>)
    requires
        a.len() == b.len(),
        regions_bytes(a) == regions_bytes(b),
    ensures
        a == b,
    decreases a.len(),
{
    if a.len() > 0 {
        let (x, y) = (a.last(), b.last());
        le::lemma_le_len(x.0 as nat, 4);
        le::lemma_le_len(y.0 as nat, 4);
        le::lemma_same_back(
            regions_bytes(a.drop_last()),
            le::le_bytes(x.0 as nat, 4),
            regions_bytes(b.drop_last()),
            le::le_bytes(y.0 as nat, 4),
        );
        le::lemma_u32_injective(x.0, y.0);
        lemma_regions_injective(a.drop_last(), b.drop_last());
        assert(a =~= a.drop_last().push(x));
        assert(b =~= b.drop_last().push(y));
    } else {
        assert(a =~= b);
    }
}

/// The heartbeat in the pieces its wire is made of.
proof fn lemma_edge_wire(h: EdgeHeartbeat)
    requires
        h.edge.inv(),
        h.regions@.len() < 0x1_0000,
    ensures
        ({
            let name = vstd::utf8::encode_utf8(h.edge@);
            let n = name.len() as int;
            let w = h.wire();
            &&& 1 <= n <= 64
            &&& w.len() == EdgeHeartbeat::FIXED_BYTES + n + 4 * h.regions@.len()
            &&& w[0] == n
            &&& w.subrange(1, 1 + n) == name
            &&& w.subrange(n + 9, n + 11) == le::le_bytes(h.regions@.len(), 2)
            &&& le::from_le(le::le_bytes(h.regions@.len(), 2)) == h.regions@.len()
        }),
{
    let name = vstd::utf8::encode_utf8(h.edge@);
    let n = name.len() as int;
    le::lemma_le_len(h.protocol.0 as nat, 2);
    le::lemma_le_len(h.regions@.len(), 2);
    le::lemma_span();
    le::lemma_from_le_of_le(h.regions@.len(), 2);
    region::lemma_version_injective(h.server, h.server);
    lemma_regions(h.regions@);
    lemma_edge_load(h.load);
    let w = h.wire();
    assert(w.subrange(1, 1 + n) =~= name);
    assert(w.subrange(n + 9, n + 11) =~= le::le_bytes(h.regions@.len(), 2));
}

/// An edge's heartbeat is its fixed part plus what varies, is taken, and comes
/// back as it went on.
pub proof fn law_edge_heartbeats_round_trip(m: EdgeHeartbeat, back: EdgeHeartbeat)
    requires
        m.edge.inv(),
        back.edge.inv(),
        m.regions@.len() < 0x1_0000,
        back.regions@.len() < 0x1_0000,
        back.wire() == m.wire(),
    ensures
        EdgeHeartbeat::refusal(m.wire()) is None,
        m.wire().len() == EdgeHeartbeat::FIXED_BYTES + vstd::utf8::encode_utf8(m.edge@).len() + 4
            * m.regions@.len(),
        back.edge@ == m.edge@,
        back.protocol == m.protocol,
        back.server == m.server,
        back.regions@ == m.regions@,
        back.load == m.load,
{
    lemma_edge_wire(m);
    lemma_edge_wire(back);
    let (p, q) = (vstd::utf8::encode_utf8(m.edge@), vstd::utf8::encode_utf8(back.edge@));
    assert(p == q);
    vstd::utf8::encode_utf8_decode_utf8(m.edge@);
    vstd::utf8::encode_utf8_decode_utf8(back.edge@);
    vstd::utf8::encode_utf8_valid_utf8(m.edge@);
    let n = p.len() as int;
    let head = seq![p.len() as u8] + p;
    let (a1, b1) = (le::le_bytes(m.protocol.0 as nat, 2), le::le_bytes(back.protocol.0 as nat, 2));
    let (a2, b2) = (region::version_bytes(m.server), region::version_bytes(back.server));
    let (a3, b3) = (le::le_bytes(m.regions@.len(), 2), le::le_bytes(back.regions@.len(), 2));
    let (a4, b4) = (regions_bytes(m.regions@), regions_bytes(back.regions@));
    le::lemma_le_len(m.protocol.0 as nat, 2);
    le::lemma_le_len(back.protocol.0 as nat, 2);
    le::lemma_le_len(m.regions@.len(), 2);
    le::lemma_le_len(back.regions@.len(), 2);
    region::lemma_version_injective(m.server, back.server);
    region::lemma_version_injective(back.server, m.server);
    lemma_regions(m.regions@);
    lemma_regions(back.regions@);
    lemma_edge_load(m.load);
    lemma_edge_load(back.load);
    le::lemma_same_back(
        head + a1 + a2 + a3 + a4,
        edge_load_bytes(m.load),
        head + b1 + b2 + b3 + b4,
        edge_load_bytes(back.load),
    );
    le::lemma_same_front(head + a1 + a2 + a3, a4, head + b1 + b2 + b3, b4);
    le::lemma_same_back(head + a1 + a2, a3, head + b1 + b2, b3);
    le::lemma_same_back(head + a1, a2, head + b1, b2);
    le::lemma_same_back(head, a1, head, b1);
    le::lemma_u16_injective(m.protocol.0, back.protocol.0);
    lemma_regions_injective(m.regions@, back.regions@);
    lemma_edge_load_injective(m.load, back.load);
}

/// An edge's heartbeat cut short, or followed by more, is refused.
pub proof fn law_edge_heartbeats_of_another_length_are_refused(
    m: EdgeHeartbeat,
    cut: int,
    more: Seq<u8>,
)
    requires
        m.edge.inv(),
        m.regions@.len() < 0x1_0000,
        0 <= cut < m.wire().len(),
        more.len() > 0,
    ensures
        EdgeHeartbeat::refusal(m.wire().take(cut)) is Some,
        EdgeHeartbeat::refusal(m.wire() + more) is Some,
{
    lemma_edge_wire(m);
    let w = m.wire();
    let n = vstd::utf8::encode_utf8(m.edge@).len() as int;
    let t = w.take(cut);
    if cut > n {
        assert(t[0] == w[0]);
        assert(t.subrange(1, 1 + n) =~= w.subrange(1, 1 + n));
        if cut >= n + 11 {
            assert(t.subrange(n + 9, n + 11) =~= w.subrange(n + 9, n + 11));
        }
    }
    let u = w + more;
    assert(u[0] == w[0]);
    assert(u.subrange(1, 1 + n) =~= w.subrange(1, 1 + n));
    assert(u.subrange(n + 9, n + 11) =~= w.subrange(n + 9, n + 11));
}

/// The patterns a watcher subscribes to match every subject published.
pub proof fn law_the_documented_wildcards_match(region: RegionId, edge: Seq<char>)
    requires
        EdgeName::refusal(edge) is None,
    ensures
        subjects::matched(
            "umwelt.control.region.*.heartbeat"@,
            "umwelt.control.region."@ + text::decimal(region.0 as nat) + ".heartbeat"@,
        ),
        subjects::matched(
            "umwelt.control.edge.*.heartbeat"@,
            "umwelt.control.edge."@ + edge + ".heartbeat"@,
        ),
{
    reveal_strlit("umwelt.control.region.*.heartbeat");
    reveal_strlit("umwelt.control.region.");
    reveal_strlit("umwelt.control.edge.*.heartbeat");
    reveal_strlit("umwelt.control.edge.");
    reveal_strlit(".heartbeat");
    reveal_strlit("umwelt");
    reveal_strlit("control");
    reveal_strlit("region");
    reveal_strlit("edge");
    reveal_strlit("*");
    reveal_strlit("heartbeat");
    subjects::lemma_number(region.0);
    subjects::lemma_plain_name(edge);
    let dec = text::decimal(region.0 as nat);
    lemma_control_tokens("region"@, dec);
    lemma_control_tokens("region"@, "*"@);
    lemma_control_tokens("edge"@, edge);
    lemma_control_tokens("edge"@, "*"@);
    let dot = seq!['.'];
    assert("umwelt.control.region."@ =~= "umwelt"@ + dot + "control"@ + dot + "region"@ + dot);
    assert("umwelt.control.edge."@ =~= "umwelt"@ + dot + "control"@ + dot + "edge"@ + dot);
    assert(".heartbeat"@ =~= dot + "heartbeat"@);
    assert("umwelt.control.region.*.heartbeat"@ =~= control_subject("region"@, "*"@));
    assert("umwelt.control.edge.*.heartbeat"@ =~= control_subject("edge"@, "*"@));
    assert("umwelt.control.region."@ + dec + ".heartbeat"@ =~= control_subject("region"@, dec));
    assert("umwelt.control.edge."@ + edge + ".heartbeat"@ =~= control_subject("edge"@, edge));
}

/// A subject of the control plane, in tokens.
spec fn control_subject(tier: Seq<char>, who: Seq<char>) -> Seq<char> {
    let dot = seq!['.'];
    "umwelt"@ + dot + ("control"@ + dot + (tier + dot + (who + dot + "heartbeat"@)))
}

/// A subject of the control plane has five tokens.
proof fn lemma_control_tokens(tier: Seq<char>, who: Seq<char>)
    requires
        subjects::undotted(tier),
        subjects::undotted(who),
    ensures
        subjects::tokens(control_subject(tier, who)) == seq![
            "umwelt"@,
            "control"@,
            tier,
            who,
            "heartbeat"@,
        ],
{
    reveal_strlit("umwelt");
    reveal_strlit("control");
    reveal_strlit("heartbeat");
    let dot = seq!['.'];
    let d = who + dot + "heartbeat"@;
    let c = tier + dot + d;
    let b = "control"@ + dot + c;
    subjects::lemma_one_token("heartbeat"@);
    subjects::lemma_token_in_front(who, "heartbeat"@);
    subjects::lemma_token_in_front(tier, d);
    subjects::lemma_token_in_front("control"@, c);
    subjects::lemma_token_in_front("umwelt"@, b);
    assert(subjects::tokens(control_subject(tier, who)) =~= seq![
        "umwelt"@,
        "control"@,
        tier,
        who,
        "heartbeat"@,
    ]);
}

// ---------------------------------------------------------------------------
// Where each field is
// ---------------------------------------------------------------------------

/// A region's heartbeat: its id in four bytes, the protocol in two, the version
/// in two for each of its numbers, the digest in eight, how many edges it has
/// in four, and then eight numbers of its load in four each: the tick, who is
/// alive, the slots, the viewers, the mean and the worst tick, each held to
/// what four bytes hold, and how many ticks were late and how many dropped.
pub proof fn law_a_heartbeat_is_laid_out_in_order(m: Heartbeat)
    ensures
        ({
            let b = m.wire();
            let l = m.load;
            &&& b.len() == 56
            &&& le::holds(b, 0, 4, m.region.0 as int)
            &&& le::holds(b, 4, 2, m.protocol.0 as int)
            &&& le::holds(b, 6, 2, m.server.major as int)
            &&& le::holds(b, 8, 2, m.server.minor as int)
            &&& le::holds(b, 10, 2, m.server.patch as int)
            &&& le::holds(b, 12, 8, m.protocol_hash as int)
            &&& le::holds(b, 20, 4, m.edges as int)
            &&& le::holds(b, 24, 4, l.tick_count as int)
            &&& le::holds(b, 28, 4, l.entities as int)
            &&& le::holds(b, 32, 4, l.slots as int)
            &&& le::holds(b, 36, 4, l.viewers as int)
            &&& le::holds(b, 40, 4, vstd::math::min(l.mean_tick as int, u32::MAX as int))
            &&& le::holds(b, 44, 4, vstd::math::min(l.worst_tick as int, u32::MAX as int))
            &&& le::holds(b, 48, 4, l.late as int)
            &&& le::holds(b, 52, 4, l.dropped as int)
        }),
{
    let b = m.wire();
    let l = m.load;
    le::lemma_span();
    lemma_load(l);
    le::lemma_le_len(m.region.0 as nat, 4);
    le::lemma_le_len(m.protocol.0 as nat, 2);
    le::lemma_le_len(m.server.major as nat, 2);
    le::lemma_le_len(m.server.minor as nat, 2);
    le::lemma_le_len(m.server.patch as nat, 2);
    le::lemma_le_len(m.protocol_hash as nat, 8);
    le::lemma_le_len(m.edges as nat, 4);
    assert(b.subrange(0, 4) =~= le::le_bytes(m.region.0 as nat, 4));
    assert(b.subrange(4, 6) =~= le::le_bytes(m.protocol.0 as nat, 2));
    assert(b.subrange(6, 8) =~= le::le_bytes(m.server.major as nat, 2));
    assert(b.subrange(8, 10) =~= le::le_bytes(m.server.minor as nat, 2));
    assert(b.subrange(10, 12) =~= le::le_bytes(m.server.patch as nat, 2));
    assert(b.subrange(12, 20) =~= le::le_bytes(m.protocol_hash as nat, 8));
    assert(b.subrange(20, 24) =~= le::le_bytes(m.edges as nat, 4));
    assert(b.subrange(24, 56) =~= load_bytes(l));
    le::lemma_holds(b, 0, 4, m.region.0 as nat);
    le::lemma_holds(b, 4, 2, m.protocol.0 as nat);
    le::lemma_holds(b, 6, 2, m.server.major as nat);
    le::lemma_holds(b, 8, 2, m.server.minor as nat);
    le::lemma_holds(b, 10, 2, m.server.patch as nat);
    le::lemma_holds(b, 12, 8, m.protocol_hash as nat);
    le::lemma_holds(b, 20, 4, m.edges as nat);
    lemma_load_at(b, 24, l);
}

proof fn lemma_load_at(s: Seq<u8>, at: int, l: RegionLoad)
    requires
        0 <= at,
        at + 32 <= s.len(),
        s.subrange(at, at + 32) == load_bytes(l),
    ensures
        le::holds(s, at, 4, l.tick_count as int),
        le::holds(s, at + 4, 4, l.entities as int),
        le::holds(s, at + 8, 4, l.slots as int),
        le::holds(s, at + 12, 4, l.viewers as int),
        le::holds(s, at + 16, 4, held_nanos(l.mean_tick) as int),
        le::holds(s, at + 20, 4, held_nanos(l.worst_tick) as int),
        le::holds(s, at + 24, 4, l.late as int),
        le::holds(s, at + 28, 4, l.dropped as int),
{
    let b = load_bytes(l);
    let (mean, worst) = (held_nanos(l.mean_tick) as nat, held_nanos(l.worst_tick) as nat);
    le::lemma_span();
    le::lemma_le_len(l.tick_count as nat, 4);
    le::lemma_le_len(l.entities as nat, 4);
    le::lemma_le_len(l.slots as nat, 4);
    le::lemma_le_len(l.viewers as nat, 4);
    le::lemma_le_len(mean, 4);
    le::lemma_le_len(worst, 4);
    le::lemma_le_len(l.late as nat, 4);
    le::lemma_le_len(l.dropped as nat, 4);
    assert(b.subrange(0, 4) =~= le::le_bytes(l.tick_count as nat, 4));
    assert(b.subrange(4, 8) =~= le::le_bytes(l.entities as nat, 4));
    assert(b.subrange(8, 12) =~= le::le_bytes(l.slots as nat, 4));
    assert(b.subrange(12, 16) =~= le::le_bytes(l.viewers as nat, 4));
    assert(b.subrange(16, 20) =~= le::le_bytes(mean, 4));
    assert(b.subrange(20, 24) =~= le::le_bytes(worst, 4));
    assert(b.subrange(24, 28) =~= le::le_bytes(l.late as nat, 4));
    assert(b.subrange(28, 32) =~= le::le_bytes(l.dropped as nat, 4));
    let c = s.subrange(at, at + 32);
    assert(s.subrange(at, at + 4) =~= c.subrange(0, 4));
    assert(s.subrange(at + 4, at + 8) =~= c.subrange(4, 8));
    assert(s.subrange(at + 8, at + 12) =~= c.subrange(8, 12));
    assert(s.subrange(at + 12, at + 16) =~= c.subrange(12, 16));
    assert(s.subrange(at + 16, at + 20) =~= c.subrange(16, 20));
    assert(s.subrange(at + 20, at + 24) =~= c.subrange(20, 24));
    assert(s.subrange(at + 24, at + 28) =~= c.subrange(24, 28));
    assert(s.subrange(at + 28, at + 32) =~= c.subrange(28, 32));
    le::lemma_holds(s, at, 4, l.tick_count as nat);
    le::lemma_holds(s, at + 4, 4, l.entities as nat);
    le::lemma_holds(s, at + 8, 4, l.slots as nat);
    le::lemma_holds(s, at + 12, 4, l.viewers as nat);
    le::lemma_holds(s, at + 16, 4, mean);
    le::lemma_holds(s, at + 20, 4, worst);
    le::lemma_holds(s, at + 24, 4, l.late as nat);
    le::lemma_holds(s, at + 28, 4, l.dropped as nat);
}

proof fn lemma_region_at(regions: Seq<RegionId>, k: int)
    requires
        0 <= k < regions.len(),
    ensures
        regions_bytes(regions).subrange(4 * k, 4 * k + 4) == le::le_bytes(
            regions[k].0 as nat,
            4,
        ),
    decreases regions.len(),
{
    let front = regions.drop_last();
    let last = le::le_bytes(regions.last().0 as nat, 4);
    lemma_regions(front);
    lemma_regions(regions);
    if k < front.len() {
        lemma_region_at(front, k);
        assert(regions_bytes(regions).subrange(4 * k, 4 * k + 4) =~= regions_bytes(
            front,
        ).subrange(4 * k, 4 * k + 4));
    } else {
        assert(regions_bytes(regions).subrange(4 * k, 4 * k + 4) =~= last);
    }
}

/// An edge's heartbeat: how long its name is in one byte, its name, the
/// protocol in two bytes and the version in two for each of its numbers, how
/// many regions it has entities in, in two, each of them in four, and then its
/// load: its clients, entities and observers in four bytes each, and what it
/// relayed, could not deliver, heard and refused in eight each.
pub proof fn law_an_edge_heartbeat_is_laid_out_in_order(h: EdgeHeartbeat, k: int)
    requires
        h.edge.inv(),
        h.regions@.len() < 0x1_0000,
    ensures
        ({
            let b = h.wire();
            let n = vstd::utf8::encode_utf8(h.edge@).len() as int;
            let m = h.regions@.len() as int;
            let at = n + 11 + 4 * m;
            &&& b.len() == at + 44
            &&& b[0] == n
            &&& b.subrange(1, 1 + n) == vstd::utf8::encode_utf8(h.edge@)
            &&& le::holds(b, n + 1, 2, h.protocol.0 as int)
            &&& le::holds(b, n + 3, 2, h.server.major as int)
            &&& le::holds(b, n + 5, 2, h.server.minor as int)
            &&& le::holds(b, n + 7, 2, h.server.patch as int)
            &&& le::holds(b, n + 9, 2, m)
            &&& 0 <= k < m ==> le::holds(b, n + 11 + 4 * k, 4, h.regions@[k].0 as int)
            &&& le::holds(b, at, 4, h.load.clients as int)
            &&& le::holds(b, at + 4, 4, h.load.entities as int)
            &&& le::holds(b, at + 8, 4, h.load.observers as int)
            &&& le::holds(b, at + 12, 8, h.load.relayed as int)
            &&& le::holds(b, at + 20, 8, h.load.undeliverable as int)
            &&& le::holds(b, at + 28, 8, h.load.commands as int)
            &&& le::holds(b, at + 36, 8, h.load.refused as int)
        }),
{
    lemma_edge_wire(h);
    let b = h.wire();
    let l = h.load;
    let n = vstd::utf8::encode_utf8(h.edge@).len() as int;
    let m = h.regions@.len() as int;
    let at = n + 11 + 4 * m;
    le::lemma_span();
    le::lemma_le_len(h.protocol.0 as nat, 2);
    le::lemma_le_len(h.server.major as nat, 2);
    le::lemma_le_len(h.server.minor as nat, 2);
    le::lemma_le_len(h.server.patch as nat, 2);
    le::lemma_le_len(h.regions@.len(), 2);
    lemma_regions(h.regions@);
    lemma_edge_load(l);
    assert(b.subrange(n + 1, n + 3) =~= le::le_bytes(h.protocol.0 as nat, 2));
    assert(b.subrange(n + 3, n + 5) =~= le::le_bytes(h.server.major as nat, 2));
    assert(b.subrange(n + 5, n + 7) =~= le::le_bytes(h.server.minor as nat, 2));
    assert(b.subrange(n + 7, n + 9) =~= le::le_bytes(h.server.patch as nat, 2));
    assert(b.subrange(n + 11, at) =~= regions_bytes(h.regions@));
    assert(b.subrange(at, at + 44) =~= edge_load_bytes(l));
    le::lemma_holds(b, n + 1, 2, h.protocol.0 as nat);
    le::lemma_holds(b, n + 3, 2, h.server.major as nat);
    le::lemma_holds(b, n + 5, 2, h.server.minor as nat);
    le::lemma_holds(b, n + 7, 2, h.server.patch as nat);
    le::lemma_holds(b, n + 9, 2, h.regions@.len());
    if 0 <= k < m {
        lemma_region_at(h.regions@, k);
        assert(b.subrange(n + 11 + 4 * k, n + 15 + 4 * k) =~= b.subrange(n + 11, at).subrange(
            4 * k,
            4 * k + 4,
        ));
        le::lemma_holds(b, n + 11 + 4 * k, 4, h.regions@[k].0 as nat);
    }
    lemma_edge_load_at(b, at, l);
}

proof fn lemma_edge_load_at(s: Seq<u8>, at: int, l: EdgeLoad)
    requires
        0 <= at,
        at + 44 <= s.len(),
        s.subrange(at, at + 44) == edge_load_bytes(l),
    ensures
        le::holds(s, at, 4, l.clients as int),
        le::holds(s, at + 4, 4, l.entities as int),
        le::holds(s, at + 8, 4, l.observers as int),
        le::holds(s, at + 12, 8, l.relayed as int),
        le::holds(s, at + 20, 8, l.undeliverable as int),
        le::holds(s, at + 28, 8, l.commands as int),
        le::holds(s, at + 36, 8, l.refused as int),
{
    let b = edge_load_bytes(l);
    le::lemma_span();
    le::lemma_le_len(l.clients as nat, 4);
    le::lemma_le_len(l.entities as nat, 4);
    le::lemma_le_len(l.observers as nat, 4);
    le::lemma_le_len(l.relayed as nat, 8);
    le::lemma_le_len(l.undeliverable as nat, 8);
    le::lemma_le_len(l.commands as nat, 8);
    le::lemma_le_len(l.refused as nat, 8);
    assert(b.subrange(0, 4) =~= le::le_bytes(l.clients as nat, 4));
    assert(b.subrange(4, 8) =~= le::le_bytes(l.entities as nat, 4));
    assert(b.subrange(8, 12) =~= le::le_bytes(l.observers as nat, 4));
    assert(b.subrange(12, 20) =~= le::le_bytes(l.relayed as nat, 8));
    assert(b.subrange(20, 28) =~= le::le_bytes(l.undeliverable as nat, 8));
    assert(b.subrange(28, 36) =~= le::le_bytes(l.commands as nat, 8));
    assert(b.subrange(36, 44) =~= le::le_bytes(l.refused as nat, 8));
    let c = s.subrange(at, at + 44);
    assert(s.subrange(at, at + 4) =~= c.subrange(0, 4));
    assert(s.subrange(at + 4, at + 8) =~= c.subrange(4, 8));
    assert(s.subrange(at + 8, at + 12) =~= c.subrange(8, 12));
    assert(s.subrange(at + 12, at + 20) =~= c.subrange(12, 20));
    assert(s.subrange(at + 20, at + 28) =~= c.subrange(20, 28));
    assert(s.subrange(at + 28, at + 36) =~= c.subrange(28, 36));
    assert(s.subrange(at + 36, at + 44) =~= c.subrange(36, 44));
    le::lemma_holds(s, at, 4, l.clients as nat);
    le::lemma_holds(s, at + 4, 4, l.entities as nat);
    le::lemma_holds(s, at + 8, 4, l.observers as nat);
    le::lemma_holds(s, at + 12, 8, l.relayed as nat);
    le::lemma_holds(s, at + 20, 8, l.undeliverable as nat);
    le::lemma_holds(s, at + 28, 8, l.commands as nat);
    le::lemma_holds(s, at + 36, 8, l.refused as nat);
}

} // verus!
