//! A region's side of the link to its edges.
//!
//! [`RegionServer`] answers requests for the region's world parameters, reads
//! the commands its edges send, and says from time to time what the region is
//! carrying. It holds no world state and runs no tick.

use vstd::prelude::*;

use crate::config::WorldConfig;
use crate::id::RegionId;
use crate::net::beat::Beat;
use crate::net::control::Heartbeat;
use crate::net::region::edges;
use crate::net::region::edges::EdgeId;
use crate::net::region::protocol::{protocol_version, ServerInfo, WorldParams};
use crate::net::region::session::{Desk, Inbound, Load};
use crate::net::region::subjects;
use crate::net::version::{ProtocolVersion, ServerVersion};
use crate::sim::TickSpan;

verus! {

/// How often silence is checked against the caller's timeout, in nanoseconds.
pub const SWEEP: u64 = 1_000_000_000;

/// A region's front door.
#[derive(Clone, Copy, Debug)]
pub struct RegionServer {
    region: RegionId,
    config: WorldConfig,
    beat: Beat,
}

impl Desk {
    /// A command heard on a subject: its sender admitted, and what it says
    /// accepted. The sender is in the subject, so a message cannot claim to be
    /// from an edge other than the one that published it. A subject that names
    /// none is dropped.
    pub open spec fn heard(self, subject: Seq<char>, message: Seq<u8>, now: u64) -> Desk {
        match subjects::sender_of(subject) {
            None => self,
            Some(name) => if crate::net::region::names::EdgeName::refusal(name) is Some {
                self
            } else {
                let edge = EdgeId(self.roster.seat(name) as u32);
                Desk { roster: self.roster.admitted(name, now), ..self }.accepted(edge, message)
            },
        }
    }
}

impl RegionServer {
    /// The region served.
    pub closed spec fn serves(&self) -> RegionId {
        self.region
    }

    /// The world answered with.
    pub closed spec fn world(&self) -> WorldConfig {
        self.config
    }

    /// When the next heartbeat is due.
    pub closed spec fn pulse(&self) -> Beat {
        self.beat
    }

    /// Serving a region, at the default heartbeat.
    pub fn new(region: RegionId, config: WorldConfig) -> (s: RegionServer)
        ensures
            s.serves() == region,
            s.world() == config,
            s.pulse() == (Beat { every: crate::net::beat::DEFAULT_HEARTBEAT, since: 0 }),
    {
        RegionServer { region, config, beat: Beat::new() }
    }

    /// Which region this serves.
    pub fn region(&self) -> (r: RegionId)
        ensures
            r == self.serves(),
    {
        self.region
    }

    /// The world it answers with.
    pub fn config(&self) -> (c: &WorldConfig)
        ensures
            *c == self.world(),
    {
        &self.config
    }

    /// How often this region says what it is carrying, in nanoseconds.
    ///
    /// Thirty seconds until told otherwise, and zero switches heartbeats off.
    /// Silence means a region that has stopped, so switching heartbeats off is
    /// a deliberate act.
    pub fn set_heartbeat_interval(&mut self, every: u64)
        ensures
            final(self).serves() == old(self).serves(),
            final(self).world() == old(self).world(),
            final(self).pulse() == (Beat { every, ..old(self).pulse() }),
    {
        self.beat.set_interval(every);
    }

    /// The answer to a request for the region's parameters.
    pub fn info(&self) -> (body: Vec<u8>)
        ensures
            body@ == (ServerInfo {
                protocol: ProtocolVersion(1),
                server: ServerVersion::this(),
                region: self.serves(),
                params: WorldParams::of(self.world()@),
            }).wire(),
    {
        let info = ServerInfo {
            protocol: protocol_version(),
            server: ServerVersion::current(),
            region: self.region,
            params: WorldParams::from_config(&self.config),
        };
        let mut body: Vec<u8> = Vec::new();
        info.encode(&mut body);
        body
    }

    /// Wakes once. Where a heartbeat is due, what it says: what the region has
    /// been doing since the last, drained.
    pub fn beat(&mut self, inbound: &mut Inbound) -> (body: Option<Vec<u8>>)
        requires
            old(inbound).wf(),
        ensures
            final(inbound).wf(),
            final(self).serves() == old(self).serves(),
            final(self).world() == old(self).world(),
            final(self).pulse() == old(self).pulse().woken(),
            match body {
                None => !old(self).pulse().is_due() && final(inbound)@ == old(inbound)@,
                Some(b) => {
                    &&& old(self).pulse().is_due()
                    &&& final(inbound)@ == (Desk {
                        load: Load { span: TickSpan::none(), ..old(inbound)@.load },
                        ..old(inbound)@
                    })
                    &&& b@ == (Heartbeat {
                        region: old(self).serves(),
                        protocol: ProtocolVersion(1),
                        server: ServerVersion::this(),
                        protocol_hash: old(self).world()@.protocol_hash(),
                        edges: edges::taken(old(inbound)@.roster.slots) as u32,
                        load: old(inbound)@.load.summary(),
                    }).wire()
                },
            },
    {
        if !self.beat.wake() {
            return None;
        }
        let attached: u32 = inbound.edges().len() as u32;
        let beat = Heartbeat {
            region: self.region,
            protocol: protocol_version(),
            server: ServerVersion::current(),
            protocol_hash: self.config.protocol_hash(),
            edges: attached,
            load: inbound.take_load(),
        };
        let mut body: Vec<u8> = Vec::new();
        beat.encode(&mut body);
        Some(body)
    }

    /// Takes one command off the subject it came on.
    pub fn command(&self, inbound: &mut Inbound, subject: &str, message: &[u8], now: u64)
        requires
            old(inbound).wf(),
            old(inbound)@.roster.slots.len() < u32::MAX,
        ensures
            final(inbound).wf(),
            final(inbound)@ == old(inbound)@.heard(subject@, message@, now),
    {
        let name = match subjects::sender(subject) {
            Ok(name) => name,
            Err(_) => return,
        };
        let edge = inbound.edges_mut().admit_edge(&name, now);
        inbound.accept(edge, message);
    }
}

/// A command is taken from the edge its subject names, which is heard from at
/// that moment, and a subject that is no command's changes nothing.
pub proof fn law_a_command_is_its_senders(
    desk: Desk,
    region: RegionId,
    name: Seq<char>,
    message: Seq<u8>,
    now: u64,
)
    requires
        crate::net::region::names::EdgeName::refusal(name) is None,
    ensures
        ({
            let after = desk.heard(
                subjects::edge_subject(region, name, "command"@),
                message,
                now,
            );
            let edge = EdgeId(desk.roster.seat(name) as u32);
            let known = Desk { roster: desk.roster.admitted(name, now), ..desk };
            after == known.accepted(edge, message)
        }),
        desk.heard(subjects::edge_subject(region, name, "payload"@), message, now) == desk,
        desk.heard(subjects::edge_subject(region, name, "reply"@), message, now) == desk,
{
    subjects::law_a_command_subject_names_its_sender(region, name);
}

} // verus!
