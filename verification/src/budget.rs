//! How many state records fit one client's packet.
//!
//! [`PacketBudget`] turns a connection's payload size into a number of
//! records. It is per-connection, built from what a client declares at connect
//! plus this protocol's own overheads.
//!
//! The event reserve holds minimum space so that when event support is added,
//! everything still works on budget.

use vstd::prelude::*;

use crate::codec::RecordCodec;

verus! {

/// Bytes of payload a datagram carries.
///
/// Ethernet MTU is 1500, an IPv6 header takes 40 and UDP 8, leaving 1452. 1200
/// survives tunnels, VPNs and PPPoE without fragmenting, and is what QUIC
/// mandates as its minimum datagram size.
pub const DEFAULT_PAYLOAD_BYTES: u16 = 1200;

/// Sequence number, acknowledgment and its bitfield, tick, and the two record
/// counts.
pub const DEFAULT_HEADER_BYTES: u16 = 16;

/// Held back for events, and only while events are pending.
///
/// Without any reserve a dense crowd's position updates fill every packet and a
/// client can stand in a mob without learning it died. **The number itself is a
/// guess.**
pub const DEFAULT_EVENT_RESERVE_BYTES: u16 = 256;

/// One connection's per-packet record budget.
///
/// A record is counted as the codec writes it. The two-byte tag a packet puts
/// beside each record is not counted, so a packet of
/// [`max_slots`](Self::max_slots) records runs past the payload by their tags.
#[derive(Clone, Copy, Debug, PartialEq, Eq, Structural)]
pub struct PacketBudget {
    payload_bytes: u16,
    header_bytes: u16,
    event_reserve_bytes: u16,
    record_bytes: u16,
}

/// A packet's bytes, by what they are for.
#[verifier::ext_equal]
pub struct Budget {
    /// The whole payload.
    pub payload: nat,
    /// The header.
    pub header: nat,
    /// Held back for events.
    pub reserve: nat,
    /// One record.
    pub record: nat,
}

impl Budget {
    /// Bytes left for records.
    pub open spec fn available(self, pending: nat) -> nat {
        let held = if pending < self.reserve {
            pending
        } else {
            self.reserve
        };
        if self.payload < self.header + held {
            0
        } else {
            (self.payload - (self.header + held)) as nat
        }
    }

    /// Records that fit.
    pub open spec fn slots(self, pending: nat) -> nat {
        self.available(pending) / self.record
    }
}

impl View for PacketBudget {
    type V = Budget;

    closed spec fn view(&self) -> Budget {
        Budget {
            payload: self.payload_bytes as nat,
            header: self.header_bytes as nat,
            reserve: self.event_reserve_bytes as nat,
            record: self.record_bytes as nat,
        }
    }
}

impl PacketBudget {
    /// A record takes room, and the header leaves some.
    #[verifier::type_invariant]
    pub closed spec fn inv(self) -> bool {
        &&& self.record_bytes > 0
        &&& self.header_bytes < self.payload_bytes
    }

    /// At the default overheads. The payload has to exceed the header, and a
    /// record has to fit the payload.
    pub fn new(codec: &RecordCodec, payload_bytes: u16) -> (b: PacketBudget)
        requires
            codec.wf(),
            payload_bytes > DEFAULT_HEADER_BYTES,
            4 + codec.world().position_bytes() <= payload_bytes,
        ensures
            b@ == (Budget {
                payload: payload_bytes as nat,
                header: DEFAULT_HEADER_BYTES as nat,
                reserve: DEFAULT_EVENT_RESERVE_BYTES as nat,
                record: 4 + codec.world().position_bytes(),
            }),
    {
        PacketBudget::with_overhead(
            codec,
            payload_bytes,
            DEFAULT_HEADER_BYTES,
            DEFAULT_EVENT_RESERVE_BYTES,
        )
    }

    /// Both overheads are guesses, so they are parameters: this exists so they
    /// can be swept. The payload has to exceed the header, and a record has to
    /// fit the payload.
    pub fn with_overhead(
        codec: &RecordCodec,
        payload_bytes: u16,
        header_bytes: u16,
        event_reserve_bytes: u16,
    ) -> (b: PacketBudget)
        requires
            codec.wf(),
            payload_bytes > header_bytes,
            4 + codec.world().position_bytes() <= payload_bytes,
        ensures
            b@ == (Budget {
                payload: payload_bytes as nat,
                header: header_bytes as nat,
                reserve: event_reserve_bytes as nat,
                record: 4 + codec.world().position_bytes(),
            }),
    {
        let record: usize = codec.record_bytes();
        PacketBudget {
            payload_bytes,
            header_bytes,
            event_reserve_bytes,
            record_bytes: record as u16,
        }
    }

    /// The whole payload, header included.
    pub fn payload_bytes(&self) -> (n: usize)
        ensures
            n == self@.payload,
    {
        self.payload_bytes as usize
    }

    /// What the header takes before any record fits.
    pub fn header_bytes(&self) -> (n: usize)
        ensures
            n == self@.header,
    {
        self.header_bytes as usize
    }

    /// Held back for despawns, which travel ahead of updates.
    pub fn event_reserve_bytes(&self) -> (n: usize)
        ensures
            n == self@.reserve,
    {
        self.event_reserve_bytes as usize
    }

    /// What one entity record takes.
    pub fn record_bytes(&self) -> (n: usize)
        ensures
            n == self@.record,
            n > 0,
    {
        proof {
            use_type_invariant(self);
        }
        self.record_bytes as usize
    }

    /// Bytes left for state records once the header and any pending events are
    /// accounted for.
    ///
    /// Events take what they have queued, up to the reserve. Beyond that they
    /// wait, so a backlog cannot starve state entirely.
    pub fn state_bytes_available(&self, pending_event_bytes: usize) -> (n: usize)
        ensures
            n == self@.available(pending_event_bytes as nat),
    {
        let reserve: usize = self.event_reserve_bytes as usize;
        let held: usize = if pending_event_bytes < reserve {
            pending_event_bytes
        } else {
            reserve
        };
        (self.payload_bytes as usize).saturating_sub(self.header_bytes as usize + held)
    }

    /// Records that fit.
    pub fn slots(&self, pending_event_bytes: usize) -> (n: usize)
        ensures
            n == self@.slots(pending_event_bytes as nat),
    {
        self.state_bytes_available(pending_event_bytes) / self.record_bytes()
    }

    /// The most records that can fit, with nothing queued.
    pub fn max_slots(&self) -> (n: usize)
        ensures
            n == self@.slots(0),
    {
        self.slots(0)
    }

    /// The fewest, under a backlog at or past the reserve.
    pub fn min_slots(&self) -> (n: usize)
        ensures
            n == self@.slots(self@.reserve),
    {
        self.slots(self.event_reserve_bytes as usize)
    }
}

/// Slots never rise as events queue, and never fall below what a full backlog
/// leaves.
pub proof fn law_slots_never_rise_as_events_queue(b: Budget, fewer: nat, more: nat)
    requires
        b.record > 0,
        fewer <= more,
    ensures
        b.slots(more) <= b.slots(fewer) <= b.slots(0),
        b.slots(b.reserve) <= b.slots(more),
{
    vstd::arithmetic::div_mod::lemma_div_is_ordered(
        b.available(more) as int,
        b.available(fewer) as int,
        b.record as int,
    );
    vstd::arithmetic::div_mod::lemma_div_is_ordered(
        b.available(fewer) as int,
        b.available(0) as int,
        b.record as int,
    );
    vstd::arithmetic::div_mod::lemma_div_is_ordered(
        b.available(b.reserve) as int,
        b.available(more) as int,
        b.record as int,
    );
}

/// The header, the events let through and the records that fit are together
/// no larger than the payload.
pub proof fn law_what_fits_fits(b: Budget, pending: nat)
    requires
        b.record > 0,
        b.header <= b.payload,
    ensures
        b.header + b.slots(pending) * b.record <= b.payload,
        pending <= b.reserve && b.header + pending <= b.payload ==> b.header + pending + b.slots(
            pending,
        ) * b.record <= b.payload,
{
    vstd::arithmetic::div_mod::lemma_fundamental_div_mod(
        b.available(pending) as int,
        b.record as int,
    );
    assert(b.slots(pending) * b.record <= b.available(pending)) by (nonlinear_arith)
        requires
            b.available(pending) as int == b.record as int * (b.available(pending) as int
                / b.record as int) + b.available(pending) as int % b.record as int,
            b.record > 0,
            b.slots(pending) == b.available(pending) / b.record,
    ;
}

/// What is left for records is the payload less the header and less what events
/// have queued, up to the reserve; and as many records are let in as fit in
/// that, so that one more would not.
pub proof fn law_as_many_records_as_fit(b: Budget, pending: nat)
    requires
        b.record > 0,
    ensures
        ({
            let held = vstd::math::min(pending as int, b.reserve as int);
            let left = vstd::math::max(0, b.payload - b.header - held);
            &&& b.available(pending) == left
            &&& b.slots(pending) * b.record <= left
            &&& left < (b.slots(pending) + 1) * b.record
        }),
{
    let (a, r, n) = (b.available(pending) as int, b.record as int, b.slots(pending) as int);
    assert(n * r <= a < (n + 1) * r) by (nonlinear_arith)
        requires
            n == a / r,
            r > 0,
    ;
}

} // verus!
