//! Networking, in two protocols that are kept apart.
//!
//! There are two links in this architecture and they have almost nothing in
//! common. Sharing a *message* between them would be the easy mistake, so they
//! are separate modules and neither reaches into the other's protocol.
//!
//! What they do share is the vocabulary underneath both —
//! [`RegionId`](crate::RegionId), [`EntityId`](crate::EntityId) and
//! [`EntityKind`](crate::EntityKind) — because those name things in the world
//! rather than things on a wire. The two links also share one decoder,
//! [`wire::Cursor`], which belongs to neither.
//!
//! **Region to edge** — over NATS. A region simulation and the edges relaying
//! for it: few peers, deployed together and updated together.
//!
//! **Edge to game client** — over QUIC. Many peers, none of them trusted,
//! running on someone else's machine and updated on someone else's schedule.
//! The payloads a region assembles belong to that link: latest-only, lossy,
//! unordered, MTU-sized, and they reach a client on a datagram.

pub mod beat;
pub mod control;
pub mod edge;
pub mod error;
pub mod octets;
pub mod region;
pub mod version;
pub mod wire;

pub use control::{EdgeHeartbeat, EdgeLoad, Heartbeat, RegionLoad};
pub use edge::{EdgeClient, EdgeHandle, EdgeServer, EdgeStats};
pub use error::NetError;
pub use region::{
    Applied, EdgeId, EdgeName, EdgeSink, EdgeView, Edges, Inbound, RegionClient, RegionServer,
    Settled,
};
