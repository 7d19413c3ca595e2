//! Traits to be implemented by game developers.
//!
//! If you're developing a game then this module is where you should start.
//!
//! ## Simulation
//! A simulation is a single region of the overall universe of the game. You define
//! your game logic (e.g. physics, combat, decay, etc) within the callback from the
//! [`Game`] trait. The simulation server calls the [`Game::step`] handler, which
//! you define.
//!
//! ## Game Client
//! The game client is the user-facing component of your game. Implementing
//! [`ClientGame`] and establishing a **QUIC** connection to an edge gives your
//! game the necessary plumbing.

use vstd::prelude::*;

use crate::entity::EntityId;
use crate::id::{EntityHandle, RegionId};
use crate::packet::TickObservation;
use crate::sim::Step;

verus! {

/// What the edge's game decides when a client asks to teleport.
///
/// The default is to allow with no carried state. A consumer that needs to
/// transfer inventory, health, or any other game state serializes it into
/// [`Carry`](Self::Carry).
#[derive(Clone, Debug, PartialEq, Eq)]
pub enum TeleportDecision {
    /// Allow the teleport with no game state.
    Allow,
    /// Allow the teleport and carry these bytes to the destination, whose edge
    /// game receives them on arrival.
    Carry(Vec<u8>),
    /// Deny the request. The entity stays where it is and the client is told.
    Deny,
}

/// The logic and rules for a durable, server-side game. The [`Game::step`]
/// function is called once per tick (default is **20Hz**).
///
/// Growth, rot, the mine, and the fighting are all the game's own state, keyed
/// by [`EntityId`]. Umwelt is told where things are and which still exist,
/// nothing else.
pub trait Game {
    /// Moves entities, spawns and despawns. Everything that is not position is
    /// the consumer's own storage, keyed by [`EntityId`]. The implementer
    /// of this function must not block and must not panic, nor can it
    /// start its own async runtime.
    /// The `world` parameter is a no-allocation output buffer. The
    /// [`Step`] struct provides appropriate access to this buffer.
    fn step(&mut self, world: &mut Step);
}

/// The consumer's game client, called when its edge says something.
///
/// Nothing here polls, waits or retries: the library owns the reading,
/// and a connection that goes away reports itself
/// through [`disconnected`](Self::disconnected) rather than as a timeout the
/// consumer has to interpret.
///
/// Calls are serialized and made on the I/O path, so **an implementation must
/// not block** or panic.
pub trait ClientGame: Send + 'static {
    /// The entity this handle asked for exists, in this region, under this id.
    ///
    /// A game is the only tier that sees more than one region at a time, so
    /// keeping that map is its job: the region a handle ended up in is the
    /// game's own knowledge, unlike how that region happens to be configured.
    fn spawned(&mut self, handle: EntityHandle, region: RegionId, entity: EntityId)
        default_ensures
            &*final(self) == &*old(self),
    {
    }

    /// Gone, whatever caused it, including a despawn this client never asked
    /// for, because a region's own game can despawn anything.
    fn removed(&mut self, handle: EntityHandle)
        default_ensures
            &*final(self) == &*old(self),
    {
    }

    /// What one of this client's entities can see: which to forget, and where
    /// the rest are.
    ///
    /// Already decoded. A game does not see the packet, the codec, or the world
    /// the region was configured with. It does see the region, because the ids
    /// inside are that region's and mean nothing in another one. A game
    /// watching two at once has to key by both.
    ///
    /// Borrowed from the datagram it arrived in, so a consumer that keeps
    /// anything copies it.
    fn observed(
        &mut self,
        handle: EntityHandle,
        region: RegionId,
        observation: &TickObservation<'_>,
    )
        default_ensures
            &*final(self) == &*old(self),
    {
    }

    /// An entity arrived in its destination region after a teleport. Same
    /// handle the client has always held. [`spawned`](Self::spawned) fires
    /// first with the new region and entity id, so the game has both when this
    /// arrives.
    fn teleported(&mut self, handle: EntityHandle, region: RegionId)
        default_ensures
            &*final(self) == &*old(self),
    {
    }

    /// A teleport did not complete: the destination was unreachable, the
    /// spawn was refused, or the edge's game denied the request. The entity
    /// stays in its origin region.
    fn teleport_failed(&mut self, handle: EntityHandle, region: RegionId)
        default_ensures
            &*final(self) == &*old(self),
    {
    }

    /// The game's own bytes, which umwelt did not read.
    ///
    /// Nothing in `body` has a meaning umwelt knows: no format, no version,
    /// and the only rule imposed on it is a 64 KiB length cap.
    fn message_received(&mut self, body: &[u8])
        default_ensures
            &*final(self) == &*old(self),
    {
    }

    /// The connection is gone. The last call this game will get.
    ///
    /// Reconnecting is the caller's, on the same terms as connecting.
    fn disconnected(&mut self)
        default_ensures
            &*final(self) == &*old(self),
    {
    }
}

} // verus!
