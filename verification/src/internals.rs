//! Not an interface. Do not import this.
//!
//! What umwelt's own benchmarks and integration tests reach for. Nothing here
//! is stable, or subject to any compatibility promise.

use vstd::prelude::*;

use crate::codec::RecordCodec;
use crate::config::{World, WorldConfig};
use crate::entity::EntityId;
use crate::packet;
use crate::packet::TickObservation;
use crate::pos::Pos3;
use crate::sim::{Crowd, Step};

verus! {

/// A world with `cell_size` overridden, for re-running the cell-size sweep.
///
/// Here rather than on [`WorldConfig`] because cell size derives from the view
/// radius and no consumer has a reason to set it. Only a size the grid can
/// take will do, which is right for a sweep and wrong for anything a consumer
/// calls.
pub fn with_cell_size_m(cfg: &WorldConfig, m: i32) -> (w: WorldConfig)
    requires
        cfg@.takes_cell_size(m * 1024),
    ensures
        w@ == (World { cell_size: m * 1024, ..cfg@ }),
{
    cfg.with_cell_size_m(m)
}

/// Reads a payload back into a [`TickObservation`], which is what a client
/// does with one.
///
/// Here rather than on the type because a consumer is handed observations and
/// never makes one.
pub fn read_payload<'a>(codec: &'a RecordCodec, buf: &'a [u8]) -> (r: Option<TickObservation<'a>>)
    requires
        codec.wf(),
    ensures
        match r {
            Some(o) => o.wf() && packet::readable(codec.world(), buf@) && o.bytes() == buf@
                && o.world() == codec.world(),
            None => !packet::readable(codec.world(), buf@),
        },
{
    TickObservation::new(codec, buf)
}

/// Spawns a shadow, the library's viewer with no presence in the snapshot.
///
/// Here rather than on [`Step`] because a consumer never spawns one: the edge
/// does, over the region link, for an observer whose view reaches a seam.
pub fn spawn_shadow(step: &mut Step, at: Pos3) -> (id: EntityId)
    requires
        old(step).wf(),
        old(step)@.at.len() < u32::MAX,
        old(step)@.at.len() < usize::MAX,
    ensures
        final(step).wf(),
        final(step).world() == old(step).world(),
        id.0 == old(step)@.at.len(),
        final(step)@ == (Crowd {
            shadows: old(step)@.shadows.insert(id.0),
            ..old(step)@.with(at, 0)
        }),
{
    step.spawn_shadow(at)
}

} // verus!
