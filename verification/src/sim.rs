//! The population of a region, as one tick sees it.
//!
//! A [`Step`] is what a game is handed once a tick: where every entity is,
//! which still exist, and the means to change both. Everything that is not
//! position is the game's own storage, keyed by [`EntityId`].

use vstd::prelude::*;

use crate::config::WorldConfig;
use crate::entity::{EntityId, Live, LiveSet};
use crate::fixed::Fixed;
use crate::pos::Pos3;

verus! {

/// A viewer's identity within a region. Dense and reusable.
#[derive(Clone, Copy, PartialEq, Eq, PartialOrd, Ord, Hash, Debug, Structural)]
pub struct ViewerId(pub u32);

impl ViewerId {
    /// From the raw value.
    pub fn from_raw(raw: u32) -> (id: ViewerId)
        ensures
            id == ViewerId(raw),
    {
        ViewerId(raw)
    }

    /// The raw value.
    pub fn raw(self) -> (raw: u32)
        ensures
            raw == self.0,
    {
        self.0
    }

    /// The id as an array index.
    pub fn index(self) -> (i: usize)
        ensures
            i == self.0,
    {
        self.0 as usize
    }
}

/// A region's population.
#[verifier::ext_equal]
pub struct Crowd {
    /// Where every entity is, or last was, by id.
    pub at: Seq<Pos3>,
    /// What the game calls each.
    pub tags: Seq<u16>,
    /// Which exist.
    pub live: Set<u32>,
    /// Which of those are viewers with no presence of their own.
    pub shadows: Set<u32>,
    /// Which were despawned, in order.
    pub despawned: Seq<EntityId>,
}

impl Crowd {
    /// Whether every entity that exists has a place.
    pub open spec fn placed(self) -> bool {
        forall|n: u32| #[trigger] self.live.contains(n) ==> n < self.at.len()
    }

    /// With one entity more, under the next id.
    pub open spec fn with(self, at: Pos3, tag: u16) -> Crowd {
        Crowd {
            at: self.at.push(at),
            tags: self.tags.push(tag),
            live: self.live.insert(self.at.len() as u32),
            ..self
        }
    }

    /// With one entity fewer, if it is there.
    pub open spec fn without(self, id: EntityId) -> Crowd {
        if self.live.contains(id.0) {
            Crowd {
                live: self.live.remove(id.0),
                shadows: self.shadows.remove(id.0),
                despawned: self.despawned.push(id),
                ..self
            }
        } else {
            self
        }
    }

    /// With one entity somewhere else.
    pub open spec fn moved(self, id: EntityId, to: Pos3) -> Crowd {
        Crowd { at: self.at.update(id.0 as int, to), ..self }
    }
}

/// One tick's view of a region's population, and the means to change it.
#[derive(Clone, Debug)]
pub struct Step {
    cfg: WorldConfig,
    xs: Vec<Fixed>,
    ys: Vec<Fixed>,
    zs: Vec<Fixed>,
    tags: Vec<u16>,
    live: LiveSet,
    shadows: LiveSet,
    despawned: Vec<EntityId>,
}

impl View for Step {
    type V = Crowd;

    closed spec fn view(&self) -> Crowd {
        Crowd {
            at: Seq::new(
                self.xs@.len(),
                |i: int| Pos3 { x: self.xs@[i], y: self.ys@[i], z: self.zs@[i] },
            ),
            tags: self.tags@,
            live: self.live@,
            shadows: self.shadows@,
            despawned: self.despawned@,
        }
    }
}

impl Step {
    /// The world the population is in.
    pub closed spec fn world(&self) -> WorldConfig {
        self.cfg
    }

    /// Whether the arrays are as long as each other and every live id is
    /// within them.
    pub closed spec fn wf(&self) -> bool {
        &&& self.xs@.len() == self.ys@.len()
        &&& self.xs@.len() == self.zs@.len()
        &&& self.xs@.len() == self.tags@.len()
        &&& self.xs@.len() <= u32::MAX
        &&& self.live.wf()
        &&& self.shadows.wf()
        &&& forall|n: u32| #[trigger] self.live@.contains(n) ==> n < self.xs@.len()
        &&& self.shadows@.subset_of(self.live@)
    }

    /// Every live id is within the arrays.
    pub proof fn lemma_in_space(&self, id: EntityId)
        requires
            self.wf(),
        ensures
            self@.placed(),
            self@.live.contains(id.0) ==> id.0 < self@.at.len(),
            self@.at.len() <= u32::MAX,
            self@.at.len() == self@.tags.len(),
            self@.shadows.contains(id.0) ==> self@.live.contains(id.0),
    {
    }

    /// Nobody yet.
    pub fn new(cfg: WorldConfig) -> (s: Step)
        ensures
            s.wf(),
            s.world() == cfg,
            s@ == (Crowd {
                at: Seq::empty(),
                tags: Seq::empty(),
                live: Set::empty(),
                shadows: Set::empty(),
                despawned: Seq::empty(),
            }),
    {
        let s = Step {
            cfg,
            xs: Vec::new(),
            ys: Vec::new(),
            zs: Vec::new(),
            tags: Vec::new(),
            live: LiveSet::new(),
            shadows: LiveSet::new(),
            despawned: Vec::new(),
        };
        assert(s@.at =~= Seq::<Pos3>::empty());
        s
    }

    /// The world the population is in.
    pub fn config(&self) -> (cfg: &WorldConfig)
        ensures
            *cfg == self.world(),
    {
        &self.cfg
    }

    /// Whether an entity exists.
    pub fn contains(&self, id: EntityId) -> (b: bool)
        requires
            self.wf(),
        ensures
            b == self@.live.contains(id.0),
    {
        self.live.contains(id)
    }

    /// Slots ever allocated.
    pub fn slots(&self) -> (n: usize)
        ensures
            n == self@.at.len(),
    {
        self.xs.len()
    }

    /// How many entities exist.
    pub fn count(&self) -> (n: usize)
        requires
            self.wf(),
        ensures
            n == self@.live.len(),
    {
        self.live.live()
    }

    /// Which entities exist.
    pub fn live(&self) -> (l: Live<'_>)
        requires
            self.wf(),
        ensures
            l.wf(),
            l@ == self@.live,
    {
        Live::new(&self.live)
    }

    /// Where an entity is, or last was. `None` for an id never allocated.
    pub fn position(&self, id: EntityId) -> (at: Option<Pos3>)
        requires
            self.wf(),
        ensures
            at == if id.0 < self@.at.len() {
                Some(self@.at[id.0 as int])
            } else {
                None
            },
    {
        let i: usize = id.index();
        if i < self.xs.len() {
            Some(Pos3::new(self.xs[i], self.ys[i], self.zs[i]))
        } else {
            None
        }
    }

    /// Creates an entity, under an id never used before.
    pub fn spawn(&mut self, at: Pos3, tag: u16) -> (id: EntityId)
        requires
            old(self).wf(),
            old(self)@.at.len() < u32::MAX,
            old(self)@.at.len() < usize::MAX,
        ensures
            final(self).wf(),
            final(self).world() == old(self).world(),
            id.0 == old(self)@.at.len(),
            final(self)@ == old(self)@.with(at, tag),
            final(self)@.at == old(self)@.at.push(at),
            final(self)@.tags == old(self)@.tags.push(tag),
            final(self)@.live == old(self)@.live.insert(id.0),
            final(self)@.shadows == old(self)@.shadows,
            final(self)@.despawned == old(self)@.despawned,
    {
        let id = EntityId::from_raw(self.xs.len() as u32);
        self.xs.push(at.x);
        self.ys.push(at.y);
        self.zs.push(at.z);
        self.tags.push(tag);
        self.live.insert(id);
        assert(self@.at =~= old(self)@.at.push(at));
        assert(self@ =~= old(self)@.with(at, tag));
        id
    }

    /// Creates a viewer with no presence of its own.
    pub fn spawn_shadow(&mut self, at: Pos3) -> (id: EntityId)
        requires
            old(self).wf(),
            old(self)@.at.len() < u32::MAX,
            old(self)@.at.len() < usize::MAX,
        ensures
            final(self).wf(),
            final(self).world() == old(self).world(),
            id.0 == old(self)@.at.len(),
            final(self)@ == (Crowd {
                shadows: old(self)@.shadows.insert(id.0),
                ..old(self)@.with(at, 0)
            }),
    {
        let id = self.spawn(at, 0);
        self.shadows.insert(id);
        id
    }

    /// Removes an entity, if it is there. The id is not reused.
    pub fn despawn(&mut self, id: EntityId)
        requires
            old(self).wf(),
        ensures
            final(self).wf(),
            final(self).world() == old(self).world(),
            final(self)@ == old(self)@.without(id),
            final(self)@.at == old(self)@.at,
            final(self)@.tags == old(self)@.tags,
            final(self)@.live == old(self)@.live.remove(id.0),
            old(self)@.live.contains(id.0) ==> final(self)@.shadows == old(
                self,
            )@.shadows.remove(id.0),
            final(self)@.despawned == if old(self)@.live.contains(id.0) {
                old(self)@.despawned.push(id)
            } else {
                old(self)@.despawned
            },
    {
        if self.live.contains(id) {
            self.live.remove(id);
            self.shadows.remove(id);
            self.despawned.push(id);
        }
    }

    /// Puts an entity somewhere else.
    pub fn set_position(&mut self, id: EntityId, to: Pos3)
        requires
            old(self).wf(),
            id.0 < old(self)@.at.len(),
        ensures
            final(self).wf(),
            final(self).world() == old(self).world(),
            final(self)@ == old(self)@.moved(id, to),
            final(self)@.at == old(self)@.at.update(id.0 as int, to),
            final(self)@.tags == old(self)@.tags,
            final(self)@.live == old(self)@.live,
            final(self)@.shadows == old(self)@.shadows,
            final(self)@.despawned == old(self)@.despawned,
    {
        let i: usize = id.index();
        self.xs.set(i, to.x);
        self.ys.set(i, to.y);
        self.zs.set(i, to.z);
        assert(self@.at =~= old(self)@.at.update(i as int, to));
        assert(self@ =~= old(self)@.moved(id, to));
    }

    /// Everything despawned since the last call, in order.
    pub fn take_despawned(&mut self) -> (ids: Vec<EntityId>)
        requires
            old(self).wf(),
        ensures
            final(self).wf(),
            final(self).world() == old(self).world(),
            ids@ == old(self)@.despawned,
            final(self)@ == (Crowd { despawned: Seq::empty(), ..old(self)@ }),
    {
        let mut ids: Vec<EntityId> = Vec::new();
        std::mem::swap(&mut ids, &mut self.despawned);
        assert(self@ =~= (Crowd { despawned: Seq::empty(), ..old(self)@ }));
        ids
    }
}

/// What a run of ticks came to, between heartbeats. Times are nanoseconds.
#[derive(Clone, Copy, Debug, PartialEq, Eq, Structural)]
pub struct TickSpan {
    /// Viewers served, summed over the ticks.
    pub viewers: u64,
    /// Ticks.
    pub ticks: u32,
    /// Time inside them.
    pub total: u64,
    /// The longest.
    pub worst: u64,
    /// Those that started after their deadline.
    pub late: u32,
    /// Deadlines skipped rather than caught up on.
    pub dropped: u32,
}

/// A sum held to what 64 bits hold.
pub open spec fn sum64(a: u64, b: u64) -> u64 {
    if a + b > u64::MAX {
        u64::MAX
    } else {
        (a + b) as u64
    }
}

/// A sum held to what 32 bits hold.
pub open spec fn sum32(a: u32, b: u32) -> u32 {
    if a + b > u32::MAX {
        u32::MAX
    } else {
        (a + b) as u32
    }
}

impl TickSpan {
    /// No ticks.
    pub open spec fn none() -> TickSpan {
        TickSpan { viewers: 0, ticks: 0, total: 0, worst: 0, late: 0, dropped: 0 }
    }

    /// No ticks.
    pub fn new() -> (s: TickSpan)
        ensures
            s == TickSpan::none(),
    {
        TickSpan { viewers: 0, ticks: 0, total: 0, worst: 0, late: 0, dropped: 0 }
    }

    /// Time inside a tick, averaged. Zero where there was none.
    pub fn mean(&self) -> (n: u64)
        ensures
            n == if self.ticks == 0 {
                0
            } else {
                self.total as int / self.ticks as int
            },
    {
        if self.ticks == 0 {
            0
        } else {
            self.total / self.ticks as u64
        }
    }

    /// Viewers served per tick. Zero where there was none.
    pub fn viewers_per_tick(&self) -> (n: u64)
        ensures
            n == if self.ticks == 0 {
                0
            } else {
                self.viewers as int / self.ticks as int
            },
    {
        if self.ticks == 0 {
            0
        } else {
            self.viewers / self.ticks as u64
        }
    }

    /// This run with another after it.
    pub open spec fn followed_by(self, other: TickSpan) -> TickSpan {
        TickSpan {
            viewers: sum64(self.viewers, other.viewers),
            ticks: sum32(self.ticks, other.ticks),
            total: sum64(self.total, other.total),
            worst: if other.worst > self.worst {
                other.worst
            } else {
                self.worst
            },
            late: sum32(self.late, other.late),
            dropped: sum32(self.dropped, other.dropped),
        }
    }

    /// Adds another run to this one.
    pub fn merge(&mut self, other: TickSpan)
        ensures
            *final(self) == old(self).followed_by(other),
    {
        self.viewers = self.viewers.saturating_add(other.viewers);
        self.ticks = self.ticks.saturating_add(other.ticks);
        self.total = self.total.saturating_add(other.total);
        if other.worst > self.worst {
            self.worst = other.worst;
        }
        self.late = self.late.saturating_add(other.late);
        self.dropped = self.dropped.saturating_add(other.dropped);
    }
}

/// Two runs of ticks come to the sum of what each came to, held to what the
/// numbers hold, and to the worse of their worst; and the order does not
/// matter.
pub proof fn law_two_runs_of_ticks_add_up(a: TickSpan, b: TickSpan)
    ensures
        ({
            let c = a.followed_by(b);
            &&& c.viewers == vstd::math::min(a.viewers + b.viewers, u64::MAX as int)
            &&& c.ticks == vstd::math::min(a.ticks + b.ticks, u32::MAX as int)
            &&& c.total == vstd::math::min(a.total + b.total, u64::MAX as int)
            &&& c.worst == vstd::math::max(a.worst as int, b.worst as int)
            &&& c.late == vstd::math::min(a.late + b.late, u32::MAX as int)
            &&& c.dropped == vstd::math::min(a.dropped + b.dropped, u32::MAX as int)
            &&& c == b.followed_by(a)
            &&& a.followed_by(TickSpan::none()) == a
        }),
{
}

} // verus!
