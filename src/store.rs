use vstd::prelude::*;
use crate::geometry::{HalfExtents, Position};
use crate::timer::Timer;

verus! {

/// Which side fired a projectile: it decides the direction of travel and
/// which entities it can hit.
#[derive(Clone, Copy, Debug, PartialEq, Eq, Structural)]
pub enum ProjectileKind {
    PlayerOwned,
    EnemyOwned,
}

/// The side an entity belongs to for collisions.
#[derive(Clone, Copy, Debug, PartialEq, Eq, Structural)]
pub enum ColliderSide {
    Player,
    Enemy,
}

/// The player ship's own state: its speed in units per second, whether a
/// shot is cooling down, and the cooldown countdown.
#[derive(Clone, Copy, Debug, PartialEq, Eq, Structural)]
pub struct PlayerState {
    pub speed: u32,
    pub is_armed: bool,
    pub cooldown: Timer,
}

/// What an entity is.
#[derive(Clone, Copy, Debug, PartialEq, Eq, Structural)]
pub enum Kind {
    Player(PlayerState),
    Enemy,
    Projectile(ProjectileKind),
}

/// A live entity: where it is, the half-extents of its box, and its kind.
#[derive(Clone, Copy, Debug, PartialEq, Eq, Structural)]
pub struct Entity {
    pub pos: Position,
    pub half: HalfExtents,
    pub kind: Kind,
}

/// A handle on an entity: a slot of the store and the generation of that
/// slot when the entity was created there.
#[derive(Clone, Copy, Debug, PartialEq, Eq, Structural)]
pub struct EntityId {
    pub index: usize,
    pub generation: u64,
}

/// One place of the store. Its generation grows each time an entity there
/// is destroyed; a slot whose generation reached the top is never reused.
#[derive(Clone, Copy, Debug, PartialEq, Eq, Structural)]
pub struct Slot {
    pub generation: u64,
    pub entity: Option<Entity>,
}

impl Kind {
    pub open spec fn side(self) -> Option<ColliderSide> {
        match self {
            Kind::Player(_) => Some(ColliderSide::Player),
            Kind::Enemy => Some(ColliderSide::Enemy),
            Kind::Projectile(_) => None,
        }
    }

    /// The side an entity of this kind stands on, if it can be hit.
    pub fn collider_side(&self) -> (r: Option<ColliderSide>)
        ensures
            r == self.side(),
    {
        match self {
            Kind::Player(_) => Some(ColliderSide::Player),
            Kind::Enemy => Some(ColliderSide::Enemy),
            Kind::Projectile(_) => None,
        }
    }
}

/// All entities of the simulation, in an arena of generation-checked slots.
pub struct EntityStore {
    pub slots: Vec<Slot>,
}

impl EntityStore {
    pub open spec fn live_at(slots: Seq<Slot>, id: EntityId) -> bool {
        &&& id.index < slots.len()
        &&& slots[id.index as int].generation == id.generation
        &&& slots[id.index as int].entity.is_some()
    }

    /// The id of the entity in slot `i`, whether or not one is there.
    pub open spec fn id_at(slots: Seq<Slot>, i: int) -> EntityId {
        EntityId { index: i as usize, generation: slots[i].generation }
    }

    /// The live entities, by id.
    pub open spec fn entities(slots: Seq<Slot>) -> Map<EntityId, Entity> {
        Map::new(
            |id: EntityId| Self::live_at(slots, id),
            |id: EntityId| slots[id.index as int].entity.unwrap(),
        )
    }

    pub open spec fn view(&self) -> Map<EntityId, Entity> {
        Self::entities(self.slots@)
    }

    /// An id whose slot has moved on to a later generation: it can never be
    /// live again.
    pub open spec fn retired(&self, id: EntityId) -> bool {
        id.index < self.slots@.len() && id.generation < self.slots@[id.index as int].generation
    }

    /// A live entity's generation is below the top, so destroying it can
    /// always move its slot on.
    pub open spec fn wf(&self) -> bool {
        forall|i: int|
            0 <= i < self.slots@.len() && (#[trigger] self.slots@[i]).entity.is_some()
                ==> self.slots@[i].generation < u64::MAX
    }

    /// The first slot from `i` on that is empty and not spent, or the length.
    pub open spec fn first_free(slots: Seq<Slot>, i: int) -> int
        decreases slots.len() - i,
    {
        if i >= slots.len() || i < 0 {
            slots.len() as int
        } else if slots[i].entity.is_none() && slots[i].generation < u64::MAX {
            i
        } else {
            Self::first_free(slots, i + 1)
        }
    }

    /// The slot that `first_free` finds lies between `i` and the length, and
    /// is free when it is not the length.
    pub proof fn lemma_first_free_range(slots: Seq<Slot>, i: int)
        requires
            0 <= i <= slots.len(),
        ensures
            i <= Self::first_free(slots, i) <= slots.len(),
            Self::first_free(slots, i) < slots.len() ==> slots[Self::first_free(slots, i)].entity.is_none(),
        decreases slots.len() - i,
    {
        if i < slots.len() {
            Self::lemma_first_free_range(slots, i + 1);
        }
    }

    /// The slots after `e` is created in them.
    pub open spec fn create_slots(slots: Seq<Slot>, e: Entity) -> Seq<Slot> {
        let k = Self::first_free(slots, 0);
        if k < slots.len() {
            slots.update(k, Slot { generation: slots[k].generation, entity: Some(e) })
        } else {
            slots.push(Slot { generation: 0, entity: Some(e) })
        }
    }

    /// The slots after the entity `id` is destroyed, if it is live.
    pub open spec fn destroy_slots(slots: Seq<Slot>, id: EntityId) -> Seq<Slot> {
        if Self::live_at(slots, id) {
            slots.update(id.index as int, Slot { generation: (id.generation + 1) as u64, entity: None })
        } else {
            slots
        }
    }

    /// Generations never go back, and slots are never dropped.
    pub open spec fn moves_on_from(&self, prev: &EntityStore) -> bool {
        &&& prev.slots@.len() <= self.slots@.len()
        &&& forall|i: int|
            0 <= i < prev.slots@.len() ==> prev.slots@[i].generation <= #[trigger] self.slots@[i].generation
    }

    pub fn new() -> (r: EntityStore)
        ensures
            r.wf(),
            r.view() == Map::<EntityId, Entity>::empty(),
    {
        let r = EntityStore { slots: Vec::new() };
        assert(r.view() =~= Map::<EntityId, Entity>::empty());
        r
    }

    pub fn is_live(&self, id: EntityId) -> (r: bool)
        ensures
            r == self.view().contains_key(id),
    {
        id.index < self.slots.len() && self.slots[id.index].generation == id.generation
            && self.slots[id.index].entity.is_some()
    }

    pub fn get(&self, id: EntityId) -> (r: Option<Entity>)
        ensures
            r == (if self.view().contains_key(id) { Some(self.view()[id]) } else { None }),
    {
        if self.is_live(id) {
            self.slots[id.index].entity
        } else {
            None
        }
    }

    /// The number of live entities.
    pub fn len(&self) -> (r: usize)
        ensures
            r == self.view().len(),
    {
        let mut n: usize = 0;
        let mut i: usize = 0;
        let ghost mut seen: Set<EntityId> = Set::empty();
        while i < self.slots.len()
            invariant
                i <= self.slots@.len(),
                n <= i,
                seen.finite(),
                seen.len() == n,
                seen == Set::new(|id: EntityId| Self::live_at(self.slots@, id) && id.index < i),
            decreases self.slots@.len() - i,
        {
            let ghost old_seen = seen;
            if self.slots[i].entity.is_some() {
                proof {
                    let id = Self::id_at(self.slots@, i as int);
                    seen = seen.insert(id);
                    assert(!old_seen.contains(id));
                }
                n = n + 1;
            }
            i = i + 1;
            assert(seen =~= Set::new(|id: EntityId| Self::live_at(self.slots@, id) && id.index < i));
        }
        assert(seen =~= self.view().dom());
        n
    }

    /// Puts `e` in the first slot that is free and not spent, or in a new
    /// slot, and returns its id. The id was never live before and is not
    /// retired.
    pub fn create(&mut self, e: Entity) -> (id: EntityId)
        requires
            old(self).wf(),
            old(self).slots@.len() < usize::MAX,
        ensures
            final(self).wf(),
            !old(self).view().contains_key(id),
            !old(self).retired(id),
            final(self).view() == old(self).view().insert(id, e),
            final(self).slots@ == Self::create_slots(old(self).slots@, e),
            final(self).moves_on_from(old(self)),
            final(self).slots@.len() <= old(self).slots@.len() + 1,
    {
        let mut i: usize = 0;
        while i < self.slots.len()
            invariant
                i <= self.slots@.len(),
                self.slots@ == old(self).slots@,
                old(self).wf(),
                Self::first_free(old(self).slots@, 0) == Self::first_free(old(self).slots@, i as int),
                forall|j: int|
                    0 <= j < i ==> (#[trigger] self.slots@[j]).entity.is_some()
                        || self.slots@[j].generation == u64::MAX,
            decreases self.slots@.len() - i,
        {
            if self.slots[i].entity.is_none() && self.slots[i].generation < u64::MAX {
                let generation = self.slots[i].generation;
                self.slots.set(i, Slot { generation, entity: Some(e) });
                let id = EntityId { index: i, generation };
                assert(forall|j: int|
                    0 <= j < self.slots@.len() && j != i ==> self.slots@[j] == old(self).slots@[j]);
                assert(self.view() =~= old(self).view().insert(id, e));
                return id;
            }
            i = i + 1;
        }
        let id = EntityId { index: i, generation: 0 };
        self.slots.push(Slot { generation: 0, entity: Some(e) });
        assert(self.view() =~= old(self).view().insert(id, e));
        id
    }

    /// Destroys the entity `id`, if it is live; otherwise does nothing.
    pub fn destroy(&mut self, id: EntityId)
        requires
            old(self).wf(),
        ensures
            final(self).wf(),
            final(self).view() == old(self).view().remove(id),
            final(self).slots@ == Self::destroy_slots(old(self).slots@, id),
            final(self).moves_on_from(old(self)),
            final(self).slots@.len() == old(self).slots@.len(),
            old(self).view().contains_key(id) ==> final(self).retired(id),
            forall|j: EntityId| old(self).retired(j) ==> final(self).retired(j),
    {
        if self.is_live(id) {
            let i = id.index;
            self.slots.set(i, Slot { generation: id.generation + 1, entity: None });
        }
        assert(self.view() =~= old(self).view().remove(id));
    }
}

} // verus!
