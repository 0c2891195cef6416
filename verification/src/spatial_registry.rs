//! Generational entity handles and the registry that resolves them.
use arc_swap::ArcSwap;
use std::sync::Arc;
use vstd::prelude::*;

verus! {

/// A generational entity handle: reusing a slot never revives a stale handle.
#[derive(Debug, Clone, Copy, PartialEq, Eq, Structural, Hash, PartialOrd, Ord)]
pub struct EntityKey {
    pub slot: u32,
    pub generation: u32,
}

impl EntityKey {
    /// The handle that never resolves.
    pub fn null() -> (key: EntityKey)
        ensures
            key == (EntityKey { slot: u32::MAX, generation: 0 }),
    {
        EntityKey { slot: u32::MAX, generation: 0 }
    }

    /// Whether the handle names the slot that is never used.
    pub fn is_null(self) -> (r: bool)
        ensures
            r == (self.slot == u32::MAX),
    {
        self.slot == u32::MAX
    }

    /// Slot and generation as a pair, the form in which maps hold the handle.
    pub open spec fn pair(self) -> (u32, u32) {
        (self.slot, self.generation)
    }

    /// Slot and generation as a pair.
    pub fn to_pair(self) -> (pair: (u32, u32))
        ensures
            pair == self.pair(),
            pair.0 == self.slot,
            pair.1 == self.generation,
    {
        (self.slot, self.generation)
    }

    /// The handle of a pair.
    pub fn from_pair(pair: (u32, u32)) -> (key: EntityKey)
        ensures
            key.pair() == pair,
            key.slot == pair.0,
            key.generation == pair.1,
    {
        EntityKey { slot: pair.0, generation: pair.1 }
    }
}

/// One slot of the registry. An entity is known by an opaque identity number.
#[derive(Debug, Clone, Copy, PartialEq, Eq, Structural)]
pub struct EntitySlot {
    pub generation: u32,
    pub entity: Option<u64>,
}

/// What the registry holds: its slots, the slots waiting for reuse (the last one
/// is reused first), the active entities in order of arrival, and the slot that
/// each place of the active list belongs to.
pub struct RegistryModel {
    pub slots: Seq<EntitySlot>,
    pub free: Seq<u32>,
    pub active: Seq<u64>,
    pub owners: Seq<u32>,
}

/// Where a slot is listed last, or -1.
pub open spec fn last_place(owners: Seq<u32>, slot: u32) -> int
    decreases owners.len(),
{
    if owners.len() == 0 {
        -1
    } else if owners.last() == slot {
        owners.len() - 1
    } else {
        last_place(owners.drop_last(), slot)
    }
}

proof fn lemma_last_place(owners: Seq<u32>, slot: u32)
    ensures
        -1 <= last_place(owners, slot) < owners.len(),
        owners.contains(slot) <==> last_place(owners, slot) >= 0,
        last_place(owners, slot) >= 0 ==> owners[last_place(owners, slot)] == slot,
    decreases owners.len(),
{
    if owners.len() > 0 {
        let init = owners.drop_last();
        lemma_last_place(init, slot);
        if owners.last() == slot {
            assert(owners[owners.len() - 1] == slot);
        } else if owners.contains(slot) {
            assert(init[owners.index_of(slot)] == slot);
        }
    }
}

impl RegistryModel {
    /// Free slots exist, no slot has the number reserved for the null handle, and
    /// every place of the active list belongs to a slot.
    pub open spec fn valid(self) -> bool {
        &&& self.slots.len() <= u32::MAX
        &&& forall|i: int| 0 <= i < self.free.len() ==> (#[trigger] self.free[i]) < self.slots.len()
        &&& self.owners.len() == self.active.len()
        &&& forall|i: int|
            0 <= i < self.owners.len() ==> (#[trigger] self.owners[i]) < self.slots.len()
    }

    /// Free slots are vacant and none is listed twice; the active list has one place
    /// for each occupied slot, and its entity there.
    pub open spec fn settled(self) -> bool {
        &&& self.free.no_duplicates()
        &&& forall|i: int|
            0 <= i < self.free.len() ==> self.slots[(#[trigger] self.free[i]) as int].entity is None
        &&& self.owners.no_duplicates()
        &&& forall|i: int|
            0 <= i < self.owners.len() ==> self.slots[(#[trigger] self.owners[i]) as int].entity
                == Some(self.active[i])
        &&& forall|slot: u32|
            slot < self.slots.len() && self.slots[slot as int].entity is Some
                ==> #[trigger] self.owners.contains(slot)
    }

    /// The handle of a slot in its present generation.
    pub open spec fn handle_at(self, slot: u32) -> EntityKey {
        EntityKey { slot, generation: self.slots[slot as int].generation }
    }

    /// The handles that the places of the active list belong to.
    pub open spec fn handles(self) -> Seq<EntityKey> {
        Seq::new(self.owners.len(), |i: int| self.handle_at(self.owners[i]))
    }

    /// A slot can be handed out.
    pub open spec fn has_room(self) -> bool {
        self.free.len() > 0 || self.slots.len() < u32::MAX
    }

    /// The entity that a handle resolves to.
    pub open spec fn lookup(self, key: EntityKey) -> Option<u64> {
        if key.slot == u32::MAX || key.slot >= self.slots.len() {
            None
        } else if self.slots[key.slot as int].generation != key.generation {
            None
        } else {
            self.slots[key.slot as int].entity
        }
    }

    /// The handle that the next entity gets.
    pub open spec fn next_key(self) -> EntityKey {
        if self.free.len() > 0 {
            EntityKey {
                slot: self.free.last(),
                generation: self.slots[self.free.last() as int].generation,
            }
        } else {
            EntityKey { slot: self.slots.len() as u32, generation: 1 }
        }
    }

    /// The registry after an entity was given the next handle.
    pub open spec fn allocate(self, entity: u64) -> RegistryModel {
        let key = self.next_key();
        let slot = EntitySlot { generation: key.generation, entity: Some(entity) };
        RegistryModel {
            slots: if self.free.len() > 0 {
                self.slots.update(key.slot as int, slot)
            } else {
                self.slots.push(slot)
            },
            free: if self.free.len() > 0 {
                self.free.drop_last()
            } else {
                self.free
            },
            active: self.active.push(entity),
            owners: self.owners.push(key.slot),
        }
    }

    /// The handle names an existing slot in its present generation.
    pub open spec fn is_current(self, key: EntityKey) -> bool {
        &&& key.slot != u32::MAX
        &&& key.slot < self.slots.len()
        &&& self.slots[key.slot as int].generation == key.generation
    }

    /// The handle resolves and its slot is listed as active.
    pub open spec fn has_place(self, key: EntityKey) -> bool {
        self.lookup(key) is Some && self.owners.contains(key.slot)
    }

    /// The registry after removal of a handle: a current one has its slot
    /// emptied, advanced to the next generation and listed for reuse, and its
    /// place in the active list goes; any other changes nothing.
    pub open spec fn remove(self, key: EntityKey) -> RegistryModel {
        if !self.is_current(key) {
            self
        } else {
            RegistryModel {
                slots: self.slots.update(
                    key.slot as int,
                    EntitySlot {
                        generation: ((key.generation + 1) % 0x1_0000_0000) as u32,
                        entity: None,
                    },
                ),
                free: self.free.push(key.slot),
                active: if self.has_place(key) {
                    self.active.remove(last_place(self.owners, key.slot))
                } else {
                    self.active
                },
                owners: if self.has_place(key) {
                    self.owners.remove(last_place(self.owners, key.slot))
                } else {
                    self.owners
                },
            }
        }
    }

    /// The slot of the handle has moved on to a later generation.
    pub open spec fn is_stale(self, key: EntityKey) -> bool {
        &&& key.slot < self.slots.len()
        &&& key.generation < self.slots[key.slot as int].generation
    }

    /// Allocation keeps the registry valid, and settled if it was.
    pub proof fn lemma_allocate_valid(self, entity: u64)
        requires
            self.valid(),
            self.has_room(),
        ensures
            self.allocate(entity).valid(),
            self.settled() ==> self.allocate(entity).settled(),
    {
        let after = self.allocate(entity);
        let new = self.next_key().slot;
        if self.free.len() > 0 {
            assert(new == self.free[self.free.len() - 1]);
            assert forall|i: int| 0 <= i < after.free.len() implies (#[trigger] after.free[i])
                < after.slots.len() by {
                assert(after.free[i] == self.free[i]);
            }
        }
        assert forall|i: int| 0 <= i < after.owners.len() implies (#[trigger] after.owners[i])
            < after.slots.len() by {
            if i < self.owners.len() {
                assert(after.owners[i] == self.owners[i]);
            }
        }
        if self.settled() {
            assert forall|i: int| 0 <= i < after.free.len() implies after.slots[(
            #[trigger] after.free[i]) as int].entity is None by {
                assert(after.free[i] == self.free[i]);
                if self.free.len() > 0 {
                    assert(self.free[i] != self.free[self.free.len() - 1]);
                }
            }
            assert(!self.owners.contains(new)) by {
                if self.owners.contains(new) {
                    let i = self.owners.index_of(new);
                    assert(self.owners[i] < self.slots.len());
                    assert(self.slots[self.owners[i] as int].entity is Some);
                }
            }
            assert forall|i: int| 0 <= i < after.owners.len() implies after.slots[(
            #[trigger] after.owners[i]) as int].entity == Some(after.active[i]) by {
                if i < self.owners.len() {
                    assert(after.owners[i] == self.owners[i]);
                }
            }
            assert forall|slot: u32|
                slot < after.slots.len()
                    && after.slots[slot as int].entity is Some implies #[trigger] after.owners.contains(
                slot,
            ) by {
                if slot == new {
                    assert(after.owners[self.owners.len() as int] == slot);
                } else {
                    assert(self.owners.contains(slot));
                    assert(after.owners[self.owners.index_of(slot)] == slot);
                }
            }
        }
    }

    /// Removal keeps the registry valid, and keeps it settled unless the handle
    /// names a vacant slot.
    pub proof fn lemma_remove_valid(self, key: EntityKey)
        requires
            self.valid(),
        ensures
            self.remove(key).valid(),
            self.settled() && (self.is_current(key) ==> self.lookup(key) is Some) ==> self.remove(
                key,
            ).settled(),
    {
        let after = self.remove(key);
        let p = last_place(self.owners, key.slot);
        lemma_last_place(self.owners, key.slot);
        if self.is_current(key) {
            assert forall|i: int| 0 <= i < after.free.len() implies (#[trigger] after.free[i])
                < after.slots.len() by {
                if i < self.free.len() {
                    assert(after.free[i] == self.free[i]);
                }
            }
            assert forall|i: int| 0 <= i < after.owners.len() implies (#[trigger] after.owners[i])
                < after.slots.len() by {
                if self.has_place(key) && i >= p {
                    assert(after.owners[i] == self.owners[i + 1]);
                } else {
                    assert(after.owners[i] == self.owners[i]);
                }
            }
            if self.settled() && self.lookup(key) is Some {
                assert forall|i: int, j: int|
                    0 <= i < j < after.free.len() implies after.free[i] != after.free[j] by {
                    assert(after.free[i] == self.free[i]);
                    assert(self.slots[self.free[i] as int].entity is None);
                }
                assert(self.owners.contains(key.slot));
                assert forall|i: int| 0 <= i < after.owners.len() implies after.slots[(
                #[trigger] after.owners[i]) as int].entity == Some(after.active[i]) by {
                    let k = if i < p {
                        i
                    } else {
                        i + 1
                    };
                    assert(after.owners[i] == self.owners[k]);
                    assert(after.active[i] == self.active[k]);
                    assert(self.owners[k] != self.owners[p]);
                }
                assert forall|slot: u32|
                    slot < after.slots.len()
                        && after.slots[slot as int].entity is Some implies #[trigger] after.owners.contains(
                    slot,
                ) by {
                    assert(slot != key.slot);
                    assert(self.owners.contains(slot));
                    let k = self.owners.index_of(slot);
                    if k < p {
                        assert(after.owners[k] == slot);
                    } else {
                        assert(after.owners[k - 1] == slot);
                    }
                }
            }
        }
    }
}

/// A handle resolves to its entity as soon as it is handed out.
pub proof fn law_allocated_key_resolves(m: RegistryModel, entity: u64)
    requires
        m.valid(),
        m.has_room(),
    ensures
        m.allocate(entity).lookup(m.next_key()) == Some(entity),
{
}

/// Handing out a handle changes what no other handle resolves to.
pub proof fn law_allocate_keeps_other_keys(m: RegistryModel, entity: u64, key: EntityKey)
    requires
        m.valid(),
        m.has_room(),
        key != m.next_key(),
    ensures
        m.allocate(entity).lookup(key) == m.lookup(key),
{
}

/// A handle of a settled registry was not in use before it is handed out.
pub proof fn law_allocated_key_is_fresh(m: RegistryModel)
    requires
        m.valid(),
        m.settled(),
        m.has_room(),
    ensures
        m.lookup(m.next_key()) is None,
{
    if m.free.len() > 0 {
        assert(m.slots[m.free[m.free.len() - 1] as int].entity is None);
    }
}

/// A removed handle no longer resolves, and no other handle is affected.
pub proof fn law_removed_key_is_gone(m: RegistryModel, key: EntityKey, other: EntityKey)
    requires
        m.valid(),
        m.lookup(key) is Some,
    ensures
        m.remove(key).lookup(key) is None,
        other != key && m.lookup(other) is Some ==> m.remove(key).lookup(other) == m.lookup(other),
        m.lookup(other) is None ==> m.remove(key).lookup(other) is None,
{
}

/// A removed handle is stale from then on, short of 2^32 reuses of one slot.
pub proof fn law_removed_key_is_stale(m: RegistryModel, key: EntityKey)
    requires
        m.valid(),
        m.is_current(key),
        key.generation < u32::MAX,
    ensures
        m.remove(key).is_stale(key),
{
}

/// A stale handle never resolves, and stays stale through every allocation and
/// every removal that does not wrap its slot's generation around.
pub proof fn law_stale_key_stays_stale(
    m: RegistryModel,
    key: EntityKey,
    entity: u64,
    removed: EntityKey,
)
    requires
        m.valid(),
        m.is_stale(key),
    ensures
        m.lookup(key) is None,
        m.has_room() ==> m.allocate(entity).is_stale(key),
        removed.generation < u32::MAX ==> m.remove(removed).is_stale(key),
{
}

/// The active list is the entities of the live handles: one place for each handle
/// that resolves, with its entity, in the order in which the handles were handed out.
/// Allocation adds the place of the new handle at the end; removing a live handle
/// takes out its place and no other.
pub proof fn law_active_lists_live_handles(m: RegistryModel)
    requires
        m.valid(),
        m.settled(),
    ensures
        m.active.len() == m.handles().len(),
        m.handles().no_duplicates(),
        forall|i: int|
            0 <= i < m.active.len() ==> m.lookup(#[trigger] m.handles()[i]) == Some(m.active[i]),
        forall|key: EntityKey| (#[trigger] m.lookup(key)) is Some <==> m.handles().contains(key),
        m.has_room() ==> forall|entity: u64|
            {
                &&& (#[trigger] m.allocate(entity)).settled()
                &&& m.allocate(entity).handles() == m.handles().push(m.next_key())
                &&& m.allocate(entity).active == m.active.push(entity)
            },
        forall|key: EntityKey|
            m.lookup(key) is Some ==> {
                &&& (#[trigger] m.remove(key)).settled()
                &&& m.remove(key).handles() == m.handles().remove(m.handles().index_of(key))
                &&& m.remove(key).active == m.active.remove(m.handles().index_of(key))
            },
{
    let handles = m.handles();
    assert forall|i: int, j: int| 0 <= i < j < handles.len() implies handles[i] != handles[j] by {
        assert(m.owners[i] != m.owners[j]);
    }
    assert forall|i: int| 0 <= i < m.active.len() implies m.lookup(#[trigger] handles[i]) == Some(
        m.active[i],
    ) by {
        assert(m.owners[i] < m.slots.len());
    }
    assert forall|key: EntityKey| (#[trigger] m.lookup(key)) is Some <==> handles.contains(key) by {
        if m.lookup(key) is Some {
            assert(m.owners.contains(key.slot));
            assert(handles[m.owners.index_of(key.slot)] == key);
        }
        if handles.contains(key) {
            let i = handles.index_of(key);
            assert(m.lookup(handles[i]) == Some(m.active[i]));
        }
    }
    if m.has_room() {
        assert forall|entity: u64|
            {
                &&& (#[trigger] m.allocate(entity)).settled()
                &&& m.allocate(entity).handles() == m.handles().push(m.next_key())
                &&& m.allocate(entity).active == m.active.push(entity)
            } by {
            m.lemma_allocate_valid(entity);
            law_allocated_key_is_fresh(m);
            let after = m.allocate(entity);
            assert forall|i: int| 0 <= i < handles.len() implies after.handles()[i] == handles[i] by {
                assert(m.lookup(handles[i]) is Some);
                assert(m.owners[i] < m.slots.len());
                assert(after.owners[i] == m.owners[i]);
            }
            assert(after.handles() =~= handles.push(m.next_key()));
        }
    }
    assert forall|key: EntityKey| m.lookup(key) is Some implies {
        &&& (#[trigger] m.remove(key)).settled()
        &&& m.remove(key).handles() == m.handles().remove(m.handles().index_of(key))
        &&& m.remove(key).active == m.active.remove(m.handles().index_of(key))
    } by {
        m.lemma_remove_valid(key);
        lemma_last_place(m.owners, key.slot);
        let p = last_place(m.owners, key.slot);
        assert(handles.contains(key));
        assert(m.owners.contains(key.slot));
        assert(handles[p] == key);
        assert(handles.index_of(key) == p);
        let after = m.remove(key);
        assert forall|i: int| 0 <= i < after.handles().len() implies after.handles()[i]
            == handles.remove(p)[i] by {
            let k = if i < p {
                i
            } else {
                i + 1
            };
            assert(after.owners[i] == m.owners[k]);
            assert(m.owners[k] != m.owners[p]);
            assert(m.owners[k] < m.slots.len());
        }
        assert(after.handles() =~= handles.remove(p));
    }
}

/// The list of active entities, published through an atomically swapped pointer.
#[verifier::external_body]
pub struct ActiveList {
    entities: ArcSwap<Vec<u64>>,
}

/// What an active list holds.
pub uninterp spec fn active_contents(list: ActiveList) -> Seq<u64>;

/// `arc_swap::ArcSwapAny::new`: the new storage holds the list it is given.
#[verifier::external_body]
fn active_list_new(entities: Vec<u64>) -> (list: ActiveList)
    ensures
        active_contents(list) == entities@,
{
    ActiveList { entities: ArcSwap::new(Arc::new(entities)) }
}

/// `arc_swap::ArcSwapAny::load`: a load yields the list last stored. It is
/// copied out, as the borrowed guard cannot be kept.
#[verifier::external_body]
fn active_list_load(list: &ActiveList) -> (entities: Vec<u64>)
    ensures
        entities@ == active_contents(*list),
{
    (**list.entities.load()).clone()
}

/// `arc_swap::ArcSwapAny::store`: further loads yield the stored list.
#[verifier::external_body]
fn active_list_store(list: &mut ActiveList, entities: Vec<u64>)
    ensures
        active_contents(*final(list)) == entities@,
{
    list.entities.store(Arc::new(entities));
}

/// Registry mapping generational `EntityKey` handles to active world entities.
pub struct EntitySpatialRegistry {
    slots: Vec<EntitySlot>,
    free: Vec<u32>,
    active_flat: ActiveList,
    owners: Vec<u32>,
}

impl View for EntitySpatialRegistry {
    type V = RegistryModel;

    closed spec fn view(&self) -> RegistryModel {
        RegistryModel {
            slots: self.slots@,
            free: self.free@,
            active: active_contents(self.active_flat),
            owners: self.owners@,
        }
    }
}

impl Default for EntitySpatialRegistry {
    fn default() -> (r: EntitySpatialRegistry)
        ensures
            r@ == (RegistryModel {
                slots: Seq::empty(),
                free: Seq::empty(),
                active: Seq::empty(),
                owners: Seq::empty(),
            }),
            r@.valid(),
            r@.settled(),
    {
        EntitySpatialRegistry {
            slots: Vec::new(),
            free: Vec::new(),
            active_flat: active_list_new(Vec::new()),
            owners: Vec::new(),
        }
    }
}

impl EntitySpatialRegistry {
    /// An empty registry.
    pub fn new() -> (r: EntitySpatialRegistry)
        ensures
            r@ == (RegistryModel {
                slots: Seq::empty(),
                free: Seq::empty(),
                active: Seq::empty(),
                owners: Seq::empty(),
            }),
            r@.valid(),
            r@.settled(),
    {
        EntitySpatialRegistry::default()
    }

    /// Whether a slot can be handed out.
    pub fn can_allocate(&self) -> (r: bool)
        ensures
            r == self@.has_room(),
            r <==> self@.free.len() > 0 || self@.slots.len() < u32::MAX,
    {
        self.free.len() > 0 || self.slots.len() < 0xffff_ffff
    }

    /// Allocate a generational key for a new entity.
    pub fn allocate(&mut self, entity: u64) -> (key: EntityKey)
        requires
            old(self)@.valid(),
            old(self)@.has_room(),
        ensures
            key == old(self)@.next_key(),
            final(self)@ == old(self)@.allocate(entity),
            final(self)@.active == old(self)@.active.push(entity),
            old(self)@.free.len() > 0 ==> {
                &&& key.slot == old(self)@.free.last()
                &&& key.generation == old(self)@.slots[key.slot as int].generation
                &&& final(self)@.slots.len() == old(self)@.slots.len()
            },
            old(self)@.free.len() == 0 ==> {
                &&& key.slot == old(self)@.slots.len()
                &&& key.generation == 1
                &&& final(self)@.slots.len() == old(self)@.slots.len() + 1
            },
            final(self)@.slots[key.slot as int].entity == Some(entity),
            final(self)@.slots[key.slot as int].generation == key.generation,
            forall|i: int|
                0 <= i < old(self)@.slots.len() && i != key.slot
                    ==> #[trigger] final(self)@.slots[i] == old(self)@.slots[i],
            final(self)@.valid(),
            old(self)@.settled() ==> final(self)@.settled(),
    {
        proof {
            self@.lemma_allocate_valid(entity);
        }
        let ghost before = self@;
        let key = match self.free.pop() {
            Some(slot) => {
                assert(slot == before.free.last());
                assert(slot == before.free[before.free.len() - 1]);
                let generation: u32 = self.slots[slot as usize].generation;
                self.slots.set(slot as usize, EntitySlot { generation, entity: Some(entity) });
                EntityKey { slot, generation }
            },
            None => {
                let slot: u32 = self.slots.len() as u32;
                self.slots.push(EntitySlot { generation: 1, entity: Some(entity) });
                EntityKey { slot, generation: 1 }
            },
        };
        let mut active = active_list_load(&self.active_flat);
        active.push(entity);
        active_list_store(&mut self.active_flat, active);
        self.owners.push(key.slot);
        assert(self@.slots =~= before.allocate(entity).slots);
        assert(self@.free =~= before.allocate(entity).free);
        key
    }

    /// Resolve a key to its entity; `None` if the key is stale or removed.
    pub fn resolve(&self, key: EntityKey) -> (r: Option<u64>)
        ensures
            r == self@.lookup(key),
            r is Some <==> key.slot < self@.slots.len() && key.slot != u32::MAX
                && self@.slots[key.slot as int].generation == key.generation
                && self@.slots[key.slot as int].entity is Some,
            r is Some ==> r == self@.slots[key.slot as int].entity,
    {
        if key.is_null() || key.slot as usize >= self.slots.len() {
            return None;
        }
        let slot = self.slots[key.slot as usize];
        if slot.generation != key.generation {
            return None;
        }
        slot.entity
    }

    /// The active entities in order of arrival.
    pub fn for_each_active(&self) -> (entities: Vec<u64>)
        ensures
            entities@ == self@.active,
    {
        active_list_load(&self.active_flat)
    }

    /// Remove an entity by key, advancing the generation and marking the slot for
    /// reuse. Returns whether an entity was removed.
    pub fn remove(&mut self, key: EntityKey) -> (removed: bool)
        requires
            old(self)@.valid(),
        ensures
            removed == (old(self)@.lookup(key) is Some),
            final(self)@ == old(self)@.remove(key),
            final(self)@.slots.len() == old(self)@.slots.len(),
            key.slot < old(self)@.slots.len() && key.slot != u32::MAX
                && old(self)@.slots[key.slot as int].generation == key.generation ==> {
                &&& final(self)@.slots[key.slot as int].entity is None
                &&& key.generation < u32::MAX ==> final(self)@.slots[key.slot as int].generation
                    == key.generation + 1
                &&& key.generation == u32::MAX ==> final(self)@.slots[key.slot as int].generation
                    == 0
                &&& final(self)@.free == old(self)@.free.push(key.slot)
            },
            !(key.slot < old(self)@.slots.len() && key.slot != u32::MAX
                && old(self)@.slots[key.slot as int].generation == key.generation)
                ==> final(self)@ == old(self)@,
            forall|i: int|
                0 <= i < old(self)@.slots.len() && i != key.slot
                    ==> #[trigger] final(self)@.slots[i] == old(self)@.slots[i],
            final(self)@.valid(),
            old(self)@.settled() && (old(self)@.is_current(key) ==> old(self)@.lookup(key) is Some)
                ==> final(self)@.settled(),
    {
        proof {
            self@.lemma_remove_valid(key);
        }
        let ghost before = self@;
        if key.is_null() || key.slot as usize >= self.slots.len() {
            return false;
        }
        let slot = self.slots[key.slot as usize];
        if slot.generation != key.generation {
            return false;
        }
        let generation: u32 = slot.generation.wrapping_add(1);
        self.slots.set(key.slot as usize, EntitySlot { generation, entity: None });
        self.free.push(key.slot);
        let removed: bool = slot.entity.is_some();
        if removed {
            match self.place(key.slot) {
                Some(p) => {
                    let mut active = active_list_load(&self.active_flat);
                    active.remove(p);
                    active_list_store(&mut self.active_flat, active);
                    self.owners.remove(p);
                },
                None => {},
            }
        }
        assert(self@.slots =~= before.remove(key).slots);
        assert(self@.free =~= before.remove(key).free);
        removed
    }

    /// The last place of a slot in the active list.
    fn place(&self, slot: u32) -> (p: Option<usize>)
        ensures
            p == (if self@.owners.contains(slot) {
                Some(last_place(self@.owners, slot) as usize)
            } else {
                None
            }),
            p matches Some(p) ==> p == last_place(self@.owners, slot) && p < self@.owners.len(),
    {
        proof {
            lemma_last_place(self.owners@, slot);
        }
        let mut p: usize = self.owners.len();
        assert(self.owners@.take(p as int) =~= self.owners@);
        while p > 0
            invariant
                p <= self.owners@.len(),
                last_place(self.owners@, slot) == last_place(self.owners@.take(p as int), slot),
                self.owners@.contains(slot) <==> last_place(self.owners@, slot) >= 0,
            decreases p,
        {
            assert(self.owners@.take(p as int).drop_last() =~= self.owners@.take(p - 1));
            p = p - 1;
            if self.owners[p] == slot {
                return Some(p);
            }
        }
        None
    }
}

/// A handle resolves exactly where it names a slot in its present generation that an
/// entity occupies, and then to that entity.
pub proof fn law_handle_resolves_to_what_its_slot_holds(m: RegistryModel, key: EntityKey, e: u64)
    ensures
        m.lookup(key) == Some(e) <==> {
            &&& key.slot != u32::MAX
            &&& key.slot < m.slots.len()
            &&& m.slots[key.slot as int].generation == key.generation
            &&& m.slots[key.slot as int].entity == Some(e)
        },
{
}

/// Slots are reused: after a removal the next entity gets the removed handle's slot, in
/// the next generation, and no slot is added.
pub proof fn law_removed_slot_is_reused(m: RegistryModel, key: EntityKey, entity: u64)
    requires
        m.valid(),
        m.lookup(key) is Some,
        key.generation < u32::MAX,
    ensures
        m.remove(key).next_key() == (EntityKey {
            slot: key.slot,
            generation: (key.generation + 1) as u32,
        }),
        m.remove(key).allocate(entity).slots.len() == m.slots.len(),
        m.remove(key).allocate(entity).lookup(m.remove(key).next_key()) == Some(entity),
        m.remove(key).allocate(entity).lookup(key) is None,
{
}

} // verus!
