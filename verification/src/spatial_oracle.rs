//! A reference for spatial queries: every entity is looked at, nothing is indexed.
use crate::coord::Coord;
use crate::geometry::{BoundingBox, Vector3};
use vstd::prelude::*;

verus! {

/// A handle as the oracle knows it.
#[derive(Debug, Clone, Copy, PartialEq, Eq, Structural, Hash)]
pub struct OracleEntityKey {
    pub slot: u32,
    pub generation: u32,
}

/// The state of one entity.
#[derive(Debug, Clone, Copy)]
pub struct OracleEntityState {
    pub key: OracleEntityKey,
    pub world_id: u64,
    pub bounds: BoundingBox,
    pub position: Vector3,
    pub category_bits: u32,
    pub alive: bool,
}

impl OracleEntityState {
    /// The entity lives in the world and passes the mask.
    pub open spec fn eligible(self, world_id: u64, mask_bits: u32) -> bool {
        &&& self.alive
        &&& self.world_id == world_id
        &&& mask_bits == 0 || self.category_bits & mask_bits != 0
    }

    /// The entity is eligible and its box overlaps the query.
    pub open spec fn matches_aabb(self, world_id: u64, bounds: BoundingBox, mask_bits: u32) -> bool {
        self.eligible(world_id, mask_bits) && self.bounds.overlaps(bounds)
    }
}

/// No two entities share a handle.
pub open spec fn distinct_keys(entities: Seq<OracleEntityState>) -> bool {
    forall|i: int, j: int|
        0 <= i < j < entities.len() ==> (#[trigger] entities[i]).key != (#[trigger] entities[j]).key
}

/// An entity with the handle is known.
pub open spec fn knows(entities: Seq<OracleEntityState>, key: OracleEntityKey) -> bool {
    exists|i: int| 0 <= i < entities.len() && (#[trigger] entities[i]).key == key
}

/// The entities with the state put in: in the place of the entity with its handle,
/// or at the end.
pub open spec fn upserted(entities: Seq<OracleEntityState>, state: OracleEntityState) -> Seq<
    OracleEntityState,
> {
    if knows(entities, state.key) {
        Seq::new(
            entities.len(),
            |i: int|
                if entities[i].key == state.key {
                    state
                } else {
                    entities[i]
                },
        )
    } else {
        entities.push(state)
    }
}

/// The entities with the one of that handle marked dead.
pub open spec fn removed(entities: Seq<OracleEntityState>, key: OracleEntityKey) -> Seq<
    OracleEntityState,
> {
    Seq::new(
        entities.len(),
        |i: int|
            if entities[i].key == key {
                OracleEntityState { alive: false, ..entities[i] }
            } else {
                entities[i]
            },
    )
}

/// Tells the entities that an axis-aligned query matches.
pub open spec fn aabb_filter(world_id: u64, bounds: BoundingBox, mask_bits: u32) -> spec_fn(
    OracleEntityState,
) -> bool {
    |e: OracleEntityState| e.matches_aabb(world_id, bounds, mask_bits)
}

/// Tells the entities that a sphere query matches.
pub open spec fn sphere_filter(
    world_id: u64,
    center: Vector3,
    radius: Coord,
    mask_bits: u32,
) -> spec_fn(OracleEntityState) -> bool {
    |e: OracleEntityState|
        e.eligible(world_id, mask_bits) && e.position.in_sphere(center, radius)
}

/// Tells the living entities.
pub open spec fn alive_filter() -> spec_fn(OracleEntityState) -> bool {
    |e: OracleEntityState| e.alive
}

/// The handles of entities, in their order.
pub open spec fn keys_of(entities: Seq<OracleEntityState>) -> Seq<OracleEntityKey> {
    Seq::new(entities.len(), |i: int| entities[i].key)
}

/// A reference brute-force spatial query oracle.
///
/// Serves as the ground truth for spatial queries: it evaluates queries by scanning
/// all entities without acceleration.
#[derive(Debug)]
pub struct SpatialQueryOracle {
    entities: Vec<OracleEntityState>,
}

impl View for SpatialQueryOracle {
    type V = Seq<OracleEntityState>;

    closed spec fn view(&self) -> Seq<OracleEntityState> {
        self.entities@
    }
}

impl Clone for SpatialQueryOracle {
    fn clone(&self) -> (oracle: SpatialQueryOracle)
        ensures
            oracle@ == self@,
    {
        let oracle = SpatialQueryOracle { entities: self.entities.clone() };
        assert(oracle@ =~= self@);
        oracle
    }
}

impl Default for SpatialQueryOracle {
    fn default() -> (oracle: SpatialQueryOracle)
        ensures
            oracle@ == Seq::<OracleEntityState>::empty(),
            distinct_keys(oracle@),
    {
        SpatialQueryOracle { entities: Vec::new() }
    }
}

impl SpatialQueryOracle {
    /// An oracle that knows no entity.
    pub fn new() -> (oracle: SpatialQueryOracle)
        ensures
            oracle@ == Seq::<OracleEntityState>::empty(),
            distinct_keys(oracle@),
    {
        SpatialQueryOracle::default()
    }

    /// The place of the first entity with the handle, or the number of entities.
    fn position(&self, key: OracleEntityKey) -> (p: usize)
        ensures
            p <= self@.len(),
            forall|i: int| 0 <= i < p ==> (#[trigger] self@[i]).key != key,
            p < self@.len() ==> self@[p as int].key == key,
    {
        let mut p: usize = 0;
        while p < self.entities.len()
            invariant
                p <= self@.len(),
                forall|i: int| 0 <= i < p ==> (#[trigger] self@[i]).key != key,
            decreases self.entities.len() - p,
        {
            if self.entities[p].key == key {
                return p;
            }
            p = p + 1;
        }
        p
    }

    /// Insert or update an entity state in the oracle.
    pub fn upsert(&mut self, state: OracleEntityState)
        requires
            distinct_keys(old(self)@),
        ensures
            final(self)@ == upserted(old(self)@, state),
            distinct_keys(final(self)@),
            final(self)@.contains(state),
            forall|e: OracleEntityState|
                e.key == state.key && #[trigger] final(self)@.contains(e) ==> e == state,
            forall|e: OracleEntityState|
                e.key != state.key ==> (#[trigger] final(self)@.contains(e)
                    <==> old(self)@.contains(e)),
    {
        let p: usize = self.position(state.key);
        if p < self.entities.len() {
            self.entities.set(p, state);
        } else {
            self.entities.push(state);
        }
        assert(self@ =~= upserted(old(self)@, state));
        proof {
            lemma_upserted_contains(old(self)@, state);
        }
    }

    /// Mark an entity as removed in the oracle.
    pub fn remove(&mut self, key: OracleEntityKey)
        requires
            distinct_keys(old(self)@),
        ensures
            final(self)@ == removed(old(self)@, key),
            distinct_keys(final(self)@),
            forall|i: int| 0 <= i < final(self)@.len() && (#[trigger] final(self)@[i]).key == key
                ==> !final(self)@[i].alive,
            final(self)@.len() == old(self)@.len(),
            forall|i: int|
                0 <= i < old(self)@.len() && old(self)@[i].key != key
                    ==> #[trigger] final(self)@[i] == old(self)@[i],
            forall|i: int|
                0 <= i < old(self)@.len() ==> (#[trigger] final(self)@[i]).key == old(self)@[i].key,
    {
        let p: usize = self.position(key);
        if p < self.entities.len() {
            let mut state = self.entities[p];
            state.alive = false;
            self.entities.set(p, state);
        }
        assert(self@ =~= removed(old(self)@, key));
    }

    /// Brute-force AABB query returning matching entity keys.
    pub fn query_aabb(&self, world_id: u64, bounds: &BoundingBox, mask_bits: u32) -> (keys: Vec<
        OracleEntityKey,
    >)
        ensures
            keys@ == keys_of(self@.filter(aabb_filter(world_id, *bounds, mask_bits))),
            forall|key: OracleEntityKey| #[trigger]
                keys@.contains(key) <==> exists|i: int|
                    {
                        &&& 0 <= i < self@.len()
                        &&& (#[trigger] self@[i]).key == key
                        &&& self@[i].alive
                        &&& self@[i].world_id == world_id
                        &&& mask_bits == 0 || self@[i].category_bits & mask_bits != 0
                        &&& self@[i].bounds.overlaps(*bounds)
                    },
    {
        let mut keys: Vec<OracleEntityKey> = Vec::new();
        let ghost keep = aabb_filter(world_id, *bounds, mask_bits);
        for i in 0..self.entities.len()
            invariant
                keep == aabb_filter(world_id, *bounds, mask_bits),
                keys@ == keys_of(self@.take(i as int).filter(keep)),
        {
            let e = self.entities[i];
            proof {
                assert(self@.take(i + 1).drop_last() =~= self@.take(i as int));
                assert(self@.take(i + 1).last() == e);
                reveal(Seq::filter);
            }
            if e.alive && e.world_id == world_id && (mask_bits == 0 || e.category_bits & mask_bits
                != 0) && e.bounds.intersects(bounds) {
                keys.push(e.key);
            }
            assert(keys@ =~= keys_of(self@.take(i + 1).filter(keep)));
        }
        assert(self@.take(self@.len() as int) =~= self@);
        proof {
            assert forall|key: OracleEntityKey| #[trigger] keys@.contains(key) <==> exists|i: int|
                {
                    &&& 0 <= i < self@.len()
                    &&& (#[trigger] self@[i]).key == key
                    &&& self@[i].alive
                    &&& self@[i].world_id == world_id
                    &&& mask_bits == 0 || self@[i].category_bits & mask_bits != 0
                    &&& self@[i].bounds.overlaps(*bounds)
                } by {
                lemma_found(self@, keep, key);
                if keys@.contains(key) {
                    let i = choose|i: int|
                        0 <= i < self@.len() && (#[trigger] self@[i]).key == key && keep(self@[i]);
                    assert(self@[i].alive);
                }
                if exists|i: int|
                    {
                        &&& 0 <= i < self@.len()
                        &&& (#[trigger] self@[i]).key == key
                        &&& self@[i].alive
                        &&& self@[i].world_id == world_id
                        &&& mask_bits == 0 || self@[i].category_bits & mask_bits != 0
                        &&& self@[i].bounds.overlaps(*bounds)
                    } {
                    let i = choose|i: int|
                        {
                            &&& 0 <= i < self@.len()
                            &&& (#[trigger] self@[i]).key == key
                            &&& self@[i].alive
                            &&& self@[i].world_id == world_id
                            &&& mask_bits == 0 || self@[i].category_bits & mask_bits != 0
                            &&& self@[i].bounds.overlaps(*bounds)
                        };
                    assert(keep(self@[i]));
                }
            }
        }
        keys
    }

    /// Brute-force sphere query returning matching entity keys.
    pub fn query_sphere(&self, world_id: u64, center: Vector3, radius: Coord, mask_bits: u32) -> (keys:
        Vec<OracleEntityKey>)
        ensures
            keys@ == keys_of(self@.filter(sphere_filter(world_id, center, radius, mask_bits))),
            forall|key: OracleEntityKey| #[trigger]
                keys@.contains(key) <==> exists|i: int|
                    {
                        &&& 0 <= i < self@.len()
                        &&& (#[trigger] self@[i]).key == key
                        &&& self@[i].alive
                        &&& self@[i].world_id == world_id
                        &&& mask_bits == 0 || self@[i].category_bits & mask_bits != 0
                        &&& self@[i].position.in_sphere(center, radius)
                    },
    {
        let mut keys: Vec<OracleEntityKey> = Vec::new();
        let ghost keep = sphere_filter(world_id, center, radius, mask_bits);
        for i in 0..self.entities.len()
            invariant
                keep == sphere_filter(world_id, center, radius, mask_bits),
                keys@ == keys_of(self@.take(i as int).filter(keep)),
        {
            let e = self.entities[i];
            proof {
                assert(self@.take(i + 1).drop_last() =~= self@.take(i as int));
                assert(self@.take(i + 1).last() == e);
                reveal(Seq::filter);
            }
            if e.alive && e.world_id == world_id && (mask_bits == 0 || e.category_bits & mask_bits
                != 0) && e.position.is_in_sphere(center, radius) {
                keys.push(e.key);
            }
            assert(keys@ =~= keys_of(self@.take(i + 1).filter(keep)));
        }
        assert(self@.take(self@.len() as int) =~= self@);
        proof {
            assert forall|key: OracleEntityKey| #[trigger] keys@.contains(key) <==> exists|i: int|
                {
                    &&& 0 <= i < self@.len()
                    &&& (#[trigger] self@[i]).key == key
                    &&& self@[i].alive
                    &&& self@[i].world_id == world_id
                    &&& mask_bits == 0 || self@[i].category_bits & mask_bits != 0
                    &&& self@[i].position.in_sphere(center, radius)
                } by {
                lemma_found(self@, keep, key);
                if keys@.contains(key) {
                    let i = choose|i: int|
                        0 <= i < self@.len() && (#[trigger] self@[i]).key == key && keep(self@[i]);
                    assert(self@[i].alive);
                }
                if exists|i: int|
                    {
                        &&& 0 <= i < self@.len()
                        &&& (#[trigger] self@[i]).key == key
                        &&& self@[i].alive
                        &&& self@[i].world_id == world_id
                        &&& mask_bits == 0 || self@[i].category_bits & mask_bits != 0
                        &&& self@[i].position.in_sphere(center, radius)
                    } {
                    let i = choose|i: int|
                        {
                            &&& 0 <= i < self@.len()
                            &&& (#[trigger] self@[i]).key == key
                            &&& self@[i].alive
                            &&& self@[i].world_id == world_id
                            &&& mask_bits == 0 || self@[i].category_bits & mask_bits != 0
                            &&& self@[i].position.in_sphere(center, radius)
                        };
                    assert(keep(self@[i]));
                }
            }
        }
        keys
    }

    /// Brute-force swept AABB query returning matching entity keys: the box is
    /// widened on both sides by the absolute movement of each axis.
    pub fn query_swept_aabb(
        &self,
        world_id: u64,
        bounds: &BoundingBox,
        movement: Vector3,
        mask_bits: u32,
    ) -> (keys: Vec<OracleEntityKey>)
        ensures
            exists|swept: BoundingBox|
                #[trigger] bounds.expands_to(
                    movement.x.absolute(),
                    movement.y.absolute(),
                    movement.z.absolute(),
                    swept,
                ) && keys@ == keys_of(self@.filter(aabb_filter(world_id, swept, mask_bits))),
            exists|swept: BoundingBox|
                {
                    &&& #[trigger] bounds.expands_to(
                        movement.x.absolute(),
                        movement.y.absolute(),
                        movement.z.absolute(),
                        swept,
                    )
                    &&& forall|key: OracleEntityKey| #[trigger]
                        keys@.contains(key) <==> exists|i: int|
                            {
                                &&& 0 <= i < self@.len()
                                &&& (#[trigger] self@[i]).key == key
                                &&& self@[i].alive
                                &&& self@[i].world_id == world_id
                                &&& mask_bits == 0 || self@[i].category_bits & mask_bits != 0
                                &&& self@[i].bounds.overlaps(swept)
                            }
                },
    {
        let swept_box = bounds.expand(movement.x.abs(), movement.y.abs(), movement.z.abs());
        self.query_aabb(world_id, &swept_box, mask_bits)
    }

    /// Active entity count in the oracle.
    pub fn active_count(&self) -> (count: usize)
        ensures
            count == self@.filter(alive_filter()).len(),
    {
        let mut count: usize = 0;
        for i in 0..self.entities.len()
            invariant
                count <= i,
                count == self@.take(i as int).filter(alive_filter()).len(),
        {
            proof {
                assert(self@.take(i + 1).drop_last() =~= self@.take(i as int));
                reveal(Seq::filter);
            }
            if self.entities[i].alive {
                count = count + 1;
            }
        }
        assert(self@.take(self@.len() as int) =~= self@);
        count
    }
}

/// A query after a removal does not return the removed entity.
pub proof fn law_removed_entity_is_not_found(
    entities: Seq<OracleEntityState>,
    key: OracleEntityKey,
    world_id: u64,
    bounds: BoundingBox,
    mask_bits: u32,
)
    ensures
        !keys_of(
            removed(entities, key).filter(aabb_filter(world_id, bounds, mask_bits)),
        ).contains(key),
{
    let after = removed(entities, key);
    let found = after.filter(aabb_filter(world_id, bounds, mask_bits));
    broadcast use vstd::seq_lib::group_filter_ensures;

    assert forall|i: int| 0 <= i < found.len() implies (#[trigger] keys_of(found)[i]) != key by {
        let e = found[i];
        assert(aabb_filter(world_id, bounds, mask_bits)(e));
        after.lemma_filter_contains_rev(aabb_filter(world_id, bounds, mask_bits), e);
        let j = choose|j: int| 0 <= j < after.len() && after[j] == e;
        assert(after[j].alive);
    }
}

/// A state that was just put in is found by exactly the queries that it matches.
pub proof fn law_upserted_entity_is_found(
    entities: Seq<OracleEntityState>,
    state: OracleEntityState,
    world_id: u64,
    bounds: BoundingBox,
    mask_bits: u32,
)
    requires
        distinct_keys(entities),
    ensures
        keys_of(
            upserted(entities, state).filter(aabb_filter(world_id, bounds, mask_bits)),
        ).contains(state.key) <==> state.matches_aabb(world_id, bounds, mask_bits),
{
    let after = upserted(entities, state);
    let keep = aabb_filter(world_id, bounds, mask_bits);
    let found = after.filter(keep);
    broadcast use vstd::seq_lib::group_filter_ensures;

    let p = if knows(entities, state.key) {
        choose|i: int| 0 <= i < entities.len() && (#[trigger] entities[i]).key == state.key
    } else {
        entities.len() as int
    };
    assert(after[p] == state);
    assert(distinct_keys(after));
    if state.matches_aabb(world_id, bounds, mask_bits) {
        assert(keep(after[p]));
        assert(found.contains(state));
        let i = choose|i: int| 0 <= i < found.len() && found[i] == state;
        assert(keys_of(found)[i] == state.key);
    }
    if keys_of(found).contains(state.key) {
        let i = choose|i: int| 0 <= i < found.len() && keys_of(found)[i] == state.key;
        assert(keep(found[i]));
        after.lemma_filter_contains_rev(keep, found[i]);
        let j = choose|j: int| 0 <= j < after.len() && after[j] == found[i];
        assert(after[j].key == after[p].key);
        assert(j == p);
    }
}

proof fn lemma_upserted_contains(entities: Seq<OracleEntityState>, state: OracleEntityState)
    ensures
        upserted(entities, state).contains(state),
        forall|e: OracleEntityState|
            e.key == state.key && #[trigger] upserted(entities, state).contains(e) ==> e == state,
        forall|e: OracleEntityState|
            e.key != state.key ==> (#[trigger] upserted(entities, state).contains(e)
                <==> entities.contains(e)),
{
    let after = upserted(entities, state);
    if knows(entities, state.key) {
        let i = choose|i: int| 0 <= i < entities.len() && (#[trigger] entities[i]).key == state.key;
        assert(after[i] == state);
    } else {
        assert(after[entities.len() as int] == state);
    }
    assert forall|e: OracleEntityState|
        e.key == state.key && #[trigger] after.contains(e) implies e == state by {
        let i = after.index_of(e);
        if !knows(entities, state.key) && i < entities.len() {
            assert(entities[i].key == state.key);
        }
    }
    assert forall|e: OracleEntityState| e.key != state.key implies (#[trigger] after.contains(e)
        <==> entities.contains(e)) by {
        if after.contains(e) {
            let i = after.index_of(e);
            assert(entities[i] == e);
        }
        if entities.contains(e) {
            let i = entities.index_of(e);
            assert(after[i] == e);
        }
    }
}

/// A handle is found exactly where an entity with it is kept.
proof fn lemma_found(
    entities: Seq<OracleEntityState>,
    keep: spec_fn(OracleEntityState) -> bool,
    key: OracleEntityKey,
)
    ensures
        keys_of(entities.filter(keep)).contains(key) <==> exists|i: int|
            0 <= i < entities.len() && (#[trigger] entities[i]).key == key && keep(entities[i]),
{
    let found = entities.filter(keep);
    if keys_of(found).contains(key) {
        let j = keys_of(found).index_of(key);
        entities.lemma_filter_pred(keep, j);
        assert(found.contains(found[j]));
        entities.lemma_filter_contains_rev(keep, found[j]);
        let i = entities.index_of(found[j]);
        assert(entities[i].key == key && keep(entities[i]));
    }
    if exists|i: int|
        0 <= i < entities.len() && (#[trigger] entities[i]).key == key && keep(entities[i]) {
        let i = choose|i: int|
            0 <= i < entities.len() && (#[trigger] entities[i]).key == key && keep(entities[i]);
        entities.lemma_filter_contains(keep, i);
        let j = found.index_of(entities[i]);
        assert(keys_of(found)[j] == key);
    }
}

/// The active count is that of living entities: one more living entity counts one, a dead
/// one counts nothing, and an oracle that knows none counts none.
pub proof fn law_living_entities_are_counted(
    entities: Seq<OracleEntityState>,
    e: OracleEntityState,
)
    ensures
        Seq::<OracleEntityState>::empty().filter(alive_filter()).len() == 0,
        entities.push(e).filter(alive_filter()).len() == entities.filter(alive_filter()).len() + (
        if e.alive {
            1int
        } else {
            0
        }),
{
    reveal(Seq::filter);
    assert(entities.push(e).drop_last() =~= entities);
}

} // verus!
