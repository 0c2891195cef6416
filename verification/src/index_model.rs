//! What the world spatial index holds, what its operations make of it, and what
//! its queries find.
use crate::geometry::{BlockRange, BoundingBox};
use crate::spatial_grid::{ColumnModel, SpatialEntry};
use crate::spatial_oracle::{OracleEntityKey, OracleEntityState};
use crate::spatial_pose::{SpatialCategory, SpatialPose};
use crate::spatial_registry::{EntityKey, RegistryModel};
use vstd::prelude::*;

verus! {

/// What the index knows of one entity: its pose as stored, and the columns that
/// its latest memberships touch.
pub struct ProxyModel {
    pub pose: SpatialPose,
    pub touched: Seq<(i32, i32)>,
}

/// What a world spatial index holds.
pub struct IndexModel {
    pub registry: RegistryModel,
    pub columns: Map<(i32, i32), ColumnModel>,
    pub proxies: Map<EntityKey, ProxyModel>,
    pub total_entities: usize,
}

/// A membership revision after one more change; it wraps around.
pub open spec fn next_membership(revision: u32) -> u32 {
    if revision == u32::MAX {
        0
    } else {
        (revision + 1) as u32
    }
}

/// The elements of a sequence, each where it occurs first.
pub open spec fn first_occurrences(keys: Seq<EntityKey>) -> Seq<EntityKey>
    decreases keys.len(),
{
    if keys.len() == 0 {
        keys
    } else {
        let rest = first_occurrences(keys.drop_last());
        if keys.drop_last().contains(keys.last()) {
            rest
        } else {
            rest.push(keys.last())
        }
    }
}

/// First occurrences are the elements of the sequence, each once.
pub proof fn lemma_first_occurrences(keys: Seq<EntityKey>)
    ensures
        first_occurrences(keys).no_duplicates(),
        forall|k: EntityKey| #[trigger] first_occurrences(keys).contains(k) <==> keys.contains(k),
    decreases keys.len(),
{
    if keys.len() > 0 {
        let init = keys.drop_last();
        let rest = first_occurrences(init);
        let all = first_occurrences(keys);
        lemma_first_occurrences(init);
        assert forall|k: EntityKey| #[trigger] all.contains(k) <==> keys.contains(k) by {
            if keys.contains(k) {
                let i = keys.index_of(k);
                if i < init.len() {
                    assert(init[i] == k);
                    assert(rest.contains(k));
                    assert(all[rest.index_of(k)] == k);
                } else if !init.contains(k) {
                    assert(all[all.len() - 1] == k);
                } else {
                    assert(rest.contains(k));
                }
            }
            if all.contains(k) {
                let i = all.index_of(k);
                if i < rest.len() {
                    assert(rest[i] == k);
                    assert(rest.contains(k));
                    assert(keys[init.index_of(k)] == k);
                } else {
                    assert(keys[keys.len() - 1] == k);
                }
            }
        }
        assert forall|i: int, j: int| 0 <= i < j < all.len() implies all[i] != all[j] by {
            assert(all[i] == rest[i]);
            assert(rest.contains(rest[i]));
        }
    }
}

impl ColumnModel {
    /// The number of entities that touch the column, as a 32-bit counter has it.
    pub open spec fn count(self) -> int {
        (self.keys.len() % 0x1_0000_0000) as int
    }

    /// The candidates estimated for the sections from `low` to `end - 1`: at most 32
    /// for each occupied one.
    pub open spec fn estimate(self, low: int, end: int) -> int
        decreases end - low,
    {
        if end <= low {
            0
        } else {
            self.estimate(low, end - 1) + (if self.occupied((end - 1) as i8) {
                if self.count() < 32 {
                    self.count()
                } else {
                    32
                }
            } else {
                0
            })
        }
    }

    /// The column as it was, with possibly more handles, sections and entries.
    pub open spec fn grows_to(self, after: ColumnModel) -> bool {
        &&& forall|k: EntityKey| #[trigger] self.keys.contains(k) ==> after.keys.contains(k)
        &&& forall|y: i8, key: EntityKey, categories: SpatialCategory| #[trigger]
            self.holds_member(key, y, categories) ==> after.holds_member(key, y, categories)
    }

    /// Every microcell of the section holds an entry for the handle, with these
    /// categories once unknown flags are dropped.
    pub open spec fn holds_member(self, key: EntityKey, y: i8, categories: SpatialCategory) -> bool {
        &&& self.occupied(y)
        &&& forall|cell: int|
            0 <= cell < 8 ==> #[trigger] self.cell_holds(key, y, cell, categories)
    }

    /// The microcell holds an entry for the handle, with these categories once
    /// unknown flags are dropped.
    pub open spec fn cell_holds(
        self,
        key: EntityKey,
        y: i8,
        cell: int,
        categories: SpatialCategory,
    ) -> bool {
        exists|i: int|
            {
                &&& 0 <= i < self.sections[y].cells[cell].entries.len()
                &&& (#[trigger] self.sections[y].cells[cell].entries[i]).key == key
                &&& SpatialCategory::truncated(
                    self.sections[y].cells[cell].entries[i].categories.bits,
                ) == categories
            }
    }

    /// Adding a handle and an entry keeps what was there, and makes the entry a
    /// member of each of its sections.
    pub proof fn lemma_member_added(self, entry: SpatialEntry, low: int, high: int)
        ensures
            self.grows_to(self.with_key(entry.key).with_entry(entry, low, high)),
            self.with_key(entry.key).with_entry(entry, low, high).keys.contains(entry.key),
            forall|y: i8|
                low <= y <= high ==> #[trigger] self.with_key(entry.key).with_entry(
                    entry,
                    low,
                    high,
                ).holds_member(
                    entry.key,
                    y,
                    SpatialCategory::truncated(entry.categories.bits),
                ),
    {
        let keyed = self.with_key(entry.key);
        let after = keyed.with_entry(entry, low, high);
        assert forall|k: EntityKey| #[trigger] self.keys.contains(k) implies after.keys.contains(
            k,
        ) by {
            assert(after.keys[self.keys.index_of(k)] == k);
        }
        if !self.keys.contains(entry.key) {
            assert(after.keys[self.keys.len() as int] == entry.key);
        }
        assert forall|y: i8, key: EntityKey, categories: SpatialCategory| #[trigger]
            self.holds_member(key, y, categories) implies after.holds_member(
            key,
            y,
            categories,
        ) by {
            assert forall|cell: int| 0 <= cell < 8 implies #[trigger] after.cell_holds(
                key,
                y,
                cell,
                categories,
            ) by {
                assert(self.cell_holds(key, y, cell, categories));
                let entries = self.sections[y].cells[cell].entries;
                let i = choose|i: int|
                    {
                        &&& 0 <= i < entries.len()
                        &&& (#[trigger] entries[i]).key == key
                        &&& SpatialCategory::truncated(entries[i].categories.bits) == categories
                    };
                assert(after.sections[y].cells[cell].entries[i] == entries[i]);
            }
        }
        assert forall|y: i8| low <= y <= high implies #[trigger] after.holds_member(
            entry.key,
            y,
            SpatialCategory::truncated(entry.categories.bits),
        ) by {
            assert forall|cell: int| 0 <= cell < 8 implies #[trigger] after.cell_holds(
                entry.key,
                y,
                cell,
                SpatialCategory::truncated(entry.categories.bits),
            ) by {
                let entries = after.sections[y].cells[cell].entries;
                assert(entries[entries.len() - 1] == entry);
            }
        }
    }
}

impl IndexModel {
    /// An index that was never written.
    pub open spec fn fresh() -> IndexModel {
        IndexModel {
            registry: RegistryModel {
                slots: Seq::empty(),
                free: Seq::empty(),
                active: Seq::empty(),
                owners: Seq::empty(),
            },
            columns: Map::empty(),
            proxies: Map::empty(),
            total_entities: 0,
        }
    }

    /// The column as it stands, or a fresh one.
    pub open spec fn column(self, at: (i32, i32)) -> ColumnModel {
        if self.columns.contains_key(at) {
            self.columns[at]
        } else {
            ColumnModel::fresh()
        }
    }

    /// The columns with an entry made for every microcell of the blocks of `range`,
    /// and its handle listed in every column of them.
    pub open spec fn with_entries(self, entry: SpatialEntry, range: BlockRange) -> Map<
        (i32, i32),
        ColumnModel,
    > {
        Map::new(
            |at: (i32, i32)| self.columns.contains_key(at) || range.holds_column(at),
            |at: (i32, i32)|
                if range.holds_column(at) {
                    self.column(at).with_key(entry.key).with_entry(
                        entry,
                        range.low_section(),
                        range.high_section(),
                    )
                } else {
                    self.columns[at]
                },
        )
    }

    /// The index with the memberships of a handle made for `range`: earlier entries
    /// stay, and the columns touched are those of the range.
    pub open spec fn with_memberships(
        self,
        key: EntityKey,
        range: BlockRange,
        revision: u32,
        categories: SpatialCategory,
    ) -> IndexModel {
        IndexModel {
            columns: self.with_entries(
                SpatialEntry { key, membership_revision: revision, categories },
                range,
            ),
            proxies: if self.proxies.contains_key(key) {
                self.proxies.insert(
                    key,
                    ProxyModel { touched: range.columns(), ..self.proxies[key] },
                )
            } else {
                self.proxies
            },
            ..self
        }
    }

    /// The index with another pose stored for a handle.
    pub open spec fn with_pose(self, key: EntityKey, pose: SpatialPose) -> IndexModel {
        IndexModel {
            proxies: self.proxies.insert(key, ProxyModel { pose, ..self.proxies[key] }),
            ..self
        }
    }

    /// The pose that a new entity starts with.
    pub open spec fn first_pose(
        world_id: u64,
        bounds: BoundingBox,
        categories: SpatialCategory,
        coverage: BoundingBox,
    ) -> SpatialPose {
        SpatialPose {
            world_id,
            exact_bounds: bounds,
            coverage_bounds: coverage,
            membership_revision: 1,
            categories,
            alive: true,
        }
    }

    /// The index after an entity was registered under the registry's next handle.
    pub open spec fn register(
        self,
        world_id: u64,
        entity: u64,
        bounds: BoundingBox,
        categories: SpatialCategory,
        coverage: BoundingBox,
    ) -> IndexModel {
        let key = self.registry.next_key();
        IndexModel {
            registry: self.registry.allocate(entity),
            proxies: self.proxies.insert(
                key,
                ProxyModel {
                    pose: IndexModel::first_pose(world_id, bounds, categories, coverage),
                    touched: Seq::empty(),
                },
            ),
            total_entities: if self.total_entities == usize::MAX {
                0
            } else {
                (self.total_entities + 1) as usize
            },
            ..self
        }.with_memberships(key, bounds.blocks(), 1, categories)
    }

    /// The index after a handle was unregistered: it leaves the columns that its
    /// latest memberships touch, and its slot is released.
    pub open spec fn unregister(self, key: EntityKey) -> IndexModel {
        IndexModel {
            registry: self.registry.remove(key),
            columns: if self.proxies.contains_key(key) {
                self.without_key_in(key, self.proxies[key].touched)
            } else {
                self.columns
            },
            proxies: self.proxies.remove(key),
            total_entities: if !self.proxies.contains_key(key) {
                self.total_entities
            } else if self.total_entities == 0 {
                usize::MAX
            } else {
                (self.total_entities - 1) as usize
            },
        }
    }

    /// The columns with a handle taken off the lists of some of them.
    pub open spec fn without_key_in(self, key: EntityKey, touched: Seq<(i32, i32)>) -> Map<
        (i32, i32),
        ColumnModel,
    > {
        Map::new(
            |at: (i32, i32)| self.columns.contains_key(at),
            |at: (i32, i32)|
                if touched.contains(at) {
                    self.columns[at].without_key(key)
                } else {
                    self.columns[at]
                },
        )
    }

    /// The pose as a reader sees it.
    pub open spec fn published(self, key: EntityKey) -> SpatialPose {
        self.proxies[key].pose.as_published()
    }

    /// A living entity with the handle can be moved.
    pub open spec fn can_move(self, key: EntityKey) -> bool {
        self.proxies.contains_key(key) && self.proxies[key].pose.alive
    }

    /// The bounds stay inside the loose coverage of the entity.
    pub open spec fn stays_covered(self, key: EntityKey, bounds: BoundingBox) -> bool {
        bounds.inside(self.proxies[key].pose.coverage_bounds)
    }

    /// The index after a movement inside the coverage: only the pose changes.
    pub open spec fn nudge(self, key: EntityKey, bounds: BoundingBox) -> IndexModel {
        self.with_pose(key, SpatialPose { exact_bounds: bounds, ..self.published(key) })
    }

    /// The index after an entity was placed anew: memberships are made for the new
    /// coverage under the next revision, then the pose is published.
    pub open spec fn relocate(
        self,
        key: EntityKey,
        world_id: u64,
        bounds: BoundingBox,
        coverage: BoundingBox,
    ) -> IndexModel {
        let pose = self.published(key);
        let revision = next_membership(pose.membership_revision);
        self.with_memberships(key, coverage.blocks(), revision, pose.categories).with_pose(
            key,
            SpatialPose {
                world_id,
                exact_bounds: bounds,
                coverage_bounds: coverage,
                membership_revision: revision,
                ..pose
            },
        )
    }
}

impl IndexModel {
    /// The existing columns among those listed.
    pub open spec fn existing(self) -> spec_fn((i32, i32)) -> bool {
        |at: (i32, i32)| self.columns.contains_key(at)
    }

    /// The existing columns that a query touches, in the order of the walk.
    pub open spec fn touched(self, range: BlockRange) -> Seq<(i32, i32)> {
        range.columns().filter(self.existing())
    }

    /// The entities counted in the columns.
    pub open spec fn scope(self, columns: Seq<(i32, i32)>) -> int
        decreases columns.len(),
    {
        if columns.len() == 0 {
            0
        } else {
            self.scope(columns.drop_last()) + self.columns[columns.last()].count()
        }
    }

    /// The candidates estimated for the sections `low` to `high` of the columns.
    pub open spec fn estimate(self, columns: Seq<(i32, i32)>, low: int, high: int) -> int
        decreases columns.len(),
    {
        if columns.len() == 0 {
            0
        } else {
            self.estimate(columns.drop_last(), low, high) + self.columns[columns.last()].estimate(
                low,
                high + 1,
            )
        }
    }

    /// A query scans the columns' lists of handles, not their microcells: few
    /// entities are in scope, or the estimate is at least 70% of them.
    pub open spec fn scans_directly(self, range: BlockRange) -> bool {
        let columns = self.touched(range);
        let scope = self.scope(columns);
        let estimate = self.estimate(columns, range.low_section(), range.high_section());
        scope <= 96 || (scope > 0 && estimate * 10 >= scope * 7)
    }

    /// The handles listed in the columns, column by column.
    pub open spec fn listed(self, columns: Seq<(i32, i32)>) -> Seq<EntityKey>
        decreases columns.len(),
    {
        if columns.len() == 0 {
            Seq::empty()
        } else {
            self.listed(columns.drop_last()) + self.columns[columns.last()].keys
        }
    }

    /// A microcell of the range holds an entry for the handle that passes the mask.
    pub open spec fn in_cells(self, range: BlockRange, mask: u32, key: EntityKey) -> bool {
        exists|at: (i32, i32)|
            {
                &&& range.holds_column(at)
                &&& self.columns.contains_key(at)
                &&& #[trigger] self.columns[at].lists(
                    key,
                    range.low_section(),
                    range.high_section(),
                    mask,
                )
            }
    }

    /// `order` holds the candidates of a query, each once: from a direct scan the
    /// listed handles where they occur first, else the handles found in microcells
    /// in no particular order.
    pub open spec fn candidates(self, range: BlockRange, mask: u32, order: Seq<EntityKey>) -> bool {
        &&& order.no_duplicates()
        &&& if self.scans_directly(range) {
            order == first_occurrences(self.listed(self.touched(range)))
        } else {
            forall|key: EntityKey| #[trigger]
                order.contains(key) <==> self.in_cells(range, mask, key)
        }
    }

    /// The entity with the handle lives in the world, passes the mask, and its
    /// exact box overlaps the query.
    pub open spec fn matches(
        self,
        key: EntityKey,
        world_id: u64,
        bounds: BoundingBox,
        mask: u32,
    ) -> bool {
        &&& self.proxies.contains_key(key)
        &&& self.published(key).alive
        &&& self.published(key).world_id == world_id
        &&& self.published(key).categories.passes(mask)
        &&& self.published(key).exact_bounds.overlaps(bounds)
    }

    /// What a candidate contributes to the answer: its entity, if it matches.
    pub open spec fn answer_of(self, world_id: u64, bounds: BoundingBox, mask: u32) -> spec_fn(
        EntityKey,
    ) -> Option<u64> {
        |key: EntityKey|
            if self.matches(key, world_id, bounds, mask) {
                self.registry.lookup(key)
            } else {
                None
            }
    }

    /// `entities` answers the query: the entities of the matching candidates.
    pub open spec fn answers(
        self,
        world_id: u64,
        bounds: BoundingBox,
        mask: u32,
        entities: Seq<u64>,
    ) -> bool {
        exists|order: Seq<EntityKey>|
            {
                &&& #[trigger] self.candidates(bounds.blocks(), mask, order)
                &&& entities == order.filter_map(self.answer_of(world_id, bounds, mask))
            }
    }
}

impl IndexModel {
    /// The column lists the handle and has it in every microcell of the sections.
    pub open spec fn column_has(
        self,
        at: (i32, i32),
        key: EntityKey,
        categories: SpatialCategory,
        range: BlockRange,
    ) -> bool {
        &&& self.columns.contains_key(at)
        &&& self.columns[at].keys.contains(key)
        &&& forall|y: i8|
            range.low_section() <= y <= range.high_section()
                ==> #[trigger] self.columns[at].holds_member(key, y, categories)
    }

    /// The handle is a member of everything that the range touches.
    pub open spec fn has_members(
        self,
        key: EntityKey,
        categories: SpatialCategory,
        range: BlockRange,
    ) -> bool {
        forall|at: (i32, i32)|
            range.holds_column(at) ==> #[trigger] self.column_has(at, key, categories, range)
    }

    /// The entity is a member of a range that reaches its exact box and everything
    /// inside its coverage, and that is no taller than the coverage.
    pub open spec fn indexed_for(self, key: EntityKey, range: BlockRange) -> bool {
        let pose = self.published(key);
        &&& range.is_upright()
        &&& range.reaches(pose.exact_bounds)
        &&& range.reaches(pose.coverage_bounds)
        &&& pose.coverage_bounds.blocks().min_y <= range.min_y
        &&& range.max_y <= pose.coverage_bounds.blocks().max_y
        &&& self.has_members(key, pose.categories, range)
    }

    /// The handle resolves, its entity lives, and a query that touches the entity
    /// comes across the handle.
    pub open spec fn is_findable(self, key: EntityKey) -> bool {
        &&& self.registry.lookup(key) is Some
        &&& self.proxies[key].pose.alive
        &&& exists|range: BlockRange| #[trigger] self.indexed_for(key, range)
    }

    /// Every indexed entity is findable.
    pub open spec fn complete(self) -> bool {
        forall|key: EntityKey| #[trigger]
            self.proxies.contains_key(key) ==> self.is_findable(key)
    }

    /// Growing columns keep their members.
    proof fn lemma_growth_keeps_members(
        self,
        after: IndexModel,
        key: EntityKey,
        categories: SpatialCategory,
        range: BlockRange,
    )
        requires
            forall|at: (i32, i32)| #[trigger]
                self.columns.contains_key(at) ==> after.columns.contains_key(at)
                    && self.columns[at].grows_to(after.columns[at]),
            self.has_members(key, categories, range),
        ensures
            after.has_members(key, categories, range),
    {
        assert forall|at: (i32, i32)| range.holds_column(at) implies #[trigger] after.column_has(
            at,
            key,
            categories,
            range,
        ) by {
            assert(self.column_has(at, key, categories, range));
            assert(self.columns[at].grows_to(after.columns[at]));
            assert forall|y: i8|
                range.low_section() <= y
                    <= range.high_section() implies #[trigger] after.columns[at].holds_member(
                key,
                y,
                categories,
            ) by {
                assert(self.columns[at].holds_member(key, y, categories));
            }
        }
    }

    /// Making entries keeps all members and adds those of the entry.
    proof fn lemma_entries_made(
        self,
        after: IndexModel,
        entry: SpatialEntry,
        range: BlockRange,
    )
        requires
            after.columns == self.with_entries(entry, range),
        ensures
            forall|at: (i32, i32)| #[trigger]
                self.columns.contains_key(at) ==> after.columns.contains_key(at)
                    && self.columns[at].grows_to(after.columns[at]),
            after.has_members(
                entry.key,
                SpatialCategory::truncated(entry.categories.bits),
                range,
            ),
    {
        let (low, high) = (range.low_section(), range.high_section());
        assert forall|at: (i32, i32)| #[trigger] self.columns.contains_key(at) implies {
            &&& after.columns.contains_key(at)
            &&& self.columns[at].grows_to(after.columns[at])
        } by {
            self.column(at).lemma_member_added(entry, low, high);
        }
        let categories = SpatialCategory::truncated(entry.categories.bits);
        assert forall|at: (i32, i32)| range.holds_column(at) implies #[trigger] after.column_has(
            at,
            entry.key,
            categories,
            range,
        ) by {
            self.column(at).lemma_member_added(entry, low, high);
        }
    }
}

/// Dropping unknown flags twice drops nothing more.
proof fn lemma_truncated_twice(bits: u32)
    ensures
        SpatialCategory::truncated(SpatialCategory::truncated(bits).bits)
            == SpatialCategory::truncated(bits),
{
    assert((bits & 0x3ff) & 0x3ff == bits & 0x3ff) by (bit_vector);
}

impl IndexModel {
    /// Every indexed entity is alive.
    pub open spec fn all_alive(self) -> bool {
        forall|key: EntityKey| #[trigger]
            self.proxies.contains_key(key) ==> self.proxies[key].pose.alive
    }

    /// The indexed handles are those that resolve, and the total counts them; it wraps
    /// around.
    pub open spec fn keeps_count(self) -> bool {
        &&& self.registry.valid()
        &&& self.registry.settled()
        &&& forall|key: EntityKey| #[trigger]
            self.proxies.contains_key(key) <==> self.registry.lookup(key) is Some
        &&& self.total_entities == self.proxies.dom().len() as int % (usize::MAX + 1)
    }

    /// The handle was not made up: unless it is stale, it resolves.
    pub open spec fn was_handed_out(self, key: EntityKey) -> bool {
        self.registry.is_current(key) ==> self.registry.lookup(key) is Some
    }
}

/// Where the total keeps count, it is the number of active entities, until it wraps.
pub proof fn law_total_is_the_number_of_active_entities(m: IndexModel)
    requires
        m.keeps_count(),
    ensures
        m.proxies.dom().finite(),
        m.proxies.dom().len() == m.registry.active.len(),
        m.total_entities == m.registry.active.len() as int % (usize::MAX + 1),
{
    crate::spatial_registry::law_active_lists_live_handles(m.registry);
    let handles = m.registry.handles();
    handles.unique_seq_to_set();
    assert(m.proxies.dom() =~= handles.to_set()) by {
        assert forall|key: EntityKey| m.proxies.dom().contains(key) <==> handles.to_set().contains(
            key,
        ) by {
            assert(m.proxies.contains_key(key) <==> m.registry.lookup(key) is Some);
            assert(m.registry.lookup(key) is Some <==> handles.contains(key));
        }
    }
}

/// An index that was never written keeps count.
pub proof fn law_fresh_index_keeps_count()
    ensures
        IndexModel::fresh().keeps_count(),
{
    assert(IndexModel::fresh().proxies.dom() =~= Set::empty());
    vstd::arithmetic::div_mod::lemma_small_mod(0, (usize::MAX + 1) as nat);
}

/// Every change of an index keeps count, but for unregistering a made-up handle.
pub proof fn law_total_keeps_count(
    m: IndexModel,
    world_id: u64,
    entity: u64,
    bounds: BoundingBox,
    categories: SpatialCategory,
    coverage: BoundingBox,
    key: EntityKey,
)
    requires
        m.keeps_count(),
    ensures
        m.registry.has_room() ==> m.register(
            world_id,
            entity,
            bounds,
            categories,
            coverage,
        ).keeps_count(),
        m.was_handed_out(key) ==> m.unregister(key).keeps_count(),
        m.proxies.contains_key(key) ==> m.nudge(key, bounds).keeps_count(),
        m.proxies.contains_key(key) ==> m.relocate(
            key,
            world_id,
            bounds,
            coverage,
        ).keeps_count(),
{
    law_total_is_the_number_of_active_entities(m);
    if m.registry.has_room() {
        let after = m.register(world_id, entity, bounds, categories, coverage);
        let new = m.registry.next_key();
        m.registry.lemma_allocate_valid(entity);
        crate::spatial_registry::law_allocated_key_is_fresh(m.registry);
        crate::spatial_registry::law_allocated_key_resolves(m.registry, entity);
        assert(!m.proxies.contains_key(new));
        assert forall|k: EntityKey| #[trigger]
            after.proxies.contains_key(k) <==> after.registry.lookup(k) is Some by {
            if k != new {
                crate::spatial_registry::law_allocate_keeps_other_keys(m.registry, entity, k);
                assert(m.proxies.contains_key(k) <==> m.registry.lookup(k) is Some);
            }
        }
        assert(after.proxies.dom() =~= m.proxies.dom().insert(new));
        lemma_count_up(m.proxies.dom().len() as int);
    }
    if m.was_handed_out(key) {
        m.lemma_unregister_keeps_count(key);
    }
    if m.proxies.contains_key(key) {
        m.lemma_movement_keeps_count(key, world_id, bounds, coverage);
    }
}

impl IndexModel {
    /// Unregistering a handle that was handed out keeps count.
    pub proof fn lemma_unregister_keeps_count(self, key: EntityKey)
        requires
            self.keeps_count(),
            self.was_handed_out(key),
        ensures
            self.unregister(key).keeps_count(),
    {
        let after = self.unregister(key);
        law_total_is_the_number_of_active_entities(self);
        self.registry.lemma_remove_valid(key);
        assert(self.proxies.contains_key(key) <==> self.registry.lookup(key) is Some);
        assert forall|k: EntityKey| #[trigger]
            after.proxies.contains_key(k) <==> after.registry.lookup(k) is Some by {
            assert(self.proxies.contains_key(k) <==> self.registry.lookup(k) is Some);
            if self.registry.lookup(key) is Some {
                crate::spatial_registry::law_removed_key_is_gone(self.registry, key, k);
            }
        }
        assert(after.proxies.dom() =~= self.proxies.dom().remove(key));
        if self.proxies.contains_key(key) {
            lemma_count_up(self.proxies.dom().len() - 1);
        }
    }

    /// Moving an entity keeps count.
    pub proof fn lemma_movement_keeps_count(
        self,
        key: EntityKey,
        world_id: u64,
        bounds: BoundingBox,
        coverage: BoundingBox,
    )
        requires
            self.keeps_count(),
            self.proxies.contains_key(key),
        ensures
            self.nudge(key, bounds).keeps_count(),
            self.relocate(key, world_id, bounds, coverage).keeps_count(),
    {
        let nudged = self.nudge(key, bounds);
        let moved = self.relocate(key, world_id, bounds, coverage);
        assert(nudged.proxies.dom() =~= self.proxies.dom());
        assert(moved.proxies.dom() =~= self.proxies.dom());
        assert forall|k: EntityKey| #[trigger]
            nudged.proxies.contains_key(k) <==> nudged.registry.lookup(k) is Some by {
            assert(self.proxies.contains_key(k) <==> self.registry.lookup(k) is Some);
        }
        assert forall|k: EntityKey| #[trigger]
            moved.proxies.contains_key(k) <==> moved.registry.lookup(k) is Some by {
            assert(self.proxies.contains_key(k) <==> self.registry.lookup(k) is Some);
        }
    }
}

/// Counting one more, a counter wraps to zero after its greatest value.
proof fn lemma_count_up(n: int)
    requires
        0 <= n,
    ensures
        (n + 1) % (usize::MAX + 1) == (if n % (usize::MAX + 1) == usize::MAX {
            0
        } else {
            n % (usize::MAX + 1) + 1
        }),
{
    let m = usize::MAX + 1;
    vstd::arithmetic::div_mod::lemma_fundamental_div_mod(n, m);
    let (q, rest) = (n / m, n % m);
    if rest == usize::MAX {
        assert(n + 1 == m * (q + 1) + 0) by (nonlinear_arith)
            requires
                n == m * q + rest,
                rest + 1 == m,
        ;
        vstd::arithmetic::div_mod::lemma_fundamental_div_mod_converse(n + 1, m, q + 1, 0);
    } else {
        vstd::arithmetic::div_mod::lemma_fundamental_div_mod_converse(n + 1, m, q, rest + 1);
    }
}

/// An index that was never written is complete.
pub proof fn law_fresh_index_is_complete()
    ensures
        IndexModel::fresh().complete(),
{
}

/// Registering an entity with an upright box keeps the index complete.
pub proof fn law_register_keeps_complete(
    m: IndexModel,
    world_id: u64,
    entity: u64,
    bounds: BoundingBox,
    categories: SpatialCategory,
    coverage: BoundingBox,
    speed: crate::coord::Coord,
)
    requires
        m.complete(),
        m.registry.valid(),
        m.registry.has_room(),
        bounds.is_upright(),
        speed.bits == 0,
        crate::spatial_pose::is_coverage(bounds, speed, coverage),
    ensures
        m.register(world_id, entity, bounds, categories, coverage).complete(),
{
    let after = m.register(world_id, entity, bounds, categories, coverage);
    let new = m.registry.next_key();
    let range = bounds.blocks();
    let entry = SpatialEntry { key: new, membership_revision: 1, categories };
    assert(after.columns =~= m.with_entries(entry, range));
    m.lemma_entries_made(after, entry, range);
    assert forall|key: EntityKey| #[trigger]
        after.proxies.contains_key(key) implies after.is_findable(key) by {
        if key == new {
            crate::spatial_registry::law_allocated_key_resolves(m.registry, entity);
            crate::geometry::lemma_upright_blocks(bounds);
            crate::geometry::lemma_blocks_reach(bounds);
            crate::spatial_pose::lemma_resting_coverage_reached(bounds, coverage, speed);
            crate::spatial_pose::lemma_coverage_is_taller(bounds, coverage, speed);
            assert(after.indexed_for(key, range));
        } else {
            assert(m.is_findable(key));
            crate::spatial_registry::law_allocate_keeps_other_keys(m.registry, entity, key);
            let old_range = choose|range: BlockRange| #[trigger] m.indexed_for(key, range);
            m.lemma_growth_keeps_members(after, key, m.published(key).categories, old_range);
            assert(after.indexed_for(key, old_range));
        }
    }
}

/// A new entity is indexed for the blocks of its exact box, so a query within the heights
/// that have sections of their own tells it where that box lies within them too.
pub proof fn law_new_entity_is_told_by_its_box(
    m: IndexModel,
    world_id: u64,
    entity: u64,
    bounds: BoundingBox,
    categories: SpatialCategory,
    coverage: BoundingBox,
    speed: crate::coord::Coord,
    asked: BoundingBox,
)
    requires
        m.registry.valid(),
        m.registry.has_room(),
        bounds.is_upright(),
        speed.bits == 0,
        crate::spatial_pose::is_coverage(bounds, speed, coverage),
        bounds.blocks().within_height(),
        asked.blocks().within_height(),
    ensures
        m.register(world_id, entity, bounds, categories, coverage).sections_tell(
            m.registry.next_key(),
            asked,
        ),
{
    let after = m.register(world_id, entity, bounds, categories, coverage);
    let new = m.registry.next_key();
    let range = bounds.blocks();
    let entry = SpatialEntry { key: new, membership_revision: 1, categories };
    assert(after.columns =~= m.with_entries(entry, range));
    m.lemma_entries_made(after, entry, range);
    crate::geometry::lemma_upright_blocks(bounds);
    crate::geometry::lemma_blocks_reach(bounds);
    crate::spatial_pose::lemma_resting_coverage_reached(bounds, coverage, speed);
    crate::spatial_pose::lemma_coverage_is_taller(bounds, coverage, speed);
    assert(after.indexed_for(new, range));
}

/// Where the coverage of an entity lies within the heights that have sections of their
/// own, a query within them tells the entity.
pub proof fn law_entity_is_told_by_its_coverage(m: IndexModel, key: EntityKey, asked: BoundingBox)
    requires
        m.complete(),
        m.proxies.contains_key(key),
        m.published(key).coverage_bounds.blocks().within_height(),
        asked.blocks().within_height(),
    ensures
        m.sections_tell(key, asked),
{
    assert(m.is_findable(key));
    let range = choose|range: BlockRange| #[trigger] m.indexed_for(key, range);
    assert(range.within_height());
}

/// Unregistering a handle keeps the index complete.
pub proof fn law_unregister_keeps_complete(m: IndexModel, gone: EntityKey)
    requires
        m.complete(),
        m.registry.valid(),
    ensures
        m.unregister(gone).complete(),
{
    let after = m.unregister(gone);
    assert forall|key: EntityKey| #[trigger]
        after.proxies.contains_key(key) implies after.is_findable(key) by {
        assert(m.is_findable(key));
        let range = choose|range: BlockRange| #[trigger] m.indexed_for(key, range);
        let categories = m.published(key).categories;
        assert forall|at: (i32, i32)| range.holds_column(at) implies #[trigger] after.column_has(
            at,
            key,
            categories,
            range,
        ) by {
            assert(m.column_has(at, key, categories, range));
            let before = m.columns[at].keys;
            before.lemma_filter_contains(
                crate::spatial_grid::other_than(gone),
                before.index_of(key),
            );
            assert(after.columns[at].keys.contains(key));
            assert forall|y: i8|
                range.low_section() <= y
                    <= range.high_section() implies #[trigger] after.columns[at].holds_member(
                key,
                y,
                categories,
            ) by {
                assert(m.columns[at].holds_member(key, y, categories));
                assert forall|cell: int|
                    0 <= cell < 8 implies #[trigger] after.columns[at].cell_holds(
                    key,
                    y,
                    cell,
                    categories,
                ) by {
                    assert(m.columns[at].cell_holds(key, y, cell, categories));
                    let entries = m.columns[at].sections[y].cells[cell].entries;
                    let i = choose|i: int|
                        {
                            &&& 0 <= i < entries.len()
                            &&& (#[trigger] entries[i]).key == key
                            &&& SpatialCategory::truncated(entries[i].categories.bits)
                                == categories
                        };
                    assert(after.columns[at].sections[y].cells[cell].entries[i] == entries[i]);
                }
            }
        }
        assert(after.indexed_for(key, range));
    }
}

/// Moving an entity inside its coverage keeps the index complete.
pub proof fn law_nudge_keeps_complete(m: IndexModel, moved: EntityKey, bounds: BoundingBox)
    requires
        m.complete(),
        m.can_move(moved),
        m.stays_covered(moved, bounds),
    ensures
        m.nudge(moved, bounds).complete(),
{
    let after = m.nudge(moved, bounds);
    assert(m.proxies.contains_key(moved));
    assert forall|key: EntityKey| #[trigger]
        after.proxies.contains_key(key) implies after.is_findable(key) by {
        assert(m.is_findable(key));
        let range = choose|range: BlockRange| #[trigger] m.indexed_for(key, range);
        m.lemma_growth_keeps_members(after, key, m.published(key).categories, range);
        if key == moved {
            lemma_truncated_twice(m.proxies[key].pose.categories.bits);
            crate::geometry::lemma_reach_inside(
                range,
                m.published(key).coverage_bounds,
                bounds,
            );
        }
        assert(after.indexed_for(key, range));
    }
}

/// Placing an entity anew, with an upright box and the coverage of any finite
/// speed, keeps the index complete.
pub proof fn law_relocate_keeps_complete(
    m: IndexModel,
    moved: EntityKey,
    world_id: u64,
    bounds: BoundingBox,
    coverage: BoundingBox,
    speed: crate::coord::Coord,
)
    requires
        m.complete(),
        m.proxies.contains_key(moved),
        bounds.is_upright(),
        speed.is_finite(),
        crate::spatial_pose::is_coverage(bounds, speed, coverage),
    ensures
        m.relocate(moved, world_id, bounds, coverage).complete(),
{
    let after = m.relocate(moved, world_id, bounds, coverage);
    let pose = m.published(moved);
    let entry = SpatialEntry {
        key: moved,
        membership_revision: next_membership(pose.membership_revision),
        categories: pose.categories,
    };
    let new_range = coverage.blocks();
    assert(after.columns =~= m.with_entries(entry, new_range));
    m.lemma_entries_made(after, entry, new_range);
    lemma_truncated_twice(m.proxies[moved].pose.categories.bits);
    assert forall|key: EntityKey| #[trigger]
        after.proxies.contains_key(key) implies after.is_findable(key) by {
        assert(m.proxies.contains_key(key));
        assert(m.is_findable(key));
        if key == moved {
            crate::spatial_pose::lemma_coverage_is_upright(bounds, coverage, speed);
            crate::geometry::lemma_upright_blocks(coverage);
            crate::geometry::lemma_blocks_reach(coverage);
            crate::spatial_pose::lemma_coverage_reaches_exact(bounds, coverage, speed);
            assert(after.indexed_for(key, new_range));
        } else {
            let range = choose|range: BlockRange| #[trigger] m.indexed_for(key, range);
            m.lemma_growth_keeps_members(after, key, m.published(key).categories, range);
            assert(after.indexed_for(key, range));
        }
    }
}

impl IndexModel {
    /// The columns that a query touches are the existing ones of its range.
    pub proof fn lemma_touched(self, range: BlockRange)
        ensures
            forall|at: (i32, i32)| #[trigger]
                self.touched(range).contains(at) <==> range.holds_column(at)
                    && self.columns.contains_key(at),
    {
        range.lemma_columns();
        let all = range.columns();
        assert forall|at: (i32, i32)| #[trigger]
            self.touched(range).contains(at) <==> range.holds_column(at)
                && self.columns.contains_key(at) by {
            if self.touched(range).contains(at) {
                all.lemma_filter_contains_rev(self.existing(), at);
                let i = self.touched(range).index_of(at);
                all.lemma_filter_pred(self.existing(), i);
                assert(self.existing()(at));
            }
            if range.holds_column(at) && self.columns.contains_key(at) {
                assert(all.contains(at));
                assert(self.existing()(all[all.index_of(at)]));
                all.lemma_filter_contains(self.existing(), all.index_of(at));
            }
        }
    }

    /// A handle is listed in columns if one of them lists it.
    proof fn lemma_listed(self, columns: Seq<(i32, i32)>, key: EntityKey)
        ensures
            self.listed(columns).contains(key) <==> exists|i: int|
                0 <= i < columns.len() && #[trigger] self.columns[columns[i]].keys.contains(key),
        decreases columns.len(),
    {
        if columns.len() > 0 {
            let init = columns.drop_last();
            let rest = self.listed(init);
            let last = self.columns[columns.last()].keys;
            let all = self.listed(columns);
            self.lemma_listed(init, key);
            if all.contains(key) {
                let i = all.index_of(key);
                if i < rest.len() {
                    assert(rest[i] == key);
                    let j = choose|j: int|
                        0 <= j < init.len() && #[trigger] self.columns[init[j]].keys.contains(key);
                    assert(self.columns[columns[j]].keys.contains(key));
                } else {
                    assert(last[i - rest.len()] == key);
                    assert(self.columns[columns[columns.len() - 1]].keys.contains(key));
                }
            }
            if exists|i: int|
                0 <= i < columns.len() && #[trigger] self.columns[columns[i]].keys.contains(key) {
                let i = choose|i: int|
                    0 <= i < columns.len() && #[trigger] self.columns[columns[i]].keys.contains(
                        key,
                    );
                if i < init.len() {
                    assert(self.columns[init[i]].keys.contains(key));
                    assert(all[rest.index_of(key)] == key);
                } else {
                    assert(all[rest.len() + last.index_of(key)] == key);
                }
            }
        }
    }

    /// The query does not go by sections, or the blocks that the entity is indexed for
    /// have a section number in common with it. Where the heights of both have sections
    /// of their own, blocks in common are enough for that.
    pub open spec fn sections_tell(self, key: EntityKey, bounds: BoundingBox) -> bool {
        ||| self.scans_directly(bounds.blocks())
        ||| exists|range: BlockRange|
            {
                &&& #[trigger] self.indexed_for(key, range)
                &&& (range.within_height() && bounds.blocks().within_height())
                    || range.shares_section(bounds.blocks())
            }
    }
}

/// No false negatives: the candidates of a query with an upright box contain every
/// entity that matches it. Where microcells are searched, the query and the blocks that
/// the entity is indexed for must lie within the heights that have sections of their
/// own, or have a section number in common otherwise: section numbers have eight bits.
pub proof fn law_query_misses_no_match(
    m: IndexModel,
    key: EntityKey,
    world_id: u64,
    bounds: BoundingBox,
    mask: u32,
    order: Seq<EntityKey>,
)
    requires
        m.complete(),
        bounds.is_upright(),
        m.candidates(bounds.blocks(), mask, order),
        m.matches(key, world_id, bounds, mask),
        m.sections_tell(key, bounds),
    ensures
        order.contains(key),
        m.registry.lookup(key) is Some,
{
    let asked = bounds.blocks();
    assert(m.is_findable(key));
    let pose = m.published(key);
    let range = if m.scans_directly(asked) {
        choose|range: BlockRange| #[trigger] m.indexed_for(key, range)
    } else {
        choose|range: BlockRange|
            {
                &&& #[trigger] m.indexed_for(key, range)
                &&& (range.within_height() && asked.within_height()) || range.shares_section(asked)
            }
    };
    crate::geometry::lemma_upright_blocks(bounds);
    crate::geometry::lemma_reach_meets(range, pose.exact_bounds, bounds);
    let (at, y) = range.lemma_shared_column(asked);
    assert(m.column_has(at, key, pose.categories, range));
    if m.scans_directly(asked) {
        let columns = m.touched(asked);
        m.lemma_touched(asked);
        assert(columns.contains(at));
        let i = columns.index_of(at);
        assert(m.columns[columns[i]].keys.contains(key));
        m.lemma_listed(columns, key);
        lemma_first_occurrences(m.listed(columns));
    } else {
        let column = m.columns[at];
        assert(column.holds_member(key, y, pose.categories));
        assert(column.cell_holds(key, y, 0, pose.categories));
        let entries = column.sections[y].cells[0].entries;
        let i = choose|i: int|
            {
                &&& 0 <= i < entries.len()
                &&& (#[trigger] entries[i]).key == key
                &&& SpatialCategory::truncated(entries[i].categories.bits) == pose.categories
            };
        let bits = entries[i].categories.bits;
        assert((bits & 0x3ff) & mask != 0 ==> bits & mask != 0) by (bit_vector);
        assert(column.lists_at(key, y, 0, i, mask));
        assert(column.lists(key, asked.low_section(), asked.high_section(), mask));
        assert(m.in_cells(asked, mask, key));
    }
}

/// Tells the handles whose entities match a query.
pub open spec fn match_filter(
    m: IndexModel,
    world_id: u64,
    bounds: BoundingBox,
    mask: u32,
) -> spec_fn(EntityKey) -> bool {
    |key: EntityKey| m.matches(key, world_id, bounds, mask)
}

/// The answer is made of the matching candidates' entities, in their order.
pub proof fn lemma_answer_of_matches(
    m: IndexModel,
    world_id: u64,
    bounds: BoundingBox,
    mask: u32,
    order: Seq<EntityKey>,
)
    requires
        m.complete(),
    ensures
        ({
            let matched = order.filter(match_filter(m, world_id, bounds, mask));
            let answer = order.filter_map(m.answer_of(world_id, bounds, mask));
            &&& answer.len() == matched.len()
            &&& forall|i: int|
                0 <= i < matched.len() ==> m.registry.lookup(#[trigger] matched[i]) == Some(
                    answer[i],
                )
        }),
    decreases order.len(),
{
    reveal(Seq::filter);
    if order.len() > 0 {
        lemma_answer_of_matches(m, world_id, bounds, mask, order.drop_last());
        let key = order.last();
        if m.matches(key, world_id, bounds, mask) {
            assert(m.is_findable(key));
        }
    }
}

proof fn lemma_filter_keeps_distinct(s: Seq<EntityKey>, keep: spec_fn(EntityKey) -> bool)
    requires
        s.no_duplicates(),
    ensures
        s.filter(keep).no_duplicates(),
    decreases s.len(),
{
    reveal(Seq::filter);
    if s.len() > 0 {
        let init = s.drop_last();
        lemma_filter_keeps_distinct(init, keep);
        let rest = init.filter(keep);
        if keep(s.last()) {
            assert forall|i: int| 0 <= i < rest.len() implies rest[i] != s.last() by {
                assert(rest.contains(rest[i]));
                init.lemma_filter_contains_rev(keep, rest[i]);
                assert(s[init.index_of(rest[i])] == rest[i]);
            }
        }
    }
}

/// The handle of an entity that the oracle knows.
pub open spec fn handle_of(key: OracleEntityKey) -> EntityKey {
    EntityKey { slot: key.slot, generation: key.generation }
}

impl IndexModel {
    /// The oracle was told of the same living entities, with the same poses.
    pub open spec fn mirrored_by(self, oracle: Seq<OracleEntityState>) -> bool {
        &&& forall|i: int|
            0 <= i < oracle.len() && (#[trigger] oracle[i]).alive ==> self.shows(oracle[i])
        &&& forall|key: EntityKey| #[trigger]
            self.proxies.contains_key(key) ==> exists|i: int|
                0 <= i < oracle.len() && (#[trigger] oracle[i]).alive && handle_of(oracle[i].key)
                    == key
    }

    /// The index has the entity with the state that the oracle was told.
    pub open spec fn shows(self, state: OracleEntityState) -> bool {
        let key = handle_of(state.key);
        &&& self.proxies.contains_key(key)
        &&& self.published(key).world_id == state.world_id
        &&& self.published(key).exact_bounds == state.bounds
        &&& self.published(key).categories.bits == state.category_bits
    }
}

proof fn lemma_filter_keeps_distinct_keys(
    s: Seq<OracleEntityState>,
    keep: spec_fn(OracleEntityState) -> bool,
)
    requires
        crate::spatial_oracle::distinct_keys(s),
    ensures
        crate::spatial_oracle::distinct_keys(s.filter(keep)),
    decreases s.len(),
{
    reveal(Seq::filter);
    if s.len() > 0 {
        let init = s.drop_last();
        lemma_filter_keeps_distinct_keys(init, keep);
        let rest = init.filter(keep);
        if keep(s.last()) {
            let all = s.filter(keep);
            assert(all == rest.push(s.last()));
            assert forall|i: int| 0 <= i < rest.len() implies (#[trigger] rest[i]).key
                != s.last().key by {
                assert(rest.contains(rest[i]));
                init.lemma_filter_contains_rev(keep, rest[i]);
                let j = init.index_of(rest[i]);
                assert(s[j] == rest[i]);
                assert(s[j].key != s[s.len() - 1].key);
            }
            assert forall|i: int, j: int| 0 <= i < j < all.len() implies (#[trigger] all[i]).key
                != (#[trigger] all[j]).key by {
                assert(all[i] == rest[i]);
                if j < rest.len() {
                    assert(all[j] == rest[j]);
                }
            }
        }
    }
}

/// The index answers as the oracle does: as many entities, one for each entity
/// that the brute-force scan finds.
pub proof fn law_index_agrees_with_oracle(
    m: IndexModel,
    oracle: Seq<OracleEntityState>,
    world_id: u64,
    bounds: BoundingBox,
    mask: u32,
    entities: Seq<u64>,
)
    requires
        m.complete(),
        m.mirrored_by(oracle),
        crate::spatial_oracle::distinct_keys(oracle),
        bounds.is_upright(),
        m.answers(world_id, bounds, mask, entities),
        forall|key: EntityKey| #[trigger]
            m.matches(key, world_id, bounds, mask) ==> m.sections_tell(key, bounds),
    ensures
        ({
            let found = oracle.filter(
                crate::spatial_oracle::aabb_filter(world_id, bounds, mask),
            );
            &&& entities.len() == found.len()
            &&& forall|i: int|
                0 <= i < found.len() ==> (m.registry.lookup(
                    handle_of((#[trigger] found[i]).key),
                ) matches Some(entity) && entities.contains(entity))
        }),
{
    let keep = crate::spatial_oracle::aabb_filter(world_id, bounds, mask);
    let found = oracle.filter(keep);
    let order = choose|order: Seq<EntityKey>|
        {
            &&& #[trigger] m.candidates(bounds.blocks(), mask, order)
            &&& entities == order.filter_map(m.answer_of(world_id, bounds, mask))
        };
    let is_match = match_filter(m, world_id, bounds, mask);
    let matched = order.filter(is_match);
    let handles = Seq::new(found.len(), |i: int| handle_of(found[i].key));
    lemma_answer_of_matches(m, world_id, bounds, mask, order);
    lemma_filter_keeps_distinct(order, is_match);
    lemma_filter_keeps_distinct_keys(oracle, keep);
    assert(handles.no_duplicates()) by {
        assert forall|i: int, j: int| 0 <= i < j < handles.len() implies handles[i]
            != handles[j] by {
            assert(found[i].key != found[j].key);
        }
    }
    assert forall|i: int| 0 <= i < found.len() implies matched.contains(#[trigger] handles[i]) by {
        let state = found[i];
        let key = handles[i];
        oracle.lemma_filter_pred(keep, i);
        assert(found.contains(state));
        oracle.lemma_filter_contains_rev(keep, state);
        let j = oracle.index_of(state);
        assert(oracle[j].alive);
        assert(m.shows(oracle[j]));
        assert(m.is_findable(key));
        assert(m.matches(key, world_id, bounds, mask));
        law_query_misses_no_match(m, key, world_id, bounds, mask, order);
        assert(is_match(order[order.index_of(key)]));
        order.lemma_filter_contains(is_match, order.index_of(key));
    }
    assert forall|i: int| 0 <= i < matched.len() implies handles.contains(#[trigger] matched[i]) by {
        let key = matched[i];
        order.lemma_filter_pred(is_match, i);
        assert(m.proxies.contains_key(key));
        let j = choose|j: int|
            0 <= j < oracle.len() && (#[trigger] oracle[j]).alive && handle_of(oracle[j].key)
                == key;
        assert(m.shows(oracle[j]));
        assert(keep(oracle[j]));
        oracle.lemma_filter_contains(keep, j);
        let n = found.index_of(oracle[j]);
        assert(handles[n] == key);
    }
    assert(matched.to_set() =~= handles.to_set()) by {
        assert forall|key: EntityKey| matched.contains(key) <==> handles.contains(key) by {
            if matched.contains(key) {
                assert(matched[matched.index_of(key)] == key);
            }
            if handles.contains(key) {
                assert(handles[handles.index_of(key)] == key);
            }
        }
    }
    matched.unique_seq_to_set();
    handles.unique_seq_to_set();
    assert forall|i: int| 0 <= i < found.len() implies (m.registry.lookup(
        handle_of((#[trigger] found[i]).key),
    ) matches Some(entity) && entities.contains(entity)) by {
        assert(matched.contains(handles[i]));
        let n = matched.index_of(handles[i]);
        assert(m.registry.lookup(matched[n]) == Some(entities[n]));
    }
}

/// Only the entity of the handle differs between two indexes.
pub open spec fn differ_only_in(before: IndexModel, after: IndexModel, changed: EntityKey) -> bool {
    forall|key: EntityKey|
        key != changed ==> {
            &&& #[trigger] after.proxies.contains_key(key) == before.proxies.contains_key(key)
            &&& before.proxies.contains_key(key) ==> after.published(key) == before.published(key)
        }
}

/// An oracle that is told the new state of the one entity that changed mirrors the
/// index again.
proof fn lemma_upsert_mirrors(
    before: IndexModel,
    after: IndexModel,
    oracle: Seq<OracleEntityState>,
    state: OracleEntityState,
)
    requires
        before.mirrored_by(oracle),
        crate::spatial_oracle::distinct_keys(oracle),
        state.alive,
        after.shows(state),
        differ_only_in(before, after, handle_of(state.key)),
    ensures
        after.mirrored_by(crate::spatial_oracle::upserted(oracle, state)),
{
    let told = crate::spatial_oracle::upserted(oracle, state);
    let changed = handle_of(state.key);
    assert forall|i: int| 0 <= i < told.len() && (#[trigger] told[i]).alive implies after.shows(
        told[i],
    ) by {
        if told[i] != state {
            assert(told[i] == oracle[i]);
            assert(before.shows(oracle[i]));
            assert(handle_of(oracle[i].key) != changed);
            assert(after.proxies.contains_key(handle_of(oracle[i].key)));
        }
    }
    assert forall|key: EntityKey| #[trigger] after.proxies.contains_key(key) implies exists|i: int|
        0 <= i < told.len() && (#[trigger] told[i]).alive && handle_of(told[i].key) == key by {
        if key == changed {
            let p = if crate::spatial_oracle::knows(oracle, state.key) {
                choose|i: int| 0 <= i < oracle.len() && (#[trigger] oracle[i]).key == state.key
            } else {
                oracle.len() as int
            };
            assert(told[p] == state);
        } else {
            assert(before.proxies.contains_key(key));
            let i = choose|i: int|
                0 <= i < oracle.len() && (#[trigger] oracle[i]).alive && handle_of(oracle[i].key)
                    == key;
            assert(told[i] == oracle[i]);
        }
    }
}

/// Registering an entity and telling the oracle its state leaves the oracle a
/// mirror of the index.
pub proof fn law_register_is_mirrored(
    m: IndexModel,
    oracle: Seq<OracleEntityState>,
    entity: u64,
    coverage: BoundingBox,
    state: OracleEntityState,
)
    requires
        m.mirrored_by(oracle),
        crate::spatial_oracle::distinct_keys(oracle),
        handle_of(state.key) == m.registry.next_key(),
        state.alive,
        state.category_bits & SpatialCategory::KNOWN == state.category_bits,
    ensures
        m.register(
            state.world_id,
            entity,
            state.bounds,
            SpatialCategory { bits: state.category_bits },
            coverage,
        ).mirrored_by(crate::spatial_oracle::upserted(oracle, state)),
{
    let after = m.register(
        state.world_id,
        entity,
        state.bounds,
        SpatialCategory { bits: state.category_bits },
        coverage,
    );
    lemma_upsert_mirrors(m, after, oracle, state);
}

/// Moving an entity, inside its coverage or beyond, and telling the oracle its
/// state leaves the oracle a mirror of the index.
pub proof fn law_movement_is_mirrored(
    m: IndexModel,
    oracle: Seq<OracleEntityState>,
    coverage: BoundingBox,
    state: OracleEntityState,
)
    requires
        m.mirrored_by(oracle),
        crate::spatial_oracle::distinct_keys(oracle),
        m.proxies.contains_key(handle_of(state.key)),
        state.alive,
        state.category_bits == m.published(handle_of(state.key)).categories.bits,
    ensures
        state.world_id == m.published(handle_of(state.key)).world_id ==> m.nudge(
            handle_of(state.key),
            state.bounds,
        ).mirrored_by(crate::spatial_oracle::upserted(oracle, state)),
        m.relocate(
            handle_of(state.key),
            state.world_id,
            state.bounds,
            coverage,
        ).mirrored_by(crate::spatial_oracle::upserted(oracle, state)),
{
    let key = handle_of(state.key);
    lemma_truncated_twice(m.proxies[key].pose.categories.bits);
    if state.world_id == m.published(key).world_id {
        lemma_upsert_mirrors(m, m.nudge(key, state.bounds), oracle, state);
    }
    let placed = m.relocate(key, state.world_id, state.bounds, coverage);
    lemma_upsert_mirrors(m, placed, oracle, state);
}

/// Unregistering an entity and removing it from the oracle leaves the oracle a
/// mirror of the index.
pub proof fn law_unregister_is_mirrored(
    m: IndexModel,
    oracle: Seq<OracleEntityState>,
    key: OracleEntityKey,
)
    requires
        m.mirrored_by(oracle),
    ensures
        m.unregister(handle_of(key)).mirrored_by(crate::spatial_oracle::removed(oracle, key)),
{
    let after = m.unregister(handle_of(key));
    let told = crate::spatial_oracle::removed(oracle, key);
    assert forall|i: int| 0 <= i < told.len() && (#[trigger] told[i]).alive implies after.shows(
        told[i],
    ) by {
        assert(told[i] == oracle[i]);
        assert(m.shows(oracle[i]));
        assert(handle_of(oracle[i].key) != handle_of(key));
    }
    assert forall|k: EntityKey| #[trigger] after.proxies.contains_key(k) implies exists|i: int|
        0 <= i < told.len() && (#[trigger] told[i]).alive && handle_of(told[i].key) == k by {
        assert(m.proxies.contains_key(k));
        let i = choose|i: int|
            0 <= i < oracle.len() && (#[trigger] oracle[i]).alive && handle_of(oracle[i].key) == k;
        assert(told[i] == oracle[i]);
    }
}

/// No false positives: every entity of an answer belongs to a handle that matches
/// the query.
pub proof fn law_answers_hold_only_matches(
    m: IndexModel,
    world_id: u64,
    bounds: BoundingBox,
    mask: u32,
    entities: Seq<u64>,
    entity: u64,
)
    requires
        m.answers(world_id, bounds, mask, entities),
        entities.contains(entity),
    ensures
        exists|key: EntityKey| #[trigger]
            m.matches(key, world_id, bounds, mask) && m.registry.lookup(key) == Some(entity),
{
    let order = choose|order: Seq<EntityKey>|
        {
            &&& #[trigger] m.candidates(bounds.blocks(), mask, order)
            &&& entities == order.filter_map(m.answer_of(world_id, bounds, mask))
        };
    let answer = m.answer_of(world_id, bounds, mask);
    order.lemma_filter_map_contains(answer, entity);
    let key = choose|key: EntityKey| #[trigger]
        order.contains(key) && answer(key) == Some(entity);
    assert(m.matches(key, world_id, bounds, mask));
}

/// An unregistered entity matches no query and its handle no longer resolves.
pub proof fn law_unregistered_entity_is_not_found(
    m: IndexModel,
    key: EntityKey,
    world_id: u64,
    bounds: BoundingBox,
    mask: u32,
)
    ensures
        !m.unregister(key).matches(key, world_id, bounds, mask),
        m.unregister(key).registry.lookup(key) is None,
{
}

/// A placed entity matches queries at its new place, in its new world, and nowhere
/// else; what other entities match does not change.
pub proof fn law_placed_entity_is_found_where_it_is(
    m: IndexModel,
    key: EntityKey,
    world_id: u64,
    bounds: BoundingBox,
    coverage: BoundingBox,
    asked_world: u64,
    asked: BoundingBox,
    mask: u32,
    other: EntityKey,
)
    requires
        m.can_move(key),
    ensures
        m.relocate(key, world_id, bounds, coverage).matches(key, asked_world, asked, mask) <==> {
            &&& asked_world == world_id
            &&& bounds.overlaps(asked)
            &&& m.published(key).categories.passes(mask)
        },
        other != key ==> m.relocate(key, world_id, bounds, coverage).matches(
            other,
            asked_world,
            asked,
            mask,
        ) == m.matches(other, asked_world, asked, mask),
{
    lemma_truncated_twice(m.proxies[key].pose.categories.bits);
}

/// What matching means, in the fields of the published pose and the bits of the mask:
/// no mask asks for everything, and any common bit is enough.
pub proof fn law_match_in_fields(
    m: IndexModel,
    key: EntityKey,
    world_id: u64,
    bounds: BoundingBox,
    mask: u32,
)
    ensures
        m.matches(key, world_id, bounds, mask) <==> {
            &&& m.proxies.contains_key(key)
            &&& m.proxies[key].pose.alive
            &&& m.proxies[key].pose.world_id == world_id
            &&& mask == 0 || (m.proxies[key].pose.categories.bits & 0x3ff) & mask != 0
            &&& m.proxies[key].pose.exact_bounds.overlaps(bounds)
        },
        m.published(key).categories.bits == m.proxies[key].pose.categories.bits & 0x3ff,
        m.published(key).world_id == m.proxies[key].pose.world_id,
        m.published(key).exact_bounds == m.proxies[key].pose.exact_bounds,
        m.published(key).coverage_bounds == m.proxies[key].pose.coverage_bounds,
        m.published(key).membership_revision == m.proxies[key].pose.membership_revision,
        m.published(key).alive == m.proxies[key].pose.alive,
{
}

/// An answer is made of matches, each handle once, and holds nothing else: in its order
/// stand the entities of distinct handles, each indexed, alive, in the world, with a
/// bit of the mask where there is a mask, and with a box that overlaps the query.
pub proof fn law_answers_in_bits(
    m: IndexModel,
    world_id: u64,
    bounds: BoundingBox,
    mask: u32,
    entities: Seq<u64>,
)
    requires
        m.answers(world_id, bounds, mask, entities),
    ensures
        exists|keys: Seq<EntityKey>|
            {
                &&& #[trigger] keys.no_duplicates()
                &&& keys.len() == entities.len()
                &&& forall|i: int|
                    0 <= i < keys.len() ==> {
                        &&& m.proxies.contains_key(#[trigger] keys[i])
                        &&& m.published(keys[i]).alive
                        &&& m.published(keys[i]).world_id == world_id
                        &&& mask == 0 || m.published(keys[i]).categories.bits & mask != 0
                        &&& m.published(keys[i]).exact_bounds.overlaps(bounds)
                        &&& m.registry.lookup(keys[i]) == Some(entities[i])
                    }
            },
{
    let order = choose|order: Seq<EntityKey>|
        {
            &&& #[trigger] m.candidates(bounds.blocks(), mask, order)
            &&& entities == order.filter_map(m.answer_of(world_id, bounds, mask))
        };
    let keep = |key: EntityKey| m.answer_of(world_id, bounds, mask)(key) is Some;
    let keys = order.filter(keep);
    lemma_answers_of_kept(order, keep, m.answer_of(world_id, bounds, mask));
    lemma_filter_keeps_distinct(order, keep);
    assert forall|i: int| 0 <= i < keys.len() implies {
        &&& m.proxies.contains_key(#[trigger] keys[i])
        &&& m.published(keys[i]).alive
        &&& m.published(keys[i]).world_id == world_id
        &&& mask == 0 || m.published(keys[i]).categories.bits & mask != 0
        &&& m.published(keys[i]).exact_bounds.overlaps(bounds)
        &&& m.registry.lookup(keys[i]) == Some(entities[i])
    } by {
        assert(m.answer_of(world_id, bounds, mask)(keys[i]) == Some(entities[i]));
        law_match_in_fields(m, keys[i], world_id, bounds, mask);
    }
    assert(keys.no_duplicates());
}

/// A filtered map lists what the kept elements map to, in their order.
proof fn lemma_answers_of_kept(
    order: Seq<EntityKey>,
    keep: spec_fn(EntityKey) -> bool,
    answer: spec_fn(EntityKey) -> Option<u64>,
)
    requires
        forall|key: EntityKey| #[trigger] keep(key) == (answer(key) is Some),
    ensures
        order.filter(keep).len() == order.filter_map(answer).len(),
        forall|i: int|
            0 <= i < order.filter(keep).len() ==> answer(#[trigger] order.filter(keep)[i]) == Some(
                order.filter_map(answer)[i],
            ),
    decreases order.len(),
{
    reveal(Seq::filter);
    if order.len() > 0 {
        lemma_answers_of_kept(order.drop_last(), keep, answer);
        assert(keep(order.last()) == (answer(order.last()) is Some));
    }
}

/// What an element maps to is listed.
proof fn lemma_mapped_is_listed(
    order: Seq<EntityKey>,
    answer: spec_fn(EntityKey) -> Option<u64>,
    key: EntityKey,
)
    requires
        order.contains(key),
        answer(key) is Some,
    ensures
        order.filter_map(answer).contains(answer(key)->0),
    decreases order.len(),
{
    let init = order.drop_last();
    let (some, all) = (init.filter_map(answer), order.filter_map(answer));
    if order.last() == key {
        assert(all =~= some + seq![answer(key)->0]);
        assert(all[some.len() as int] == answer(key)->0);
    } else {
        assert(init[order.index_of(key)] == key);
        lemma_mapped_is_listed(init, answer, key);
        assert(all[some.index_of(answer(key)->0)] == answer(key)->0);
    }
}

/// An answer misses nothing: every living entity of the world whose published bits have
/// a bit in common with the mask, or any at all where there is no mask, and whose box
/// overlaps the upright box of the query, is in it, where the heights of both have
/// sections of their own or sections tell them otherwise.
pub proof fn law_answers_miss_nothing_in_bits(
    m: IndexModel,
    key: EntityKey,
    world_id: u64,
    bounds: BoundingBox,
    mask: u32,
    entities: Seq<u64>,
)
    requires
        m.complete(),
        bounds.is_upright(),
        m.answers(world_id, bounds, mask, entities),
        m.proxies.contains_key(key),
        m.published(key).alive,
        m.published(key).world_id == world_id,
        mask == 0 || m.published(key).categories.bits & mask != 0,
        m.published(key).exact_bounds.overlaps(bounds),
        m.sections_tell(key, bounds) || {
            &&& -2048 <= m.published(key).coverage_bounds.blocks().min_y
            &&& m.published(key).coverage_bounds.blocks().max_y <= 2047
            &&& -2048 <= bounds.blocks().min_y
            &&& bounds.blocks().max_y <= 2047
        },
    ensures
        m.registry.lookup(key) matches Some(entity) && entities.contains(entity),
{
    let order = choose|order: Seq<EntityKey>|
        {
            &&& #[trigger] m.candidates(bounds.blocks(), mask, order)
            &&& entities == order.filter_map(m.answer_of(world_id, bounds, mask))
        };
    if !m.sections_tell(key, bounds) {
        law_entity_is_told_by_its_coverage(m, key, bounds);
    }
    law_match_in_fields(m, key, world_id, bounds, mask);
    law_query_misses_no_match(m, key, world_id, bounds, mask, order);
    lemma_mapped_is_listed(order, m.answer_of(world_id, bounds, mask), key);
}

/// Every indexed entity can be moved, whatever it is.
pub proof fn law_indexed_entity_can_move(m: IndexModel, key: EntityKey)
    requires
        m.all_alive(),
    ensures
        m.can_move(key) <==> m.proxies.contains_key(key),
{
}

/// When a query looks at the lists of handles, in numbers: up to 96 entities in scope,
/// or seven candidates or more for every ten of them.
pub proof fn law_scan_choice_in_numbers(m: IndexModel, range: BlockRange)
    ensures
        ({
            let scope = m.scope(m.touched(range));
            let estimate = m.estimate(
                m.touched(range),
                range.low_section(),
                range.high_section(),
            );
            &&& scope <= 96 ==> m.scans_directly(range)
            &&& scope > 96 ==> (m.scans_directly(range) <==> 10 * estimate >= 7 * scope)
        }),
{
}

/// What registering changes, field by field.
pub proof fn law_register_in_fields(
    m: IndexModel,
    world_id: u64,
    entity: u64,
    bounds: BoundingBox,
    categories: SpatialCategory,
    coverage: BoundingBox,
    other: EntityKey,
)
    requires
        m.registry.valid(),
        m.registry.has_room(),
    ensures
        ({
            let after = m.register(world_id, entity, bounds, categories, coverage);
            let key = m.registry.next_key();
            &&& after.proxies.contains_key(key)
            &&& after.published(key).alive
            &&& after.published(key).world_id == world_id
            &&& after.published(key).exact_bounds == bounds
            &&& after.published(key).coverage_bounds == coverage
            &&& after.published(key).categories.bits == categories.bits & 0x3ff
            &&& after.published(key).membership_revision == 1
            &&& after.registry.lookup(key) == Some(entity)
            &&& other != key ==> (after.proxies.contains_key(other) <==> m.proxies.contains_key(
                other,
            ))
            &&& other != key && m.proxies.contains_key(other) ==> after.proxies[other]
                == m.proxies[other]
            &&& other != key ==> after.registry.lookup(other) == m.registry.lookup(other)
            &&& m.total_entities < usize::MAX ==> after.total_entities == m.total_entities + 1
            &&& m.total_entities == usize::MAX ==> after.total_entities == 0
        }),
{
    let after = m.register(world_id, entity, bounds, categories, coverage);
    crate::spatial_registry::law_allocated_key_resolves(m.registry, entity);
    if other != m.registry.next_key() {
        crate::spatial_registry::law_allocate_keeps_other_keys(m.registry, entity, other);
    }
}

/// What unregistering changes, field by field: the handle is gone, and no other.
pub proof fn law_unregister_in_fields(m: IndexModel, key: EntityKey, other: EntityKey)
    requires
        m.registry.valid(),
    ensures
        ({
            let after = m.unregister(key);
            &&& !after.proxies.contains_key(key)
            &&& after.registry.lookup(key) is None
            &&& other != key ==> (after.proxies.contains_key(other) <==> m.proxies.contains_key(
                other,
            ))
            &&& other != key && m.proxies.contains_key(other) ==> after.proxies[other]
                == m.proxies[other]
            &&& other != key ==> after.registry.lookup(other) == m.registry.lookup(other)
            &&& m.proxies.contains_key(key) && m.total_entities > 0 ==> after.total_entities
                == m.total_entities - 1
            &&& m.proxies.contains_key(key) && m.total_entities == 0 ==> after.total_entities
                == usize::MAX
            &&& !m.proxies.contains_key(key) ==> after.total_entities == m.total_entities
        }),
{
}

/// What moving an entity changes, field by field: its box, and beyond its coverage the
/// coverage and the revision; its categories and its life stay, and so do other
/// entities, the registry and the total.
pub proof fn law_movement_in_fields(
    m: IndexModel,
    key: EntityKey,
    world_id: u64,
    bounds: BoundingBox,
    coverage: BoundingBox,
    other: EntityKey,
)
    requires
        m.proxies.contains_key(key),
    ensures
        ({
            let near = m.nudge(key, bounds);
            &&& near.published(key).exact_bounds == bounds
            &&& near.published(key).coverage_bounds == m.published(key).coverage_bounds
            &&& near.published(key).world_id == m.published(key).world_id
            &&& near.published(key).categories == m.published(key).categories
            &&& near.published(key).alive == m.published(key).alive
            &&& near.published(key).membership_revision == m.published(key).membership_revision
            &&& near.proxies.dom() == m.proxies.dom()
            &&& other != key && m.proxies.contains_key(other) ==> near.proxies[other]
                == m.proxies[other]
            &&& near.registry == m.registry
            &&& near.columns == m.columns
            &&& near.total_entities == m.total_entities
        }),
        ({
            let far = m.relocate(key, world_id, bounds, coverage);
            &&& far.published(key).exact_bounds == bounds
            &&& far.published(key).coverage_bounds == coverage
            &&& far.published(key).world_id == world_id
            &&& far.published(key).categories == m.published(key).categories
            &&& far.published(key).alive == m.published(key).alive
            &&& m.published(key).membership_revision < u32::MAX ==> far.published(
                key,
            ).membership_revision == m.published(key).membership_revision + 1
            &&& m.published(key).membership_revision == u32::MAX ==> far.published(
                key,
            ).membership_revision == 0
            &&& far.proxies.dom() == m.proxies.dom()
            &&& other != key && m.proxies.contains_key(other) ==> far.proxies[other]
                == m.proxies[other]
            &&& far.registry == m.registry
            &&& far.total_entities == m.total_entities
        }),
{
    lemma_truncated_twice(m.proxies[key].pose.categories.bits);
    assert(m.nudge(key, bounds).proxies.dom() =~= m.proxies.dom());
    assert(m.relocate(key, world_id, bounds, coverage).proxies.dom() =~= m.proxies.dom());
}

/// First occurrences keep their order: of two handles, the one that comes up first
/// stands first.
pub proof fn law_first_occurrences_keep_order(keys: Seq<EntityKey>, i: int, j: int)
    requires
        0 <= i < j < keys.len(),
        keys[i] != keys[j],
        !keys.take(j).contains(keys[j]),
    ensures
        exists|a: int, b: int|
            0 <= a < b < first_occurrences(keys).len() && #[trigger] first_occurrences(keys)[a]
                == keys[i] && #[trigger] first_occurrences(keys)[b] == keys[j],
    decreases keys.len(),
{
    let init = keys.drop_last();
    let (rest, all) = (first_occurrences(init), first_occurrences(keys));
    lemma_first_occurrences(init);
    if j == keys.len() - 1 {
        assert(keys.take(j) =~= init);
        assert(init[i] == keys[i]);
        assert(rest.contains(keys[i]));
        let a = rest.index_of(keys[i]);
        assert(all[a] == keys[i] && all[rest.len() as int] == keys[j]);
    } else {
        assert(init.take(j) =~= keys.take(j));
        law_first_occurrences_keep_order(init, i, j);
        let (a, b) = choose|a: int, b: int|
            0 <= a < b < rest.len() && #[trigger] rest[a] == init[i] && #[trigger] rest[b]
                == init[j];
        assert(all[a] == rest[a] && all[b] == rest[b]);
    }
}

/// What a query expects of a column, in numbers: each occupied section counts for the
/// handles that the column lists, up to 32, and an empty one for nothing.
pub proof fn law_estimate_in_numbers(column: ColumnModel, low: int, y: i8)
    requires
        low <= y,
        column.keys.len() < 0x1_0000_0000,
    ensures
        column.estimate(low, low) == 0,
        column.occupied(y) && column.keys.len() < 32 ==> column.estimate(low, y + 1)
            == column.estimate(low, y as int) + column.keys.len(),
        column.occupied(y) && column.keys.len() >= 32 ==> column.estimate(low, y + 1)
            == column.estimate(low, y as int) + 32,
        !column.occupied(y) ==> column.estimate(low, y + 1) == column.estimate(low, y as int),
{
}

/// What is in scope and what is expected of several columns is that of each of them
/// added up.
pub proof fn law_scope_adds_up(
    m: IndexModel,
    columns: Seq<(i32, i32)>,
    at: (i32, i32),
    low: int,
    high: int,
)
    requires
        m.columns.contains_key(at),
        m.columns[at].keys.len() < 0x1_0000_0000,
    ensures
        m.scope(Seq::empty()) == 0,
        m.estimate(Seq::empty(), low, high) == 0,
        m.scope(columns.push(at)) == m.scope(columns) + m.columns[at].keys.len(),
        m.estimate(columns.push(at), low, high) == m.estimate(columns, low, high)
            + m.columns[at].estimate(low, high + 1),
        m.listed(Seq::empty()) == Seq::<EntityKey>::empty(),
        m.listed(columns.push(at)) == m.listed(columns) + m.columns[at].keys,
{
    assert(columns.push(at).drop_last() =~= columns);
}

/// Where an entity is listed, column by column: registering lists it in the columns of
/// its box and touches no other column; unregistering takes it off the columns that it
/// was listed in last and leaves their microcells alone.
pub proof fn law_listing_in_columns(
    m: IndexModel,
    world_id: u64,
    entity: u64,
    bounds: BoundingBox,
    categories: SpatialCategory,
    coverage: BoundingBox,
    key: EntityKey,
    at: (i32, i32),
)
    ensures
        ({
            let after = m.register(world_id, entity, bounds, categories, coverage);
            let new = m.registry.next_key();
            let range = bounds.blocks();
            let within = range.min_x as int / 16 <= at.0 <= range.max_x as int / 16
                && range.min_z as int / 16 <= at.1 <= range.max_z as int / 16;
            &&& after.columns.contains_key(at) <==> m.columns.contains_key(at) || within
            &&& within ==> after.columns[at].keys.contains(new)
            &&& !within && m.columns.contains_key(at) ==> after.columns[at] == m.columns[at]
            &&& after.proxies[new].touched.contains(at) <==> within
        }),
        ({
            let after = m.unregister(key);
            &&& after.columns.contains_key(at) <==> m.columns.contains_key(at)
            &&& m.proxies.contains_key(key) && m.proxies[key].touched.contains(at)
                && m.columns.contains_key(at) ==> !after.columns[at].keys.contains(key)
                && after.columns[at].sections == m.columns[at].sections
            &&& m.proxies.contains_key(key) && !m.proxies[key].touched.contains(at)
                && m.columns.contains_key(at) ==> after.columns[at] == m.columns[at]
            &&& !m.proxies.contains_key(key) ==> after.columns == m.columns
        }),
{
    let range = bounds.blocks();
    let new = m.registry.next_key();
    range.lemma_columns();
    m.column(at).lemma_member_added(
        SpatialEntry { key: new, membership_revision: 1, categories },
        range.low_section(),
        range.high_section(),
    );
    if m.columns.contains_key(at) {
        let keys = m.columns[at].keys;
        let left = m.columns[at].without_key(key).keys;
        if left.contains(key) {
            keys.lemma_filter_contains_rev(crate::spatial_grid::other_than(key), key);
        }
    }
}

/// A query that looks at the lists of handles answers in their order: column by column
/// along the walk, and each handle where it comes up first.
pub proof fn law_direct_answers_are_in_order(
    m: IndexModel,
    world_id: u64,
    bounds: BoundingBox,
    mask: u32,
    entities: Seq<u64>,
)
    requires
        m.answers(world_id, bounds, mask, entities),
        m.scans_directly(bounds.blocks()),
    ensures
        ({
            let columns = bounds.blocks().columns().filter(
                |at: (i32, i32)| m.columns.contains_key(at),
            );
            entities == first_occurrences(m.listed(columns)).filter_map(
                |key: EntityKey|
                    if m.proxies.contains_key(key) && m.published(key).alive && m.published(
                        key,
                    ).world_id == world_id && (mask == 0 || m.published(key).categories.bits & mask
                        != 0) && m.published(key).exact_bounds.overlaps(bounds) {
                        m.registry.lookup(key)
                    } else {
                        None
                    },
            )
        }),
{
    let columns = bounds.blocks().columns().filter(|at: (i32, i32)| m.columns.contains_key(at));
    lemma_filters_agree(
        bounds.blocks().columns(),
        |at: (i32, i32)| m.columns.contains_key(at),
        m.existing(),
    );
    let answer = |key: EntityKey|
        if m.proxies.contains_key(key) && m.published(key).alive && m.published(key).world_id
            == world_id && (mask == 0 || m.published(key).categories.bits & mask != 0)
            && m.published(key).exact_bounds.overlaps(bounds) {
            m.registry.lookup(key)
        } else {
            None
        };
    assert forall|key: EntityKey| #[trigger] answer(key) == m.answer_of(world_id, bounds, mask)(
        key,
    ) by {
        law_match_in_fields(m, key, world_id, bounds, mask);
    }
    lemma_maps_agree(
        first_occurrences(m.listed(columns)),
        answer,
        m.answer_of(world_id, bounds, mask),
    );
}

proof fn lemma_filters_agree(
    s: Seq<(i32, i32)>,
    p: spec_fn((i32, i32)) -> bool,
    q: spec_fn((i32, i32)) -> bool,
)
    requires
        forall|at: (i32, i32)| #[trigger] p(at) == q(at),
    ensures
        s.filter(p) == s.filter(q),
    decreases s.len(),
{
    reveal(Seq::filter);
    if s.len() > 0 {
        lemma_filters_agree(s.drop_last(), p, q);
        assert(p(s.last()) == q(s.last()));
    }
}

proof fn lemma_maps_agree(
    s: Seq<EntityKey>,
    f: spec_fn(EntityKey) -> Option<u64>,
    g: spec_fn(EntityKey) -> Option<u64>,
)
    requires
        forall|key: EntityKey| #[trigger] f(key) == g(key),
    ensures
        s.filter_map(f) == s.filter_map(g),
    decreases s.len(),
{
    if s.len() > 0 {
        lemma_maps_agree(s.drop_last(), f, g);
        assert(f(s.last()) == g(s.last()));
    }
}

} // verus!
