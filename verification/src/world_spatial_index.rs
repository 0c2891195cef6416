//! The world spatial index: entities, their poses, and the microcells that lead
//! queries to them.
use crate::coord::Coord;
use crate::geometry::{BlockRange, BoundingBox};
use crate::index_model::{IndexModel, ProxyModel};
use crate::spatial_grid::{CellAddress, ChunkSpatialIndex, ColumnModel, SpatialEntry};
use crate::spatial_metrics::SpatialMetrics;
use crate::spatial_pose::{SpatialCategory, SpatialPose, SpatialProxy};
use crate::spatial_registry::{EntityKey, EntitySpatialRegistry};
use dashmap::DashMap;
use rustc_hash::FxHashSet;
use vstd::prelude::*;

verus! {

broadcast use vstd::std_specs::hash::group_hash_axioms;

/// The chunk columns that a table holds, by x and z.
pub uninterp spec fn columns_of(table: DashMap<(i32, i32), ChunkSpatialIndex>) -> Map<
    (i32, i32),
    ChunkSpatialIndex,
>;

/// `dashmap::DashMap::new`: a new table holds nothing.
#[verifier::external_body]
fn columns_new() -> (table: DashMap<(i32, i32), ChunkSpatialIndex>)
    ensures
        (columns_of(table) == Map::<(i32, i32), ChunkSpatialIndex>::empty()),
{
    DashMap::new()
}

/// `dashmap::DashMap::view`: shows the value of a key to a closure and hands back
/// what it returns, or `None` where the key has no value.
#[verifier::external_body]
fn columns_view<R, F: FnOnce(&ChunkSpatialIndex) -> R>(
    table: &DashMap<(i32, i32), ChunkSpatialIndex>,
    at: (i32, i32),
    look: F,
) -> (r: Option<R>)
    requires
        columns_of(*table).contains_key(at) ==> call_requires(look, (&columns_of(*table)[at],)),
    ensures
        match r {
            Some(seen) => columns_of(*table).contains_key(at) && call_ensures(
                look,
                (&columns_of(*table)[at],),
                seen,
            ),
            None => !columns_of(*table).contains_key(at),
        },
{
    table.view(&at, |_at, column| look(column))
}

/// `dashmap::DashMap::insert`: the key has the new value from now on.
#[verifier::external_body]
fn columns_insert(
    table: &mut DashMap<(i32, i32), ChunkSpatialIndex>,
    at: (i32, i32),
    column: ChunkSpatialIndex,
)
    ensures
        columns_of(*final(table)) == columns_of(*old(table)).insert(at, column),
{
    table.insert(at, column);
}

/// `dashmap::DashMap::remove`: takes key and value out of the table.
#[verifier::external_body]
fn columns_remove(table: &mut DashMap<(i32, i32), ChunkSpatialIndex>, at: (i32, i32)) -> (r: Option<
    ((i32, i32), ChunkSpatialIndex),
>)
    ensures
        columns_of(*final(table)) == columns_of(*old(table)).remove(at),
        r == (if columns_of(*old(table)).contains_key(at) {
            Some((at, columns_of(*old(table))[at]))
        } else {
            None
        }),
{
    table.remove(&at)
}

/// The proxies that a table holds, by slot and generation.
pub uninterp spec fn proxies_of(table: DashMap<(u32, u32), SpatialProxy>) -> Map<
    (u32, u32),
    SpatialProxy,
>;

/// `dashmap::DashMap::new`: a new table holds nothing.
#[verifier::external_body]
fn proxies_new() -> (table: DashMap<(u32, u32), SpatialProxy>)
    ensures
        (proxies_of(table) == Map::<(u32, u32), SpatialProxy>::empty()),
{
    DashMap::new()
}

/// `dashmap::DashMap::view`: shows the value of a key to a closure and hands back
/// what it returns, or `None` where the key has no value.
#[verifier::external_body]
fn proxies_view<R, F: FnOnce(&SpatialProxy) -> R>(
    table: &DashMap<(u32, u32), SpatialProxy>,
    key: (u32, u32),
    look: F,
) -> (r: Option<R>)
    requires
        proxies_of(*table).contains_key(key) ==> call_requires(look, (&proxies_of(*table)[key],)),
    ensures
        match r {
            Some(seen) => proxies_of(*table).contains_key(key) && call_ensures(
                look,
                (&proxies_of(*table)[key],),
                seen,
            ),
            None => !proxies_of(*table).contains_key(key),
        },
{
    table.view(&key, |_key, proxy| look(proxy))
}

/// `dashmap::DashMap::insert`: the key has the new value from now on.
#[verifier::external_body]
fn proxies_insert(
    table: &mut DashMap<(u32, u32), SpatialProxy>,
    key: (u32, u32),
    proxy: SpatialProxy,
)
    ensures
        proxies_of(*final(table)) == proxies_of(*old(table)).insert(key, proxy),
{
    table.insert(key, proxy);
}

/// `dashmap::DashMap::remove`: takes key and value out of the table.
#[verifier::external_body]
fn proxies_remove(table: &mut DashMap<(u32, u32), SpatialProxy>, key: (u32, u32)) -> (r: Option<
    ((u32, u32), SpatialProxy),
>)
    ensures
        proxies_of(*final(table)) == proxies_of(*old(table)).remove(key),
        r == (if proxies_of(*old(table)).contains_key(key) {
            Some((key, proxies_of(*old(table))[key]))
        } else {
            None
        }),
{
    table.remove(&key)
}

/// `std::collections::HashSet::default`, with the hasher of `rustc_hash`: a new set
/// is empty.
#[verifier::external_body]
fn seen_new() -> (seen: FxHashSet<(u32, u32)>)
    ensures
        (seen@ == Set::<(u32, u32)>::empty()),
{
    FxHashSet::default()
}

/// `std::collections::HashSet::insert`, with the hasher of `rustc_hash`: adds a
/// value and tells whether it is new.
#[verifier::external_body]
fn seen_insert(seen: &mut FxHashSet<(u32, u32)>, key: (u32, u32)) -> (new: bool)
    ensures
        final(seen)@ == old(seen)@.insert(key),
        new == !old(seen)@.contains(key),
{
    seen.insert(key)
}

/// `std::iter::FromIterator::from_iter` for `Vec`, of a set with the hasher of
/// `rustc_hash`: the values of the set, each once, in an order that is not stated.
#[verifier::external_body]
fn seen_into_vec(seen: FxHashSet<(u32, u32)>) -> (keys: Vec<(u32, u32)>)
    ensures
        keys@.no_duplicates(),
        keys@.to_set() == seen@,
{
    Vec::from_iter(seen)
}

/// What a table of columns holds.
pub open spec fn column_models(columns: Map<(i32, i32), ChunkSpatialIndex>) -> Map<
    (i32, i32),
    ColumnModel,
> {
    Map::new(|at: (i32, i32)| columns.contains_key(at), |at: (i32, i32)| columns[at]@)
}

/// What a table of proxies holds.
pub open spec fn proxy_models(proxies: Map<(u32, u32), SpatialProxy>) -> Map<
    EntityKey,
    ProxyModel,
> {
    Map::new(
        |key: EntityKey| proxies.contains_key(key.pair()),
        |key: EntityKey|
            ProxyModel {
                pose: proxies[key.pair()].pose.pose(),
                touched: proxies[key.pair()].touched_chunks@,
            },
    )
}

/// World spatial index managing hierarchical chunk microcells and entity lookup.
pub struct WorldSpatialIndex {
    registry: EntitySpatialRegistry,
    chunks: DashMap<(i32, i32), ChunkSpatialIndex>,
    proxies: DashMap<(u32, u32), SpatialProxy>,
    total_entities: usize,
    metrics: SpatialMetrics,
}

impl View for WorldSpatialIndex {
    type V = IndexModel;

    closed spec fn view(&self) -> IndexModel {
        IndexModel {
            registry: self.registry@,
            columns: column_models(columns_of(self.chunks)),
            proxies: proxy_models(proxies_of(self.proxies)),
            total_entities: self.total_entities,
        }
    }
}

impl WorldSpatialIndex {
    /// Up to this many entities in scope, a query scans them directly.
    pub const DIRECT_SCAN_THRESHOLD: u32 = 96;

    /// The parts of the index are well formed, and every indexed entity is alive.
    pub closed spec fn wf(&self) -> bool {
        &&& self.registry@.valid()
        &&& forall|at: (i32, i32)| #[trigger]
            columns_of(self.chunks).contains_key(at) ==> columns_of(self.chunks)[at].wf()
        &&& forall|key: (u32, u32)| #[trigger]
            proxies_of(self.proxies).contains_key(key) ==> {
                &&& proxies_of(self.proxies)[key].pose.is_stable()
                &&& proxies_of(self.proxies)[key].pose.pose().alive
                &&& proxies_of(self.proxies)[key].touched_chunks@.no_duplicates()
            }
    }

    /// In a well-formed index every indexed entity is alive.
    pub proof fn lemma_alive(&self)
        requires
            self.wf(),
        ensures
            self@.all_alive(),
    {
    }

    /// The query counters.
    pub closed spec fn counters(&self) -> SpatialMetrics {
        self.metrics
    }

    /// An empty index that counts its queries in `metrics`.
    pub fn new(metrics: SpatialMetrics) -> (index: WorldSpatialIndex)
        ensures
            index.wf(),
            index@ == IndexModel::fresh(),
            index@.proxies == Map::<EntityKey, ProxyModel>::empty(),
            index@.columns == Map::<(i32, i32), ColumnModel>::empty(),
            index@.registry.slots.len() == 0,
            index@.registry.free.len() == 0,
            index@.registry.active.len() == 0,
            index@.total_entities == 0,
            index@.complete(),
            index@.all_alive(),
            index@.keeps_count(),
            index.counters() == metrics,
    {
        let index = WorldSpatialIndex {
            registry: EntitySpatialRegistry::new(),
            chunks: columns_new(),
            proxies: proxies_new(),
            total_entities: 0,
            metrics,
        };
        assert(index@.columns =~= IndexModel::fresh().columns);
        assert(index@.proxies =~= IndexModel::fresh().proxies);
        proof {
            crate::index_model::law_fresh_index_keeps_count();
        }
        index
    }

    /// The query counters.
    pub fn metrics(&self) -> (metrics: &SpatialMetrics)
        ensures
            *metrics == self.counters(),
    {
        &self.metrics
    }

    /// The number of registered entities; it wraps around.
    pub fn total_entities(&self) -> (total: usize)
        ensures
            total == self@.total_entities,
            self@.keeps_count() ==> total == self@.proxies.dom().len() as int % (usize::MAX + 1),
    {
        self.total_entities
    }

    /// Whether a further entity can be registered.
    pub fn can_register(&self) -> (r: bool)
        ensures
            r == self@.registry.has_room(),
            r <==> self@.registry.free.len() > 0 || self@.registry.slots.len() < u32::MAX,
    {
        self.registry.can_allocate()
    }

    /// The published pose of an indexed entity.
    pub fn pose_of(&self, key: EntityKey) -> (pose: Option<SpatialPose>)
        requires
            self.wf(),
        ensures
            pose == (if self@.proxies.contains_key(key) {
                Some(self@.published(key))
            } else {
                None
            }),
            pose matches Some(seen) ==> {
                &&& seen.world_id == self@.proxies[key].pose.world_id
                &&& seen.exact_bounds == self@.proxies[key].pose.exact_bounds
                &&& seen.coverage_bounds == self@.proxies[key].pose.coverage_bounds
                &&& seen.membership_revision == self@.proxies[key].pose.membership_revision
                &&& seen.categories.bits == self@.proxies[key].pose.categories.bits & 0x3ff
                &&& seen.alive == self@.proxies[key].pose.alive
            },
    {
        let look = |proxy: &SpatialProxy| -> (pose: SpatialPose)
            requires
                proxy.pose.is_stable(),
            ensures
                (pose == proxy.pose.pose().as_published()),
            { proxy.pose.read() };
        proxies_view(&self.proxies, key.to_pair(), look)
    }
}

/// The columns that a range touches, row by row.
fn columns_in(range: &BlockRange) -> (columns: Vec<(i32, i32)>)
    ensures
        columns@ == range.columns(),
{
    let first = CellAddress::from_block_coords(range.min_x, range.min_y, range.min_z).chunk_pos;
    let last = CellAddress::from_block_coords(range.max_x, range.max_y, range.max_z).chunk_pos;
    let mut columns: Vec<(i32, i32)> = Vec::new();
    let mut x: i32 = first.x;
    while x <= last.x
        invariant
            first.x <= x,
            x <= last.x + 1 || x == first.x,
            last.x <= 0x800_0000,
            last.y <= 0x800_0000,
            columns@ == crate::spatial_grid::column_walk(
                first.x as int,
                x as int,
                first.y as int,
                last.y + 1,
            ),
        decreases last.x - x + 1,
    {
        let ghost before = columns@;
        let mut z: i32 = first.y;
        while z <= last.y
            invariant
                first.y <= z,
                z <= last.y + 1 || z == first.y,
                last.y <= 0x800_0000,
                columns@ == before + crate::spatial_grid::column_row(
                    x as int,
                    first.y as int,
                    z as int,
                ),
            decreases last.y - z + 1,
        {
            columns.push((x, z));
            z = z + 1;
            assert(columns@ =~= before + crate::spatial_grid::column_row(
                x as int,
                first.y as int,
                z as int,
            ));
        }
        proof {
            if first.y > last.y {
                assert(crate::spatial_grid::column_row(x as int, first.y as int, z as int)
                    == crate::spatial_grid::column_row(x as int, first.y as int, last.y + 1));
            }
        }
        x = x + 1;
    }
    columns
}

proof fn lemma_column_models(columns: Map<(i32, i32), ChunkSpatialIndex>)
    ensures
        forall|at: (i32, i32), column: ChunkSpatialIndex| #[trigger]
            column_models(columns.insert(at, column)) == column_models(columns).insert(at, column@),
        forall|at: (i32, i32)| #[trigger]
            column_models(columns.remove(at)) == column_models(columns).remove(at),
{
    assert forall|at: (i32, i32), column: ChunkSpatialIndex| #[trigger]
        column_models(columns.insert(at, column)) == column_models(columns).insert(
        at,
        column@,
    ) by {
        assert(column_models(columns.insert(at, column)) =~= column_models(columns).insert(
            at,
            column@,
        ));
    }
    assert forall|at: (i32, i32)| #[trigger] column_models(columns.remove(at)) == column_models(
        columns,
    ).remove(at) by {
        assert(column_models(columns.remove(at)) =~= column_models(columns).remove(at));
    }
}

proof fn lemma_proxy_models(proxies: Map<(u32, u32), SpatialProxy>, key: EntityKey)
    ensures
        forall|proxy: SpatialProxy| #[trigger]
            proxy_models(proxies.insert(key.pair(), proxy)) == proxy_models(proxies).insert(
                key,
                ProxyModel { pose: proxy.pose.pose(), touched: proxy.touched_chunks@ },
            ),
        proxy_models(proxies.remove(key.pair())) == proxy_models(proxies).remove(key),
{
    assert forall|proxy: SpatialProxy| #[trigger]
        proxy_models(proxies.insert(key.pair(), proxy)) == proxy_models(proxies).insert(
        key,
        ProxyModel { pose: proxy.pose.pose(), touched: proxy.touched_chunks@ },
    ) by {
        let left = proxy_models(proxies.insert(key.pair(), proxy));
        let right = proxy_models(proxies).insert(
            key,
            ProxyModel { pose: proxy.pose.pose(), touched: proxy.touched_chunks@ },
        );
        assert forall|k: EntityKey| k.pair() == key.pair() implies k == key by {}
        assert(left =~= right);
    }
    assert(proxy_models(proxies.remove(key.pair())) =~= proxy_models(proxies).remove(key)) by {
        assert forall|k: EntityKey| k.pair() == key.pair() implies k == key by {}
    }
}

/// The columns with the entry made in some of them.
spec fn entries_in(
    m: IndexModel,
    entry: SpatialEntry,
    columns: Seq<(i32, i32)>,
    low: int,
    high: int,
) -> Map<(i32, i32), ColumnModel> {
    Map::new(
        |at: (i32, i32)| m.columns.contains_key(at) || columns.contains(at),
        |at: (i32, i32)|
            if columns.contains(at) {
                m.column(at).with_key(entry.key).with_entry(entry, low, high)
            } else {
                m.columns[at]
            },
    )
}

/// One more column of a list without repetitions.
proof fn lemma_take_one_more(columns: Seq<(i32, i32)>, i: int)
    requires
        0 <= i < columns.len(),
        columns.no_duplicates(),
    ensures
        !columns.take(i).contains(columns[i]),
        forall|at: (i32, i32)| #[trigger]
            columns.take(i + 1).contains(at) <==> columns.take(i).contains(at) || at == columns[i],
{
    let (before, after) = (columns.take(i), columns.take(i + 1));
    if before.contains(columns[i]) {
        let j = before.index_of(columns[i]);
        assert(columns[j] == columns[i]);
    }
    assert forall|at: (i32, i32)| #[trigger] after.contains(at) <==> before.contains(at) || at
        == columns[i] by {
        if after.contains(at) {
            let j = after.index_of(at);
            if j < i {
                assert(before[j] == at);
            }
        }
        if before.contains(at) {
            assert(after[before.index_of(at)] == at);
        }
        if at == columns[i] {
            assert(after[i] == at);
        }
    }
}

impl WorldSpatialIndex {
    /// Insert cell memberships across microcells touched by bounds.
    fn insert_cell_memberships(
        &mut self,
        key: EntityKey,
        bounds: BoundingBox,
        revision: u32,
        categories: SpatialCategory,
    )
        requires
            old(self).wf(),
        ensures
            final(self).wf(),
            final(self)@ == old(self)@.with_memberships(key, bounds.blocks(), revision, categories),
            final(self).counters() == old(self).counters(),
    {
        let ghost before = self@;
        let range = bounds.block_range();
        let low: i8 = CellAddress::from_block_coords(
            range.min_x,
            range.min_y,
            range.min_z,
        ).section_y;
        let high: i8 = CellAddress::from_block_coords(
            range.max_x,
            range.max_y,
            range.max_z,
        ).section_y;
        let entry = SpatialEntry { key, membership_revision: revision, categories };
        let columns = columns_in(&range);
        let ghost walk = columns@;
        proof {
            range.lemma_columns();
            lemma_proxy_models(proxies_of(self.proxies), key);
            lemma_proxy_models(proxies_of(self.proxies).remove(key.pair()), key);
        }
        let ghost proxies_before = proxies_of(self.proxies);
        match proxies_remove(&mut self.proxies, key.to_pair()) {
            Some((_, taken)) => {
                let mut proxy = taken;
                proxy.touched_chunks = columns_in(&range);
                proxies_insert(&mut self.proxies, key.to_pair(), proxy);
            },
            None => {
                assert(proxies_before.remove(key.pair()) =~= proxies_before);
            },
        }
        let ghost with_touched = before.with_memberships(key, range, revision, categories).proxies;
        assert(self@.proxies =~= with_touched);
        assert(self@.columns =~= entries_in(before, entry, walk.take(0), low as int, high as int));
        let mut i: usize = 0;
        while i < columns.len()
            invariant
                i <= columns@.len(),
                columns@ == walk,
                walk.no_duplicates(),
                entry.key == key,
                self.wf(),
                self@.registry == before.registry,
                self@.proxies == with_touched,
                self@.total_entities == before.total_entities,
                self.counters() == old(self).counters(),
                self@.columns == entries_in(
                    before,
                    entry,
                    walk.take(i as int),
                    low as int,
                    high as int,
                ),
            decreases columns.len() - i,
        {
            let at = columns[i];
            let ghost columns_before = columns_of(self.chunks);
            proof {
                lemma_take_one_more(walk, i as int);
                lemma_column_models(columns_before);
                lemma_column_models(columns_before.remove(at));
                assert(before.columns.contains_key(at) == columns_before.contains_key(at)) by {
                    assert(self@.columns.contains_key(at) == columns_before.contains_key(at));
                }
            }
            let mut column = match columns_remove(&mut self.chunks, at) {
                Some((_, column)) => column,
                None => ChunkSpatialIndex::new(),
            };
            assert(column@ == before.column(at)) by {
                if columns_before.contains_key(at) {
                    assert(column_models(columns_before)[at] == before.columns[at]);
                }
            }
            column.add_key(key);
            column.insert_entry(entry, low, high);
            columns_insert(&mut self.chunks, at, column);
            i = i + 1;
            assert(self@.columns =~= entries_in(
                before,
                entry,
                walk.take(i as int),
                low as int,
                high as int,
            ));
        }
        assert(walk.take(walk.len() as int) =~= walk);
        assert(self@.columns =~= before.with_entries(entry, range));
    }
}

impl WorldSpatialIndex {
    /// Register a spawned entity into the spatial index.
    pub fn register_entity(
        &mut self,
        world_id: u64,
        entity: u64,
        bounds: BoundingBox,
        categories: SpatialCategory,
    ) -> (key: EntityKey)
        requires
            old(self).wf(),
            old(self)@.registry.has_room(),
        ensures
            final(self).wf(),
            key == old(self)@.registry.next_key(),
            exists|coverage: BoundingBox|
                {
                    &&& #[trigger] crate::spatial_pose::is_coverage(
                        bounds,
                        (Coord { bits: 0 }),
                        coverage,
                    )
                    &&& final(self)@ == old(self)@.register(
                        world_id,
                        entity,
                        bounds,
                        categories,
                        coverage,
                    )
                },
            final(self).counters() == old(self).counters(),
            final(self)@.proxies.contains_key(key),
            final(self)@.published(key).alive,
            final(self)@.published(key).world_id == world_id,
            final(self)@.published(key).exact_bounds == bounds,
            final(self)@.published(key).categories.bits == categories.bits & 0x3ff,
            final(self)@.published(key).membership_revision == 1,
            final(self)@.registry.lookup(key) == Some(entity),
            old(self)@.keeps_count() ==> old(self)@.registry.lookup(key) is None,
            forall|other: EntityKey|
                other != key ==> (#[trigger] final(self)@.proxies.contains_key(other)
                    <==> old(self)@.proxies.contains_key(other))
                    && (old(self)@.proxies.contains_key(other)
                    ==> final(self)@.proxies[other] == old(self)@.proxies[other]),
            forall|other: EntityKey|
                other != key ==> #[trigger] final(self)@.registry.lookup(other)
                    == old(self)@.registry.lookup(other),
            old(self)@.total_entities < usize::MAX ==> final(self)@.total_entities
                == old(self)@.total_entities + 1,
            final(self)@.all_alive(),
            old(self)@.keeps_count() ==> final(self)@.keeps_count(),
            old(self)@.complete() && bounds.is_upright() ==> final(self)@.complete(),
    {
        let ghost before = self@;
        let key = self.registry.allocate(entity);
        let at_rest = Coord::from_bits(0);
        let coverage = SpatialPose::compute_coverage_bounds(bounds, at_rest);
        let pose = SpatialPose {
            world_id,
            exact_bounds: bounds,
            coverage_bounds: coverage,
            membership_revision: 1,
            categories,
            alive: true,
        };
        proof {
            lemma_proxy_models(proxies_of(self.proxies), key);
        }
        let proxy = SpatialProxy::new(key, pose);
        proxies_insert(&mut self.proxies, key.to_pair(), proxy);
        self.total_entities = self.total_entities.wrapping_add(1);
        assert(self@.columns == before.columns);
        assert(self@.proxies == before.proxies.insert(
            key,
            ProxyModel { pose, touched: Seq::empty() },
        ));
        assert(self.wf());

        self.insert_cell_memberships(key, bounds, 1, categories);
        proof {
            assert(at_rest == (Coord { bits: 0 }));
            assert(self@ == before.register(world_id, entity, bounds, categories, coverage));
            self.lemma_alive();
            if before.keeps_count() {
                crate::spatial_registry::law_allocated_key_is_fresh(before.registry);
            }
            assert forall|other: EntityKey| other != key
                implies (#[trigger] self@.proxies.contains_key(
                other,
            ) <==> before.proxies.contains_key(other)) && (before.proxies.contains_key(other)
                ==> self@.proxies[other] == before.proxies[other]) by {
                crate::index_model::law_register_in_fields(
                    before,
                    world_id,
                    entity,
                    bounds,
                    categories,
                    coverage,
                    other,
                );
            }
            assert forall|other: EntityKey| other != key implies #[trigger] self@.registry.lookup(
                other,
            ) == before.registry.lookup(other) by {
                crate::index_model::law_register_in_fields(
                    before,
                    world_id,
                    entity,
                    bounds,
                    categories,
                    coverage,
                    other,
                );
            }
            crate::index_model::law_register_in_fields(
                before,
                world_id,
                entity,
                bounds,
                categories,
                coverage,
                key,
            );
            if before.keeps_count() {
                crate::index_model::law_total_keeps_count(
                    before,
                    world_id,
                    entity,
                    bounds,
                    categories,
                    coverage,
                    key,
                );
            }
            if before.complete() && bounds.is_upright() {
                crate::index_model::law_register_keeps_complete(
                    before,
                    world_id,
                    entity,
                    bounds,
                    categories,
                    coverage,
                    at_rest,
                );
            }
        }
        key
    }

    /// Unregister a despawned or dead entity.
    pub fn unregister_entity(&mut self, key: EntityKey)
        requires
            old(self).wf(),
        ensures
            final(self).wf(),
            final(self)@ == old(self)@.unregister(key),
            final(self).counters() == old(self).counters(),
            !final(self)@.proxies.contains_key(key),
            final(self)@.registry.lookup(key) is None,
            forall|other: EntityKey|
                other != key ==> (#[trigger] final(self)@.proxies.contains_key(other)
                    <==> old(self)@.proxies.contains_key(other))
                    && (old(self)@.proxies.contains_key(other)
                    ==> final(self)@.proxies[other] == old(self)@.proxies[other]),
            forall|other: EntityKey|
                other != key ==> #[trigger] final(self)@.registry.lookup(other)
                    == old(self)@.registry.lookup(other),
            old(self)@.proxies.contains_key(key) && old(self)@.total_entities > 0
                ==> final(self)@.total_entities == old(self)@.total_entities - 1,
            !old(self)@.proxies.contains_key(key)
                ==> final(self)@.total_entities == old(self)@.total_entities,
            final(self)@.all_alive(),
            old(self)@.keeps_count() && old(self)@.was_handed_out(key)
                ==> final(self)@.keeps_count(),
            old(self)@.complete() ==> final(self)@.complete(),
    {
        let ghost before = self@;
        proof {
            lemma_proxy_models(proxies_of(self.proxies), key);
            if before.complete() {
                crate::index_model::law_unregister_keeps_complete(before, key);
            }
        }
        let ghost proxies_before = proxies_of(self.proxies);
        match proxies_remove(&mut self.proxies, key.to_pair()) {
            Some((_, proxy)) => {
                self.total_entities = self.total_entities.wrapping_sub(1);
                let touched = proxy.touched_chunks;
                let ghost walk = touched@;
                assert(walk == before.proxies[key].touched);
                assert(self@.columns =~= before.without_key_in(key, walk.take(0)));
                let mut i: usize = 0;
                while i < touched.len()
                    invariant
                        i <= touched@.len(),
                        touched@ == walk,
                        walk.no_duplicates(),
                        self.wf(),
                        self@.registry == before.registry,
                        self@.proxies == before.proxies.remove(key),
                        self@.total_entities == before.unregister(key).total_entities,
                        self.counters() == old(self).counters(),
                        self@.columns == before.without_key_in(key, walk.take(i as int)),
                    decreases touched.len() - i,
                {
                    let at = touched[i];
                    let ghost columns_before = columns_of(self.chunks);
                    proof {
                        lemma_take_one_more(walk, i as int);
                        lemma_column_models(columns_before);
                        lemma_column_models(columns_before.remove(at));
                        assert(before.columns.contains_key(at) == columns_before.contains_key(at))
                            by {
                            assert(self@.columns.contains_key(at) == columns_before.contains_key(
                                at,
                            ));
                        }
                    }
                    match columns_remove(&mut self.chunks, at) {
                        Some((_, taken)) => {
                            assert(taken@ == before.columns[at]) by {
                                assert(column_models(columns_before)[at] == taken@);
                            }
                            let mut column = taken;
                            column.remove_key(key);
                            columns_insert(&mut self.chunks, at, column);
                        },
                        None => {
                            assert(columns_before.remove(at) =~= columns_before);
                        },
                    }
                    i = i + 1;
                    assert(self@.columns =~= before.without_key_in(key, walk.take(i as int)));
                }
                assert(walk.take(walk.len() as int) =~= walk);
            },
            None => {
                assert(proxies_before.remove(key.pair()) =~= proxies_before);
                assert(self@.proxies =~= before.proxies.remove(key));
            },
        }
        self.registry.remove(key);
        assert(self@ == before.unregister(key));
        proof {
            self.lemma_alive();
            crate::index_model::law_unregister_in_fields(before, key, key);
            assert forall|other: EntityKey| other != key implies #[trigger] self@.registry.lookup(
                other,
            ) == before.registry.lookup(other) by {
                crate::index_model::law_unregister_in_fields(before, key, other);
            }
            if before.keeps_count() && before.was_handed_out(key) {
                before.lemma_unregister_keeps_count(key);
            }
        }
    }

    /// Store another pose for an indexed entity.
    fn publish(&mut self, key: EntityKey, pose: SpatialPose)
        requires
            old(self).wf(),
            old(self)@.proxies.contains_key(key),
            pose.alive,
        ensures
            final(self).wf(),
            final(self)@ == old(self)@.with_pose(key, pose),
            final(self).counters() == old(self).counters(),
    {
        proof {
            lemma_proxy_models(proxies_of(self.proxies), key);
            lemma_proxy_models(proxies_of(self.proxies).remove(key.pair()), key);
        }
        match proxies_remove(&mut self.proxies, key.to_pair()) {
            Some((_, taken)) => {
                let mut proxy = taken;
                proxy.pose.publish(pose);
                proxies_insert(&mut self.proxies, key.to_pair(), proxy);
            },
            None => {},
        }
        assert(self@.proxies =~= old(self)@.with_pose(key, pose).proxies);
    }

    /// Update entity spatial position and bounds. Movement inside the loose
    /// coverage changes the pose alone; beyond it the entity is indexed anew.
    pub fn update_entity_movement(&mut self, key: EntityKey, new_bounds: BoundingBox) -> (r: bool)
        requires
            old(self).wf(),
        ensures
            final(self).wf(),
            r == old(self)@.can_move(key),
            !r ==> final(self)@ == old(self)@,
            r && old(self)@.stays_covered(key, new_bounds) ==> final(self)@ == old(self)@.nudge(
                key,
                new_bounds,
            ),
            r && !old(self)@.stays_covered(key, new_bounds) ==> exists|coverage: BoundingBox|
                {
                    &&& #[trigger] crate::spatial_pose::is_coverage(
                        new_bounds,
                        (Coord { bits: crate::spatial_pose::MOVING_SPEED_BITS }),
                        coverage,
                    )
                    &&& final(self)@ == old(self)@.relocate(
                        key,
                        old(self)@.published(key).world_id,
                        new_bounds,
                        coverage,
                    )
                },
            final(self).counters() == old(self).counters(),
            r <==> old(self)@.proxies.contains_key(key),
            r ==> final(self)@.published(key).exact_bounds == new_bounds,
            r ==> final(self)@.published(key).world_id == old(self)@.published(key).world_id,
            r ==> final(self)@.published(key).categories == old(self)@.published(key).categories,
            r ==> final(self)@.published(key).alive,
            final(self)@.proxies.dom() == old(self)@.proxies.dom(),
            final(self)@.registry == old(self)@.registry,
            final(self)@.total_entities == old(self)@.total_entities,
            forall|other: EntityKey|
                other != key ==> (#[trigger] final(self)@.proxies.contains_key(other)
                    <==> old(self)@.proxies.contains_key(other))
                    && (old(self)@.proxies.contains_key(other)
                    ==> final(self)@.proxies[other] == old(self)@.proxies[other]),
            r && new_bounds.inside(old(self)@.published(key).coverage_bounds)
                ==> final(self)@.published(key).coverage_bounds
                == old(self)@.published(key).coverage_bounds
                && final(self)@.published(key).membership_revision == old(self)@.published(
                key,
            ).membership_revision && final(self)@.columns == old(self)@.columns,
            r && !new_bounds.inside(old(self)@.published(key).coverage_bounds)
                && old(self)@.published(key).membership_revision < u32::MAX
                    ==> final(self)@.published(key).membership_revision
                    == old(self)@.published(key).membership_revision
                + 1,
            final(self)@.all_alive(),
            old(self)@.keeps_count() ==> final(self)@.keeps_count(),
            old(self)@.complete() && new_bounds.is_upright() ==> final(self)@.complete(),
    {
        let ghost before = self@;
        proof {
            self.lemma_alive();
        }
        let mut current_pose = match self.pose_of(key) {
            Some(pose) => pose,
            None => {
                return false;
            },
        };
        if !current_pose.alive {
            return false;
        }
        current_pose.exact_bounds = new_bounds;

        if current_pose.is_contained_in(&current_pose.coverage_bounds) {
            self.publish(key, current_pose);
            proof {
                self.lemma_alive();
                assert forall|other: EntityKey|
                    other != key && before.proxies.contains_key(
                        other,
                    ) implies #[trigger] self@.proxies[other] == before.proxies[other] by {
                    crate::index_model::law_movement_in_fields(
                        before,
                        key,
                        0,
                        new_bounds,
                        new_bounds,
                        other,
                    );
                }
                crate::index_model::law_movement_in_fields(
                    before,
                    key,
                    0,
                    new_bounds,
                    new_bounds,
                    key,
                );
                if before.keeps_count() {
                    before.lemma_movement_keeps_count(key, 0, new_bounds, new_bounds);
                }
                if before.complete() {
                    crate::index_model::law_nudge_keeps_complete(before, key, new_bounds);
                }
            }
            return true;
        }

        let speed = Coord::from_bits(crate::spatial_pose::MOVING_SPEED_BITS);
        let new_coverage = SpatialPose::compute_coverage_bounds(new_bounds, speed);
        let new_rev: u32 = current_pose.membership_revision.wrapping_add(1);

        self.insert_cell_memberships(key, new_coverage, new_rev, current_pose.categories);

        current_pose.coverage_bounds = new_coverage;
        current_pose.membership_revision = new_rev;
        self.publish(key, current_pose);
        proof {
            assert(speed == (Coord { bits: crate::spatial_pose::MOVING_SPEED_BITS }));
            assert(self@ == before.relocate(
                key,
                before.published(key).world_id,
                new_bounds,
                new_coverage,
            ));
            assert(speed.is_finite());
            self.lemma_alive();
            assert forall|other: EntityKey|
                other != key && before.proxies.contains_key(
                    other,
                ) implies #[trigger] self@.proxies[other] == before.proxies[other] by {
                crate::index_model::law_movement_in_fields(
                    before,
                    key,
                    before.published(key).world_id,
                    new_bounds,
                    new_coverage,
                    other,
                );
            }
            crate::index_model::law_movement_in_fields(
                before,
                key,
                before.published(key).world_id,
                new_bounds,
                new_coverage,
                key,
            );
            if before.keeps_count() {
                before.lemma_movement_keeps_count(
                    key,
                    before.published(key).world_id,
                    new_bounds,
                    new_coverage,
                );
            }
            if before.complete() && new_bounds.is_upright() {
                crate::index_model::law_relocate_keeps_complete(
                    before,
                    key,
                    before.published(key).world_id,
                    new_bounds,
                    new_coverage,
                    speed,
                );
            }
        }
        true
    }

    /// Same-world or cross-world teleport.
    pub fn teleport_entity(
        &mut self,
        key: EntityKey,
        target_world_id: u64,
        target_bounds: BoundingBox,
    ) -> (r: bool)
        requires
            old(self).wf(),
        ensures
            final(self).wf(),
            r == old(self)@.proxies.contains_key(key),
            !r ==> final(self)@ == old(self)@,
            r ==> exists|coverage: BoundingBox|
                {
                    &&& #[trigger] crate::spatial_pose::is_coverage(
                        target_bounds,
                        (Coord { bits: 0 }),
                        coverage,
                    )
                    &&& final(self)@ == old(self)@.relocate(
                        key,
                        target_world_id,
                        target_bounds,
                        coverage,
                    )
                },
            final(self).counters() == old(self).counters(),
            r <==> old(self)@.proxies.contains_key(key),
            r ==> final(self)@.published(key).exact_bounds == target_bounds,
            r ==> final(self)@.published(key).world_id == target_world_id,
            r ==> final(self)@.published(key).categories == old(self)@.published(key).categories,
            r ==> final(self)@.published(key).alive,
            final(self)@.proxies.dom() == old(self)@.proxies.dom(),
            final(self)@.registry == old(self)@.registry,
            final(self)@.total_entities == old(self)@.total_entities,
            forall|other: EntityKey|
                other != key ==> (#[trigger] final(self)@.proxies.contains_key(other)
                    <==> old(self)@.proxies.contains_key(other))
                    && (old(self)@.proxies.contains_key(other)
                    ==> final(self)@.proxies[other] == old(self)@.proxies[other]),
            r && old(self)@.published(key).membership_revision < u32::MAX
                ==> final(self)@.published(key).membership_revision
                == old(self)@.published(key).membership_revision
                + 1,
            final(self)@.all_alive(),
            old(self)@.keeps_count() ==> final(self)@.keeps_count(),
            old(self)@.complete() && target_bounds.is_upright() ==> final(self)@.complete(),
    {
        let ghost before = self@;
        proof {
            self.lemma_alive();
        }
        let mut current_pose = match self.pose_of(key) {
            Some(pose) => pose,
            None => {
                return false;
            },
        };
        let at_rest = Coord::from_bits(0);
        let target_coverage = SpatialPose::compute_coverage_bounds(target_bounds, at_rest);
        let new_rev: u32 = current_pose.membership_revision.wrapping_add(1);

        self.insert_cell_memberships(key, target_coverage, new_rev, current_pose.categories);

        current_pose.world_id = target_world_id;
        current_pose.exact_bounds = target_bounds;
        current_pose.coverage_bounds = target_coverage;
        current_pose.membership_revision = new_rev;
        self.publish(key, current_pose);
        proof {
            assert(at_rest == (Coord { bits: 0 }));
            assert(self@ == before.relocate(
                key,
                target_world_id,
                target_bounds,
                target_coverage,
            ));
            self.lemma_alive();
            assert forall|other: EntityKey|
                other != key && before.proxies.contains_key(
                    other,
                ) implies #[trigger] self@.proxies[other] == before.proxies[other] by {
                crate::index_model::law_movement_in_fields(
                    before,
                    key,
                    target_world_id,
                    target_bounds,
                    target_coverage,
                    other,
                );
            }
            crate::index_model::law_movement_in_fields(
                before,
                key,
                target_world_id,
                target_bounds,
                target_coverage,
                key,
            );
            if before.keeps_count() {
                before.lemma_movement_keeps_count(
                    key,
                    target_world_id,
                    target_bounds,
                    target_coverage,
                );
            }
            if before.complete() && target_bounds.is_upright() {
                crate::index_model::law_relocate_keeps_complete(
                    before,
                    key,
                    target_world_id,
                    target_bounds,
                    target_coverage,
                    at_rest,
                );
            }
        }
        true
    }
}

/// The number of entities in a column, and the candidates estimated for its
/// sections `low` to `high`.
fn survey(column: &ChunkSpatialIndex, low: i8, high: i8) -> (r: (u32, u32))
    requires
        column.wf(),
    ensures
        r.0 == column@.count(),
        r.1 == column@.estimate(low as int, high + 1),
        r.1 <= 0x2000,
{
    let count: u32 = column.entity_count;
    let share: u32 = if count < 32 {
        count
    } else {
        32
    };
    let mut estimate: u32 = 0;
    let mut y: i16 = low as i16;
    while y <= high as i16
        invariant
            low <= y,
            y <= high + 1 || y == low,
            count == column@.count(),
            share == (if count < 32 {
                count
            } else {
                32
            }),
            estimate == column@.estimate(low as int, y as int),
            estimate <= 32 * (y - low),
        decreases high - y + 1,
    {
        let section_y: i8 = y as i8;
        match column.sections.get(&section_y) {
            Some(section) => {
                if section.occupancy != 0 {
                    estimate = estimate + share;
                }
            },
            None => {},
        }
        y = y + 1;
    }
    (count, estimate)
}

/// The handles of the entities that touch a column.
fn copy_keys(column: &ChunkSpatialIndex) -> (keys: Vec<EntityKey>)
    ensures
        keys@ == column@.keys,
{
    let mut keys: Vec<EntityKey> = Vec::new();
    for i in 0..column.active_keys.len()
        invariant
            keys@ == column@.keys.take(i as int),
    {
        keys.push(column.active_keys[i]);
        assert(keys@ =~= column@.keys.take(i + 1));
    }
    assert(column@.keys.take(column@.keys.len() as int) =~= column@.keys);
    keys
}

/// An entry for the handle that passes the mask stands before the place that is
/// given by section, microcell and number.
spec fn lists_before(
    column: ColumnModel,
    key: EntityKey,
    mask: u32,
    low: int,
    place: (int, int, int),
) -> bool {
    exists|y: i8, cell: int, i: int|
        {
            &&& #[trigger] column.lists_at(key, y, cell, i, mask)
            &&& low <= y
            &&& y < place.0 || (y == place.0 && (cell < place.1 || (cell == place.1 && i
                < place.2)))
        }
}

/// The keys are those of the entries that stand before a place.
spec fn collected(
    column: ColumnModel,
    keys: Seq<EntityKey>,
    mask: u32,
    low: int,
    place: (int, int, int),
) -> bool {
    forall|key: EntityKey| #[trigger]
        keys.contains(key) <==> lists_before(column, key, mask, low, place)
}

/// Between two places stands no entry that passes the mask.
proof fn lemma_collected_further(
    column: ColumnModel,
    keys: Seq<EntityKey>,
    mask: u32,
    low: int,
    from: (int, int, int),
    to: (int, int, int),
)
    requires
        collected(column, keys, mask, low, from),
        forall|key: EntityKey, y: i8, cell: int, i: int| #[trigger]
            column.lists_at(key, y, cell, i, mask) && low <= y ==> ((y < from.0 || (y == from.0
                && (cell < from.1 || (cell == from.1 && i < from.2)))) <==> (y < to.0 || (y == to.0
                && (cell < to.1 || (cell == to.1 && i < to.2))))),
    ensures
        collected(column, keys, mask, low, to),
{
    assert forall|key: EntityKey| #[trigger] keys.contains(key) <==> lists_before(
        column,
        key,
        mask,
        low,
        to,
    ) by {
        if keys.contains(key) {
            assert(lists_before(column, key, mask, low, from));
        }
        if lists_before(column, key, mask, low, to) {
            assert(lists_before(column, key, mask, low, from));
        }
    }
}

/// The handles with an entry that passes the mask, in the microcells of one
/// section from `low` on.
fn collect_section(
    column: &ChunkSpatialIndex,
    section_y: i8,
    mask: u32,
    low: i8,
    keys: &mut Vec<EntityKey>,
)
    requires
        column.wf(),
        low <= section_y,
        collected(column@, old(keys)@, mask, low as int, (section_y as int, 0, 0)),
    ensures
        collected(column@, final(keys)@, mask, low as int, (section_y + 1, 0, 0)),
{
    let ghost m = column@;
    let ghost l = low as int;
    let section = match column.sections.get(&section_y) {
        Some(section) => section,
        None => {
            proof {
                lemma_collected_further(
                    m,
                    keys@,
                    mask,
                    l,
                    (section_y as int, 0, 0),
                    (section_y + 1, 0, 0),
                );
            }
            return ;
        },
    };
    assert(m.sections[section_y] == section@);
    assert(section.wf());
    if section.occupancy == 0 {
        proof {
            lemma_collected_further(
                m,
                keys@,
                mask,
                l,
                (section_y as int, 0, 0),
                (section_y + 1, 0, 0),
            );
        }
        return ;
    }
    let mut cell: usize = 0;
    while cell < 8
        invariant
            cell <= 8,
            m == column@,
            l == low,
            low <= section_y,
            m.sections.contains_key(section_y),
            m.sections[section_y] == section@,
            section.wf(),
            section.occupancy != 0,
            collected(m, keys@, mask, l, (section_y as int, cell as int, 0)),
        decreases 8 - cell,
    {
        let spatial_cell = &section.cells[cell];
        let ghost entries = spatial_cell.entries@;
        assert(section@.cells[cell as int].entries == entries);
        assert(section.cells@[cell as int].wf());
        if mask != 0 && spatial_cell.category_union & mask == 0 {
            proof {
                assert forall|key: EntityKey, i: int| #[trigger]
                    m.lists_at(key, section_y, cell as int, i, mask) implies false by {
                    crate::spatial_grid::law_union_is_conservative(entries, i, mask);
                }
                lemma_collected_further(
                    m,
                    keys@,
                    mask,
                    l,
                    (section_y as int, cell as int, 0),
                    (section_y as int, cell + 1, 0),
                );
            }
        } else {
            let mut i: usize = 0;
            while i < spatial_cell.entries.len()
                invariant
                    i <= entries.len(),
                    entries == spatial_cell.entries@,
                    cell < 8,
                    l <= section_y,
                    m.occupied(section_y),
                    m.sections[section_y].cells[cell as int].entries == entries,
                    collected(m, keys@, mask, l, (section_y as int, cell as int, i as int)),
                decreases spatial_cell.entries.len() - i,
            {
                let entry = spatial_cell.entries[i];
                let ghost from = (section_y as int, cell as int, i as int);
                let ghost to = (section_y as int, cell as int, i + 1);
                let ghost before = keys@;
                if entry.categories.matches_mask(mask) {
                    keys.push(entry.key);
                    proof {
                        assert(m.lists_at(entry.key, section_y, cell as int, i as int, mask));
                        assert forall|key: EntityKey| #[trigger]
                            keys@.contains(key) <==> lists_before(m, key, mask, l, to) by {
                            if keys@.contains(key) {
                                let n = keys@.index_of(key);
                                if n < before.len() {
                                    assert(before[n] == key);
                                    assert(before.contains(key));
                                    assert(lists_before(m, key, mask, l, from));
                                }
                            }
                            if lists_before(m, key, mask, l, to) {
                                if lists_before(m, key, mask, l, from) {
                                    assert(before.contains(key));
                                    assert(keys@[before.index_of(key)] == key);
                                } else {
                                    assert(key == entry.key);
                                    assert(keys@[before.len() as int] == key);
                                }
                            }
                        }
                    }
                } else {
                    proof {
                        lemma_collected_further(m, keys@, mask, l, from, to);
                    }
                }
                i = i + 1;
            }
            proof {
                lemma_collected_further(
                    m,
                    keys@,
                    mask,
                    l,
                    (section_y as int, cell as int, i as int),
                    (section_y as int, cell + 1, 0),
                );
            }
        }
        cell = cell + 1;
    }
    proof {
        lemma_collected_further(
            m,
            keys@,
            mask,
            l,
            (section_y as int, 8, 0),
            (section_y + 1, 0, 0),
        );
    }
}

/// The handles with an entry that passes the mask, in the microcells of the
/// sections `low` to `high`.
fn listed_keys(column: &ChunkSpatialIndex, low: i8, high: i8, mask: u32) -> (keys: Vec<EntityKey>)
    requires
        column.wf(),
    ensures
        forall|key: EntityKey| #[trigger]
            keys@.contains(key) <==> column@.lists(key, low as int, high as int, mask),
{
    let mut keys: Vec<EntityKey> = Vec::new();
    let mut y: i16 = low as i16;
    assert(collected(column@, keys@, mask, low as int, (low as int, 0, 0))) by {
        assert forall|key: EntityKey| #[trigger] keys@.contains(key) <==> lists_before(
            column@,
            key,
            mask,
            low as int,
            (low as int, 0, 0),
        ) by {}
    }
    while y <= high as i16
        invariant
            low <= y,
            y <= high + 1 || y == low,
            column.wf(),
            collected(column@, keys@, mask, low as int, (y as int, 0, 0)),
        decreases high - y + 1,
    {
        collect_section(column, y as i8, mask, low, &mut keys);
        y = y + 1;
    }
    proof {
        assert forall|key: EntityKey| #[trigger] keys@.contains(key) <==> column@.lists(
            key,
            low as int,
            high as int,
            mask,
        ) by {
            if keys@.contains(key) {
                assert(lists_before(column@, key, mask, low as int, (y as int, 0, 0)));
            }
            if column@.lists(key, low as int, high as int, mask) {
                let (sy, cell, i) = choose|sy: i8, cell: int, i: int| #[trigger]
                    column@.lists_at(key, sy, cell, i, mask) && low <= sy <= high;
                assert(lists_before(column@, key, mask, low as int, (y as int, 0, 0)));
            }
        }
    }
    keys
}

/// What a query has in scope: the existing columns that it touches, the entities
/// counted in them, and the candidates estimated.
struct Scope {
    columns: Vec<(i32, i32)>,
    entities: u128,
    estimate: u128,
}

impl Scope {
    /// The scope of a query over the columns of a walk.
    spec fn covers(&self, m: IndexModel, walk: Seq<(i32, i32)>, low: int, high: int) -> bool {
        &&& self.columns@ == walk.filter(m.existing())
        &&& self.entities == m.scope(self.columns@)
        &&& self.estimate == m.estimate(self.columns@, low, high)
        &&& self.entities <= self.columns@.len() * 0xffff_ffff
        &&& self.estimate <= self.columns@.len() * 0x2000
    }
}

impl WorldSpatialIndex {
    /// Take one more column into a scope, if it exists.
    fn extend_scope(&self, scope: Scope, at: (i32, i32), low: i8, high: i8, walk: Ghost<
        Seq<(i32, i32)>,
    >) -> (r: Scope)
        requires
            self.wf(),
            scope.covers(self@, walk@, low as int, high as int),
        ensures
            r.covers(self@, walk@.push(at), low as int, high as int),
    {
        let ghost m = self@;
        proof {
            assert(walk@.push(at).drop_last() =~= walk@);
            assert(m.existing()(at) == m.columns.contains_key(at));
            reveal(Seq::filter);
        }
        let look = |column: &ChunkSpatialIndex| -> (r: (u32, u32))
            requires
                column.wf(),
            ensures
                (r.0 == column@.count()),
                (r.1 == column@.estimate(low as int, high + 1)),
                (r.1 <= 0x2000),
            { survey(column, low, high) };
        match columns_view(&self.chunks, at, look) {
            Some((count, estimate)) => {
                let mut columns = scope.columns;
                let ghost before = columns@;
                columns.push(at);
                assert(columns@.drop_last() =~= before);
                assert(columns@.len() <= usize::MAX) by {
                    assert(columns.len() <= usize::MAX);
                }
                Scope {
                    columns,
                    entities: scope.entities + count as u128,
                    estimate: scope.estimate + estimate as u128,
                }
            },
            None => scope,
        }
    }

    /// The scope of a query.
    fn scope_of(&self, range: &BlockRange, low: i8, high: i8) -> (scope: Scope)
        requires
            self.wf(),
        ensures
            scope.covers(self@, range.columns(), low as int, high as int),
    {
        let first = CellAddress::from_block_coords(range.min_x, range.min_y, range.min_z).chunk_pos;
        let last = CellAddress::from_block_coords(range.max_x, range.max_y, range.max_z).chunk_pos;
        let mut scope = Scope { columns: Vec::new(), entities: 0, estimate: 0 };
        let mut x: i32 = first.x;
        proof {
            reveal(Seq::filter);
        }
        assert(scope.columns@ =~= Seq::<(i32, i32)>::empty().filter(self@.existing()));
        while x <= last.x
            invariant
                first.x <= x,
                x <= last.x + 1 || x == first.x,
                last.x <= 0x800_0000,
                last.y <= 0x800_0000,
                self.wf(),
                scope.covers(
                    self@,
                    crate::spatial_grid::column_walk(
                        first.x as int,
                        x as int,
                        first.y as int,
                        last.y + 1,
                    ),
                    low as int,
                    high as int,
                ),
            decreases last.x - x + 1,
        {
            let ghost before = crate::spatial_grid::column_walk(
                first.x as int,
                x as int,
                first.y as int,
                last.y + 1,
            );
            let mut z: i32 = first.y;
            assert(before + crate::spatial_grid::column_row(x as int, first.y as int, z as int)
                =~= before);
            while z <= last.y
                invariant
                    first.y <= z,
                    z <= last.y + 1 || z == first.y,
                    last.y <= 0x800_0000,
                    self.wf(),
                    scope.covers(
                        self@,
                        before + crate::spatial_grid::column_row(
                            x as int,
                            first.y as int,
                            z as int,
                        ),
                        low as int,
                        high as int,
                    ),
                decreases last.y - z + 1,
            {
                let ghost walk = before + crate::spatial_grid::column_row(
                    x as int,
                    first.y as int,
                    z as int,
                );
                scope = self.extend_scope(scope, (x, z), low, high, Ghost(walk));
                z = z + 1;
                assert(walk.push((x, (z - 1) as i32)) =~= before + crate::spatial_grid::column_row(
                    x as int,
                    first.y as int,
                    z as int,
                ));
            }
            proof {
                if first.y > last.y {
                    assert(crate::spatial_grid::column_row(x as int, first.y as int, z as int)
                        == crate::spatial_grid::column_row(x as int, first.y as int, last.y + 1));
                }
            }
            x = x + 1;
        }
        scope
    }

    /// What a candidate contributes to the answer of a query.
    fn answer_for(&self, key: EntityKey, world_id: u64, bounds: &BoundingBox, mask: u32) -> (r:
        Option<u64>)
        requires
            self.wf(),
        ensures
            r == self@.answer_of(world_id, *bounds, mask)(key),
    {
        let pose = match self.pose_of(key) {
            Some(pose) => pose,
            None => {
                return None;
            },
        };
        if !pose.alive || pose.world_id != world_id {
            return None;
        }
        if !pose.categories.matches_mask(mask) {
            return None;
        }
        if pose.exact_bounds.intersects(bounds) {
            self.registry.resolve(key)
        } else {
            None
        }
    }
}

/// The set holds the handles of the sequence.
spec fn holds_exactly(seen: Set<(u32, u32)>, keys: Seq<EntityKey>) -> bool {
    forall|key: EntityKey| #[trigger] seen.contains(key.pair()) <==> keys.contains(key)
}

impl WorldSpatialIndex {
    /// Answer a query from the lists of handles of the columns.
    fn scan_directly(
        &self,
        columns: &Vec<(i32, i32)>,
        world_id: u64,
        bounds: &BoundingBox,
        mask: u32,
    ) -> (results: Vec<u64>)
        requires
            self.wf(),
            forall|i: int|
                0 <= i < columns@.len() ==> self@.columns.contains_key(#[trigger] columns@[i]),
        ensures
            results@ == crate::index_model::first_occurrences(
                self@.listed(columns@),
            ).filter_map(self@.answer_of(world_id, *bounds, mask)),
    {
        let ghost m = self@;
        let ghost answer = m.answer_of(world_id, *bounds, mask);
        let mut seen = seen_new();
        let mut results: Vec<u64> = Vec::new();
        let mut i: usize = 0;
        assert(holds_exactly(seen@, m.listed(columns@.take(0)))) by {
            assert(m.listed(columns@.take(0)) =~= Seq::empty());
        }
        assert(results@ =~= crate::index_model::first_occurrences(
            m.listed(columns@.take(0)),
        ).filter_map(answer));
        while i < columns.len()
            invariant
                i <= columns@.len(),
                self.wf(),
                m == self@,
                answer == m.answer_of(world_id, *bounds, mask),
                forall|j: int|
                    0 <= j < columns@.len() ==> m.columns.contains_key(#[trigger] columns@[j]),
                holds_exactly(seen@, m.listed(columns@.take(i as int))),
                results@ == crate::index_model::first_occurrences(
                    m.listed(columns@.take(i as int)),
                ).filter_map(answer),
            decreases columns.len() - i,
        {
            let look = |column: &ChunkSpatialIndex| -> (keys: Vec<EntityKey>)
                ensures
                    (keys@ == column@.keys),
                { copy_keys(column) };
            let ghost before = m.listed(columns@.take(i as int));
            let at = columns[i];
            assert(m.columns.contains_key(columns@[i as int]));
            let keys = match columns_view(&self.chunks, at, look) {
                Some(keys) => keys,
                None => Vec::new(),
            };
            let mut j: usize = 0;
            assert(before + keys@.take(0) =~= before);
            while j < keys.len()
                invariant
                    j <= keys@.len(),
                    self.wf(),
                    m == self@,
                    answer == m.answer_of(world_id, *bounds, mask),
                    holds_exactly(seen@, before + keys@.take(j as int)),
                    results@ == crate::index_model::first_occurrences(
                        before + keys@.take(j as int),
                    ).filter_map(answer),
                decreases keys.len() - j,
            {
                let key = keys[j];
                let ghost scanned = before + keys@.take(j as int);
                let ghost next = before + keys@.take(j + 1);
                let new = seen_insert(&mut seen, key.to_pair());
                proof {
                    assert(next =~= scanned.push(key));
                    assert(next.drop_last() =~= scanned);
                    assert(holds_exactly(seen@, next)) by {
                        assert forall|k: EntityKey| #[trigger] seen@.contains(k.pair())
                            <==> next.contains(k) by {
                            if scanned.contains(k) {
                                assert(next[scanned.index_of(k)] == k);
                            }
                            if next.contains(k) && k != key {
                                assert(scanned[next.index_of(k)] == k);
                            }
                            if k == key {
                                assert(next[scanned.len() as int] == k);
                            }
                            if k.pair() == key.pair() {
                                assert(k == key);
                            }
                        }
                    }
                    let firsts = crate::index_model::first_occurrences(scanned);
                    assert(firsts.push(key).drop_last() =~= firsts);
                }
                if new {
                    match self.answer_for(key, world_id, bounds, mask) {
                        Some(entity) => {
                            let ghost results_before = results@;
                            results.push(entity);
                            assert(results@ =~= results_before + seq![entity]);
                        },
                        None => {},
                    }
                }
                j = j + 1;
            }
            proof {
                assert(keys@.take(keys@.len() as int) =~= keys@);
                assert(columns@.take(i + 1).drop_last() =~= columns@.take(i as int));
                assert(m.columns[at] == columns_of(self.chunks)[at]@);
            }
            i = i + 1;
        }
        assert(columns@.take(columns@.len() as int) =~= columns@);
        results
    }

    /// The handles found in the microcells of the columns, each once.
    fn search_cells(&self, columns: &Vec<(i32, i32)>, low: i8, high: i8, mask: u32) -> (order: Vec<
        (u32, u32),
    >)
        requires
            self.wf(),
            forall|i: int|
                0 <= i < columns@.len() ==> self@.columns.contains_key(#[trigger] columns@[i]),
        ensures
            order@.no_duplicates(),
            forall|key: EntityKey| #[trigger]
                order@.contains(key.pair()) <==> exists|i: int|
                    0 <= i < columns@.len() && self@.columns[#[trigger] columns@[i]].lists(
                        key,
                        low as int,
                        high as int,
                        mask,
                    ),
    {
        let ghost m = self@;
        let mut candidate_keys = seen_new();
        let mut i: usize = 0;
        while i < columns.len()
            invariant
                i <= columns@.len(),
                self.wf(),
                m == self@,
                forall|j: int|
                    0 <= j < columns@.len() ==> m.columns.contains_key(#[trigger] columns@[j]),
                forall|key: EntityKey| #[trigger]
                    candidate_keys@.contains(key.pair()) <==> exists|j: int|
                        0 <= j < i && m.columns[#[trigger] columns@[j]].lists(
                            key,
                            low as int,
                            high as int,
                            mask,
                        ),
            decreases columns.len() - i,
        {
            let look = |column: &ChunkSpatialIndex| -> (keys: Vec<EntityKey>)
                requires
                    column.wf(),
                ensures
                    (forall|key: EntityKey| #[trigger]
                        keys@.contains(key) <==> column@.lists(
                            key,
                            low as int,
                            high as int,
                            mask,
                        )),
                { listed_keys(column, low, high, mask) };
            let ghost before = candidate_keys@;
            let at = columns[i];
            assert(m.columns.contains_key(columns@[i as int]));
            let keys = match columns_view(&self.chunks, at, look) {
                Some(keys) => keys,
                None => Vec::new(),
            };
            assert(m.columns[at] == columns_of(self.chunks)[at]@);
            let mut j: usize = 0;
            while j < keys.len()
                invariant
                    j <= keys@.len(),
                    forall|key: EntityKey| #[trigger]
                        candidate_keys@.contains(key.pair()) <==> before.contains(key.pair())
                            || keys@.take(j as int).contains(key),
                decreases keys.len() - j,
            {
                let key = keys[j];
                let ghost so_far = candidate_keys@;
                seen_insert(&mut candidate_keys, key.to_pair());
                proof {
                    let (taken, next) = (keys@.take(j as int), keys@.take(j + 1));
                    assert forall|k: EntityKey| #[trigger]
                        candidate_keys@.contains(k.pair()) <==> before.contains(k.pair())
                            || next.contains(k) by {
                        assert(so_far.contains(k.pair()) <==> before.contains(k.pair())
                            || taken.contains(k));
                        if taken.contains(k) {
                            assert(next[taken.index_of(k)] == k);
                        }
                        if next.contains(k) && k != key {
                            assert(taken[next.index_of(k)] == k);
                        }
                        if k == key {
                            assert(next[j as int] == k);
                        }
                        if k.pair() == key.pair() {
                            assert(k == key);
                        }
                    }
                }
                j = j + 1;
            }
            assert(keys@.take(keys@.len() as int) =~= keys@);
            i = i + 1;
            proof {
                assert forall|key: EntityKey| #[trigger] candidate_keys@.contains(key.pair())
                    <==> exists|j: int|
                    0 <= j < i && m.columns[#[trigger] columns@[j]].lists(
                        key,
                        low as int,
                        high as int,
                        mask,
                    ) by {
                    if before.contains(key.pair()) {
                        let j = choose|j: int|
                            0 <= j < i - 1 && m.columns[#[trigger] columns@[j]].lists(
                                key,
                                low as int,
                                high as int,
                                mask,
                            );
                        assert(m.columns[columns@[j]].lists(
                            key,
                            low as int,
                            high as int,
                            mask,
                        ));
                    }
                    if keys@.contains(key) {
                        assert(m.columns[columns@[i - 1]].lists(
                            key,
                            low as int,
                            high as int,
                            mask,
                        ));
                    }
                }
            }
        }
        let ghost found = candidate_keys@;
        let order = seen_into_vec(candidate_keys);
        assert forall|key: EntityKey| #[trigger] order@.contains(key.pair())
            <==> found.contains(key.pair()) by {
            assert(order@.to_set().contains(key.pair()) == order@.contains(key.pair()));
        }
        order
    }

    /// Execute a candidates query. Where few entities are in scope, or most of them
    /// are likely candidates, their handles are scanned directly; else the
    /// microcells are searched for handles that pass the mask.
    pub fn query_candidates(&mut self, world_id: u64, bounds: &BoundingBox, mask: SpatialCategory)
        -> (results: Vec<u64>)
        requires
            old(self).wf(),
        ensures
            old(self)@.answers(world_id, *bounds, mask.bits, results@),
            exists|keys: Seq<EntityKey>|
                {
                    &&& #[trigger] keys.no_duplicates()
                    &&& keys.len() == results@.len()
                    &&& forall|i: int|
                        0 <= i < keys.len() ==> {
                            &&& old(self)@.proxies.contains_key(#[trigger] keys[i])
                            &&& old(self)@.published(keys[i]).alive
                            &&& old(self)@.published(keys[i]).world_id == world_id
                            &&& mask.bits == 0 || old(self)@.published(keys[i]).categories.bits
                                & mask.bits != 0
                            &&& old(self)@.published(keys[i]).exact_bounds.overlaps(*bounds)
                            &&& old(self)@.registry.lookup(keys[i]) == Some(results@[i])
                        }
                },
            forall|key: EntityKey|
                {
                    &&& old(self)@.complete()
                    &&& bounds.is_upright()
                    &&& #[trigger] old(self)@.proxies.contains_key(key)
                    &&& old(self)@.published(key).alive
                    &&& old(self)@.published(key).world_id == world_id
                    &&& mask.bits == 0 || old(self)@.published(key).categories.bits & mask.bits
                        != 0
                    &&& old(self)@.published(key).exact_bounds.overlaps(*bounds)
                    &&& old(self)@.sections_tell(key, *bounds) || {
                        &&& -2048 <= old(self)@.published(key).coverage_bounds.blocks().min_y
                        &&& old(self)@.published(key).coverage_bounds.blocks().max_y <= 2047
                        &&& -2048 <= bounds.blocks().min_y
                        &&& bounds.blocks().max_y <= 2047
                    }
                } ==> (old(self)@.registry.lookup(key) matches Some(entity) && results@.contains(
                    entity,
                )),
            final(self)@ == old(self)@,
            final(self).wf(),
            final(self).counters().counts_one_more_than(old(self).counters()),
            old(self).counters().total_queries < u64::MAX ==> final(self).counters().total_queries
                == old(self).counters().total_queries + 1,
            old(self).counters().total_queries == u64::MAX
                ==> final(self).counters().total_queries == 0,
    {
        let ghost m = self@;
        self.metrics.count_query();
        assert(self@ == m);
        assert(self.wf());
        let mask_bits: u32 = mask.bits();
        let range = bounds.block_range();
        let low: i8 = CellAddress::from_block_coords(
            range.min_x,
            range.min_y,
            range.min_z,
        ).section_y;
        let high: i8 = CellAddress::from_block_coords(
            range.max_x,
            range.max_y,
            range.max_z,
        ).section_y;
        let scope = self.scope_of(&range, low, high);
        let ghost answer = m.answer_of(world_id, *bounds, mask_bits);
        proof {
            m.lemma_touched(range);
            assert(scope.columns.len() <= 0xffff_ffff_ffff_ffff);
            assert forall|i: int| 0 <= i < scope.columns@.len() implies m.columns.contains_key(
                #[trigger] scope.columns@[i],
            ) by {
                assert(m.touched(range).contains(scope.columns@[i]));
            }
        }
        if scope.entities <= WorldSpatialIndex::DIRECT_SCAN_THRESHOLD as u128 || (scope.entities > 0
            && scope.estimate * 10 >= scope.entities * 7) {
            let results = self.scan_directly(&scope.columns, world_id, bounds, mask_bits);
            proof {
                let listed = m.listed(m.touched(range));
                crate::index_model::lemma_first_occurrences(listed);
                assert(m.candidates(
                    range,
                    mask_bits,
                    crate::index_model::first_occurrences(listed),
                ));
                assert(m.answers(world_id, *bounds, mask_bits, results@));
                lemma_answer_in_bits(m, world_id, *bounds, mask_bits, results@);
            }
            return results;
        }
        let found = self.search_cells(&scope.columns, low, high, mask_bits);
        let ghost order = Seq::new(
            found@.len(),
            |i: int| EntityKey { slot: found@[i].0, generation: found@[i].1 },
        );
        proof {
            assert(order.no_duplicates()) by {
                assert forall|i: int, j: int| 0 <= i < j < order.len() implies order[i]
                    != order[j] by {
                    assert(found@[i] != found@[j]);
                }
            }
            assert forall|key: EntityKey| #[trigger] order.contains(key) <==> m.in_cells(
                range,
                mask_bits,
                key,
            ) by {
                if order.contains(key) {
                    let n = order.index_of(key);
                    assert(found@[n] == key.pair());
                    assert(found@.contains(key.pair()));
                    let i = choose|i: int|
                        0 <= i < scope.columns@.len() && m.columns[#[trigger] scope.columns@[i]].lists(
                            key,
                            low as int,
                            high as int,
                            mask_bits,
                        );
                    let at = scope.columns@[i];
                    assert(m.touched(range).contains(at));
                    assert(m.columns[at].lists(
                        key,
                        range.low_section(),
                        range.high_section(),
                        mask_bits,
                    ));
                    assert(m.in_cells(range, mask_bits, key));
                }
                if m.in_cells(range, mask_bits, key) {
                    let at = choose|at: (i32, i32)|
                        {
                            &&& range.holds_column(at)
                            &&& m.columns.contains_key(at)
                            &&& #[trigger] m.columns[at].lists(
                                key,
                                range.low_section(),
                                range.high_section(),
                                mask_bits,
                            )
                        };
                    assert(m.touched(range).contains(at));
                    let i = m.touched(range).index_of(at);
                    assert(scope.columns@[i] == at);
                    assert(m.columns[scope.columns@[i]].lists(
                        key,
                        low as int,
                        high as int,
                        mask_bits,
                    ));
                    assert(found@.contains(key.pair()));
                    let n = found@.index_of(key.pair());
                    assert(order[n] == key);
                }
            }
            assert(m.candidates(range, mask_bits, order));
        }
        let mut results: Vec<u64> = Vec::new();
        let mut i: usize = 0;
        assert(results@ =~= order.take(0).filter_map(answer));
        while i < found.len()
            invariant
                i <= found@.len(),
                order.len() == found@.len(),
                forall|j: int|
                    0 <= j < order.len() ==> #[trigger] order[j] == (EntityKey {
                        slot: found@[j].0,
                        generation: found@[j].1,
                    }),
                self.wf(),
                m == self@,
                answer == m.answer_of(world_id, *bounds, mask_bits),
                results@ == order.take(i as int).filter_map(answer),
            decreases found.len() - i,
        {
            let key = EntityKey::from_pair(found[i]);
            assert(order.take(i + 1).drop_last() =~= order.take(i as int));
            assert(order.take(i + 1).last() == key);
            match self.answer_for(key, world_id, bounds, mask_bits) {
                Some(entity) => {
                    let ghost results_before = results@;
                    results.push(entity);
                    assert(results@ =~= results_before + seq![entity]);
                },
                None => {},
            }
            i = i + 1;
        }
        assert(order.take(order.len() as int) =~= order);
        proof {
            assert(m.answers(world_id, *bounds, mask_bits, results@));
            lemma_answer_in_bits(m, world_id, *bounds, mask_bits, results@);
        }
        results
    }
}

/// What an answer holds and what it does not miss, in the bits of the categories.
proof fn lemma_answer_in_bits(
    m: IndexModel,
    world_id: u64,
    bounds: BoundingBox,
    mask: u32,
    entities: Seq<u64>,
)
    requires
        m.answers(world_id, bounds, mask, entities),
    ensures
        exists|keys: Seq<EntityKey>|
            {
                &&& #[trigger] keys.no_duplicates()
                &&& keys.len() == entities.len()
                &&& forall|i: int|
                    0 <= i < keys.len() ==> {
                        &&& m.proxies.contains_key(#[trigger] keys[i])
                        &&& m.published(keys[i]).alive
                        &&& m.published(keys[i]).world_id == world_id
                        &&& mask == 0 || m.published(keys[i]).categories.bits & mask != 0
                        &&& m.published(keys[i]).exact_bounds.overlaps(bounds)
                        &&& m.registry.lookup(keys[i]) == Some(entities[i])
                    }
            },
        forall|key: EntityKey|
            {
                &&& m.complete()
                &&& bounds.is_upright()
                &&& #[trigger] m.proxies.contains_key(key)
                &&& m.published(key).alive
                &&& m.published(key).world_id == world_id
                &&& mask == 0 || m.published(key).categories.bits & mask != 0
                &&& m.published(key).exact_bounds.overlaps(bounds)
                &&& m.sections_tell(key, bounds) || {
                    &&& -2048 <= m.published(key).coverage_bounds.blocks().min_y
                    &&& m.published(key).coverage_bounds.blocks().max_y <= 2047
                    &&& -2048 <= bounds.blocks().min_y
                    &&& bounds.blocks().max_y <= 2047
                }
            } ==> (m.registry.lookup(key) matches Some(entity) && entities.contains(entity)),
{
    crate::index_model::law_answers_in_bits(m, world_id, bounds, mask, entities);
    assert forall|key: EntityKey|
        {
            &&& m.complete()
            &&& bounds.is_upright()
            &&& #[trigger] m.proxies.contains_key(key)
            &&& m.published(key).alive
            &&& m.published(key).world_id == world_id
            &&& mask == 0 || m.published(key).categories.bits & mask != 0
            &&& m.published(key).exact_bounds.overlaps(bounds)
            &&& m.sections_tell(key, bounds) || {
                &&& -2048 <= m.published(key).coverage_bounds.blocks().min_y
                &&& m.published(key).coverage_bounds.blocks().max_y <= 2047
                &&& -2048 <= bounds.blocks().min_y
                &&& bounds.blocks().max_y <= 2047
            }
        } implies (m.registry.lookup(key) matches Some(entity) && entities.contains(entity)) by {
        crate::index_model::law_answers_miss_nothing_in_bits(
            m,
            key,
            world_id,
            bounds,
            mask,
            entities,
        );
    }
}

} // verus!
