//! The chunk packet cache: which preparations are shared, what stays cached, and
//! what everyone involved has to do next.
use crate::background_cpu::{BackgroundCpuBudget, BackgroundCpuCategory};
use crate::packets::{
    CachedSerializedPacket, ChunkSnapshotIdentity, CompressionProfile, PacketEncodeError,
    PreparationCell, PreparationFailure, PreparedChunkPacket, PreparedPacket, SerializationKey,
    SerializedPacket,
};
use crate::retention::{RetainedKey, RetainedValue, Retention, RetentionModel, Segment};
use dashmap::DashMap;
use std::sync::Arc;
use vstd::prelude::*;

verus! {

/// Bytes that a retained serialized packet takes beside its own.
pub const SERIALIZED_ENTRY_OVERHEAD: usize = 256;

/// Bytes that a retained prepared packet takes beside its own.
pub const PREPARED_ENTRY_OVERHEAD: usize = 192;

/// The size of a packet with the bytes that it takes beside its own.
pub open spec fn footprint(length: nat, overhead: usize) -> usize {
    if length + overhead > usize::MAX {
        usize::MAX
    } else {
        (length + overhead) as usize
    }
}

/// The numbers of the preparation cells that a table holds, by protocol version
/// and compression.
pub uninterp spec fn cells_of(table: DashMap<(i32, Option<(usize, u32)>), u64>) -> Map<
    (i32, Option<(usize, u32)>),
    u64,
>;

/// `dashmap::DashMap::new`: a new table holds nothing.
#[verifier::external_body]
fn cells_new() -> (table: DashMap<(i32, Option<(usize, u32)>), u64>)
    ensures
        (cells_of(table) == Map::<(i32, Option<(usize, u32)>), u64>::empty()),
{
    DashMap::new()
}

/// `dashmap::DashMap::view`, with a closure that copies the value out.
#[verifier::external_body]
fn cells_get(table: &DashMap<(i32, Option<(usize, u32)>), u64>, key: (i32, Option<(usize, u32)>))
    -> (cell: Option<u64>)
    ensures
        cell == (if cells_of(*table).contains_key(key) {
            Some(cells_of(*table)[key])
        } else {
            None
        }),
{
    table.view(&key, |_key, cell| *cell)
}

/// `dashmap::DashMap::insert`: the key has the new value from now on.
#[verifier::external_body]
fn cells_insert(
    table: &mut DashMap<(i32, Option<(usize, u32)>), u64>,
    key: (i32, Option<(usize, u32)>),
    cell: u64,
)
    ensures
        cells_of(*final(table)) == cells_of(*old(table)).insert(key, cell),
{
    table.insert(key, cell);
}

/// `dashmap::DashMap::remove`: takes key and value out of the table.
#[verifier::external_body]
fn cells_remove(
    table: &mut DashMap<(i32, Option<(usize, u32)>), u64>,
    key: (i32, Option<(usize, u32)>),
) -> (r: Option<((i32, Option<(usize, u32)>), u64)>)
    ensures
        cells_of(*final(table)) == cells_of(*old(table)).remove(key),
        r == (if cells_of(*old(table)).contains_key(key) {
            Some((key, cells_of(*old(table))[key]))
        } else {
            None
        }),
{
    table.remove(&key)
}

/// The list holds the keys and values of the table.
pub open spec fn lists_pairs(
    pairs: Seq<((i32, Option<(usize, u32)>), u64)>,
    cells: Map<(i32, Option<(usize, u32)>), u64>,
) -> bool {
    forall|key: (i32, Option<(usize, u32)>), cell: u64| #[trigger]
        pairs.contains((key, cell)) <==> cells.contains_key(key) && cells[key] == cell
}

/// `<dashmap::DashMap as IntoIterator>::into_iter`, collected: the keys and values of
/// the table, in an order that is not stated.
#[verifier::external_body]
fn cells_into_vec(table: DashMap<(i32, Option<(usize, u32)>), u64>) -> (pairs: Vec<
    ((i32, Option<(usize, u32)>), u64),
>)
    ensures
        lists_pairs(pairs@, cells_of(table)),
{
    Vec::from_iter(table)
}

/// `dashmap::DashMap::is_empty`: whether the table holds nothing.
#[verifier::external_body]
fn cells_is_empty(table: &DashMap<(i32, Option<(usize, u32)>), u64>) -> (r: bool)
    ensures
        (r == (cells_of(*table) == Map::<(i32, Option<(usize, u32)>), u64>::empty())),
{
    table.is_empty()
}

/// The cells of one revision of a chunk, and how many preparations hold on to them.
pub struct ChunkCacheEntry {
    id: u64,
    leases: u64,
    revision: u64,
    serialized: DashMap<(i32, Option<(usize, u32)>), u64>,
    prepared: DashMap<(i32, Option<(usize, u32)>), u64>,
}

/// Where a table keeps the cell for a protocol version and compression.
pub open spec fn cell_key(protocol_version: i32, compression: Option<CompressionProfile>) -> (
    i32,
    Option<(usize, u32)>,
) {
    match compression {
        Some(profile) => (protocol_version, Some((profile.threshold, profile.level))),
        None => (protocol_version, None),
    }
}

/// Where a table keeps the cell for a protocol version and compression.
fn make_cell_key(protocol_version: i32, compression: Option<CompressionProfile>) -> (key: (
    i32,
    Option<(usize, u32)>,
))
    ensures
        key == cell_key(protocol_version, compression),
{
    match compression {
        Some(profile) => (protocol_version, Some((profile.threshold, profile.level))),
        None => (protocol_version, None),
    }
}

/// What the cache holds of one revision of a chunk: the number that tells the entry
/// from others, the leases on it, and the cells of serialized and prepared packets.
pub struct EntryModel {
    pub id: u64,
    pub leases: u64,
    pub revision: u64,
    pub serialized: Map<(i32, Option<(usize, u32)>), u64>,
    pub prepared: Map<(i32, Option<(usize, u32)>), u64>,
}

impl EntryModel {
    /// An entry with no cells, leased once.
    pub open spec fn fresh(id: u64, revision: u64) -> EntryModel {
        EntryModel { id, leases: 1, revision, serialized: Map::empty(), prepared: Map::empty() }
    }

    /// Nobody holds on to the entry and it has no cells.
    pub open spec fn is_idle(self) -> bool {
        &&& self.leases == 0
        &&& self.serialized == Map::<(i32, Option<(usize, u32)>), u64>::empty()
        &&& self.prepared == Map::<(i32, Option<(usize, u32)>), u64>::empty()
    }

    /// The cell of a key.
    pub open spec fn cell_of(self, key: RetainedKey) -> Option<u64> {
        match key {
            RetainedKey::Serialized(key) => {
                let at = cell_key(key.protocol_version, None);
                if self.serialized.contains_key(at) {
                    Some(self.serialized[at])
                } else {
                    None
                }
            },
            RetainedKey::Prepared(key, compression) => {
                let at = cell_key(key.protocol_version, compression);
                if self.prepared.contains_key(at) {
                    Some(self.prepared[at])
                } else {
                    None
                }
            },
        }
    }

    /// The cells of one tier.
    pub open spec fn tier(self, prepared: bool) -> Map<(i32, Option<(usize, u32)>), u64> {
        if prepared {
            self.prepared
        } else {
            self.serialized
        }
    }

    /// The cells of both tiers.
    pub open spec fn all_cells(self) -> Set<u64> {
        Set::new(
            |cell: u64|
                {
                    ||| exists|at: (i32, Option<(usize, u32)>)| #[trigger]
                        self.serialized.contains_key(at) && self.serialized[at] == cell
                    ||| exists|at: (i32, Option<(usize, u32)>)| #[trigger]
                        self.prepared.contains_key(at) && self.prepared[at] == cell
                },
        )
    }

    /// The entry without the cell of a key.
    pub open spec fn without_cell(self, key: RetainedKey) -> EntryModel {
        match key {
            RetainedKey::Serialized(key) => EntryModel {
                serialized: self.serialized.remove(cell_key(key.protocol_version, None)),
                ..self
            },
            RetainedKey::Prepared(key, compression) => EntryModel {
                prepared: self.prepared.remove(cell_key(key.protocol_version, compression)),
                ..self
            },
        }
    }

    /// The entry with a cell of each tier for the protocol version and compression;
    /// missing ones get the numbers from `next` on.
    pub open spec fn with_cells(
        self,
        protocol_version: i32,
        compression: Option<CompressionProfile>,
        next: u64,
    ) -> EntryModel {
        let (s, p) = (cell_key(protocol_version, None), cell_key(protocol_version, compression));
        EntryModel {
            serialized: if self.serialized.contains_key(s) {
                self.serialized
            } else {
                self.serialized.insert(s, next)
            },
            prepared: if self.prepared.contains_key(p) {
                self.prepared
            } else {
                self.prepared.insert(
                    p,
                    if self.serialized.contains_key(s) {
                        next
                    } else {
                        following(next)
                    },
                )
            },
            ..self
        }
    }

    /// The first number that stays free after missing cells were made.
    pub open spec fn next_after_cells(
        self,
        protocol_version: i32,
        compression: Option<CompressionProfile>,
        next: u64,
    ) -> u64 {
        let (s, p) = (cell_key(protocol_version, None), cell_key(protocol_version, compression));
        let after = if self.serialized.contains_key(s) {
            next
        } else {
            following(next)
        };
        if self.prepared.contains_key(p) {
            after
        } else {
            following(after)
        }
    }
}

/// A place for a cell: a chunk, a tier, and a key within the tier.
pub struct CellPlace {
    pub instance_id: u64,
    pub prepared: bool,
    pub at: (i32, Option<(usize, u32)>),
}

/// The number after another; numbers wrap around.
pub open spec fn following(n: u64) -> u64 {
    if n == u64::MAX {
        0
    } else {
        (n + 1) as u64
    }
}

/// The number before another; numbers wrap around.
pub open spec fn preceding(n: u64) -> u64 {
    if n == 0 {
        u64::MAX
    } else {
        (n - 1) as u64
    }
}

/// A counter raised by a time that is cut off at 64 bits; it wraps.
pub open spec fn raised_by_nanos(counter: u64, nanos: u128) -> u64 {
    crate::background_cpu::raised_by_nanos(counter, nanos)
}

impl View for ChunkCacheEntry {
    type V = EntryModel;

    closed spec fn view(&self) -> EntryModel {
        EntryModel {
            id: self.id,
            leases: self.leases,
            revision: self.revision,
            serialized: cells_of(self.serialized),
            prepared: cells_of(self.prepared),
        }
    }
}

impl ChunkCacheEntry {
    /// An entry with no cells, leased once.
    fn new(id: u64, revision: u64) -> (entry: ChunkCacheEntry)
        ensures
            entry@ == EntryModel::fresh(id, revision),
    {
        ChunkCacheEntry { id, leases: 1, revision, serialized: cells_new(), prepared: cells_new() }
    }

    /// Whether the entry can go.
    fn is_idle(&self) -> (r: bool)
        ensures
            r == self@.is_idle(),
    {
        self.leases == 0 && cells_is_empty(&self.serialized) && cells_is_empty(&self.prepared)
    }

    /// Forget the cell of a key, and tell which it was.
    fn remove_cell(&mut self, key: RetainedKey) -> (cell: Option<u64>)
        ensures
            final(self)@ == old(self)@.without_cell(key),
            cell == old(self)@.cell_of(key),
    {
        let removed = match key {
            RetainedKey::Serialized(key) => cells_remove(
                &mut self.serialized,
                make_cell_key(key.protocol_version, None),
            ),
            RetainedKey::Prepared(key, compression) => cells_remove(
                &mut self.prepared,
                make_cell_key(key.protocol_version, compression),
            ),
        };
        match removed {
            Some((_, cell)) => Some(cell),
            None => None,
        }
    }

    /// The cells of both tiers, added to a list.
    fn drain_cells(self, dropped: Vec<u64>) -> (r: Vec<u64>)
        ensures
            r@.to_set() == dropped@.to_set().union(self@.all_cells()),
    {
        let ghost m = self@;
        let ghost start = dropped@.to_set();
        let mut r = dropped;
        let serialized = cells_into_vec(self.serialized);
        let prepared = cells_into_vec(self.prepared);
        let mut i: usize = 0;
        while i < serialized.len()
            invariant
                i <= serialized@.len(),
                forall|cell: u64| #[trigger]
                    r@.to_set().contains(cell) <==> start.contains(cell) || exists|j: int|
                        0 <= j < i && (#[trigger] serialized@[j]).1 == cell,
            decreases serialized.len() - i,
        {
            let ghost before = r@;
            r.push(serialized[i].1);
            i = i + 1;
            proof {
                assert(r@.drop_last() =~= before);
                assert forall|cell: u64| #[trigger] r@.to_set().contains(cell) <==> start.contains(
                    cell,
                ) || exists|j: int| 0 <= j < i && (#[trigger] serialized@[j]).1 == cell by {
                    lemma_pushed(before, serialized@[i - 1].1, cell);
                    assert(before.to_set().contains(cell) <==> start.contains(cell)
                        || exists|j: int|
                        0 <= j < i - 1 && (#[trigger] serialized@[j]).1 == cell);
                    if cell == serialized@[i - 1].1 {
                        assert(serialized@[i - 1].1 == cell);
                    }
                }
            }
        }
        let ghost middle = r@.to_set();
        let mut i: usize = 0;
        while i < prepared.len()
            invariant
                i <= prepared@.len(),
                forall|cell: u64| #[trigger]
                    r@.to_set().contains(cell) <==> middle.contains(cell) || exists|j: int|
                        0 <= j < i && (#[trigger] prepared@[j]).1 == cell,
            decreases prepared.len() - i,
        {
            let ghost before = r@;
            r.push(prepared[i].1);
            i = i + 1;
            proof {
                assert forall|cell: u64| #[trigger] r@.to_set().contains(cell) <==> middle.contains(
                    cell,
                ) || exists|j: int| 0 <= j < i && (#[trigger] prepared@[j]).1 == cell by {
                    lemma_pushed(before, prepared@[i - 1].1, cell);
                    assert(before.to_set().contains(cell) <==> middle.contains(cell)
                        || exists|j: int|
                        0 <= j < i - 1 && (#[trigger] prepared@[j]).1 == cell);
                    if cell == prepared@[i - 1].1 {
                        assert(prepared@[i - 1].1 == cell);
                    }
                }
            }
        }
        proof {
            assert forall|cell: u64| r@.to_set().contains(cell) <==> start.union(
                m.all_cells(),
            ).contains(cell) by {
                lemma_listed_cells(serialized@, m.serialized, cell);
                lemma_listed_cells(prepared@, m.prepared, cell);
            }
            assert(r@.to_set() =~= start.union(m.all_cells()));
        }
        r
    }

    /// The cells for a protocol version and compression; missing ones are made.
    /// Returns the first number that stays free, and the two cells.
    fn cells(
        &mut self,
        protocol_version: i32,
        compression: Option<CompressionProfile>,
        next: u64,
    ) -> (r: (u64, u64, u64))
        ensures
            final(self)@ == old(self)@.with_cells(protocol_version, compression, next),
            r.0 == old(self)@.next_after_cells(protocol_version, compression, next),
            r.1 == final(self)@.serialized[cell_key(protocol_version, None)],
            r.2 == final(self)@.prepared[cell_key(protocol_version, compression)],
    {
        let mut next: u64 = next;
        let s = make_cell_key(protocol_version, None);
        let serialized_cell: u64 = match cells_get(&self.serialized, s) {
            Some(cell) => cell,
            None => {
                let cell: u64 = next;
                cells_insert(&mut self.serialized, s, cell);
                next = next.wrapping_add(1);
                cell
            },
        };
        let p = make_cell_key(protocol_version, compression);
        let prepared_cell: u64 = match cells_get(&self.prepared, p) {
            Some(cell) => cell,
            None => {
                let cell: u64 = next;
                cells_insert(&mut self.prepared, p, cell);
                next = next.wrapping_add(1);
                cell
            },
        };
        (next, serialized_cell, prepared_cell)
    }
}

proof fn lemma_pushed(list: Seq<u64>, last: u64, cell: u64)
    ensures
        list.push(last).to_set().contains(cell) <==> list.to_set().contains(cell) || cell == last,
{
    let after = list.push(last);
    if list.contains(cell) {
        assert(after[list.index_of(cell)] == cell);
    }
    if cell == last {
        assert(after[list.len() as int] == cell);
    }
    if after.contains(cell) && cell != last {
        assert(list[after.index_of(cell)] == cell);
    }
}

/// Where a list holds the pairs of a table, its cells are those of the table.
proof fn lemma_listed_cells(
    pairs: Seq<((i32, Option<(usize, u32)>), u64)>,
    cells: Map<(i32, Option<(usize, u32)>), u64>,
    cell: u64,
)
    requires
        lists_pairs(pairs, cells),
    ensures
        (exists|j: int| 0 <= j < pairs.len() && (#[trigger] pairs[j]).1 == cell) <==> exists|
            at: (i32, Option<(usize, u32)>),
        | #[trigger] cells.contains_key(at) && cells[at] == cell,
{
    if exists|j: int| 0 <= j < pairs.len() && (#[trigger] pairs[j]).1 == cell {
        let j = choose|j: int| 0 <= j < pairs.len() && (#[trigger] pairs[j]).1 == cell;
        let at = pairs[j].0;
        assert(pairs[j] == (at, cell));
        assert(pairs.contains((at, cell)));
        assert(cells.contains_key(at));
    }
    if exists|at: (i32, Option<(usize, u32)>)| #[trigger]
        cells.contains_key(at) && cells[at] == cell {
        let at = choose|at: (i32, Option<(usize, u32)>)| #[trigger]
            cells.contains_key(at) && cells[at] == cell;
        assert(pairs.contains((at, cell)));
        let j = pairs.index_of((at, cell));
        assert(pairs[j].1 == cell);
    }
}

/// The entries that a table holds, by chunk instance.
pub uninterp spec fn entries_of(table: DashMap<u64, ChunkCacheEntry>) -> Map<u64, ChunkCacheEntry>;

/// `dashmap::DashMap::new`: a new table holds nothing.
#[verifier::external_body]
fn entries_new() -> (table: DashMap<u64, ChunkCacheEntry>)
    ensures
        (entries_of(table) == Map::<u64, ChunkCacheEntry>::empty()),
{
    DashMap::new()
}

/// `dashmap::DashMap::view`: shows the value of a key to a closure and hands back
/// what it returns, or `None` where the key has no value.
#[verifier::external_body]
fn entries_view<R, F: FnOnce(&ChunkCacheEntry) -> R>(
    table: &DashMap<u64, ChunkCacheEntry>,
    instance_id: u64,
    look: F,
) -> (r: Option<R>)
    requires
        entries_of(*table).contains_key(instance_id) ==> call_requires(
            look,
            (&entries_of(*table)[instance_id],),
        ),
    ensures
        match r {
            Some(seen) => entries_of(*table).contains_key(instance_id) && call_ensures(
                look,
                (&entries_of(*table)[instance_id],),
                seen,
            ),
            None => !entries_of(*table).contains_key(instance_id),
        },
{
    table.view(&instance_id, |_instance_id, entry| look(entry))
}

/// `dashmap::DashMap::insert`: the key has the new value from now on.
#[verifier::external_body]
fn entries_insert(
    table: &mut DashMap<u64, ChunkCacheEntry>,
    instance_id: u64,
    entry: ChunkCacheEntry,
)
    ensures
        entries_of(*final(table)) == entries_of(*old(table)).insert(instance_id, entry),
{
    table.insert(instance_id, entry);
}

/// `dashmap::DashMap::remove`: takes key and value out of the table.
#[verifier::external_body]
fn entries_remove(table: &mut DashMap<u64, ChunkCacheEntry>, instance_id: u64) -> (r: Option<
    (u64, ChunkCacheEntry),
>)
    ensures
        entries_of(*final(table)) == entries_of(*old(table)).remove(instance_id),
        r == (if entries_of(*old(table)).contains_key(instance_id) {
            Some((instance_id, entries_of(*old(table))[instance_id]))
        } else {
            None
        }),
{
    table.remove(&instance_id)
}

/// `dashmap::DashMap::len`: the number of keys that have a value.
#[verifier::external_body]
fn entries_len(table: &DashMap<u64, ChunkCacheEntry>) -> (n: usize)
    ensures
        n == entries_of(*table).dom().len(),
{
    table.len()
}

/// The counters of the cache.
#[derive(Clone, Copy, Debug, PartialEq, Eq, Structural)]
pub struct CacheCounters {
    pub serialization_hits: u64,
    pub serialization_misses: u64,
    pub serialization_waiters: u64,
    pub preparation_hits: u64,
    pub preparation_misses: u64,
    pub preparation_waiters: u64,
    pub snapshot_captures: u64,
    pub obsolete_snapshot_attempts: u64,
    pub snapshot_nanos: u64,
    pub serialization_nanos: u64,
    pub compression_nanos: u64,
    pub preparations_in_flight: u64,
}

impl CacheCounters {
    /// All counters at zero.
    pub open spec fn zero() -> CacheCounters {
        CacheCounters {
            serialization_hits: 0,
            serialization_misses: 0,
            serialization_waiters: 0,
            preparation_hits: 0,
            preparation_misses: 0,
            preparation_waiters: 0,
            snapshot_captures: 0,
            obsolete_snapshot_attempts: 0,
            snapshot_nanos: 0,
            serialization_nanos: 0,
            compression_nanos: 0,
            preparations_in_flight: 0,
        }
    }
}

impl Default for CacheCounters {
    fn default() -> (counters: CacheCounters)
        ensures
            counters == CacheCounters::zero(),
    {
        CacheCounters {
            serialization_hits: 0,
            serialization_misses: 0,
            serialization_waiters: 0,
            preparation_hits: 0,
            preparation_misses: 0,
            preparation_waiters: 0,
            snapshot_captures: 0,
            obsolete_snapshot_attempts: 0,
            snapshot_nanos: 0,
            serialization_nanos: 0,
            compression_nanos: 0,
            preparations_in_flight: 0,
        }
    }
}

/// A hold on the entry of a chunk: the entry stays while it is leased.
#[derive(Clone, Copy, Debug, PartialEq, Eq, Structural)]
pub struct ChunkEntryLease {
    pub instance_id: u64,
    pub entry_id: u64,
}

/// What the cache holds.
pub struct CacheModel {
    /// The entries by chunk instance.
    pub chunks: Map<u64, EntryModel>,
    /// The cells that were forgotten since they were last asked for.
    pub dropped: Set<u64>,
    pub retention: RetentionModel,
    pub enabled: bool,
    pub next_entry: u64,
    pub next_cell: u64,
    pub counters: CacheCounters,
}

impl CacheModel {
    /// There is a cell in the place.
    pub open spec fn holds_cell(self, place: CellPlace) -> bool {
        &&& self.chunks.contains_key(place.instance_id)
        &&& self.chunks[place.instance_id].tier(place.prepared).contains_key(place.at)
    }

    /// The number of the cell in a place.
    pub open spec fn cell_at(self, place: CellPlace) -> u64 {
        self.chunks[place.instance_id].tier(place.prepared)[place.at]
    }

    /// There are numbers left for the cells of a request.
    pub open spec fn has_numbers(self) -> bool {
        self.next_cell <= u64::MAX - 2
    }

    /// The cells of both tiers of all entries have numbers below the next one, and no
    /// two have the same.
    pub open spec fn cells_are_distinct(self) -> bool {
        &&& forall|place: CellPlace| #[trigger]
            self.holds_cell(place) ==> self.cell_at(place) < self.next_cell
        &&& forall|a: CellPlace, b: CellPlace| #[trigger]
            self.holds_cell(a) && #[trigger] self.holds_cell(b) && a != b ==> self.cell_at(a)
                != self.cell_at(b)
    }

    /// The entries have numbers below the next one, and no two have the same.
    pub open spec fn entries_are_numbered(self) -> bool {
        &&& forall|id: u64| #[trigger]
            self.chunks.contains_key(id) ==> self.chunks[id].id < self.next_entry
        &&& forall|a: u64, b: u64| #[trigger]
            self.chunks.contains_key(a) && #[trigger] self.chunks.contains_key(b) && a != b
                ==> self.chunks[a].id != self.chunks[b].id
    }

    /// The entry of the chunk is of the revision that the key belongs to.
    pub open spec fn is_current(self, key: RetainedKey) -> bool {
        let serialization = key.serialization_of();
        &&& self.chunks.contains_key(serialization.instance_id)
        &&& self.chunks[serialization.instance_id].revision == serialization.revision
    }

    /// A newer revision of the chunk has an entry.
    pub open spec fn is_outdated(self, identity: ChunkSnapshotIdentity) -> bool {
        &&& self.chunks.contains_key(identity.instance_id)
        &&& self.chunks[identity.instance_id].revision > identity.revision
    }

    /// The entry of the chunk is of this revision.
    pub open spec fn has_entry(self, identity: ChunkSnapshotIdentity) -> bool {
        &&& self.chunks.contains_key(identity.instance_id)
        &&& self.chunks[identity.instance_id].revision == identity.revision
    }

    /// The number of the entry that a lease for the snapshot is on.
    pub open spec fn leased_id(self, identity: ChunkSnapshotIdentity) -> u64 {
        if self.has_entry(identity) {
            self.chunks[identity.instance_id].id
        } else {
            self.next_entry
        }
    }

    /// The cache with the entry of a snapshot leased once more. A missing entry is
    /// made; one of an older revision is replaced, and what was retained of that
    /// revision is dropped; one of a newer revision stays, and nothing changes.
    pub open spec fn leased(self, identity: ChunkSnapshotIdentity) -> CacheModel {
        if self.is_outdated(identity) {
            self
        } else if self.has_entry(identity) {
            let entry = self.chunks[identity.instance_id];
            CacheModel {
                chunks: self.chunks.insert(
                    identity.instance_id,
                    EntryModel { leases: following(entry.leases), ..entry },
                ),
                ..self
            }
        } else {
            CacheModel {
                chunks: self.chunks.insert(
                    identity.instance_id,
                    EntryModel::fresh(self.next_entry, identity.revision),
                ),
                next_entry: following(self.next_entry),
                retention: if self.chunks.contains_key(identity.instance_id) {
                    self.retention.without_revision(
                        identity.instance_id,
                        self.chunks[identity.instance_id].revision,
                    )
                } else {
                    self.retention
                },
                dropped: if self.chunks.contains_key(identity.instance_id) {
                    self.dropped.union(self.chunks[identity.instance_id].all_cells())
                } else {
                    self.dropped
                },
                ..self
            }
        }
    }

    /// The cache with the cells of a leased snapshot in place.
    pub open spec fn with_cells(
        self,
        key: SerializationKey,
        compression: Option<CompressionProfile>,
    ) -> CacheModel {
        let entry = self.chunks[key.instance_id];
        CacheModel {
            chunks: self.chunks.insert(
                key.instance_id,
                entry.with_cells(key.protocol_version, compression, self.next_cell),
            ),
            next_cell: entry.next_after_cells(key.protocol_version, compression, self.next_cell),
            ..self
        }
    }

    /// The cache without an entry, if that very entry is idle.
    pub open spec fn swept(self, instance_id: u64, entry_id: u64) -> CacheModel {
        if self.chunks.contains_key(instance_id) && self.chunks[instance_id].id == entry_id
            && self.chunks[instance_id].is_idle() {
            CacheModel { chunks: self.chunks.remove(instance_id), ..self }
        } else {
            self
        }
    }

    /// The cache after a lease was given back; an idle entry goes.
    pub open spec fn released(self, lease: ChunkEntryLease) -> CacheModel {
        if self.chunks.contains_key(lease.instance_id) && self.chunks[lease.instance_id].id
            == lease.entry_id {
            let entry = self.chunks[lease.instance_id];
            CacheModel {
                chunks: self.chunks.insert(
                    lease.instance_id,
                    EntryModel { leases: preceding(entry.leases), ..entry },
                ),
                ..self
            }.swept(lease.instance_id, lease.entry_id)
        } else {
            self
        }
    }

    /// The cache after the cell of a key was forgotten, where its revision is still
    /// current; an entry that became idle goes.
    pub open spec fn evicted(self, key: RetainedKey) -> CacheModel {
        if self.is_current(key) {
            let instance_id = key.serialization_of().instance_id;
            let entry = self.chunks[instance_id];
            CacheModel {
                chunks: self.chunks.insert(instance_id, entry.without_cell(key)),
                dropped: match entry.cell_of(key) {
                    Some(cell) => self.dropped.insert(cell),
                    None => self.dropped,
                },
                ..self
            }.swept(instance_id, entry.id)
        } else {
            self
        }
    }

    /// The cache after the cells of several keys were forgotten, one after another.
    pub open spec fn evicted_all(self, keys: Seq<RetainedKey>) -> CacheModel
        decreases keys.len(),
    {
        if keys.len() == 0 {
            self
        } else {
            self.evicted_all(keys.drop_last()).evicted(keys.last())
        }
    }

    /// The cache after a finished packet was offered to the retention, where its
    /// revision is still current; the cells of what has to go are forgotten.
    pub open spec fn retained(self, key: RetainedKey, bytes: usize) -> CacheModel {
        if self.is_current(key) {
            CacheModel {
                retention: self.retention.admitted(key, bytes),
                ..self
            }.evicted_all(self.retention.turned_out(key, bytes))
        } else {
            self
        }
    }

    /// The cache after the cells of both tiers were forgotten.
    pub open spec fn evicted_both(
        self,
        key: SerializationKey,
        compression: Option<CompressionProfile>,
    ) -> CacheModel {
        self.evicted(RetainedKey::Serialized(key)).evicted(
            RetainedKey::Prepared(key, compression),
        )
    }

    /// The cache after a retained packet was asked for again.
    pub open spec fn hit(self, key: RetainedKey) -> CacheModel {
        CacheModel { retention: self.retention.hit(key), ..self }
    }
}

/// What a table of entries holds.
pub open spec fn entry_models(entries: Map<u64, ChunkCacheEntry>) -> Map<u64, EntryModel> {
    Map::new(|id: u64| entries.contains_key(id), |id: u64| entries[id]@)
}

proof fn lemma_entry_models(entries: Map<u64, ChunkCacheEntry>, id: u64)
    ensures
        forall|entry: ChunkCacheEntry| #[trigger]
            entry_models(entries.insert(id, entry)) == entry_models(entries).insert(id, entry@),
        entry_models(entries.remove(id)) == entry_models(entries).remove(id),
        forall|entry: ChunkCacheEntry| #[trigger]
            entry_models(entries.remove(id).insert(id, entry)) == entry_models(entries).insert(
                id,
                entry@,
            ),
{
    assert forall|entry: ChunkCacheEntry| #[trigger]
        entry_models(entries.insert(id, entry)) == entry_models(entries).insert(id, entry@) by {
        assert(entry_models(entries.insert(id, entry)) =~= entry_models(entries).insert(id, entry@));
    }
    assert(entry_models(entries.remove(id)) =~= entry_models(entries).remove(id));
    assert forall|entry: ChunkCacheEntry| #[trigger]
        entry_models(entries.remove(id).insert(id, entry)) == entry_models(entries).insert(
        id,
        entry@,
    ) by {
        assert(entry_models(entries.remove(id).insert(id, entry)) =~= entry_models(entries).insert(
            id,
            entry@,
        ));
    }
}

/// What the cache reports of itself.
#[derive(Clone, Copy, Debug, PartialEq, Eq, Structural)]
pub struct ChunkPacketCacheMetrics {
    pub serialization_hits: u64,
    pub serialization_misses: u64,
    pub serialization_waiters: u64,
    pub preparation_hits: u64,
    pub preparation_misses: u64,
    pub preparation_waiters: u64,
    pub snapshot_captures: u64,
    pub obsolete_snapshot_attempts: u64,
    pub snapshot_nanos: u64,
    pub serialization_nanos: u64,
    pub compression_nanos: u64,
    pub background_permit_acquisitions: u64,
    pub background_permit_wait_nanos: u64,
    pub retained_bytes: usize,
    pub capacity_bytes: usize,
    pub retention_entries: usize,
    pub cache_cells: usize,
    pub preparations_in_flight: u64,
}

impl Default for ChunkPacketCacheMetrics {
    fn default() -> (m: ChunkPacketCacheMetrics)
        ensures
            m == ChunkPacketCacheMetrics::zero(),
    {
        ChunkPacketCacheMetrics {
            serialization_hits: 0,
            serialization_misses: 0,
            serialization_waiters: 0,
            preparation_hits: 0,
            preparation_misses: 0,
            preparation_waiters: 0,
            snapshot_captures: 0,
            obsolete_snapshot_attempts: 0,
            snapshot_nanos: 0,
            serialization_nanos: 0,
            compression_nanos: 0,
            background_permit_acquisitions: 0,
            background_permit_wait_nanos: 0,
            retained_bytes: 0,
            capacity_bytes: 0,
            retention_entries: 0,
            cache_cells: 0,
            preparations_in_flight: 0,
        }
    }
}

impl ChunkPacketCacheMetrics {
    /// Everything at zero.
    pub open spec fn zero() -> ChunkPacketCacheMetrics {
        ChunkPacketCacheMetrics {
            serialization_hits: 0,
            serialization_misses: 0,
            serialization_waiters: 0,
            preparation_hits: 0,
            preparation_misses: 0,
            preparation_waiters: 0,
            snapshot_captures: 0,
            obsolete_snapshot_attempts: 0,
            snapshot_nanos: 0,
            serialization_nanos: 0,
            compression_nanos: 0,
            background_permit_acquisitions: 0,
            background_permit_wait_nanos: 0,
            retained_bytes: 0,
            capacity_bytes: 0,
            retention_entries: 0,
            cache_cells: 0,
            preparations_in_flight: 0,
        }
    }

    /// The counters among the metrics.
    pub open spec fn counters(self) -> CacheCounters {
        CacheCounters {
            serialization_hits: self.serialization_hits,
            serialization_misses: self.serialization_misses,
            serialization_waiters: self.serialization_waiters,
            preparation_hits: self.preparation_hits,
            preparation_misses: self.preparation_misses,
            preparation_waiters: self.preparation_waiters,
            snapshot_captures: self.snapshot_captures,
            obsolete_snapshot_attempts: self.obsolete_snapshot_attempts,
            snapshot_nanos: self.snapshot_nanos,
            serialization_nanos: self.serialization_nanos,
            compression_nanos: self.compression_nanos,
            preparations_in_flight: self.preparations_in_flight,
        }
    }
}

/// A request that goes through the cache: its key, its lease and its two cells.
#[derive(Clone, Copy, Debug, PartialEq, Eq, Structural)]
pub struct PreparationTicket {
    pub key: SerializationKey,
    pub compression: Option<CompressionProfile>,
    pub lease: ChunkEntryLease,
    pub serialized_cell: u64,
    pub prepared_cell: u64,
}

/// How a request goes on.
#[derive(Clone, Copy, Debug, PartialEq, Eq, Structural)]
pub enum PrepareStep {
    /// Nothing is cached, or the numbers for cells have run out: prepare the packet for
    /// this caller alone.
    Bypass,
    /// The snapshot is older than what is cached: ask for the identity again.
    Retry,
    /// Visit the two cells of the ticket.
    Proceed(PreparationTicket),
}

/// What a visitor of a cell has to do.
#[derive(Clone, Copy, Debug, PartialEq, Eq, Structural)]
pub enum CellVisit {
    /// Have the work done, then wait for the result.
    Spawn,
    /// Wait for the result.
    Wait,
}

/// What the result of a cell means for a request.
pub enum PreparationOutcome<T> {
    /// The request goes on, or is answered, with this.
    Ready(T),
    /// The chunk changed: ask for the identity again.
    Retry,
    /// The request fails.
    Failed(Arc<PacketEncodeError>),
}

impl CacheModel {
    /// The ticket of a request for a snapshot.
    pub open spec fn ticket(
        self,
        identity: ChunkSnapshotIdentity,
        protocol_version: i32,
        compression: Option<CompressionProfile>,
    ) -> PreparationTicket {
        let key = SerializationKey::of(identity, protocol_version);
        let entry = self.leased(identity).with_cells(key, compression).chunks[key.instance_id];
        PreparationTicket {
            key,
            compression,
            lease: ChunkEntryLease {
                instance_id: identity.instance_id,
                entry_id: self.leased_id(identity),
            },
            serialized_cell: entry.serialized[cell_key(protocol_version, None)],
            prepared_cell: entry.prepared[cell_key(protocol_version, compression)],
        }
    }

    /// The cache after a request visited the cell of its serialized packet: a
    /// finished cell is a hit; an unstarted one is a miss on both tiers, and puts a
    /// preparation in flight; any other makes the request a waiter.
    pub open spec fn serialized_visited(
        self,
        key: SerializationKey,
        started: bool,
        finished: bool,
    ) -> CacheModel {
        let seen = if finished {
            CacheModel {
                counters: CacheCounters {
                    serialization_hits: following(self.counters.serialization_hits),
                    ..self.counters
                },
                ..self
            }.hit(RetainedKey::Serialized(key))
        } else {
            self
        };
        if !started {
            CacheModel {
                counters: CacheCounters {
                    serialization_misses: following(seen.counters.serialization_misses),
                    preparation_misses: following(seen.counters.preparation_misses),
                    preparations_in_flight: following(seen.counters.preparations_in_flight),
                    ..seen.counters
                },
                ..seen
            }
        } else if !finished {
            CacheModel {
                counters: CacheCounters {
                    serialization_waiters: following(seen.counters.serialization_waiters),
                    ..seen.counters
                },
                ..seen
            }
        } else {
            seen
        }
    }

    /// The cache after a request visited the cell of its prepared packet.
    pub open spec fn prepared_visited(
        self,
        key: SerializationKey,
        compression: Option<CompressionProfile>,
        started: bool,
        finished: bool,
    ) -> CacheModel {
        let seen = if finished {
            CacheModel {
                counters: CacheCounters {
                    preparation_hits: following(self.counters.preparation_hits),
                    ..self.counters
                },
                ..self
            }.hit(RetainedKey::Prepared(key, compression))
        } else {
            self
        };
        if !started {
            CacheModel {
                counters: CacheCounters {
                    preparation_misses: following(seen.counters.preparation_misses),
                    preparations_in_flight: following(seen.counters.preparations_in_flight),
                    ..seen.counters
                },
                ..seen
            }
        } else if !finished {
            CacheModel {
                counters: CacheCounters {
                    preparation_waiters: following(seen.counters.preparation_waiters),
                    ..seen.counters
                },
                ..seen
            }
        } else {
            seen
        }
    }

    /// The cache after a snapshot was captured.
    pub open spec fn snapshot_captured(self, nanos: u128) -> CacheModel {
        CacheModel {
            counters: CacheCounters {
                snapshot_captures: following(self.counters.snapshot_captures),
                snapshot_nanos: raised_by_nanos(self.counters.snapshot_nanos, nanos),
                ..self.counters
            },
            ..self
        }
    }

    /// The cache after time was spent on serialization.
    pub open spec fn serialization_timed(self, nanos: u128) -> CacheModel {
        CacheModel {
            counters: CacheCounters {
                serialization_nanos: raised_by_nanos(self.counters.serialization_nanos, nanos),
                ..self.counters
            },
            ..self
        }
    }

    /// The cache after time was spent on compression.
    pub open spec fn compression_timed(self, nanos: u128) -> CacheModel {
        CacheModel {
            counters: CacheCounters {
                compression_nanos: raised_by_nanos(self.counters.compression_nanos, nanos),
                ..self.counters
            },
            ..self
        }
    }

    /// The cache after a preparation left flight.
    pub open spec fn landed(self) -> CacheModel {
        CacheModel {
            counters: CacheCounters {
                preparations_in_flight: preceding(self.counters.preparations_in_flight),
                ..self.counters
            },
            ..self
        }
    }
}

/// Bounded cache of prepared chunk packets. Requests for the same packet share one
/// preparation; finished packets stay within a byte budget.
pub struct ChunkPacketCache {
    chunks: DashMap<u64, ChunkCacheEntry>,
    retention: Retention,
    retention_enabled: bool,
    preparation_threads: usize,
    capacity_bytes: usize,
    next_entry: u64,
    next_cell: u64,
    dropped: Vec<u64>,
    counters: CacheCounters,
}

impl View for ChunkPacketCache {
    type V = CacheModel;

    closed spec fn view(&self) -> CacheModel {
        CacheModel {
            chunks: entry_models(entries_of(self.chunks)),
            dropped: self.dropped@.to_set(),
            retention: self.retention@,
            enabled: self.retention_enabled,
            next_entry: self.next_entry,
            next_cell: self.next_cell,
            counters: self.counters,
        }
    }
}

/// A time in nanoseconds, cut off at 64 bits.
fn nanos_u64(nanos: u128) -> (r: u64)
    ensures
        forall|counter: u64| #[trigger]
            raised_by_nanos(counter, nanos) == (counter + r) % 0x1_0000_0000_0000_0000,
{
    if nanos > u64::MAX as u128 {
        u64::MAX
    } else {
        nanos as u64
    }
}

impl ChunkPacketCache {
    /// The retention is at rest and its accounts are right.
    pub closed spec fn wf(&self) -> bool {
        &&& self.retention.wf()
        &&& self.retention@.settled()
        &&& self.retention@.capacity == self.capacity_bytes
    }

    /// The threads that preparations are to run on.
    pub closed spec fn threads(&self) -> usize {
        self.preparation_threads
    }

    /// The byte budget.
    pub closed spec fn capacity(&self) -> usize {
        self.capacity_bytes
    }

    /// An empty cache with a budget in mebibytes; none disables it.
    pub fn new(capacity_mib: usize, preparation_threads: usize) -> (cache: ChunkPacketCache)
        ensures
            cache.wf(),
            cache.capacity() == (if capacity_mib * 0x10_0000 > usize::MAX {
                usize::MAX as int
            } else {
                capacity_mib * 0x10_0000
            }),
            cache.threads() == (if preparation_threads > 1 {
                preparation_threads
            } else {
                1
            }),
            cache@.enabled == (capacity_mib > 0),
            cache@.chunks == Map::<u64, EntryModel>::empty(),
            cache@.retention.values == Map::<
                RetainedKey,
                crate::retention::RetainedValue,
            >::empty(),
            cache@.retention.capacity == cache.capacity(),
            cache@.retention.target == (if cache.capacity() * 40 > usize::MAX {
                usize::MAX as int
            } else {
                cache.capacity() * 40
            }) / 100,
            cache@.counters == CacheCounters::zero(),
            cache@.dropped == Set::<u64>::empty(),
            cache@.retention.settled(),
            cache@.next_entry == 0,
            cache@.next_cell == 0,
            cache@.cells_are_distinct(),
            cache@.entries_are_numbered(),
    {
        let capacity_bytes: usize = match capacity_mib.checked_mul(0x10_0000) {
            Some(bytes) => bytes,
            None => usize::MAX,
        };
        let cache = ChunkPacketCache {
            chunks: entries_new(),
            retention: Retention::new(capacity_bytes, 40),
            retention_enabled: capacity_mib > 0,
            preparation_threads: if preparation_threads > 1 {
                preparation_threads
            } else {
                1
            },
            capacity_bytes,
            next_entry: 0,
            next_cell: 0,
            dropped: Vec::new(),
            counters: CacheCounters::default(),
        };
        assert(cache@.dropped =~= Set::empty());
        assert(cache@.chunks =~= Map::empty());
        cache
    }

    /// The threads that preparations are to run on.
    pub fn preparation_threads(&self) -> (n: usize)
        ensures
            n == self.threads(),
    {
        self.preparation_threads
    }

    /// The state of the cache in numbers, with what the budget counted for it.
    pub fn metrics(&self, budget: &BackgroundCpuBudget) -> (m: ChunkPacketCacheMetrics)
        requires
            self.wf(),
        ensures
            m.counters() == self@.counters,
            m.serialization_hits == self@.counters.serialization_hits,
            m.serialization_misses == self@.counters.serialization_misses,
            m.serialization_waiters == self@.counters.serialization_waiters,
            m.preparation_hits == self@.counters.preparation_hits,
            m.preparation_misses == self@.counters.preparation_misses,
            m.preparation_waiters == self@.counters.preparation_waiters,
            m.snapshot_captures == self@.counters.snapshot_captures,
            m.obsolete_snapshot_attempts == self@.counters.obsolete_snapshot_attempts,
            m.snapshot_nanos == self@.counters.snapshot_nanos,
            m.serialization_nanos == self@.counters.serialization_nanos,
            m.compression_nanos == self@.counters.compression_nanos,
            m.preparations_in_flight == self@.counters.preparations_in_flight,
            m.background_permit_acquisitions == budget.granted(
                BackgroundCpuCategory::PacketPreparation,
            ),
            m.background_permit_wait_nanos == budget.waited(
                BackgroundCpuCategory::PacketPreparation,
            ),
            m.retained_bytes == crate::retention::total_bytes(self@.retention.values),
            m.retained_bytes <= m.capacity_bytes,
            m.capacity_bytes == self.capacity(),
            m.retention_entries == self@.retention.values.dom().len(),
            m.cache_cells == self@.chunks.dom().len(),
    {
        proof {
            assert(self@.chunks.dom() =~= entries_of(self.chunks).dom());
            crate::retention::lemma_totals_ordered(self@.retention.values);
        }
        ChunkPacketCacheMetrics {
            serialization_hits: self.counters.serialization_hits,
            serialization_misses: self.counters.serialization_misses,
            serialization_waiters: self.counters.serialization_waiters,
            preparation_hits: self.counters.preparation_hits,
            preparation_misses: self.counters.preparation_misses,
            preparation_waiters: self.counters.preparation_waiters,
            snapshot_captures: self.counters.snapshot_captures,
            obsolete_snapshot_attempts: self.counters.obsolete_snapshot_attempts,
            snapshot_nanos: self.counters.snapshot_nanos,
            serialization_nanos: self.counters.serialization_nanos,
            compression_nanos: self.counters.compression_nanos,
            background_permit_acquisitions: budget.acquisitions(
                BackgroundCpuCategory::PacketPreparation,
            ),
            background_permit_wait_nanos: budget.wait_nanos(
                BackgroundCpuCategory::PacketPreparation,
            ),
            retained_bytes: self.retention.retained_bytes as usize,
            capacity_bytes: self.capacity_bytes,
            retention_entries: self.retention.values.len(),
            cache_cells: entries_len(&self.chunks),
            preparations_in_flight: self.counters.preparations_in_flight,
        }
    }

    /// Whether a packet is retained.
    pub fn is_retained(&self, key: RetainedKey) -> (r: bool)
        requires
            self.wf(),
        ensures
            r == self@.retention.values.contains_key(key),
    {
        self.retention.values.contains_key(&key)
    }

    /// The revision of a chunk that has an entry.
    pub fn entry_revision(&self, instance_id: u64) -> (revision: Option<u64>)
        ensures
            revision == (if self@.chunks.contains_key(instance_id) {
                Some(self@.chunks[instance_id].revision)
            } else {
                None
            }),
    {
        let look = |entry: &ChunkCacheEntry| -> (revision: u64)
            ensures
                (revision == entry@.revision),
            { entry.revision };
        entries_view(&self.chunks, instance_id, look)
    }

    /// Lease the entry of a snapshot. Returns `None` where a newer revision of the
    /// chunk has an entry.
    pub fn entry(&mut self, identity: ChunkSnapshotIdentity) -> (lease: Option<ChunkEntryLease>)
        requires
            old(self).wf(),
        ensures
            final(self).wf(),
            final(self)@.retention.settled(),
            final(self).capacity() == old(self).capacity(),
            final(self).threads() == old(self).threads(),
            final(self)@ == old(self)@.leased(identity),
            lease is None <==> old(self)@.chunks.contains_key(identity.instance_id)
                && old(self)@.chunks[identity.instance_id].revision > identity.revision,
            lease is None ==> final(self)@ == old(self)@,
            lease matches Some(held) ==> {
                &&& held.instance_id == identity.instance_id
                &&& final(self)@.chunks.contains_key(identity.instance_id)
                &&& final(self)@.chunks[identity.instance_id].id == held.entry_id
                &&& final(self)@.chunks[identity.instance_id].revision == identity.revision
            },
            forall|id: u64|
                id != identity.instance_id ==> (#[trigger] final(self)@.chunks.contains_key(id)
                    <==> old(self)@.chunks.contains_key(id)) && (old(self)@.chunks.contains_key(id)
                    ==> final(self)@.chunks[id] == old(self)@.chunks[id]),
            final(self)@.counters == old(self)@.counters,
            final(self)@.next_cell == old(self)@.next_cell,
            final(self)@.enabled == old(self)@.enabled,
            lease == (if old(self)@.is_outdated(identity) {
                None
            } else {
                Some(
                    ChunkEntryLease {
                        instance_id: identity.instance_id,
                        entry_id: old(self)@.leased_id(identity),
                    },
                )
            }),
    {
        let ghost before = self@;
        proof {
            lemma_entry_models(entries_of(self.chunks), identity.instance_id);
        }
        match self.entry_revision(identity.instance_id) {
            Some(revision) => {
                if revision > identity.revision {
                    return None;
                }
                match entries_remove(&mut self.chunks, identity.instance_id) {
                    Some((_, taken)) => {
                        if revision == identity.revision {
                            let mut entry = taken;
                            let entry_id: u64 = entry.id;
                            entry.leases = entry.leases.wrapping_add(1);
                            entries_insert(&mut self.chunks, identity.instance_id, entry);
                            assert(self@ == before.leased(identity));
                            return Some(
                                ChunkEntryLease { instance_id: identity.instance_id, entry_id },
                            );
                        }
                        proof {
                            crate::retention::law_upkeep_keeps_settled(
                                self.retention@,
                                RetainedKey::Serialized(SerializationKey::of(identity, 0)),
                                identity.instance_id,
                                revision,
                            );
                        }
                        self.retention.remove_revision(identity.instance_id, revision);
                        let mut dropped: Vec<u64> = Vec::new();
                        dropped.append(&mut self.dropped);
                        self.dropped = taken.drain_cells(dropped);
                    },
                    None => {},
                }
            },
            None => {},
        }
        let entry_id: u64 = self.next_entry;
        self.next_entry = self.next_entry.wrapping_add(1);
        let replacement = ChunkCacheEntry::new(entry_id, identity.revision);
        entries_insert(&mut self.chunks, identity.instance_id, replacement);
        assert(self@ == before.leased(identity));
        Some(ChunkEntryLease { instance_id: identity.instance_id, entry_id })
    }

    /// Remove an entry that is idle, if it is still the expected one.
    fn remove_empty_entry(&mut self, instance_id: u64, expected: u64)
        requires
            old(self).wf(),
        ensures
            final(self).wf(),
            final(self)@.retention.settled(),
            final(self).capacity() == old(self).capacity(),
            final(self).threads() == old(self).threads(),
            final(self)@ == old(self)@.swept(instance_id, expected),
    {
        proof {
            lemma_entry_models(entries_of(self.chunks), instance_id);
        }
        let look = |entry: &ChunkCacheEntry| -> (r: bool)
            ensures
                (r == (entry@.id == expected && entry@.is_idle())),
            { entry.id == expected && entry.is_idle() };
        match entries_view(&self.chunks, instance_id, look) {
            Some(true) => {
                entries_remove(&mut self.chunks, instance_id);
            },
            _ => {},
        }
    }

    /// Give a lease back; an entry that became idle goes.
    pub fn release(&mut self, lease: ChunkEntryLease)
        requires
            old(self).wf(),
        ensures
            final(self).wf(),
            final(self)@.retention.settled(),
            final(self).capacity() == old(self).capacity(),
            final(self).threads() == old(self).threads(),
            final(self)@ == old(self)@.released(lease),
            final(self)@.retention == old(self)@.retention,
            final(self)@.dropped == old(self)@.dropped,
            final(self)@.counters == old(self)@.counters,
            final(self)@.enabled == old(self)@.enabled,
            final(self)@.next_entry == old(self)@.next_entry,
            final(self)@.next_cell == old(self)@.next_cell,
            old(self)@.chunks.contains_key(lease.instance_id)
                && old(self)@.chunks[lease.instance_id].id == lease.entry_id
                && old(self)@.chunks[lease.instance_id].leases > 1
                ==> final(self)@.chunks == old(self)@.chunks.insert(
                lease.instance_id,
                EntryModel {
                    leases: (old(self)@.chunks[lease.instance_id].leases - 1) as u64,
                    ..old(self)@.chunks[lease.instance_id]
                },
            ),
    {
        proof {
            lemma_entry_models(entries_of(self.chunks), lease.instance_id);
        }
        let expected: u64 = lease.entry_id;
        let look = |entry: &ChunkCacheEntry| -> (r: bool)
            ensures
                (r == (entry@.id == expected)),
            { entry.id == expected };
        match entries_view(&self.chunks, lease.instance_id, look) {
            Some(true) => {
                match entries_remove(&mut self.chunks, lease.instance_id) {
                    Some((_, taken)) => {
                        let mut entry = taken;
                        entry.leases = entry.leases.wrapping_sub(1);
                        entries_insert(&mut self.chunks, lease.instance_id, entry);
                    },
                    None => {},
                }
                self.remove_empty_entry(lease.instance_id, lease.entry_id);
            },
            _ => {},
        }
    }

    /// Forget the cell of a key where its revision is current; an entry that became
    /// idle goes.
    fn evict(&mut self, key: RetainedKey)
        requires
            old(self).wf(),
        ensures
            final(self).wf(),
            final(self)@.retention.settled(),
            final(self).capacity() == old(self).capacity(),
            final(self).threads() == old(self).threads(),
            final(self)@ == old(self)@.evicted(key),
    {
        let serialization = key.serialization();
        let instance_id: u64 = serialization.instance_id;
        proof {
            lemma_entry_models(entries_of(self.chunks), instance_id);
        }
        match self.entry_revision(instance_id) {
            Some(revision) => {
                if revision != serialization.revision {
                    return;
                }
            },
            None => {
                return;
            },
        }
        match entries_remove(&mut self.chunks, instance_id) {
            Some((_, taken)) => {
                let mut entry = taken;
                let entry_id: u64 = entry.id;
                match entry.remove_cell(key) {
                    Some(cell) => {
                        let ghost before = self.dropped@;
                        self.dropped.push(cell);
                        proof {
                            assert forall|c: u64| self.dropped@.to_set().contains(c)
                                <==> before.to_set().insert(cell).contains(c) by {
                                lemma_pushed(before, cell, c);
                            }
                            assert(self.dropped@.to_set() =~= before.to_set().insert(cell));
                        }
                    },
                    None => {},
                }
                entries_insert(&mut self.chunks, instance_id, entry);
                self.remove_empty_entry(instance_id, entry_id);
            },
            None => {},
        }
    }

    /// Forget the cells of both tiers of a request.
    fn evict_both(&mut self, key: SerializationKey, compression: Option<CompressionProfile>)
        requires
            old(self).wf(),
        ensures
            final(self).wf(),
            final(self)@.retention.settled(),
            final(self).capacity() == old(self).capacity(),
            final(self).threads() == old(self).threads(),
            final(self)@ == old(self)@.evicted_both(key, compression),
    {
        self.evict(RetainedKey::Serialized(key));
        self.evict(RetainedKey::Prepared(key, compression));
    }

    /// Offer a finished packet to the retention where its revision is current, and
    /// forget the cells of what has to go.
    fn retain_if_current(&mut self, key: RetainedKey, bytes: usize)
        requires
            old(self).wf(),
        ensures
            final(self).wf(),
            final(self)@.retention.settled(),
            final(self).capacity() == old(self).capacity(),
            final(self).threads() == old(self).threads(),
            final(self)@ == old(self)@.retained(key, bytes),
    {
        let serialization = key.serialization();
        match self.entry_revision(serialization.instance_id) {
            Some(revision) => {
                if revision != serialization.revision {
                    return;
                }
            },
            None => {
                return;
            },
        }
        proof {
            crate::retention::law_admission_keeps_settled(self.retention@, key, bytes);
        }
        let evicted = self.retention.offer(key, bytes);
        let ghost start = self@;
        let mut i: usize = 0;
        assert(self@ == start.evicted_all(evicted@.take(0)));
        while i < evicted.len()
            invariant
                i <= evicted@.len(),
                self.wf(),
                self.capacity() == old(self).capacity(),
                self.threads() == old(self).threads(),
                self@ == start.evicted_all(evicted@.take(i as int)),
            decreases evicted.len() - i,
        {
            assert(evicted@.take(i + 1).drop_last() =~= evicted@.take(i as int));
            self.evict(evicted[i]);
            i = i + 1;
        }
        assert(evicted@.take(evicted@.len() as int) =~= evicted@);
    }

    /// The cells that were forgotten since this was last asked. Nobody is referred to
    /// them any more; they can go once their waiters are served.
    pub fn take_dropped(&mut self) -> (cells: Vec<u64>)
        requires
            old(self).wf(),
        ensures
            final(self).wf(),
            final(self)@.retention.settled(),
            final(self).capacity() == old(self).capacity(),
            final(self).threads() == old(self).threads(),
            cells@.to_set() == old(self)@.dropped,
            final(self)@ == (CacheModel { dropped: Set::empty(), ..old(self)@ }),
    {
        let mut cells: Vec<u64> = Vec::new();
        cells.append(&mut self.dropped);
        assert(cells@ =~= old(self).dropped@);
        assert(self@.dropped =~= Set::empty());
        cells
    }

    /// Begin a request for the packet of a chunk. The caller holds the lease of the
    /// ticket until the request is answered or starts over.
    pub fn prepare_chunk(
        &mut self,
        identity: ChunkSnapshotIdentity,
        protocol_version: i32,
        compression: Option<CompressionProfile>,
    ) -> (step: PrepareStep)
        requires
            old(self).wf(),
        ensures
            final(self).wf(),
            final(self)@.retention.settled(),
            final(self).capacity() == old(self).capacity(),
            final(self).threads() == old(self).threads(),
            step == (if !old(self)@.enabled || !old(self)@.has_numbers() {
                PrepareStep::Bypass
            } else if old(self)@.is_outdated(identity) {
                PrepareStep::Retry
            } else {
                PrepareStep::Proceed(
                    old(self)@.ticket(identity, protocol_version, compression),
                )
            }),
            step is Bypass <==> !old(self)@.enabled || old(self)@.next_cell > u64::MAX - 2,
            step is Retry <==> old(self)@.enabled && old(self)@.next_cell <= u64::MAX - 2
                && old(self)@.chunks.contains_key(identity.instance_id)
                && old(self)@.chunks[identity.instance_id].revision > identity.revision,
            !(step is Proceed) ==> final(self)@ == old(self)@,
            step matches PrepareStep::Proceed(ticket) ==> {
                let entry = final(self)@.chunks[identity.instance_id];
                let shared = (protocol_version, None::<(usize, u32)>);
                let own = match compression {
                    Some(profile) => (protocol_version, Some((profile.threshold, profile.level))),
                    None => shared,
                };
                &&& ticket.key.instance_id == identity.instance_id
                &&& ticket.key.revision == identity.revision
                &&& ticket.key.protocol_version == protocol_version
                &&& ticket.compression == compression
                &&& ticket.lease.instance_id == identity.instance_id
                &&& final(self)@.chunks.contains_key(identity.instance_id)
                &&& entry.id == ticket.lease.entry_id
                &&& entry.revision == identity.revision
                &&& entry.serialized.contains_key(shared)
                &&& entry.serialized[shared] == ticket.serialized_cell
                &&& entry.prepared.contains_key(own)
                &&& entry.prepared[own] == ticket.prepared_cell
            },
            forall|id: u64|
                id != identity.instance_id ==> (#[trigger] final(self)@.chunks.contains_key(id)
                    <==> old(self)@.chunks.contains_key(id)) && (old(self)@.chunks.contains_key(id)
                    ==> final(self)@.chunks[id] == old(self)@.chunks[id]),
            final(self)@.counters == old(self)@.counters,
            final(self)@.enabled == old(self)@.enabled,
            final(self)@ == (if step is Proceed {
                old(self)@.leased(identity).with_cells(
                    SerializationKey::of(identity, protocol_version),
                    compression,
                )
            } else {
                old(self)@
            }),
    {
        if !self.retention_enabled || self.next_cell > u64::MAX - 2 {
            return PrepareStep::Bypass;
        }
        let ghost before = self@;
        let key = SerializationKey::new(identity, protocol_version);
        let lease = match self.entry(identity) {
            Some(lease) => lease,
            None => {
                return PrepareStep::Retry;
            },
        };
        let ghost leased = self@;
        proof {
            lemma_entry_models(entries_of(self.chunks), identity.instance_id);
            assert(leased.chunks.contains_key(identity.instance_id));
        }
        match entries_remove(&mut self.chunks, identity.instance_id) {
            Some((_, taken)) => {
                let mut entry = taken;
                let (next, serialized_cell, prepared_cell) = entry.cells(
                    protocol_version,
                    compression,
                    self.next_cell,
                );
                self.next_cell = next;
                entries_insert(&mut self.chunks, identity.instance_id, entry);
                assert(self@ == leased.with_cells(key, compression));
                PrepareStep::Proceed(
                    PreparationTicket { key, compression, lease, serialized_cell, prepared_cell },
                )
            },
            None => {
                assert(false);
                PrepareStep::Retry
            },
        }
    }
}

/// A cell after a result was published: an earlier result stays.
pub open spec fn published<T>(
    before: PreparationCell<T>,
    result: Result<Arc<T>, PreparationFailure>,
    after: PreparationCell<T>,
) -> bool {
    &&& after.started == before.started
    &&& after.result == (if before.result is Some {
        before.result
    } else {
        Some(result)
    })
}

/// The failure with this text was published to a cell.
pub open spec fn failed_with<T>(
    before: PreparationCell<T>,
    text: Seq<char>,
    after: PreparationCell<T>,
) -> bool {
    &&& after.started == before.started
    &&& before.result is Some ==> after.result == before.result
    &&& before.result is None ==> (after.result matches Some(
        Err(PreparationFailure::Encode(error)),
    ) && error.text() == text)
}

impl ChunkPacketCache {
    /// Visit the cell of the serialized packet of a request. Whoever finds it
    /// unstarted has both packets prepared.
    pub fn visit_serialized(
        &mut self,
        ticket: &PreparationTicket,
        serialized_cell: &mut PreparationCell<SerializedPacket>,
        prepared_cell: &mut PreparationCell<PreparedPacket>,
    ) -> (visit: CellVisit)
        requires
            old(self).wf(),
        ensures
            final(self).wf(),
            final(self)@.retention.settled(),
            final(self).capacity() == old(self).capacity(),
            final(self).threads() == old(self).threads(),
            final(self)@ == old(self)@.serialized_visited(
                ticket.key,
                old(serialized_cell).started,
                old(serialized_cell).result is Some,
            ),
            visit == (if old(serialized_cell).started {
                CellVisit::Wait
            } else {
                CellVisit::Spawn
            }),
            final(serialized_cell).started,
            final(serialized_cell).result == old(serialized_cell).result,
            final(prepared_cell).started
                == (old(prepared_cell).started || !old(serialized_cell).started),
            final(prepared_cell).result == old(prepared_cell).result,
            old(serialized_cell).result is Some && old(self)@.retention.values.contains_key(
                RetainedKey::Serialized(ticket.key),
            ) ==> final(self)@.retention.values[RetainedKey::Serialized(ticket.key)].segment
                == Segment::Protected
                && final(self)@.retention.values[RetainedKey::Serialized(ticket.key)].bytes
                == old(self)@.retention.values[RetainedKey::Serialized(ticket.key)].bytes,
            final(self)@.retention.values.dom() == old(self)@.retention.values.dom(),
            forall|k: RetainedKey|
                k != RetainedKey::Serialized(ticket.key)
                    && #[trigger] old(self)@.retention.values.contains_key(
                    k,
                ) ==> final(self)@.retention.values[k] == old(self)@.retention.values[k],
            old(serialized_cell).result is None ==> final(self)@.retention == old(self)@.retention,
            final(self)@.chunks == old(self)@.chunks,
            final(self)@.dropped == old(self)@.dropped,
            final(self)@.enabled == old(self)@.enabled,
            final(self)@.next_entry == old(self)@.next_entry,
            final(self)@.next_cell == old(self)@.next_cell,
            final(self)@.counters == (CacheCounters {
                serialization_hits: if old(serialized_cell).result is Some {
                    following(old(self)@.counters.serialization_hits)
                } else {
                    old(self)@.counters.serialization_hits
                },
                serialization_misses: if !old(serialized_cell).started {
                    following(old(self)@.counters.serialization_misses)
                } else {
                    old(self)@.counters.serialization_misses
                },
                preparation_misses: if !old(serialized_cell).started {
                    following(old(self)@.counters.preparation_misses)
                } else {
                    old(self)@.counters.preparation_misses
                },
                preparations_in_flight: if !old(serialized_cell).started {
                    following(old(self)@.counters.preparations_in_flight)
                } else {
                    old(self)@.counters.preparations_in_flight
                },
                serialization_waiters: if old(serialized_cell).started
                    && old(serialized_cell).result is None {
                    following(old(self)@.counters.serialization_waiters)
                } else {
                    old(self)@.counters.serialization_waiters
                },
                ..old(self)@.counters
            }),
    {
        let finished: bool = serialized_cell.is_finished();
        if finished {
            self.counters.serialization_hits = self.counters.serialization_hits.wrapping_add(1);
            proof {
                crate::retention::law_upkeep_keeps_settled(
                    self.retention@,
                    RetainedKey::Serialized(ticket.key),
                    0,
                    0,
                );
            }
            self.retention.record_hit(RetainedKey::Serialized(ticket.key));
        }
        if serialized_cell.try_start() {
            self.counters.serialization_misses = self.counters.serialization_misses.wrapping_add(1);
            self.counters.preparation_misses = self.counters.preparation_misses.wrapping_add(1);
            prepared_cell.started = true;
            self.spawn();
            CellVisit::Spawn
        } else {
            if !finished {
                self.counters.serialization_waiters =
                self.counters.serialization_waiters.wrapping_add(1);
            }
            CellVisit::Wait
        }
    }

    /// Put a preparation in flight.
    fn spawn(&mut self)
        ensures
            final(self).retention == old(self).retention,
            final(self).capacity() == old(self).capacity(),
            final(self).threads() == old(self).threads(),
            old(self).wf() ==> final(self).wf(),
            final(self)@ == (CacheModel {
                counters: CacheCounters {
                    preparations_in_flight: following(
                        old(self)@.counters.preparations_in_flight,
                    ),
                    ..old(self)@.counters
                },
                ..old(self)@
            }),
    {
        self.counters.preparations_in_flight = self.counters.preparations_in_flight.wrapping_add(1);
    }

    /// A preparation left flight.
    pub fn finish_preparation(&mut self)
        requires
            old(self).wf(),
        ensures
            final(self).wf(),
            final(self)@.retention.settled(),
            final(self).capacity() == old(self).capacity(),
            final(self).threads() == old(self).threads(),
            final(self)@ == old(self)@.landed(),
            final(self)@.retention == old(self)@.retention,
            final(self)@.chunks == old(self)@.chunks,
            final(self)@.dropped == old(self)@.dropped,
            final(self)@.enabled == old(self)@.enabled,
            final(self)@.next_entry == old(self)@.next_entry,
            final(self)@.next_cell == old(self)@.next_cell,
            final(self)@.counters == (CacheCounters {
                preparations_in_flight: preceding(old(self)@.counters.preparations_in_flight),
                ..old(self)@.counters
            }),
    {
        self.counters.preparations_in_flight = self.counters.preparations_in_flight.wrapping_sub(1);
    }

    /// The cell of the serialized packet has a result: go on with the packet, start
    /// over, or fail. A failed request has its cells forgotten, so the next one tries
    /// again.
    pub fn serialized_arrived(
        &mut self,
        ticket: &PreparationTicket,
        result: Result<Arc<SerializedPacket>, PreparationFailure>,
    ) -> (outcome: PreparationOutcome<CachedSerializedPacket>)
        requires
            old(self).wf(),
        ensures
            final(self).wf(),
            final(self)@.retention.settled(),
            final(self).capacity() == old(self).capacity(),
            final(self).threads() == old(self).threads(),
            match result {
                Ok(packet) => {
                    &&& final(self)@ == old(self)@
                    &&& outcome == PreparationOutcome::Ready(
                        CachedSerializedPacket { key: ticket.key, packet },
                    )
                },
                Err(PreparationFailure::Obsolete) => {
                    &&& final(self)@ == old(self)@
                    &&& outcome == PreparationOutcome::<CachedSerializedPacket>::Retry
                },
                Err(PreparationFailure::Encode(error)) => {
                    &&& final(self)@ == old(self)@.evicted_both(ticket.key, ticket.compression)
                    &&& outcome == PreparationOutcome::<CachedSerializedPacket>::Failed(error)
                },
            },
    {
        match result {
            Ok(packet) => PreparationOutcome::Ready(
                CachedSerializedPacket { key: ticket.key, packet },
            ),
            Err(PreparationFailure::Obsolete) => PreparationOutcome::Retry,
            Err(PreparationFailure::Encode(error)) => {
                self.evict_both(ticket.key, ticket.compression);
                PreparationOutcome::Failed(error)
            },
        }
    }

    /// Visit the cell of the prepared packet of a request whose serialized packet has
    /// arrived. Whoever finds it unstarted has the packet compressed.
    pub fn visit_prepared(
        &mut self,
        ticket: &PreparationTicket,
        prepared_cell: &mut PreparationCell<PreparedPacket>,
    ) -> (visit: CellVisit)
        requires
            old(self).wf(),
        ensures
            final(self).wf(),
            final(self)@.retention.settled(),
            final(self).capacity() == old(self).capacity(),
            final(self).threads() == old(self).threads(),
            final(self)@ == old(self)@.prepared_visited(
                ticket.key,
                ticket.compression,
                old(prepared_cell).started,
                old(prepared_cell).result is Some,
            ),
            visit == (if old(prepared_cell).started {
                CellVisit::Wait
            } else {
                CellVisit::Spawn
            }),
            final(prepared_cell).started,
            final(prepared_cell).result == old(prepared_cell).result,
            old(prepared_cell).result is Some && old(self)@.retention.values.contains_key(
                RetainedKey::Prepared(ticket.key, ticket.compression),
            ) ==> final(self)@.retention.values[RetainedKey::Prepared(ticket.key, ticket.compression)].segment == Segment::Protected && final(self)@.retention.values[RetainedKey::Prepared(ticket.key, ticket.compression)].bytes == old(self)@.retention.values[RetainedKey::Prepared(ticket.key, ticket.compression)].bytes,
            final(self)@.retention.values.dom() == old(self)@.retention.values.dom(),
            forall|k: RetainedKey|
                k != RetainedKey::Prepared(ticket.key, ticket.compression)
                    && #[trigger] old(self)@.retention.values.contains_key(
                    k,
                ) ==> final(self)@.retention.values[k] == old(self)@.retention.values[k],
            old(prepared_cell).result is None ==> final(self)@.retention == old(self)@.retention,
            final(self)@.chunks == old(self)@.chunks,
            final(self)@.dropped == old(self)@.dropped,
            final(self)@.enabled == old(self)@.enabled,
            final(self)@.next_entry == old(self)@.next_entry,
            final(self)@.next_cell == old(self)@.next_cell,
            final(self)@.counters == (CacheCounters {
                preparation_hits: if old(prepared_cell).result is Some {
                    following(old(self)@.counters.preparation_hits)
                } else {
                    old(self)@.counters.preparation_hits
                },
                preparation_misses: if !old(prepared_cell).started {
                    following(old(self)@.counters.preparation_misses)
                } else {
                    old(self)@.counters.preparation_misses
                },
                preparations_in_flight: if !old(prepared_cell).started {
                    following(old(self)@.counters.preparations_in_flight)
                } else {
                    old(self)@.counters.preparations_in_flight
                },
                preparation_waiters: if old(prepared_cell).started
                    && old(prepared_cell).result is None {
                    following(old(self)@.counters.preparation_waiters)
                } else {
                    old(self)@.counters.preparation_waiters
                },
                ..old(self)@.counters
            }),
    {
        let key = RetainedKey::Prepared(ticket.key, ticket.compression);
        let finished: bool = prepared_cell.is_finished();
        if finished {
            self.counters.preparation_hits = self.counters.preparation_hits.wrapping_add(1);
            proof {
                crate::retention::law_upkeep_keeps_settled(self.retention@, key, 0, 0);
            }
            self.retention.record_hit(key);
        }
        if prepared_cell.try_start() {
            self.counters.preparation_misses = self.counters.preparation_misses.wrapping_add(1);
            self.spawn();
            CellVisit::Spawn
        } else {
            if !finished {
                self.counters.preparation_waiters =
                self.counters.preparation_waiters.wrapping_add(1);
            }
            CellVisit::Wait
        }
    }

    /// The cell of the prepared packet has a result: answer the request, start over,
    /// or fail.
    pub fn prepared_arrived(
        &mut self,
        ticket: &PreparationTicket,
        serialized: CachedSerializedPacket,
        result: Result<Arc<PreparedPacket>, PreparationFailure>,
    ) -> (outcome: PreparationOutcome<PreparedChunkPacket>)
        requires
            old(self).wf(),
        ensures
            final(self).wf(),
            final(self)@.retention.settled(),
            final(self).capacity() == old(self).capacity(),
            final(self).threads() == old(self).threads(),
            match result {
                Ok(prepared) => {
                    &&& final(self)@ == old(self)@
                    &&& outcome == PreparationOutcome::Ready(
                        PreparedChunkPacket { serialized, prepared },
                    )
                },
                Err(PreparationFailure::Obsolete) => {
                    &&& final(self)@ == old(self)@
                    &&& outcome == PreparationOutcome::<PreparedChunkPacket>::Retry
                },
                Err(PreparationFailure::Encode(error)) => {
                    &&& final(self)@ == old(self)@.evicted(
                        RetainedKey::Prepared(ticket.key, ticket.compression),
                    )
                    &&& outcome == PreparationOutcome::<PreparedChunkPacket>::Failed(error)
                },
            },
    {
        match result {
            Ok(prepared) => PreparationOutcome::Ready(PreparedChunkPacket { serialized, prepared }),
            Err(PreparationFailure::Obsolete) => PreparationOutcome::Retry,
            Err(PreparationFailure::Encode(error)) => {
                self.evict(RetainedKey::Prepared(ticket.key, ticket.compression));
                PreparationOutcome::Failed(error)
            },
        }
    }

    /// Count a captured snapshot.
    fn capture_snapshot(&mut self, nanos: u128)
        ensures
            final(self).retention == old(self).retention,
            final(self).capacity() == old(self).capacity(),
            final(self).threads() == old(self).threads(),
            old(self).wf() ==> final(self).wf(),
            final(self)@ == old(self)@.snapshot_captured(nanos),
    {
        self.counters.snapshot_captures = self.counters.snapshot_captures.wrapping_add(1);
        self.counters.snapshot_nanos = self.counters.snapshot_nanos.wrapping_add(nanos_u64(nanos));
        assert(self.counters.snapshot_nanos == raised_by_nanos(
            old(self)@.counters.snapshot_nanos,
            nanos,
        ));
    }

    /// Count the time that a serialization took.
    fn time_serialization(&mut self, nanos: u128)
        ensures
            final(self).retention == old(self).retention,
            final(self).capacity() == old(self).capacity(),
            final(self).threads() == old(self).threads(),
            old(self).wf() ==> final(self).wf(),
            final(self)@ == old(self)@.serialization_timed(nanos),
    {
        self.counters.serialization_nanos = self.counters.serialization_nanos.wrapping_add(
            nanos_u64(nanos),
        );
        assert(self.counters.serialization_nanos == raised_by_nanos(
            old(self)@.counters.serialization_nanos,
            nanos,
        ));
    }

    /// Count the time that a compression took.
    fn time_compression(&mut self, nanos: u128)
        ensures
            final(self).retention == old(self).retention,
            final(self).capacity() == old(self).capacity(),
            final(self).threads() == old(self).threads(),
            old(self).wf() ==> final(self).wf(),
            final(self)@ == old(self)@.compression_timed(nanos),
    {
        self.counters.compression_nanos = self.counters.compression_nanos.wrapping_add(
            nanos_u64(nanos),
        );
        assert(self.counters.compression_nanos == raised_by_nanos(
            old(self)@.counters.compression_nanos,
            nanos,
        ));
    }

    /// The winner of a serialized cell has captured a snapshot. Returns whether it is
    /// the snapshot that was asked for; if not, the cells are forgotten before their
    /// waiters learn that they have to start over.
    pub fn winner_captured(
        &mut self,
        ticket: &PreparationTicket,
        snapshot: ChunkSnapshotIdentity,
        nanos: u128,
        serialized_cell: &mut PreparationCell<SerializedPacket>,
        prepared_cell: &mut PreparationCell<PreparedPacket>,
    ) -> (current: bool)
        requires
            old(self).wf(),
        ensures
            final(self).wf(),
            final(self)@.retention.settled(),
            final(self).capacity() == old(self).capacity(),
            final(self).threads() == old(self).threads(),
            current == (snapshot.instance_id == ticket.key.instance_id && snapshot.revision
                == ticket.key.revision),
            current ==> final(self)@.counters == (CacheCounters {
                snapshot_captures: following(old(self)@.counters.snapshot_captures),
                snapshot_nanos: raised_by_nanos(old(self)@.counters.snapshot_nanos, nanos),
                ..old(self)@.counters
            }),
            !current ==> final(self)@.counters == (CacheCounters {
                snapshot_captures: following(old(self)@.counters.snapshot_captures),
                snapshot_nanos: raised_by_nanos(old(self)@.counters.snapshot_nanos, nanos),
                obsolete_snapshot_attempts: following(
                    old(self)@.counters.obsolete_snapshot_attempts,
                ),
                ..old(self)@.counters
            }),
            final(self)@.retention == old(self)@.retention,
            !current ==> final(serialized_cell).started == old(serialized_cell).started,
            !current ==> final(serialized_cell).result == (if old(serialized_cell).result is Some {
                old(serialized_cell).result
            } else {
                Some(Err(PreparationFailure::Obsolete))
            }),
            !current ==> final(prepared_cell).started == old(prepared_cell).started,
            !current ==> final(prepared_cell).result == (if old(prepared_cell).result is Some {
                old(prepared_cell).result
            } else {
                Some(Err(PreparationFailure::Obsolete))
            }),
            current ==> {
                &&& final(self)@ == old(self)@.snapshot_captured(nanos)
                &&& *final(serialized_cell) == *old(serialized_cell)
                &&& *final(prepared_cell) == *old(prepared_cell)
            },
            !current ==> {
                let captured = old(self)@.snapshot_captured(nanos);
                &&& final(self)@ == (CacheModel {
                    counters: CacheCounters {
                        obsolete_snapshot_attempts: following(
                            captured.counters.obsolete_snapshot_attempts,
                        ),
                        ..captured.counters
                    },
                    ..captured
                }).evicted_both(ticket.key, ticket.compression)
                &&& published(
                    *old(serialized_cell),
                    Err(PreparationFailure::Obsolete),
                    *final(serialized_cell),
                )
                &&& published(
                    *old(prepared_cell),
                    Err(PreparationFailure::Obsolete),
                    *final(prepared_cell),
                )
            },
    {
        self.capture_snapshot(nanos);
        if snapshot.instance_id != ticket.key.instance_id || snapshot.revision
            != ticket.key.revision {
            self.counters.obsolete_snapshot_attempts =
            self.counters.obsolete_snapshot_attempts.wrapping_add(1);
            self.evict_both(ticket.key, ticket.compression);
            serialized_cell.finish(Err(PreparationFailure::Obsolete));
            prepared_cell.finish(Err(PreparationFailure::Obsolete));
            return false;
        }
        true
    }

    /// The winner of a serialized cell has serialized its snapshot, or failed to.
    /// Returns the packet to compress; a failure reaches both cells.
    pub fn winner_serialized(
        &mut self,
        ticket: &PreparationTicket,
        result: Result<SerializedPacket, PacketEncodeError>,
        nanos: u128,
        serialized_cell: &mut PreparationCell<SerializedPacket>,
        prepared_cell: &mut PreparationCell<PreparedPacket>,
    ) -> (packet: Option<Arc<SerializedPacket>>)
        requires
            old(self).wf(),
        ensures
            final(self).wf(),
            final(self)@.retention.settled(),
            final(self).capacity() == old(self).capacity(),
            final(self).threads() == old(self).threads(),
            final(self)@.retention == old(self)@.retention,
            result is Ok ==> final(self)@.counters == (CacheCounters {
                serialization_nanos: raised_by_nanos(
                    old(self)@.counters.serialization_nanos,
                    nanos,
                ),
                ..old(self)@.counters
            }),
            result is Err ==> final(self)@.counters == old(self)@.counters,
            result is Err ==> final(serialized_cell).started == old(serialized_cell).started,
            result is Err ==> final(serialized_cell).result == (if old(serialized_cell).result
                is Some {
                old(serialized_cell).result
            } else {
                Some(Err(PreparationFailure::Encode(Arc::new(result->Err_0))))
            }),
            result is Err ==> final(prepared_cell).started == old(prepared_cell).started,
            result is Err ==> final(prepared_cell).result == (if old(prepared_cell).result is Some {
                old(prepared_cell).result
            } else {
                Some(Err(PreparationFailure::Encode(Arc::new(result->Err_0))))
            }),
            match result {
                Ok(serialized) => {
                    &&& packet == Some(Arc::new(serialized))
                    &&& final(self)@ == old(self)@.serialization_timed(nanos)
                    &&& *final(serialized_cell) == *old(serialized_cell)
                    &&& *final(prepared_cell) == *old(prepared_cell)
                },
                Err(error) => {
                    &&& packet is None
                    &&& final(self)@ == old(self)@.evicted_both(ticket.key, ticket.compression)
                    &&& published(
                        *old(serialized_cell),
                        Err(PreparationFailure::Encode(Arc::new(error))),
                        *final(serialized_cell),
                    )
                    &&& published(
                        *old(prepared_cell),
                        Err(PreparationFailure::Encode(Arc::new(error))),
                        *final(prepared_cell),
                    )
                },
            },
    {
        match result {
            Ok(serialized) => {
                self.time_serialization(nanos);
                Some(Arc::new(serialized))
            },
            Err(error) => {
                let failure = PreparationFailure::Encode(Arc::new(error));
                serialized_cell.finish(Err(failure.clone()));
                prepared_cell.finish(Err(failure));
                self.evict_both(ticket.key, ticket.compression);
                None
            },
        }
    }

    /// The winner of a serialized cell has compressed its packet, or failed to. What
    /// was prepared is offered to the retention before the waiters learn of it.
    pub fn winner_prepared(
        &mut self,
        ticket: &PreparationTicket,
        serialized: Arc<SerializedPacket>,
        result: Result<PreparedPacket, PacketEncodeError>,
        nanos: u128,
        serialized_cell: &mut PreparationCell<SerializedPacket>,
        prepared_cell: &mut PreparationCell<PreparedPacket>,
    )
        requires
            old(self).wf(),
        ensures
            final(self).wf(),
            final(self)@.retention.settled(),
            final(self).capacity() == old(self).capacity(),
            final(self).threads() == old(self).threads(),
            published(*old(serialized_cell), Ok(serialized), *final(serialized_cell)),
            final(self)@.counters == (if result is Ok {
                old(self)@.compression_timed(nanos).counters
            } else {
                old(self)@.counters
            }),
            final(serialized_cell).started == old(serialized_cell).started,
            final(serialized_cell).result == (if old(serialized_cell).result is Some {
                old(serialized_cell).result
            } else {
                Some(Ok(serialized))
            }),
            result is Ok ==> final(prepared_cell).started == old(prepared_cell).started,
            result is Ok ==> final(prepared_cell).result == (if old(prepared_cell).result is Some {
                old(prepared_cell).result
            } else {
                Some(Ok(Arc::new(result->Ok_0)))
            }),
            result is Err ==> final(prepared_cell).started == old(prepared_cell).started,
            result is Err ==> final(prepared_cell).result == (if old(prepared_cell).result is Some {
                old(prepared_cell).result
            } else {
                Some(Err(PreparationFailure::Encode(Arc::new(result->Err_0))))
            }),
            result is Ok ==> final(self)@.counters == (CacheCounters {
                compression_nanos: raised_by_nanos(old(self)@.counters.compression_nanos, nanos),
                ..old(self)@.counters
            }),
            result is Err ==> final(self)@.counters == old(self)@.counters,
            match result {
                Ok(prepared) => {
                    &&& final(self)@ == old(self)@.compression_timed(nanos).retained(
                        RetainedKey::Serialized(ticket.key),
                        footprint(serialized@.len(), SERIALIZED_ENTRY_OVERHEAD),
                    ).retained(
                        RetainedKey::Prepared(ticket.key, ticket.compression),
                        footprint(prepared@.len(), PREPARED_ENTRY_OVERHEAD),
                    )
                    &&& published(
                        *old(prepared_cell),
                        Ok(Arc::new(prepared)),
                        *final(prepared_cell),
                    )
                },
                Err(error) => {
                    &&& final(self)@ == old(self)@.retained(
                        RetainedKey::Serialized(ticket.key),
                        footprint(serialized@.len(), SERIALIZED_ENTRY_OVERHEAD),
                    ).evicted(RetainedKey::Prepared(ticket.key, ticket.compression))
                    &&& published(
                        *old(prepared_cell),
                        Err(PreparationFailure::Encode(Arc::new(error))),
                        *final(prepared_cell),
                    )
                },
            },
    {
        let serialized_bytes: usize = serialized.len().saturating_add(SERIALIZED_ENTRY_OVERHEAD);
        let ghost key = RetainedKey::Serialized(ticket.key);
        match result {
            Ok(prepared) => {
                self.time_compression(nanos);
                let prepared_bytes: usize = prepared.len().saturating_add(PREPARED_ENTRY_OVERHEAD);
                proof {
                    law_retaining_counts_nothing(self@, key, serialized_bytes);
                    law_retaining_counts_nothing(
                        self@.retained(key, serialized_bytes),
                        RetainedKey::Prepared(ticket.key, ticket.compression),
                        prepared_bytes,
                    );
                }
                self.retain_if_current(RetainedKey::Serialized(ticket.key), serialized_bytes);
                self.retain_if_current(
                    RetainedKey::Prepared(ticket.key, ticket.compression),
                    prepared_bytes,
                );
                serialized_cell.finish(Ok(serialized));
                prepared_cell.finish(Ok(Arc::new(prepared)));
            },
            Err(error) => {
                proof {
                    law_retaining_counts_nothing(self@, key, serialized_bytes);
                }
                self.retain_if_current(RetainedKey::Serialized(ticket.key), serialized_bytes);
                self.evict(RetainedKey::Prepared(ticket.key, ticket.compression));
                serialized_cell.finish(Ok(serialized));
                prepared_cell.finish(Err(PreparationFailure::Encode(Arc::new(error))));
            },
        }
    }

    /// The winner of a serialized cell panicked: whoever still waits fails, and the
    /// next request tries again.
    pub fn winner_panicked(
        &mut self,
        ticket: &PreparationTicket,
        serialized_cell: &mut PreparationCell<SerializedPacket>,
        prepared_cell: &mut PreparationCell<PreparedPacket>,
    )
        requires
            old(self).wf(),
        ensures
            final(self).wf(),
            final(self)@.retention.settled(),
            final(self).capacity() == old(self).capacity(),
            final(self).threads() == old(self).threads(),
            final(self)@ == old(self)@.evicted_both(ticket.key, ticket.compression),
            final(serialized_cell).started == old(serialized_cell).started,
            old(serialized_cell).result is Some
                ==> final(serialized_cell).result == old(serialized_cell).result,
            old(serialized_cell).result is None ==> (final(serialized_cell).result matches Some(
                Err(PreparationFailure::Encode(error)),
            ) && error.text() == "chunk packet preparation panicked"@),
            final(prepared_cell).started == old(prepared_cell).started,
            old(prepared_cell).result is Some
                ==> final(prepared_cell).result == old(prepared_cell).result,
            old(prepared_cell).result is None ==> (final(prepared_cell).result matches Some(
                Err(PreparationFailure::Encode(error)),
            ) && error.text() == "chunk packet preparation panicked"@),
            final(self)@.retention == old(self)@.retention,
            final(self)@.counters == old(self)@.counters,
            failed_with(
                *old(serialized_cell),
                "chunk packet preparation panicked"@,
                *final(serialized_cell),
            ),
            failed_with(
                *old(prepared_cell),
                "chunk packet preparation panicked"@,
                *final(prepared_cell),
            ),
    {
        let failure = PreparationFailure::Encode(
            Arc::new(PacketEncodeError::new("chunk packet preparation panicked")),
        );
        serialized_cell.finish(Err(failure.clone()));
        prepared_cell.finish(Err(failure));
        self.evict_both(ticket.key, ticket.compression);
    }

    /// The winner of a prepared cell has compressed the packet, or failed to.
    pub fn compression_finished(
        &mut self,
        key: SerializationKey,
        compression: Option<CompressionProfile>,
        result: Result<PreparedPacket, PacketEncodeError>,
        nanos: u128,
        prepared_cell: &mut PreparationCell<PreparedPacket>,
    )
        requires
            old(self).wf(),
        ensures
            final(self).wf(),
            final(self)@.retention.settled(),
            final(self).capacity() == old(self).capacity(),
            final(self).threads() == old(self).threads(),
            final(self)@.counters == old(self)@.compression_timed(nanos).counters,
            result is Ok ==> final(prepared_cell).started == old(prepared_cell).started,
            result is Ok ==> final(prepared_cell).result == (if old(prepared_cell).result is Some {
                old(prepared_cell).result
            } else {
                Some(Ok(Arc::new(result->Ok_0)))
            }),
            result is Err ==> final(prepared_cell).started == old(prepared_cell).started,
            result is Err ==> final(prepared_cell).result == (if old(prepared_cell).result is Some {
                old(prepared_cell).result
            } else {
                Some(Err(PreparationFailure::Encode(Arc::new(result->Err_0))))
            }),
            final(self)@.counters == (CacheCounters {
                compression_nanos: raised_by_nanos(old(self)@.counters.compression_nanos, nanos),
                ..old(self)@.counters
            }),
            match result {
                Ok(prepared) => {
                    &&& final(self)@ == old(self)@.compression_timed(nanos).retained(
                        RetainedKey::Prepared(key, compression),
                        footprint(prepared@.len(), PREPARED_ENTRY_OVERHEAD),
                    )
                    &&& published(
                        *old(prepared_cell),
                        Ok(Arc::new(prepared)),
                        *final(prepared_cell),
                    )
                },
                Err(error) => {
                    &&& final(self)@ == old(self)@.compression_timed(nanos).evicted(
                        RetainedKey::Prepared(key, compression),
                    )
                    &&& published(
                        *old(prepared_cell),
                        Err(PreparationFailure::Encode(Arc::new(error))),
                        *final(prepared_cell),
                    )
                },
            },
    {
        self.time_compression(nanos);
        match result {
            Ok(prepared) => {
                let bytes: usize = prepared.len().saturating_add(PREPARED_ENTRY_OVERHEAD);
                proof {
                    law_retaining_counts_nothing(
                        self@,
                        RetainedKey::Prepared(key, compression),
                        bytes,
                    );
                }
                self.retain_if_current(RetainedKey::Prepared(key, compression), bytes);
                prepared_cell.finish(Ok(Arc::new(prepared)));
            },
            Err(error) => {
                self.evict(RetainedKey::Prepared(key, compression));
                prepared_cell.finish(Err(PreparationFailure::Encode(Arc::new(error))));
            },
        }
    }

    /// The winner of a prepared cell panicked.
    pub fn compression_panicked(
        &mut self,
        key: SerializationKey,
        compression: Option<CompressionProfile>,
        prepared_cell: &mut PreparationCell<PreparedPacket>,
    )
        requires
            old(self).wf(),
        ensures
            final(self).wf(),
            final(self)@.retention.settled(),
            final(self).capacity() == old(self).capacity(),
            final(self).threads() == old(self).threads(),
            final(self)@ == old(self)@.evicted(RetainedKey::Prepared(key, compression)),
            final(prepared_cell).started == old(prepared_cell).started,
            old(prepared_cell).result is Some
                ==> final(prepared_cell).result == old(prepared_cell).result,
            old(prepared_cell).result is None ==> (final(prepared_cell).result matches Some(
                Err(PreparationFailure::Encode(error)),
            ) && error.text() == "chunk packet compression panicked"@),
            final(self)@.retention == old(self)@.retention,
            final(self)@.counters == old(self)@.counters,
            failed_with(
                *old(prepared_cell),
                "chunk packet compression panicked"@,
                *final(prepared_cell),
            ),
    {
        self.evict(RetainedKey::Prepared(key, compression));
        prepared_cell.finish(
            Err(
                PreparationFailure::Encode(
                    Arc::new(PacketEncodeError::new("chunk packet compression panicked")),
                ),
            ),
        );
    }

    /// Begin a preparation that bypasses the cache: a miss on both tiers.
    pub fn prepare_uncached(&mut self)
        requires
            old(self).wf(),
        ensures
            final(self).wf(),
            final(self)@.retention.settled(),
            final(self).capacity() == old(self).capacity(),
            final(self).threads() == old(self).threads(),
            final(self)@ == (CacheModel {
                counters: CacheCounters {
                    serialization_misses: following(old(self)@.counters.serialization_misses),
                    preparation_misses: following(old(self)@.counters.preparation_misses),
                    preparations_in_flight: following(
                        old(self)@.counters.preparations_in_flight,
                    ),
                    ..old(self)@.counters
                },
                ..old(self)@
            }),
    {
        self.counters.serialization_misses = self.counters.serialization_misses.wrapping_add(1);
        self.counters.preparation_misses = self.counters.preparation_misses.wrapping_add(1);
        self.spawn();
    }

    /// A preparation that bypasses the cache has captured a snapshot.
    pub fn uncached_captured(&mut self, nanos: u128)
        requires
            old(self).wf(),
        ensures
            final(self).wf(),
            final(self)@.retention.settled(),
            final(self).capacity() == old(self).capacity(),
            final(self).threads() == old(self).threads(),
            final(self)@ == old(self)@.snapshot_captured(nanos),
            final(self)@.retention == old(self)@.retention,
            final(self)@.chunks == old(self)@.chunks,
            final(self)@.dropped == old(self)@.dropped,
            final(self)@.enabled == old(self)@.enabled,
            final(self)@.next_entry == old(self)@.next_entry,
            final(self)@.next_cell == old(self)@.next_cell,
            final(self)@.counters == (CacheCounters {
                snapshot_captures: following(old(self)@.counters.snapshot_captures),
                snapshot_nanos: raised_by_nanos(old(self)@.counters.snapshot_nanos, nanos),
                ..old(self)@.counters
            }),
    {
        self.capture_snapshot(nanos);
    }

    /// A preparation that bypasses the cache has serialized its snapshot, or failed to:
    /// whatever was captured is what gets sent.
    pub fn uncached_serialized(
        &mut self,
        snapshot: ChunkSnapshotIdentity,
        protocol_version: i32,
        result: Result<SerializedPacket, PacketEncodeError>,
        nanos: u128,
    ) -> (r: Result<CachedSerializedPacket, Arc<PacketEncodeError>>)
        requires
            old(self).wf(),
        ensures
            final(self).wf(),
            final(self)@.retention.settled(),
            final(self).capacity() == old(self).capacity(),
            final(self).threads() == old(self).threads(),
            final(self)@ == old(self)@.serialization_timed(nanos),
            final(self)@.retention == old(self)@.retention,
            final(self)@.chunks == old(self)@.chunks,
            final(self)@.dropped == old(self)@.dropped,
            final(self)@.enabled == old(self)@.enabled,
            final(self)@.next_entry == old(self)@.next_entry,
            final(self)@.next_cell == old(self)@.next_cell,
            final(self)@.counters == (CacheCounters {
                serialization_nanos: raised_by_nanos(
                    old(self)@.counters.serialization_nanos,
                    nanos,
                ),
                ..old(self)@.counters
            }),
            result is Ok ==> r is Ok && r->Ok_0.key.instance_id == snapshot.instance_id
                && r->Ok_0.key.revision == snapshot.revision && r->Ok_0.key.protocol_version
                == protocol_version,
            match result {
                Ok(serialized) => r == Ok::<_, Arc<PacketEncodeError>>(
                    CachedSerializedPacket {
                        key: SerializationKey::of(snapshot, protocol_version),
                        packet: Arc::new(serialized),
                    },
                ),
                Err(error) => r == Err::<CachedSerializedPacket, _>(Arc::new(error)),
            },
    {
        self.time_serialization(nanos);
        match result {
            Ok(serialized) => Ok(
                CachedSerializedPacket {
                    key: SerializationKey::new(snapshot, protocol_version),
                    packet: Arc::new(serialized),
                },
            ),
            Err(error) => Err(Arc::new(error)),
        }
    }

    /// A preparation that bypasses the cache has compressed its packet, or failed to.
    pub fn uncached_prepared(
        &mut self,
        serialized: CachedSerializedPacket,
        result: Result<PreparedPacket, PacketEncodeError>,
        nanos: u128,
    ) -> (r: Result<PreparedChunkPacket, Arc<PacketEncodeError>>)
        requires
            old(self).wf(),
        ensures
            final(self).wf(),
            final(self)@.retention.settled(),
            final(self).capacity() == old(self).capacity(),
            final(self).threads() == old(self).threads(),
            final(self)@ == old(self)@.compression_timed(nanos),
            final(self)@.retention == old(self)@.retention,
            final(self)@.chunks == old(self)@.chunks,
            final(self)@.dropped == old(self)@.dropped,
            final(self)@.enabled == old(self)@.enabled,
            final(self)@.next_entry == old(self)@.next_entry,
            final(self)@.next_cell == old(self)@.next_cell,
            final(self)@.counters == (CacheCounters {
                compression_nanos: raised_by_nanos(old(self)@.counters.compression_nanos, nanos),
                ..old(self)@.counters
            }),
            match result {
                Ok(prepared) => r == Ok::<_, Arc<PacketEncodeError>>(
                    PreparedChunkPacket { serialized, prepared: Arc::new(prepared) },
                ),
                Err(error) => r == Err::<PreparedChunkPacket, _>(Arc::new(error)),
            },
    {
        self.time_compression(nanos);
        match result {
            Ok(prepared) => Ok(PreparedChunkPacket { serialized, prepared: Arc::new(prepared) }),
            Err(error) => Err(Arc::new(error)),
        }
    }

    /// The error of a bypassing preparation that panicked.
    pub fn uncached_panicked() -> (error: Arc<PacketEncodeError>)
        ensures
            error.text() == "uncached chunk packet preparation panicked"@,
    {
        Arc::new(PacketEncodeError::new("uncached chunk packet preparation panicked"))
    }

    /// The error of a bypassing preparation that never answered.
    pub fn uncached_stopped() -> (error: Arc<PacketEncodeError>)
        ensures
            error.text() == "uncached chunk packet preparation task stopped"@,
    {
        Arc::new(PacketEncodeError::new("uncached chunk packet preparation task stopped"))
    }
}

/// An older revision cannot displace a newer one: asking for it changes nothing.
pub proof fn law_older_revision_displaces_nothing(m: CacheModel, identity: ChunkSnapshotIdentity)
    requires
        m.is_outdated(identity),
    ensures
        m.leased(identity) == m,
{
}

/// Leasing a newer revision drops everything that was retained of the revision it
/// replaces, and nothing of other chunks or revisions.
pub proof fn law_replacement_drops_the_old_revision(
    m: CacheModel,
    identity: ChunkSnapshotIdentity,
    key: RetainedKey,
)
    requires
        m.chunks.contains_key(identity.instance_id),
        m.chunks[identity.instance_id].revision < identity.revision,
    ensures
        m.leased(identity).retention.values.contains_key(key) <==> {
            &&& m.retention.values.contains_key(key)
            &&& !key.is_of(identity.instance_id, m.chunks[identity.instance_id].revision)
        },
        m.leased(identity).chunks[identity.instance_id].revision == identity.revision,
        m.leased(identity).chunks[identity.instance_id].all_cells() == Set::<u64>::empty(),
{
    assert(m.leased(identity).chunks[identity.instance_id].all_cells() =~= Set::empty());
}

/// The revision of a chunk's entry never goes down, whatever is leased.
pub proof fn law_revisions_only_rise(
    m: CacheModel,
    identity: ChunkSnapshotIdentity,
    instance_id: u64,
)
    requires
        m.chunks.contains_key(instance_id),
    ensures
        m.leased(identity).chunks.contains_key(instance_id),
        m.chunks[instance_id].revision <= m.leased(identity).chunks[instance_id].revision,
{
}

/// Requests for the same snapshot, version and compression get the same two cells for
/// as long as the cells are not forgotten, so only one of them prepares. A request
/// that follows at once always gets them.
pub proof fn law_same_request_same_cells(
    m: CacheModel,
    later: CacheModel,
    identity: ChunkSnapshotIdentity,
    protocol_version: i32,
    compression: Option<CompressionProfile>,
)
    requires
        !m.is_outdated(identity),
    ensures
        ({
            let first = m.ticket(identity, protocol_version, compression);
            let after = m.leased(identity).with_cells(first.key, compression);
            let next = after.ticket(identity, protocol_version, compression);
            let second = later.ticket(identity, protocol_version, compression);
            let key = first.key;
            &&& next == first
            &&& later.has_entry(identity) && later.chunks[identity.instance_id].cell_of(
                RetainedKey::Serialized(key),
            ) == Some(first.serialized_cell) && later.chunks[identity.instance_id].cell_of(
                RetainedKey::Prepared(key, compression),
            ) == Some(first.prepared_cell) ==> second.serialized_cell == first.serialized_cell
                && second.prepared_cell == first.prepared_cell
        }),
{
}

/// A leased entry outlives evictions: forgetting its last cell removes an entry only
/// when nobody holds a lease on it.
pub proof fn law_leased_entry_stays(m: CacheModel, key: RetainedKey)
    requires
        m.is_current(key),
        m.chunks[key.serialization_of().instance_id].leases > 0,
    ensures
        m.evicted(key).chunks.contains_key(key.serialization_of().instance_id),
{
}

/// Taking a lease on a missing entry and giving it back leaves no trace of it.
pub proof fn law_release_undoes_lease(m: CacheModel, identity: ChunkSnapshotIdentity)
    requires
        !m.chunks.contains_key(identity.instance_id),
    ensures
        ({
            let lease = ChunkEntryLease {
                instance_id: identity.instance_id,
                entry_id: m.leased_id(identity),
            };
            m.leased(identity).released(lease).chunks == m.chunks
        }),
{
    let lease = ChunkEntryLease {
        instance_id: identity.instance_id,
        entry_id: m.leased_id(identity),
    };
    let leased = m.leased(identity);
    let entry = leased.chunks[identity.instance_id];
    let back = EntryModel { leases: preceding(entry.leases), ..entry };
    assert(back.is_idle());
    assert(leased.released(lease).chunks =~= m.chunks);
}

/// A lease on an entry that was replaced since changes nothing when it is given back.
pub proof fn law_stale_lease_changes_nothing(m: CacheModel, lease: ChunkEntryLease)
    requires
        m.chunks.contains_key(lease.instance_id) ==> m.chunks[lease.instance_id].id
            != lease.entry_id,
    ensures
        m.released(lease) == m,
{
}

proof fn lemma_evictions_count_nothing(m: CacheModel, keys: Seq<RetainedKey>)
    ensures
        m.evicted_all(keys).counters == m.counters,
        m.evicted_all(keys).enabled == m.enabled,
        m.evicted_all(keys).retention == m.retention,
        m.evicted_all(keys).next_entry == m.next_entry,
        m.evicted_all(keys).next_cell == m.next_cell,
    decreases keys.len(),
{
    if keys.len() > 0 {
        lemma_evictions_count_nothing(m, keys.drop_last());
    }
}

/// Offering a packet to the retention changes entries, forgotten cells and what is
/// retained, and nothing else: it counts nothing and takes no numbers.
pub proof fn law_retaining_counts_nothing(m: CacheModel, key: RetainedKey, bytes: usize)
    ensures
        m.retained(key, bytes).counters == m.counters,
        m.retained(key, bytes).enabled == m.enabled,
        m.retained(key, bytes).next_entry == m.next_entry,
        m.retained(key, bytes).next_cell == m.next_cell,
        m.retained(key, bytes).retention == (if m.is_current(key) {
            m.retention.admitted(key, bytes)
        } else {
            m.retention
        }),
{
    if m.is_current(key) {
        lemma_evictions_count_nothing(
            CacheModel { retention: m.retention.admitted(key, bytes), ..m },
            m.retention.turned_out(key, bytes),
        );
    }
}

/// Offering packets of an outdated revision changes nothing.
pub proof fn law_outdated_packet_is_not_retained(m: CacheModel, key: RetainedKey, bytes: usize)
    requires
        !m.is_current(key),
    ensures
        m.retained(key, bytes) == m,
{
}

impl CacheModel {
    /// The entry of the chunk refers to the cell.
    pub open spec fn refers_to(self, instance_id: u64, cell: u64) -> bool {
        self.chunks.contains_key(instance_id) && self.chunks[instance_id].all_cells().contains(cell)
    }
}

/// Sweeping removes no entry that refers to a cell.
proof fn lemma_swept_keeps_cells(m: CacheModel, instance_id: u64, entry_id: u64, id: u64, cell: u64)
    requires
        m.refers_to(id, cell),
    ensures
        m.swept(instance_id, entry_id).refers_to(id, cell),
{
    if id == instance_id && m.chunks[id].is_idle() {
        assert(!m.chunks[id].all_cells().contains(cell));
    }
}

/// No cell gets lost: one that an entry referred to is still referred to, or is
/// reported as forgotten, after leasing, evicting and giving back.
pub proof fn law_forgotten_cells_are_reported(
    m: CacheModel,
    id: u64,
    cell: u64,
    identity: ChunkSnapshotIdentity,
    key: RetainedKey,
    lease: ChunkEntryLease,
)
    requires
        m.refers_to(id, cell),
    ensures
        m.leased(identity).refers_to(id, cell) || m.leased(identity).dropped.contains(cell),
        m.evicted(key).refers_to(id, cell) || m.evicted(key).dropped.contains(cell),
        m.released(lease).refers_to(id, cell),
{
    let entry = m.chunks[id];
    if m.is_current(key) {
        let instance_id = key.serialization_of().instance_id;
        let middle = CacheModel {
            chunks: m.chunks.insert(instance_id, m.chunks[instance_id].without_cell(key)),
            dropped: match m.chunks[instance_id].cell_of(key) {
                Some(cell) => m.dropped.insert(cell),
                None => m.dropped,
            },
            ..m
        };
        if !middle.dropped.contains(cell) {
            assert(middle.refers_to(id, cell)) by {
                if id == instance_id {
                    lemma_other_cells_stay(entry, key, cell);
                }
            }
            lemma_swept_keeps_cells(middle, instance_id, m.chunks[instance_id].id, id, cell);
        }
    }
    if m.chunks.contains_key(lease.instance_id) && m.chunks[lease.instance_id].id
        == lease.entry_id {
        let held = m.chunks[lease.instance_id];
        let middle = CacheModel {
            chunks: m.chunks.insert(
                lease.instance_id,
                EntryModel { leases: preceding(held.leases), ..held },
            ),
            ..m
        };
        assert(middle.refers_to(id, cell)) by {
            if id == lease.instance_id {
                assert(middle.chunks[id].all_cells() =~= entry.all_cells());
            }
        }
        lemma_swept_keeps_cells(middle, lease.instance_id, lease.entry_id, id, cell);
    }
    if m.has_entry(identity) && id == identity.instance_id {
        assert(m.leased(identity).chunks[id].all_cells() =~= entry.all_cells());
    }
}

/// Forgetting one cell of an entry leaves the others.
proof fn lemma_other_cells_stay(entry: EntryModel, key: RetainedKey, cell: u64)
    requires
        entry.all_cells().contains(cell),
        entry.cell_of(key) != Some(cell),
    ensures
        entry.without_cell(key).all_cells().contains(cell),
{
    let after = entry.without_cell(key);
    if exists|at: (i32, Option<(usize, u32)>)| #[trigger]
        entry.serialized.contains_key(at) && entry.serialized[at] == cell {
        let at = choose|at: (i32, Option<(usize, u32)>)| #[trigger]
            entry.serialized.contains_key(at) && entry.serialized[at] == cell;
        assert(after.serialized.contains_key(at) && after.serialized[at] == cell);
    } else {
        let at = choose|at: (i32, Option<(usize, u32)>)| #[trigger]
            entry.prepared.contains_key(at) && entry.prepared[at] == cell;
        assert(after.prepared.contains_key(at) && after.prepared[at] == cell);
    }
}

/// Counters go up and down by one and wrap around; a time is added in full where it
/// fits 64 bits, and counts as the largest such number where it does not.
pub proof fn law_counting_in_numbers(n: u64, nanos: u128)
    ensures
        n < u64::MAX ==> following(n) == n + 1,
        n == u64::MAX ==> following(n) == 0,
        n > 0 ==> preceding(n) == n - 1,
        n == 0 ==> preceding(n) == u64::MAX,
        n + nanos <= u64::MAX ==> raised_by_nanos(n, nanos) == n + nanos,
        nanos <= u64::MAX < n + nanos ==> raised_by_nanos(n, nanos) == n + nanos - u64::MAX - 1,
        nanos > u64::MAX && n > 0 ==> raised_by_nanos(n, nanos) == n - 1,
        nanos > u64::MAX && n == 0 ==> raised_by_nanos(n, nanos) == u64::MAX,
{
}

/// What a packet takes of the budget, in numbers: its bytes and a fixed number more.
pub proof fn law_footprints_in_numbers(length: nat)
    ensures
        length + 256 <= usize::MAX ==> footprint(length, SERIALIZED_ENTRY_OVERHEAD) == length + 256,
        length + 256 > usize::MAX ==> footprint(length, SERIALIZED_ENTRY_OVERHEAD) == usize::MAX,
        length + 192 <= usize::MAX ==> footprint(length, PREPARED_ENTRY_OVERHEAD) == length + 192,
        length + 192 > usize::MAX ==> footprint(length, PREPARED_ENTRY_OVERHEAD) == usize::MAX,
{
}

/// Cells are kept by protocol version, threshold and level, and by nothing else.
pub proof fn law_cells_are_told_apart(
    v: i32,
    a: Option<CompressionProfile>,
    w: i32,
    b: Option<CompressionProfile>,
)
    ensures
        cell_key(v, a) == cell_key(w, b) <==> v == w && a == b,
        cell_key(v, None) == (v, None::<(usize, u32)>),
        a matches Some(profile) ==> cell_key(v, a) == (v, Some((profile.threshold, profile.level))),
{
}

/// What a lease changes, field by field: nothing where the chunk has a newer
/// revision; one more lease where it has this one; otherwise there is a fresh entry
/// with the next number, and of an older revision nothing stays retained and every
/// cell is reported.
pub proof fn law_lease_in_fields(m: CacheModel, identity: ChunkSnapshotIdentity)
    ensures
        ({
            let id = identity.instance_id;
            let held = m.chunks[id];
            let after = m.leased(identity);
            &&& m.chunks.contains_key(id) && held.revision > identity.revision ==> after == m
            &&& m.chunks.contains_key(id) && held.revision == identity.revision ==> {
                &&& m.leased_id(identity) == held.id
                &&& after.chunks == m.chunks.insert(
                    id,
                    EntryModel {
                        id: held.id,
                        leases: following(held.leases),
                        revision: held.revision,
                        serialized: held.serialized,
                        prepared: held.prepared,
                    },
                )
                &&& after.retention == m.retention
                &&& after.dropped == m.dropped
                &&& after.next_entry == m.next_entry
            }
            &&& !m.chunks.contains_key(id) || held.revision < identity.revision ==> {
                &&& m.leased_id(identity) == m.next_entry
                &&& after.chunks == m.chunks.insert(
                    id,
                    EntryModel {
                        id: m.next_entry,
                        leases: 1,
                        revision: identity.revision,
                        serialized: Map::empty(),
                        prepared: Map::empty(),
                    },
                )
                &&& after.next_entry == following(m.next_entry)
            }
            &&& !m.chunks.contains_key(id) ==> after.retention == m.retention && after.dropped
                == m.dropped
            &&& m.chunks.contains_key(id) && held.revision < identity.revision ==> {
                &&& forall|k: RetainedKey| #[trigger]
                    after.retention.values.contains_key(k) <==> m.retention.values.contains_key(k)
                        && !(match k {
                        RetainedKey::Serialized(key) => key.instance_id == id && key.revision
                            == held.revision,
                        RetainedKey::Prepared(key, _) => key.instance_id == id && key.revision
                            == held.revision,
                    })
                &&& forall|k: RetainedKey| #[trigger]
                    after.retention.values.contains_key(k) ==> after.retention.values[k]
                        == m.retention.values[k]
                &&& forall|c: u64| #[trigger]
                    after.dropped.contains(c) <==> m.dropped.contains(c)
                        || held.serialized.contains_value(c) || held.prepared.contains_value(c)
            }
            &&& after.enabled == m.enabled
            &&& after.next_cell == m.next_cell
            &&& after.counters == m.counters
        }),
{
    let id = identity.instance_id;
    let held = m.chunks[id];
    let after = m.leased(identity);
    if m.chunks.contains_key(id) && held.revision < identity.revision {
        assert forall|c: u64| #[trigger]
            after.dropped.contains(c) <==> m.dropped.contains(c) || held.serialized.contains_value(
                c,
            ) || held.prepared.contains_value(c) by {
            if held.serialized.contains_value(c) {
                let at = choose|at: (i32, Option<(usize, u32)>)| #[trigger]
                    held.serialized.dom().contains(at) && held.serialized[at] == c;
                assert(held.serialized.contains_key(at));
            }
            if held.prepared.contains_value(c) {
                let at = choose|at: (i32, Option<(usize, u32)>)| #[trigger]
                    held.prepared.dom().contains(at) && held.prepared[at] == c;
                assert(held.prepared.contains_key(at));
            }
            if held.all_cells().contains(c) {
                if exists|at: (i32, Option<(usize, u32)>)| #[trigger]
                    held.serialized.contains_key(at) && held.serialized[at] == c {
                    let at = choose|at: (i32, Option<(usize, u32)>)| #[trigger]
                        held.serialized.contains_key(at) && held.serialized[at] == c;
                    assert(held.serialized.dom().contains(at));
                } else {
                    let at = choose|at: (i32, Option<(usize, u32)>)| #[trigger]
                        held.prepared.contains_key(at) && held.prepared[at] == c;
                    assert(held.prepared.dom().contains(at));
                }
            }
        }
    }
}

/// What the cells of a request are, field by field: those that the entry has for the
/// protocol version and the compression, and the next numbers where it has none.
pub proof fn law_cells_in_fields(
    m: CacheModel,
    key: SerializationKey,
    compression: Option<CompressionProfile>,
)
    requires
        m.chunks.contains_key(key.instance_id),
        m.next_cell <= u64::MAX - 2,
    ensures
        ({
            let shared = (key.protocol_version, None::<(usize, u32)>);
            let own = match compression {
                Some(profile) => (key.protocol_version, Some((profile.threshold, profile.level))),
                None => shared,
            };
            let held = m.chunks[key.instance_id];
            let after = m.with_cells(key, compression);
            let entry = after.chunks[key.instance_id];
            let made: int = if held.serialized.contains_key(shared) {
                0
            } else {
                1
            };
            &&& after.chunks == m.chunks.insert(key.instance_id, entry)
            &&& entry.id == held.id
            &&& entry.leases == held.leases
            &&& entry.revision == held.revision
            &&& held.serialized.contains_key(shared) ==> entry.serialized == held.serialized
            &&& !held.serialized.contains_key(shared) ==> entry.serialized
                == held.serialized.insert(shared, m.next_cell)
            &&& held.prepared.contains_key(own) ==> entry.prepared == held.prepared
                && after.next_cell == m.next_cell + made
            &&& !held.prepared.contains_key(own) ==> entry.prepared == held.prepared.insert(
                own,
                (m.next_cell + made) as u64,
            ) && after.next_cell == m.next_cell + made + 1
            &&& after.retention == m.retention
            &&& after.dropped == m.dropped
            &&& after.enabled == m.enabled
            &&& after.next_entry == m.next_entry
            &&& after.counters == m.counters
        }),
{
}

/// What giving a lease back changes, field by field: the entry has one lease less,
/// and goes where that was the last one and it has no cells.
pub proof fn law_release_in_fields(m: CacheModel, lease: ChunkEntryLease)
    ensures
        ({
            let id = lease.instance_id;
            let held = m.chunks[id];
            let after = m.released(lease);
            let ours = m.chunks.contains_key(id) && held.id == lease.entry_id;
            let last = held.leases == 1 && held.serialized.dom() == Set::<
                (i32, Option<(usize, u32)>),
            >::empty() && held.prepared.dom() == Set::<(i32, Option<(usize, u32)>)>::empty();
            &&& !ours ==> after == m
            &&& ours && last ==> after.chunks == m.chunks.remove(id)
            &&& ours && !last ==> after.chunks == m.chunks.insert(
                id,
                EntryModel {
                    id: held.id,
                    leases: preceding(held.leases),
                    revision: held.revision,
                    serialized: held.serialized,
                    prepared: held.prepared,
                },
            )
            &&& after.retention == m.retention
            &&& after.dropped == m.dropped
            &&& after.enabled == m.enabled
            &&& after.next_entry == m.next_entry
            &&& after.next_cell == m.next_cell
            &&& after.counters == m.counters
        }),
{
    let id = lease.instance_id;
    let held = m.chunks[id];
    if m.chunks.contains_key(id) && held.id == lease.entry_id {
        if held.serialized.dom() == Set::<(i32, Option<(usize, u32)>)>::empty() {
            assert(held.serialized =~= Map::empty());
        }
        if held.prepared.dom() == Set::<(i32, Option<(usize, u32)>)>::empty() {
            assert(held.prepared =~= Map::empty());
        }
        let entry = EntryModel { leases: preceding(held.leases), ..held };
        let middle = m.chunks.insert(id, entry);
        assert(middle.remove(id) =~= m.chunks.remove(id));
    }
}

/// What forgetting a packet changes, field by field: where its revision is current
/// its cell goes and is reported, and no other; the entry goes where it has no lease
/// and no cells left.
pub proof fn law_eviction_in_fields(m: CacheModel, key: RetainedKey)
    ensures
        ({
            let of = match key {
                RetainedKey::Serialized(key) => key,
                RetainedKey::Prepared(key, _) => key,
            };
            let shared = (of.protocol_version, None::<(usize, u32)>);
            let at = match key {
                RetainedKey::Prepared(_, Some(profile)) => (
                    of.protocol_version,
                    Some((profile.threshold, profile.level)),
                ),
                _ => shared,
            };
            let id = of.instance_id;
            let held = m.chunks[id];
            let after = m.evicted(key);
            let serialized = if key is Serialized {
                held.serialized.remove(at)
            } else {
                held.serialized
            };
            let prepared = if key is Serialized {
                held.prepared
            } else {
                held.prepared.remove(at)
            };
            let cells = if key is Serialized {
                held.serialized
            } else {
                held.prepared
            };
            let current = m.chunks.contains_key(id) && held.revision == of.revision;
            let idle = held.leases == 0 && serialized.dom() == Set::<
                (i32, Option<(usize, u32)>),
            >::empty() && prepared.dom() == Set::<(i32, Option<(usize, u32)>)>::empty();
            &&& !current ==> after == m
            &&& current && idle ==> after.chunks == m.chunks.remove(id)
            &&& current && !idle ==> after.chunks == m.chunks.insert(
                id,
                EntryModel {
                    id: held.id,
                    leases: held.leases,
                    revision: held.revision,
                    serialized,
                    prepared,
                },
            )
            &&& current && cells.contains_key(at) ==> after.dropped == m.dropped.insert(cells[at])
            &&& current && !cells.contains_key(at) ==> after.dropped == m.dropped
            &&& after.retention == m.retention
            &&& after.enabled == m.enabled
            &&& after.next_entry == m.next_entry
            &&& after.next_cell == m.next_cell
            &&& after.counters == m.counters
        }),
{
    let id = key.serialization_of().instance_id;
    let held = m.chunks[id];
    let entry = held.without_cell(key);
    if m.is_current(key) {
        if entry.serialized.dom() == Set::<(i32, Option<(usize, u32)>)>::empty() {
            assert(entry.serialized =~= Map::empty());
        }
        if entry.prepared.dom() == Set::<(i32, Option<(usize, u32)>)>::empty() {
            assert(entry.prepared =~= Map::empty());
        }
        let middle = m.chunks.insert(id, entry);
        assert(middle.remove(id) =~= m.chunks.remove(id));
    }
}

/// A request that failed leaves no cell behind: whoever asks next for the same
/// revision gets cells that nobody has filled.
pub proof fn law_failed_request_leaves_no_cells(
    m: CacheModel,
    key: SerializationKey,
    compression: Option<CompressionProfile>,
)
    requires
        m.chunks.contains_key(key.instance_id),
        m.chunks[key.instance_id].revision == key.revision,
    ensures
        ({
            let shared = (key.protocol_version, None::<(usize, u32)>);
            let own = match compression {
                Some(profile) => (key.protocol_version, Some((profile.threshold, profile.level))),
                None => shared,
            };
            let held = m.chunks[key.instance_id];
            let after = m.evicted_both(key, compression);
            &&& after.chunks.contains_key(key.instance_id)
                ==> !after.chunks[key.instance_id].serialized.contains_key(shared)
                && !after.chunks[key.instance_id].prepared.contains_key(own)
            &&& held.leases > 0 ==> after.chunks.contains_key(key.instance_id)
            &&& held.leases > 0 && held.serialized.contains_key(shared) ==> after.dropped.contains(
                held.serialized[shared],
            )
            &&& held.leases > 0 && held.prepared.contains_key(own) ==> after.dropped.contains(
                held.prepared[own],
            )
            &&& after.retention == m.retention
            &&& after.counters == m.counters
        }),
{
    law_eviction_in_fields(m, RetainedKey::Serialized(key));
    law_eviction_in_fields(
        m.evicted(RetainedKey::Serialized(key)),
        RetainedKey::Prepared(key, compression),
    );
}

/// The cell of a key in the entry of its revision.
pub open spec fn is_cell_of(m: CacheModel, key: RetainedKey, cell: u64) -> bool {
    match key {
        RetainedKey::Serialized(of) => {
            let at = cell_key(of.protocol_version, None);
            &&& m.chunks.contains_key(of.instance_id)
            &&& m.chunks[of.instance_id].revision == of.revision
            &&& m.chunks[of.instance_id].serialized.contains_key(at)
            &&& m.chunks[of.instance_id].serialized[at] == cell
        },
        RetainedKey::Prepared(of, compression) => {
            let at = cell_key(of.protocol_version, compression);
            &&& m.chunks.contains_key(of.instance_id)
            &&& m.chunks[of.instance_id].revision == of.revision
            &&& m.chunks[of.instance_id].prepared.contains_key(at)
            &&& m.chunks[of.instance_id].prepared[at] == cell
        },
    }
}

proof fn lemma_evictions(m: CacheModel, keys: Seq<RetainedKey>, key: RetainedKey, cell: u64)
    ensures
        is_cell_of(m.evicted_all(keys), key, cell) <==> is_cell_of(m, key, cell) && !keys.contains(
            key,
        ),
    decreases keys.len(),
{
    if keys.len() > 0 {
        let (init, last) = (keys.drop_last(), keys.last());
        let before = m.evicted_all(init);
        lemma_evictions(m, init, key, cell);
        assert(keys.contains(key) <==> init.contains(key) || key == last) by {
            if keys.contains(key) && key != last {
                assert(init[keys.index_of(key)] == key);
            }
            if init.contains(key) {
                assert(keys[init.index_of(key)] == key);
            }
            assert(keys[keys.len() - 1] == last);
        }
        law_eviction_in_fields(before, last);
    }
}

/// What offering a finished packet changes, in numbers: the cells of what has to go
/// are forgotten and all others stay; one above an eighth of the budget goes itself;
/// one that the budget has room for is retained, and nothing is forgotten.
pub proof fn law_retaining_in_numbers(m: CacheModel, key: RetainedKey, bytes: usize)
    requires
        m.retention.settled(),
    ensures
        ({
            let of = match key {
                RetainedKey::Serialized(key) => key,
                RetainedKey::Prepared(key, _) => key,
            };
            let current = m.chunks.contains_key(of.instance_id)
                && m.chunks[of.instance_id].revision == of.revision;
            let after = m.retained(key, bytes);
            let kept = m.retention.values;
            let budget = m.retention.capacity;
            &&& !current ==> after == m
            &&& current && (budget == 0 || bytes > budget / 8) ==> after.retention.values
                == kept.remove(key) && forall|cell: u64| !#[trigger] is_cell_of(after, key, cell)
            &&& current && budget > 0 && 8 * bytes <= budget && crate::retention::total_bytes(
                kept.remove(key),
            ) + bytes <= budget ==> {
                &&& after.retention.values == kept.insert(
                    key,
                    RetainedValue { bytes, segment: Segment::Probationary },
                )
                &&& after.chunks == m.chunks
                &&& after.dropped == m.dropped
            }
            &&& current ==> forall|k: RetainedKey, cell: u64|
                k != key && kept.contains_key(k) ==> (#[trigger] is_cell_of(after, k, cell)
                    <==> is_cell_of(m, k, cell) && after.retention.values.contains_key(k))
            &&& current ==> forall|cell: u64| #[trigger]
                is_cell_of(after, key, cell) <==> is_cell_of(m, key, cell)
                    && after.retention.values.contains_key(key)
            &&& after.counters == m.counters
        }),
{
    law_retaining_counts_nothing(m, key, bytes);
    if m.is_current(key) {
        let start = CacheModel { retention: m.retention.admitted(key, bytes), ..m };
        let out = m.retention.turned_out(key, bytes);
        let after = m.retained(key, bytes);
        crate::retention::law_offer_in_numbers(m.retention, key, bytes);
        crate::retention::law_turned_out_keys_are_gone(m.retention, key, bytes, key);
        assert forall|k: RetainedKey, cell: u64|
            k != key && m.retention.values.contains_key(k) implies (#[trigger] is_cell_of(
            after,
            k,
            cell,
        ) <==> is_cell_of(m, k, cell) && after.retention.values.contains_key(k)) by {
            lemma_evictions(start, out, k, cell);
            crate::retention::law_turned_out_keys_are_gone(m.retention, key, bytes, k);
        }
        assert forall|cell: u64| #[trigger]
            is_cell_of(after, key, cell) <==> is_cell_of(m, key, cell)
                && after.retention.values.contains_key(key) by {
            lemma_evictions(start, out, key, cell);
        }
    }
}

/// A packet that a request found finished outlives the packets of its kind that were
/// asked for once, whatever is retained next.
pub proof fn law_visited_packet_outlives_unvisited(
    m: CacheModel,
    hot: SerializationKey,
    compression: Option<CompressionProfile>,
    cold: RetainedKey,
    key: RetainedKey,
    bytes: usize,
)
    requires
        m.retention.settled(),
        cold != key ==> m.retention.values.contains_key(cold) && m.retention.values[cold].segment
            == Segment::Probationary,
    ensures
        ({
            let packet = RetainedKey::Serialized(hot);
            let after = m.serialized_visited(hot, true, true).retained(key, bytes);
            cold is Serialized && cold != packet && key != packet
                && m.retention.values.contains_key(packet) && after.retention.values.contains_key(
                cold,
            ) ==> after.retention.values.contains_key(packet)
        }),
        ({
            let packet = RetainedKey::Prepared(hot, compression);
            let after = m.prepared_visited(hot, compression, true, true).retained(key, bytes);
            cold is Prepared && cold != packet && key != packet
                && m.retention.values.contains_key(packet) && after.retention.values.contains_key(
                cold,
            ) ==> after.retention.values.contains_key(packet)
        }),
{
    lemma_visited_packet_outlives(m, RetainedKey::Serialized(hot), cold, key, bytes);
    lemma_visited_packet_outlives(m, RetainedKey::Prepared(hot, compression), cold, key, bytes);
    law_retaining_counts_nothing(m.serialized_visited(hot, true, true), key, bytes);
    law_retaining_counts_nothing(m.prepared_visited(hot, compression, true, true), key, bytes);
}

proof fn lemma_visited_packet_outlives(
    m: CacheModel,
    hot: RetainedKey,
    cold: RetainedKey,
    key: RetainedKey,
    bytes: usize,
)
    requires
        m.retention.settled(),
        cold != key ==> m.retention.values.contains_key(cold) && m.retention.values[cold].segment
            == Segment::Probationary,
    ensures
        (cold is Serialized) == (hot is Serialized) && cold != hot && key != hot
            && m.retention.values.contains_key(hot) && m.retention.hit(hot).admitted(
            key,
            bytes,
        ).values.contains_key(cold) ==> m.retention.hit(hot).admitted(
            key,
            bytes,
        ).values.contains_key(hot),
{
    crate::retention::law_upkeep_keeps_settled(m.retention, hot, 0, 0);
    let visited = m.retention.hit(hot);
    if (cold is Serialized) == (hot is Serialized) && cold != hot && key != hot
        && m.retention.values.contains_key(hot) {
        crate::retention::law_asked_again_outlives_asked_once(visited, key, bytes, hot, cold);
    }
}

/// A retained packet that a request finds finished is protected from then on, with
/// its bytes, and whatever else is retained stays as it was; a request that finds it
/// unfinished leaves all of that alone.
pub proof fn law_visit_protects(
    m: CacheModel,
    key: SerializationKey,
    compression: Option<CompressionProfile>,
    started: bool,
)
    requires
        m.retention.settled(),
    ensures
        m.retention.values.contains_key(RetainedKey::Serialized(key)) ==> m.serialized_visited(
            key,
            started,
            true,
        ).retention.values == m.retention.values.insert(
            RetainedKey::Serialized(key),
            RetainedValue {
                bytes: m.retention.values[RetainedKey::Serialized(key)].bytes,
                segment: Segment::Protected,
            },
        ),
        m.retention.values.contains_key(RetainedKey::Prepared(key, compression))
            ==> m.prepared_visited(key, compression, started, true).retention.values
            == m.retention.values.insert(
            RetainedKey::Prepared(key, compression),
            RetainedValue {
                bytes: m.retention.values[RetainedKey::Prepared(key, compression)].bytes,
                segment: Segment::Protected,
            },
        ),
        m.serialized_visited(key, started, false).retention == m.retention,
        m.prepared_visited(key, compression, started, false).retention == m.retention,
{
    if m.retention.values.contains_key(RetainedKey::Serialized(key)) {
        crate::retention::law_asked_again_is_protected(m.retention, RetainedKey::Serialized(key));
    }
    if m.retention.values.contains_key(RetainedKey::Prepared(key, compression)) {
        crate::retention::law_asked_again_is_protected(
            m.retention,
            RetainedKey::Prepared(key, compression),
        );
    }
}

} // verus!
