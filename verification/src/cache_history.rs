//! What holds of the packet cache over a whole history: every request keeps to cells
//! of its own, every answer was prepared for the request that gets it, and what is
//! left in the cache is what the retention keeps.
use crate::chunk_packet_cache::{
    CacheCounters, CacheModel, CellPlace, ChunkEntryLease, EntryModel, PreparationTicket,
};
use crate::packets::{
    ChunkSnapshotIdentity, CompressionProfile, PreparationFailure, PreparedPacket,
    SerializationKey, SerializedPacket,
};
use crate::retention::RetainedKey;
use std::sync::Arc;
use vstd::prelude::*;

verus! {

/// A change of the cache. Every public step of the cache is made of these.
pub enum CacheStep {
    /// The entry of a snapshot is leased.
    Lease(ChunkSnapshotIdentity),
    /// A lease is given back.
    Release(ChunkEntryLease),
    /// The cell of a key is forgotten.
    Evict(RetainedKey),
    /// A finished packet is offered to the retention.
    Retain(RetainedKey, usize),
    /// A retained packet is asked for again.
    Hit(RetainedKey),
    /// The counters change.
    Count(CacheCounters),
    /// The forgotten cells are reported.
    Report,
}

impl CacheModel {
    /// A request for the snapshot goes through the cache.
    pub open spec fn proceeds(self, identity: ChunkSnapshotIdentity) -> bool {
        self.enabled && self.has_numbers() && !self.is_outdated(identity)
    }

    /// The cache after a request for a packet; one for an outdated snapshot changes
    /// nothing.
    pub open spec fn requested(
        self,
        identity: ChunkSnapshotIdentity,
        protocol_version: i32,
        compression: Option<CompressionProfile>,
    ) -> CacheModel {
        if self.is_outdated(identity) {
            self
        } else {
            self.leased(identity).with_cells(
                SerializationKey::of(identity, protocol_version),
                compression,
            )
        }
    }

    /// The cache after a change.
    pub open spec fn after(self, step: CacheStep) -> CacheModel {
        match step {
            CacheStep::Lease(identity) => self.leased(identity),
            CacheStep::Release(lease) => self.released(lease),
            CacheStep::Evict(key) => self.evicted(key),
            CacheStep::Retain(key, bytes) => self.retained(key, bytes),
            CacheStep::Hit(key) => self.hit(key),
            CacheStep::Count(counters) => CacheModel { counters, ..self },
            CacheStep::Report => CacheModel { dropped: Set::empty(), ..self },
        }
    }

    /// The cells of `self` are cells of `before`, in the same places and of the same
    /// revisions, and the numbers that were used stay used.
    pub open spec fn keeps_to(self, before: CacheModel) -> bool {
        &&& self.next_cell == before.next_cell
        &&& forall|place: CellPlace| #[trigger]
            self.holds_cell(place) ==> {
                &&& before.holds_cell(place)
                &&& before.cell_at(place) == self.cell_at(place)
                &&& before.chunks[place.instance_id].revision
                    == self.chunks[place.instance_id].revision
            }
    }

    proof fn lemma_keeping_keeps_distinct(self, before: CacheModel)
        requires
            before.cells_are_distinct(),
            self.keeps_to(before),
        ensures
            self.cells_are_distinct(),
    {
    }

    proof fn lemma_evicted_keeps_to(self, key: RetainedKey)
        ensures
            self.evicted(key).keeps_to(self),
    {
        let after = self.evicted(key);
        assert forall|place: CellPlace| #[trigger] after.holds_cell(place) implies {
            &&& self.holds_cell(place)
            &&& self.cell_at(place) == after.cell_at(place)
            &&& self.chunks[place.instance_id].revision
                == after.chunks[place.instance_id].revision
        } by {}
    }

    proof fn lemma_evicted_all_keeps_to(self, keys: Seq<RetainedKey>)
        ensures
            self.evicted_all(keys).keeps_to(self),
        decreases keys.len(),
    {
        if keys.len() > 0 {
            let middle = self.evicted_all(keys.drop_last());
            self.lemma_evicted_all_keeps_to(keys.drop_last());
            middle.lemma_evicted_keeps_to(keys.last());
            let after = self.evicted_all(keys);
            assert forall|place: CellPlace| #[trigger] after.holds_cell(place) implies {
                &&& self.holds_cell(place)
                &&& self.cell_at(place) == after.cell_at(place)
                &&& self.chunks[place.instance_id].revision
                    == after.chunks[place.instance_id].revision
            } by {
                assert(middle.holds_cell(place));
            }
        }
    }

    /// No change but a request makes cells.
    proof fn lemma_step_keeps_to(self, step: CacheStep)
        ensures
            self.after(step).keeps_to(self),
    {
        match step {
            CacheStep::Evict(key) => self.lemma_evicted_keeps_to(key),
            CacheStep::Retain(key, bytes) => {
                if self.is_current(key) {
                    let admitted = CacheModel {
                        retention: self.retention.admitted(key, bytes),
                        ..self
                    };
                    let keys = self.retention.turned_out(key, bytes);
                    admitted.lemma_evicted_all_keeps_to(keys);
                    let after = admitted.evicted_all(keys);
                    assert(after == self.after(step));
                    assert forall|place: CellPlace| #[trigger] after.holds_cell(place) implies {
                        &&& self.holds_cell(place)
                        &&& self.cell_at(place) == after.cell_at(place)
                        &&& self.chunks[place.instance_id].revision
                            == after.chunks[place.instance_id].revision
                    } by {
                        assert(admitted.holds_cell(place));
                        assert(self.holds_cell(place));
                    }
                }
            },
            _ => {
                let after = self.after(step);
                assert forall|place: CellPlace| #[trigger] after.holds_cell(place) implies {
                    &&& self.holds_cell(place)
                    &&& self.cell_at(place) == after.cell_at(place)
                    &&& self.chunks[place.instance_id].revision
                        == after.chunks[place.instance_id].revision
                } by {}
            },
        }
    }
}

/// What the steps of the cache are made of: a visit is a hit where the cell is finished,
/// and counts; captures, times and ends of preparations only count; a failed request
/// has the cells of both tiers evicted.
pub proof fn law_steps_are_made_of_changes(
    m: CacheModel,
    key: SerializationKey,
    compression: Option<CompressionProfile>,
    started: bool,
    finished: bool,
    nanos: u128,
)
    ensures
        ({
            let after = m.serialized_visited(key, started, finished);
            let hit = if finished {
                m.after(CacheStep::Hit(RetainedKey::Serialized(key)))
            } else {
                m
            };
            after == hit.after(CacheStep::Count(after.counters))
        }),
        ({
            let after = m.prepared_visited(key, compression, started, finished);
            let hit = if finished {
                m.after(CacheStep::Hit(RetainedKey::Prepared(key, compression)))
            } else {
                m
            };
            after == hit.after(CacheStep::Count(after.counters))
        }),
        m.snapshot_captured(nanos) == m.after(
            CacheStep::Count(m.snapshot_captured(nanos).counters),
        ),
        m.serialization_timed(nanos) == m.after(
            CacheStep::Count(m.serialization_timed(nanos).counters),
        ),
        m.compression_timed(nanos) == m.after(
            CacheStep::Count(m.compression_timed(nanos).counters),
        ),
        m.landed() == m.after(CacheStep::Count(m.landed().counters)),
        m.evicted_both(key, compression) == m.after(
            CacheStep::Evict(RetainedKey::Serialized(key)),
        ).after(CacheStep::Evict(RetainedKey::Prepared(key, compression))),
{
}

/// The place of the serialized cell of a request.
pub open spec fn serialized_place(key: SerializationKey) -> CellPlace {
    CellPlace {
        instance_id: key.instance_id,
        prepared: false,
        at: crate::chunk_packet_cache::cell_key(key.protocol_version, None),
    }
}

/// The place of the prepared cell of a request.
pub open spec fn prepared_place(
    key: SerializationKey,
    compression: Option<CompressionProfile>,
) -> CellPlace {
    CellPlace {
        instance_id: key.instance_id,
        prepared: true,
        at: crate::chunk_packet_cache::cell_key(key.protocol_version, compression),
    }
}

impl CacheModel {
    /// What a request does to the cells: those in other places stay or go, those of
    /// the request are there, and one that is new has a number not used before.
    proof fn lemma_requested(
        self,
        identity: ChunkSnapshotIdentity,
        protocol_version: i32,
        compression: Option<CompressionProfile>,
    )
        requires
            !self.is_outdated(identity),
            self.has_numbers(),
            forall|place: CellPlace| #[trigger]
                self.holds_cell(place) ==> self.cell_at(place) < self.next_cell,
        ensures
            ({
                let after = self.requested(identity, protocol_version, compression);
                let ticket = self.ticket(identity, protocol_version, compression);
                let s = serialized_place(ticket.key);
                let p = prepared_place(ticket.key, compression);
                &&& self.next_cell <= after.next_cell <= self.next_cell + 2
                &&& after.holds_cell(s) && after.cell_at(s) == ticket.serialized_cell
                &&& after.holds_cell(p) && after.cell_at(p) == ticket.prepared_cell
                &&& after.has_entry(identity)
                &&& forall|place: CellPlace| #[trigger]
                    after.holds_cell(place) ==> {
                        ||| {
                            &&& self.holds_cell(place)
                            &&& self.cell_at(place) == after.cell_at(place)
                            &&& self.chunks[place.instance_id].revision
                                == after.chunks[place.instance_id].revision
                        }
                        ||| {
                            &&& place == s || place == p
                            &&& self.next_cell <= after.cell_at(place) < after.next_cell
                        }
                    }
                &&& after.cell_at(s) >= self.next_cell && after.cell_at(p) >= self.next_cell
                    ==> after.cell_at(s) != after.cell_at(p)
            }),
    {
        let leased = self.leased(identity);
        let after = self.requested(identity, protocol_version, compression);
        let ticket = self.ticket(identity, protocol_version, compression);
        let s = serialized_place(ticket.key);
        let p = prepared_place(ticket.key, compression);
        self.lemma_step_keeps_to(CacheStep::Lease(identity));
        assert(leased.chunks.contains_key(identity.instance_id));
        assert(leased.has_entry(identity));
        assert forall|place: CellPlace| #[trigger] after.holds_cell(place) implies {
            ||| {
                &&& self.holds_cell(place)
                &&& self.cell_at(place) == after.cell_at(place)
                &&& self.chunks[place.instance_id].revision
                    == after.chunks[place.instance_id].revision
            }
            ||| {
                &&& place == s || place == p
                &&& self.next_cell <= after.cell_at(place) < after.next_cell
            }
        } by {
            if leased.holds_cell(place) {
                assert(self.holds_cell(place));
            } else {
                assert(place == s || place == p);
            }
        }
        assert(leased.holds_cell(s) ==> self.holds_cell(s));
        assert(leased.holds_cell(p) ==> self.holds_cell(p));
    }
}

/// The cells keep numbers of their own through every change. Once the numbers have run
/// out, no request makes cells.
pub proof fn law_cells_stay_distinct(
    m: CacheModel,
    identity: ChunkSnapshotIdentity,
    protocol_version: i32,
    compression: Option<CompressionProfile>,
    key: RetainedKey,
    bytes: usize,
    lease: ChunkEntryLease,
)
    requires
        m.cells_are_distinct(),
    ensures
        m.leased(identity).cells_are_distinct(),
        !m.is_outdated(identity) && m.has_numbers() ==> m.leased(identity).with_cells(
            SerializationKey::of(identity, protocol_version),
            compression,
        ).cells_are_distinct(),
        m.evicted(key).cells_are_distinct(),
        m.released(lease).cells_are_distinct(),
        m.retained(key, bytes).cells_are_distinct(),
        m.hit(key).cells_are_distinct(),
{
    m.lemma_step_keeps_to(CacheStep::Lease(identity));
    m.after(CacheStep::Lease(identity)).lemma_keeping_keeps_distinct(m);
    m.lemma_step_keeps_to(CacheStep::Evict(key));
    m.after(CacheStep::Evict(key)).lemma_keeping_keeps_distinct(m);
    m.lemma_step_keeps_to(CacheStep::Release(lease));
    m.after(CacheStep::Release(lease)).lemma_keeping_keeps_distinct(m);
    m.lemma_step_keeps_to(CacheStep::Retain(key, bytes));
    m.after(CacheStep::Retain(key, bytes)).lemma_keeping_keeps_distinct(m);
    m.lemma_step_keeps_to(CacheStep::Hit(key));
    m.after(CacheStep::Hit(key)).lemma_keeping_keeps_distinct(m);
    if !m.is_outdated(identity) && m.has_numbers() {
        m.lemma_requested(identity, protocol_version, compression);
        let after = m.requested(identity, protocol_version, compression);
        assert forall|place: CellPlace| #[trigger] after.holds_cell(place) implies after.cell_at(
            place,
        ) < after.next_cell by {}
        assert forall|a: CellPlace, b: CellPlace| #[trigger]
            after.holds_cell(a) && #[trigger] after.holds_cell(b) && a != b implies after.cell_at(a)
            != after.cell_at(b) by {
        }
    }
}

/// The entries keep numbers of their own through every change, until the numbers run
/// out: so a lease on a replaced entry is told from one on its replacement.
pub proof fn law_entries_stay_numbered(
    m: CacheModel,
    identity: ChunkSnapshotIdentity,
    key: RetainedKey,
    bytes: usize,
    lease: ChunkEntryLease,
)
    requires
        m.entries_are_numbered(),
        m.next_entry < u64::MAX,
    ensures
        m.leased(identity).entries_are_numbered(),
        m.evicted(key).entries_are_numbered(),
        m.released(lease).entries_are_numbered(),
        m.retained(key, bytes).entries_are_numbered(),
        m.chunks.contains_key(identity.instance_id) && m.chunks[identity.instance_id].revision
            < identity.revision ==> m.leased(identity).chunks[identity.instance_id].id
            != m.chunks[identity.instance_id].id,
{
    assert(m.leased(identity).entries_are_numbered());
    assert(m.evicted(key).entries_are_numbered());
    assert(m.released(lease).entries_are_numbered());
    if m.is_current(key) {
        let admitted = CacheModel { retention: m.retention.admitted(key, bytes), ..m };
        assert(admitted.entries_are_numbered());
        lemma_evictions_keep_numbers(admitted, m.retention.turned_out(key, bytes));
    }
}

proof fn lemma_evictions_keep_numbers(m: CacheModel, keys: Seq<RetainedKey>)
    requires
        m.entries_are_numbered(),
    ensures
        m.evicted_all(keys).entries_are_numbered(),
    decreases keys.len(),
{
    if keys.len() > 0 {
        lemma_evictions_keep_numbers(m, keys.drop_last());
        assert(m.evicted_all(keys.drop_last()).evicted(keys.last()).entries_are_numbered());
    }
}

/// A result that was published in a cell, and what it was prepared for.
pub struct Publication<T> {
    pub key: SerializationKey,
    pub compression: Option<CompressionProfile>,
    pub result: Result<Arc<T>, PreparationFailure>,
}

/// What can happen while the cache is in use.
pub enum RunStep {
    /// Someone asks for the packet of a snapshot.
    Request(ChunkSnapshotIdentity, i32, Option<CompressionProfile>),
    /// The cache changes otherwise.
    Change(CacheStep),
    /// The holder of a ticket publishes what was serialized for it.
    Serialized(int, Result<Arc<SerializedPacket>, PreparationFailure>),
    /// The holder of a ticket publishes what was prepared for it.
    Prepared(int, Result<Arc<PreparedPacket>, PreparationFailure>),
}

/// A cache in use: the tickets handed out so far, and what was published in the cells
/// of both tiers.
pub struct Run {
    pub cache: CacheModel,
    pub tickets: Seq<PreparationTicket>,
    pub serialized: Map<u64, Publication<SerializedPacket>>,
    pub prepared: Map<u64, Publication<PreparedPacket>>,
}

/// The publications with one more; the first one of a cell stays.
pub open spec fn with_publication<T>(
    publications: Map<u64, Publication<T>>,
    cell: u64,
    publication: Publication<T>,
) -> Map<u64, Publication<T>> {
    if publications.contains_key(cell) {
        publications
    } else {
        publications.insert(cell, publication)
    }
}

impl Run {
    /// A cache that nobody used yet.
    pub open spec fn start(cache: CacheModel) -> Run {
        Run { cache, tickets: Seq::empty(), serialized: Map::empty(), prepared: Map::empty() }
    }

    /// The run after a step. Publications go to the cells of the ticket that they were
    /// made for; a ticket that was not handed out publishes nothing.
    pub open spec fn after(self, step: RunStep) -> Run {
        match step {
            RunStep::Request(identity, protocol_version, compression) => {
                if !self.cache.proceeds(identity) {
                    self
                } else {
                    Run {
                        cache: self.cache.requested(identity, protocol_version, compression),
                        tickets: self.tickets.push(
                            self.cache.ticket(identity, protocol_version, compression),
                        ),
                        ..self
                    }
                }
            },
            RunStep::Change(step) => Run { cache: self.cache.after(step), ..self },
            RunStep::Serialized(i, result) => {
                if 0 <= i < self.tickets.len() {
                    let ticket = self.tickets[i];
                    Run {
                        serialized: with_publication(
                            self.serialized,
                            ticket.serialized_cell,
                            Publication {
                                key: ticket.key,
                                compression: ticket.compression,
                                result,
                            },
                        ),
                        ..self
                    }
                } else {
                    self
                }
            },
            RunStep::Prepared(i, result) => {
                if 0 <= i < self.tickets.len() {
                    let ticket = self.tickets[i];
                    Run {
                        prepared: with_publication(
                            self.prepared,
                            ticket.prepared_cell,
                            Publication {
                                key: ticket.key,
                                compression: ticket.compression,
                                result,
                            },
                        ),
                        ..self
                    }
                } else {
                    self
                }
            },
        }
    }

    /// The run after several steps.
    pub open spec fn after_all(self, steps: Seq<RunStep>) -> Run
        decreases steps.len(),
    {
        if steps.len() == 0 {
            self
        } else {
            self.after_all(steps.drop_last()).after(steps.last())
        }
    }
}

impl CacheModel {
    /// What the cell in a place is for.
    pub open spec fn purpose(self, place: CellPlace) -> RetainedKey {
        let key = SerializationKey {
            instance_id: place.instance_id,
            revision: self.chunks[place.instance_id].revision,
            protocol_version: place.at.0,
        };
        if place.prepared {
            RetainedKey::Prepared(
                key,
                match place.at.1 {
                    Some((threshold, level)) => Some(CompressionProfile { threshold, level }),
                    None => None,
                },
            )
        } else {
            RetainedKey::Serialized(key)
        }
    }

    /// The purposes of the cells.
    spec fn purposes(self) -> Map<u64, RetainedKey> {
        Map::new(
            |cell: u64|
                exists|place: CellPlace| #[trigger]
                    self.holds_cell(place) && self.cell_at(place) == cell,
            |cell: u64|
                self.purpose(
                    choose|place: CellPlace| #[trigger]
                        self.holds_cell(place) && self.cell_at(place) == cell,
                ),
        )
    }
}

impl Run {
    /// Every cell has one purpose for good: those in the cache, those of tickets, and
    /// those that something was published in.
    spec fn serves(self, purposes: Map<u64, RetainedKey>) -> bool {
        &&& forall|place: CellPlace| #[trigger]
            self.cache.holds_cell(place) ==> {
                &&& purposes.contains_key(self.cache.cell_at(place))
                &&& purposes[self.cache.cell_at(place)] == self.cache.purpose(place)
            }
        &&& forall|cell: u64| #[trigger]
            purposes.contains_key(cell) ==> cell < self.cache.next_cell
        &&& forall|i: int|
            0 <= i < self.tickets.len() ==> ticket_serves(#[trigger] self.tickets[i], purposes)
        &&& forall|cell: u64| #[trigger]
            self.serialized.contains_key(cell) ==> {
                &&& purposes.contains_key(cell)
                &&& purposes[cell] == RetainedKey::Serialized(self.serialized[cell].key)
            }
        &&& forall|cell: u64| #[trigger]
            self.prepared.contains_key(cell) ==> {
                &&& purposes.contains_key(cell)
                &&& purposes[cell] == RetainedKey::Prepared(
                    self.prepared[cell].key,
                    self.prepared[cell].compression,
                )
            }
    }

    proof fn lemma_start(m: CacheModel)
        requires
            m.cells_are_distinct(),
        ensures
            Run::start(m).serves(m.purposes()),
    {
        let purposes = m.purposes();
        assert forall|place: CellPlace| #[trigger] m.holds_cell(place) implies {
            &&& purposes.contains_key(m.cell_at(place))
            &&& purposes[m.cell_at(place)] == m.purpose(place)
        } by {
            let other = choose|other: CellPlace| #[trigger]
                m.holds_cell(other) && m.cell_at(other) == m.cell_at(place);
            assert(m.holds_cell(other));
            assert(other == place);
        }
    }

    proof fn lemma_step(self, step: RunStep, purposes: Map<u64, RetainedKey>) -> (after: Map<
        u64,
        RetainedKey,
    >)
        requires
            self.serves(purposes),
        ensures
            self.after(step).serves(after),
    {
        let next = self.after(step);
        match step {
            RunStep::Request(identity, protocol_version, compression) => {
                if !self.cache.proceeds(identity) {
                    purposes
                } else {
                    self.cache.lemma_requested(identity, protocol_version, compression);
                    let ticket = self.cache.ticket(identity, protocol_version, compression);
                    let s = serialized_place(ticket.key);
                    let p = prepared_place(ticket.key, compression);
                    let after = purposes.insert(
                        ticket.serialized_cell,
                        RetainedKey::Serialized(ticket.key),
                    ).insert(
                        ticket.prepared_cell,
                        RetainedKey::Prepared(ticket.key, compression),
                    );
                    assert(next.cache.purpose(s) == RetainedKey::Serialized(ticket.key));
                    assert(next.cache.purpose(p) == RetainedKey::Prepared(ticket.key, compression));
                    assert(ticket.serialized_cell != ticket.prepared_cell) by {
                        if ticket.serialized_cell < self.cache.next_cell
                            && ticket.prepared_cell < self.cache.next_cell {
                            assert(self.cache.holds_cell(s) && self.cache.holds_cell(p));
                            assert(self.cache.purpose(s) is Serialized);
                            assert(self.cache.purpose(p) is Prepared);
                        }
                    }
                    assert(purposes.submap_of(after)) by {
                        assert forall|cell: u64| #[trigger]
                            purposes.contains_key(cell) implies after.contains_key(cell)
                            && after[cell] == purposes[cell] by {
                            if cell == ticket.serialized_cell {
                                assert(self.cache.holds_cell(s));
                            }
                            if cell == ticket.prepared_cell {
                                assert(self.cache.holds_cell(p));
                            }
                        }
                    }
                    assert forall|place: CellPlace| #[trigger]
                        next.cache.holds_cell(place) implies {
                        &&& after.contains_key(next.cache.cell_at(place))
                        &&& after[next.cache.cell_at(place)] == next.cache.purpose(place)
                    } by {
                        if self.cache.holds_cell(place) && self.cache.cell_at(place)
                            == next.cache.cell_at(place) && self.cache.chunks[
                            place.instance_id
                        ].revision == next.cache.chunks[place.instance_id].revision {
                            assert(purposes.contains_key(self.cache.cell_at(place)));
                        }
                    }
                    assert forall|i: int| 0 <= i < next.tickets.len() implies ticket_serves(
                        #[trigger] next.tickets[i],
                        after,
                    ) by {
                        if i < self.tickets.len() {
                            assert(next.tickets[i] == self.tickets[i]);
                            assert(ticket_serves(self.tickets[i], purposes));
                        }
                    }
                    after
                }
            },
            RunStep::Change(change) => {
                self.cache.lemma_step_keeps_to(change);
                assert forall|place: CellPlace| #[trigger] next.cache.holds_cell(place) implies {
                    &&& purposes.contains_key(next.cache.cell_at(place))
                    &&& purposes[next.cache.cell_at(place)] == next.cache.purpose(place)
                } by {
                    assert(self.cache.holds_cell(place));
                }
                purposes
            },
            RunStep::Serialized(i, _) => {
                if 0 <= i < self.tickets.len() {
                    assert(ticket_serves(self.tickets[i], purposes));
                }
                purposes
            },
            RunStep::Prepared(i, _) => {
                if 0 <= i < self.tickets.len() {
                    assert(ticket_serves(self.tickets[i], purposes));
                }
                purposes
            },
        }
    }

    proof fn lemma_steps(m: CacheModel, steps: Seq<RunStep>) -> (purposes: Map<u64, RetainedKey>)
        requires
            m.cells_are_distinct(),
        ensures
            Run::start(m).after_all(steps).serves(purposes),
        decreases steps.len(),
    {
        if steps.len() == 0 {
            Run::lemma_start(m);
            m.purposes()
        } else {
            let before = Run::lemma_steps(m, steps.drop_last());
            Run::start(m).after_all(steps.drop_last()).lemma_step(steps.last(), before)
        }
    }
}

/// The cells of a ticket are for its key and compression.
spec fn ticket_serves(ticket: PreparationTicket, purposes: Map<u64, RetainedKey>) -> bool {
    &&& purposes.contains_key(ticket.serialized_cell)
    &&& purposes[ticket.serialized_cell] == RetainedKey::Serialized(ticket.key)
    &&& purposes.contains_key(ticket.prepared_cell)
    &&& purposes[ticket.prepared_cell] == RetainedKey::Prepared(ticket.key, ticket.compression)
}

/// Requests keep to their cells, whatever happens between them: tickets for different
/// chunks, revisions or versions share no cell, and tickets for different compressions
/// share no prepared cell.
pub proof fn law_requests_keep_to_their_cells(
    m: CacheModel,
    steps: Seq<RunStep>,
    i: int,
    j: int,
)
    requires
        m.cells_are_distinct(),
        0 <= i < Run::start(m).after_all(steps).tickets.len(),
        0 <= j < Run::start(m).after_all(steps).tickets.len(),
    ensures
        ({
            let a = Run::start(m).after_all(steps).tickets[i];
            let b = Run::start(m).after_all(steps).tickets[j];
            &&& a.serialized_cell != b.prepared_cell
            &&& a.serialized_cell == b.serialized_cell ==> a.key == b.key
            &&& a.prepared_cell == b.prepared_cell ==> a.key == b.key && a.compression
                == b.compression
        }),
{
    let run = Run::start(m).after_all(steps);
    let purposes = Run::lemma_steps(m, steps);
    assert(ticket_serves(run.tickets[i], purposes));
    assert(ticket_serves(run.tickets[j], purposes));
}

impl Run {
    /// Every packet that was published is what a fresh preparation gives: `serialize`
    /// of the snapshot and version that it was for, and `prepare` of that packet.
    pub open spec fn publishes_fresh_packets(
        self,
        serialize: spec_fn(SerializationKey) -> SerializedPacket,
        prepare: spec_fn(SerializedPacket, Option<CompressionProfile>) -> PreparedPacket,
    ) -> bool {
        &&& forall|cell: u64| #[trigger]
            self.serialized.contains_key(cell) ==> (self.serialized[cell].result matches Ok(packet)
                ==> *packet == serialize(self.serialized[cell].key))
        &&& forall|cell: u64| #[trigger]
            self.prepared.contains_key(cell) ==> (self.prepared[cell].result matches Ok(packet)
                ==> *packet == prepare(
                serialize(self.prepared[cell].key),
                self.prepared[cell].compression,
            ))
    }
}

/// What a request gets out of its cells was published for its own key and compression,
/// whoever published it and whatever happened in between. So where every publication is
/// what a fresh preparation gives, a hit gives that too: the packet of the snapshot and
/// version that the request is for, and what is prepared of that very packet.
pub proof fn law_answers_are_of_the_request(
    m: CacheModel,
    steps: Seq<RunStep>,
    i: int,
    serialize: spec_fn(SerializationKey) -> SerializedPacket,
    prepare: spec_fn(SerializedPacket, Option<CompressionProfile>) -> PreparedPacket,
)
    requires
        m.cells_are_distinct(),
        0 <= i < Run::start(m).after_all(steps).tickets.len(),
    ensures
        ({
            let run = Run::start(m).after_all(steps);
            let ticket = run.tickets[i];
            let (s, p) = (ticket.serialized_cell, ticket.prepared_cell);
            &&& run.serialized.contains_key(s) ==> run.serialized[s].key == ticket.key
            &&& run.prepared.contains_key(p) ==> run.prepared[p].key == ticket.key
                && run.prepared[p].compression == ticket.compression
            &&& run.publishes_fresh_packets(serialize, prepare) && run.serialized.contains_key(s)
                && run.serialized[s].result is Ok ==> {
                let packet = *run.serialized[s].result->Ok_0;
                &&& packet == serialize(ticket.key)
                &&& run.prepared.contains_key(p) && run.prepared[p].result is Ok
                    ==> *run.prepared[p].result->Ok_0 == prepare(packet, ticket.compression)
            }
        }),
{
    let run = Run::start(m).after_all(steps);
    let purposes = Run::lemma_steps(m, steps);
    assert(ticket_serves(run.tickets[i], purposes));
}

/// Compression profiles have cells of their own; the serialized cell is shared.
pub proof fn law_profiles_share_the_serialized_cell(
    m: CacheModel,
    identity: ChunkSnapshotIdentity,
    protocol_version: i32,
    one: Option<CompressionProfile>,
    other: Option<CompressionProfile>,
)
    requires
        m.cells_are_distinct(),
        m.next_cell < u64::MAX - 4,
        !m.is_outdated(identity),
        one != other,
    ensures
        ({
            let first = m.ticket(identity, protocol_version, one);
            let second = m.requested(identity, protocol_version, one).ticket(
                identity,
                protocol_version,
                other,
            );
            &&& second.serialized_cell == first.serialized_cell
            &&& second.prepared_cell != first.prepared_cell
        }),
{
    let first = m.ticket(identity, protocol_version, one);
    let after = m.requested(identity, protocol_version, one);
    let second = after.ticket(identity, protocol_version, other);
    let (s, p) = (serialized_place(first.key), prepared_place(first.key, one));
    let q = prepared_place(first.key, other);
    m.lemma_requested(identity, protocol_version, one);
    law_cells_stay_distinct(
        m,
        identity,
        protocol_version,
        one,
        RetainedKey::Serialized(first.key),
        0,
        first.lease,
    );
    after.lemma_requested(identity, protocol_version, other);
    assert(after.holds_cell(s) && after.holds_cell(p));
    assert(p.at != q.at);
    let last = after.requested(identity, protocol_version, other);
    assert(last.holds_cell(q));
    if after.holds_cell(q) {
        assert(after.cell_at(p) != after.cell_at(q));
    }
}

impl CacheModel {
    /// Every entry has cells or is leased.
    pub open spec fn is_tidy(self) -> bool {
        forall|id: u64| #[trigger] self.chunks.contains_key(id) ==> !self.chunks[id].is_idle()
    }

    /// The packet of every cell is retained, but for the awaited cells.
    pub open spec fn accounts_for(self, awaited: Set<u64>) -> bool {
        forall|place: CellPlace| #[trigger]
            self.holds_cell(place) ==> {
                &&& place.prepared || place.at.1 is None
                &&& self.retention.values.contains_key(self.purpose(place)) || awaited.contains(
                    self.cell_at(place),
                )
            }
    }

    /// The leases on an entry are at most `n`.
    pub open spec fn leased_at_most(self, n: int) -> bool {
        forall|id: u64| #[trigger] self.chunks.contains_key(id) ==> self.chunks[id].leases <= n
    }

    /// The lease is on an entry that is leased, or on one that is gone.
    pub open spec fn is_owed(self, lease: ChunkEntryLease) -> bool {
        self.chunks.contains_key(lease.instance_id) && self.chunks[lease.instance_id].id
            == lease.entry_id ==> self.chunks[lease.instance_id].leases > 0
    }

    /// The cell of a key, as a set.
    pub open spec fn cells_of_key(self, key: RetainedKey) -> Set<u64> {
        if self.is_current(key) {
            match self.chunks[key.serialization_of().instance_id].cell_of(key) {
                Some(cell) => set![cell],
                None => Set::empty(),
            }
        } else {
            Set::empty()
        }
    }

    /// A key's cell is the one cell that is for the key.
    proof fn lemma_place_of_key(self, place: CellPlace, key: RetainedKey)
        requires
            self.holds_cell(place),
            place.prepared || place.at.1 is None,
        ensures
            self.purpose(place) == key <==> {
                &&& self.is_current(key)
                &&& place == place_of(key)
            },
            self.is_current(key) && place == place_of(key) ==> self.chunks[
                place.instance_id
            ].cell_of(key) == Some(self.cell_at(place)),
    {
    }

    proof fn lemma_evicted_clears(self, key: RetainedKey, place: CellPlace)
        requires
            self.evicted(key).holds_cell(place),
            place.prepared || place.at.1 is None,
        ensures
            self.evicted(key).purpose(place) == self.purpose(place),
            self.purpose(place) != key,
    {
        self.lemma_evicted_keeps_to(key);
        assert(self.holds_cell(place));
        self.lemma_place_of_key(place, key);
        if self.purpose(place) == key {
            let entry = self.chunks[place.instance_id];
            assert(!entry.without_cell(key).tier(place.prepared).contains_key(place.at));
        }
    }

    proof fn lemma_evicted_all_clears(self, keys: Seq<RetainedKey>, place: CellPlace)
        requires
            self.evicted_all(keys).holds_cell(place),
            place.prepared || place.at.1 is None,
        ensures
            self.evicted_all(keys).purpose(place) == self.purpose(place),
            !keys.contains(self.purpose(place)),
        decreases keys.len(),
    {
        if keys.len() > 0 {
            let init = keys.drop_last();
            let middle = self.evicted_all(init);
            middle.lemma_evicted_clears(keys.last(), place);
            middle.lemma_evicted_keeps_to(keys.last());
            assert(middle.holds_cell(place));
            self.lemma_evicted_all_clears(init, place);
            if keys.contains(self.purpose(place)) {
                let i = keys.index_of(self.purpose(place));
                if i < init.len() {
                    assert(init[i] == self.purpose(place));
                }
            }
        }
    }

    proof fn lemma_evicted_all_retention(self, keys: Seq<RetainedKey>)
        ensures
            self.evicted_all(keys).retention == self.retention,
            self.evicted_all(keys).enabled == self.enabled,
            self.is_tidy() ==> self.evicted_all(keys).is_tidy(),
            forall|n: int| #[trigger]
                self.leased_at_most(n) ==> self.evicted_all(keys).leased_at_most(n),
        decreases keys.len(),
    {
        if keys.len() > 0 {
            self.lemma_evicted_all_retention(keys.drop_last());
            let middle = self.evicted_all(keys.drop_last());
            assert(middle.is_tidy() ==> middle.evicted(keys.last()).is_tidy());
        }
    }
}

/// The place of the cell of a key.
pub open spec fn place_of(key: RetainedKey) -> CellPlace {
    match key {
        RetainedKey::Serialized(key) => serialized_place(key),
        RetainedKey::Prepared(key, compression) => prepared_place(key, compression),
    }
}

impl Run {
    /// The awaited cells after a step: those of a request are awaited until a packet
    /// for their key is offered to the retention or their key is evicted.
    pub open spec fn awaited_after(self, awaited: Set<u64>, step: RunStep) -> Set<u64> {
        match step {
            RunStep::Request(identity, protocol_version, compression) => {
                if !self.cache.proceeds(identity) {
                    awaited
                } else {
                    let ticket = self.cache.ticket(identity, protocol_version, compression);
                    awaited.insert(ticket.serialized_cell).insert(ticket.prepared_cell)
                }
            },
            RunStep::Change(CacheStep::Evict(key)) => awaited.difference(
                self.cache.cells_of_key(key),
            ),
            RunStep::Change(CacheStep::Retain(key, _)) => awaited.difference(
                self.cache.cells_of_key(key),
            ),
            _ => awaited,
        }
    }

    /// The cells that are awaited after several steps.
    pub open spec fn awaited(self, steps: Seq<RunStep>) -> Set<u64>
        decreases steps.len(),
    {
        if steps.len() == 0 {
            Set::empty()
        } else {
            self.after_all(steps.drop_last()).awaited_after(
                self.awaited(steps.drop_last()),
                steps.last(),
            )
        }
    }

    /// Only leases that were taken are given back.
    pub open spec fn gives_back_leases(self, steps: Seq<RunStep>) -> bool {
        forall|i: int|
            0 <= i < steps.len() ==> (#[trigger] steps[i] matches RunStep::Change(
                CacheStep::Release(lease),
            ) ==> self.after_all(steps.take(i)).cache.is_owed(lease))
    }

    proof fn lemma_step_accounts(self, step: RunStep, awaited: Set<u64>, n: int)
        requires
            self.cache.accounts_for(awaited),
            self.cache.is_tidy(),
            self.cache.leased_at_most(n),
            self.cache.retention.settled(),
            self.cache.cells_are_distinct(),
            0 <= n < u64::MAX,
            step matches RunStep::Change(CacheStep::Release(lease)) ==> self.cache.is_owed(lease),
        ensures
            self.after(step).cache.accounts_for(self.awaited_after(awaited, step)),
            self.after(step).cache.is_tidy(),
            self.after(step).cache.leased_at_most(n + 1),
            self.after(step).cache.retention.settled(),
            self.after(step).cache.cells_are_distinct(),
    {
        let m = self.cache;
        let after = self.after(step).cache;
        let still = self.awaited_after(awaited, step);
        match step {
            RunStep::Request(identity, protocol_version, compression) => {
                if m.proceeds(identity) {
                    let ticket = m.ticket(identity, protocol_version, compression);
                    m.lemma_requested(identity, protocol_version, compression);
                    law_cells_stay_distinct(
                        m,
                        identity,
                        protocol_version,
                        compression,
                        RetainedKey::Serialized(ticket.key),
                        0,
                        ticket.lease,
                    );
                    lemma_leased_settled(m, identity);
                    assert forall|place: CellPlace| #[trigger] after.holds_cell(place) implies {
                        &&& place.prepared || place.at.1 is None
                        &&& after.retention.values.contains_key(after.purpose(place))
                            || still.contains(after.cell_at(place))
                    } by {
                        if place != serialized_place(ticket.key) && place != prepared_place(
                            ticket.key,
                            compression,
                        ) {
                            assert(m.holds_cell(place));
                            lemma_leased_keeps_packets(m, identity, place);
                        }
                    }
                    let leased = m.leased(identity);
                    assert(after.has_entry(identity));
                    assert(!after.chunks[identity.instance_id].is_idle()) by {
                        let entry = after.chunks[identity.instance_id];
                        assert(after.holds_cell(serialized_place(ticket.key)));
                        assert(entry.serialized.contains_key(serialized_place(ticket.key).at));
                    }
                }
            },
            RunStep::Change(change) => {
                m.lemma_step_keeps_to(change);
                after.lemma_keeping_keeps_distinct(m);
                match change {
                    CacheStep::Lease(identity) => {
                        lemma_leased_settled(m, identity);
                        assert forall|place: CellPlace| #[trigger] after.holds_cell(place) implies {
                            &&& place.prepared || place.at.1 is None
                            &&& after.retention.values.contains_key(after.purpose(place))
                                || still.contains(after.cell_at(place))
                        } by {
                            assert(m.holds_cell(place));
                            lemma_leased_keeps_packets(m, identity, place);
                        }
                    },
                    CacheStep::Retain(key, bytes) => {
                        lemma_retained_accounts(m, key, bytes, awaited);
                        if m.is_current(key) {
                            let admitted = CacheModel {
                                retention: m.retention.admitted(key, bytes),
                                ..m
                            };
                            admitted.lemma_evicted_all_retention(
                                m.retention.turned_out(key, bytes),
                            );
                            crate::retention::law_admission_keeps_settled(m.retention, key, bytes);
                            assert(admitted.is_tidy());
                            assert(admitted.leased_at_most(n));
                        }
                    },
                    CacheStep::Evict(key) => {
                        assert forall|place: CellPlace| #[trigger] after.holds_cell(place) implies {
                            &&& place.prepared || place.at.1 is None
                            &&& after.retention.values.contains_key(after.purpose(place))
                                || still.contains(after.cell_at(place))
                        } by {
                            assert(m.holds_cell(place));
                            m.lemma_evicted_clears(key, place);
                            lemma_not_the_cell_of(m, key, place);
                        }
                    },
                    CacheStep::Hit(key) => {
                        crate::retention::law_upkeep_keeps_settled(m.retention, key, 0, 0);
                        assert forall|place: CellPlace| #[trigger] after.holds_cell(place) implies {
                            &&& place.prepared || place.at.1 is None
                            &&& after.retention.values.contains_key(after.purpose(place))
                                || still.contains(after.cell_at(place))
                        } by {
                            assert(m.holds_cell(place));
                        }
                    },
                    _ => {
                        assert forall|place: CellPlace| #[trigger] after.holds_cell(place) implies {
                            &&& place.prepared || place.at.1 is None
                            &&& after.retention.values.contains_key(after.purpose(place))
                                || still.contains(after.cell_at(place))
                        } by {
                            assert(m.holds_cell(place));
                        }
                    },
                }
            },
            _ => {},
        }
    }

    proof fn lemma_steps_account(m: CacheModel, steps: Seq<RunStep>)
        requires
            m.chunks == Map::<u64, EntryModel>::empty(),
            m.retention.settled(),
            steps.len() < u64::MAX,
            Run::start(m).gives_back_leases(steps),
        ensures
            Run::start(m).after_all(steps).cache.accounts_for(Run::start(m).awaited(steps)),
            Run::start(m).after_all(steps).cache.is_tidy(),
            Run::start(m).after_all(steps).cache.leased_at_most(steps.len() as int),
            Run::start(m).after_all(steps).cache.retention.settled(),
            Run::start(m).after_all(steps).cache.cells_are_distinct(),
        decreases steps.len(),
    {
        if steps.len() > 0 {
            let init = steps.drop_last();
            assert forall|i: int| 0 <= i < init.len() implies (#[trigger] init[i] matches RunStep::Change(
                CacheStep::Release(lease),
            ) ==> Run::start(m).after_all(init.take(i)).cache.is_owed(lease)) by {
                assert(init[i] == steps[i]);
                assert(init.take(i) =~= steps.take(i));
            }
            Run::lemma_steps_account(m, init);
            assert(steps.take(steps.len() - 1) =~= init);
            assert(steps[steps.len() - 1] == steps.last());
            Run::start(m).after_all(init).lemma_step_accounts(
                steps.last(),
                Run::start(m).awaited(init),
                init.len() as int,
            );
        }
    }
}

proof fn lemma_leased_settled(m: CacheModel, identity: ChunkSnapshotIdentity)
    requires
        m.retention.settled(),
    ensures
        m.leased(identity).retention.settled(),
{
    if m.chunks.contains_key(identity.instance_id) {
        crate::retention::law_upkeep_keeps_settled(
            m.retention,
            RetainedKey::Serialized(SerializationKey::of(identity, 0)),
            identity.instance_id,
            m.chunks[identity.instance_id].revision,
        );
    }
}

/// Leasing keeps the packets of cells that stay.
proof fn lemma_leased_keeps_packets(
    m: CacheModel,
    identity: ChunkSnapshotIdentity,
    place: CellPlace,
)
    requires
        m.holds_cell(place),
        m.leased(identity).holds_cell(place),
    ensures
        m.leased(identity).purpose(place) == m.purpose(place),
        m.retention.values.contains_key(m.purpose(place)) ==> m.leased(
            identity,
        ).retention.values.contains_key(m.purpose(place)),
{
    m.lemma_step_keeps_to(CacheStep::Lease(identity));
}

/// A cell that is not for a key is not the cell of the key.
proof fn lemma_not_the_cell_of(m: CacheModel, key: RetainedKey, place: CellPlace)
    requires
        m.cells_are_distinct(),
        m.holds_cell(place),
        place.prepared || place.at.1 is None,
        m.purpose(place) != key,
    ensures
        !m.cells_of_key(key).contains(m.cell_at(place)),
{
    m.lemma_place_of_key(place, key);
    if m.cells_of_key(key).contains(m.cell_at(place)) {
        assert(m.holds_cell(place_of(key)));
        assert(m.cell_at(place_of(key)) == m.cell_at(place));
    }
}

/// After a packet was offered to the retention, its cell is retained or forgotten.
proof fn lemma_retained_accounts(m: CacheModel, key: RetainedKey, bytes: usize, awaited: Set<u64>)
    requires
        m.accounts_for(awaited),
        m.retention.settled(),
        m.cells_are_distinct(),
    ensures
        m.retained(key, bytes).accounts_for(awaited.difference(m.cells_of_key(key))),
{
    let after = m.retained(key, bytes);
    let still = awaited.difference(m.cells_of_key(key));
    m.lemma_step_keeps_to(CacheStep::Retain(key, bytes));
    assert forall|place: CellPlace| #[trigger] after.holds_cell(place) implies {
        &&& place.prepared || place.at.1 is None
        &&& after.retention.values.contains_key(after.purpose(place)) || still.contains(
            after.cell_at(place),
        )
    } by {
        assert(m.holds_cell(place));
        m.lemma_place_of_key(place, key);
        if m.is_current(key) {
            let admitted = CacheModel { retention: m.retention.admitted(key, bytes), ..m };
            let keys = m.retention.turned_out(key, bytes);
            admitted.lemma_evicted_all_clears(keys, place);
            admitted.lemma_evicted_all_retention(keys);
            assert(admitted.purpose(place) == m.purpose(place));
            crate::retention::law_turned_out_keys_are_gone(
                m.retention,
                key,
                bytes,
                m.purpose(place),
            );
        }
        if m.purpose(place) != key {
            lemma_not_the_cell_of(m, key, place);
        }
    }
}

/// In every state of a cache that started empty, the packet of every cell is retained
/// unless it is still awaited, and no entry is left without cells and leases. So once
/// all leases are given back and no cell is awaited any more, there are no more entries
/// than retained packets.
pub proof fn law_idle_cache_holds_no_more_than_is_retained(m: CacheModel, steps: Seq<RunStep>)
    requires
        m.chunks == Map::<u64, EntryModel>::empty(),
        m.retention.settled(),
        steps.len() < u64::MAX,
        Run::start(m).gives_back_leases(steps),
    ensures
        ({
            let cache = Run::start(m).after_all(steps).cache;
            let awaited = Run::start(m).awaited(steps);
            &&& cache.accounts_for(awaited)
            &&& cache.is_tidy()
            &&& cache.retention.settled()
            &&& cache.leased_at_most(0) && (forall|place: CellPlace| #[trigger]
                cache.holds_cell(place) ==> !awaited.contains(cache.cell_at(place)))
                ==> cache.chunks.dom().len() <= cache.retention.values.dom().len()
        }),
{
    Run::lemma_steps_account(m, steps);
    let cache = Run::start(m).after_all(steps).cache;
    let awaited = Run::start(m).awaited(steps);
    if cache.leased_at_most(0) && (forall|place: CellPlace| #[trigger]
        cache.holds_cell(place) ==> !awaited.contains(cache.cell_at(place))) {
        let chunk_of = |key: RetainedKey| key.serialization_of().instance_id;
        let chunks = cache.retention.values.dom().map(chunk_of);
        vstd::set_lib::lemma_map_size_bound(cache.retention.values.dom(), chunks, chunk_of);
        assert forall|id: u64| #[trigger] cache.chunks.dom().contains(id) implies chunks.contains(
            id,
        ) by {
            let entry = cache.chunks[id];
            assert(cache.chunks.contains_key(id));
            assert(!entry.is_idle());
            assert(entry.leases == 0);
            let place = if entry.serialized =~= Map::empty() {
                assert(exists|at: (i32, Option<(usize, u32)>)| #[trigger]
                    entry.prepared.contains_key(at)) by {
                    if forall|at: (i32, Option<(usize, u32)>)| !#[trigger]
                        entry.prepared.contains_key(at) {
                        assert(entry.prepared =~= Map::empty());
                    }
                }
                let at = choose|at: (i32, Option<(usize, u32)>)| #[trigger]
                    entry.prepared.contains_key(at);
                CellPlace { instance_id: id, prepared: true, at }
            } else {
                assert(exists|at: (i32, Option<(usize, u32)>)| #[trigger]
                    entry.serialized.contains_key(at));
                let at = choose|at: (i32, Option<(usize, u32)>)| #[trigger]
                    entry.serialized.contains_key(at);
                CellPlace { instance_id: id, prepared: false, at }
            };
            assert(cache.holds_cell(place));
            let key = cache.purpose(place);
            assert(cache.retention.values.dom().contains(key));
            assert(chunk_of(key) == id);
        }
        vstd::set_lib::lemma_len_subset(cache.chunks.dom(), chunks);
    }
}

} // verus!
