use pumpkin::background_cpu::{BackgroundCpuBudget, BackgroundCpuCategory};
use pumpkin::chunk_packet_cache::{
    CellVisit, ChunkPacketCache, ChunkPacketCacheMetrics, PreparationOutcome, PreparationTicket,
    PrepareStep,
};
use pumpkin::packets::{
    CachedSerializedPacket, ChunkSnapshotIdentity, CompressionProfile, PacketEncodeError,
    PreparationCell, PreparationFailure, PreparedChunkPacket, PreparedPacket, SerializationKey,
    SerializedPacket, serialize_snapshot, write_snapshot,
};
use pumpkin::retention::RetainedKey;
use std::collections::HashMap;
use std::sync::Arc;

const VERSION: i32 = 775;

/// What happens to a chunk while its packet is prepared.
#[derive(Clone, Copy, PartialEq)]
enum Mishap {
    Nothing,
    Changes,
    Panics,
    FailsToSerialize,
    FailsToCompress,
}

#[derive(Clone)]
struct Chunk {
    identity: ChunkSnapshotIdentity,
    size: usize,
}

fn chunk(instance_id: u64) -> Chunk {
    Chunk { identity: ChunkSnapshotIdentity { instance_id, revision: 1 }, size: 700 }
}

fn profile() -> Option<CompressionProfile> {
    Some(CompressionProfile { threshold: 0, level: 1 })
}

/// Runs requests against a cache, one step at a time.
struct Driver {
    cache: ChunkPacketCache,
    budget: BackgroundCpuBudget,
    serialized: HashMap<u64, PreparationCell<SerializedPacket>>,
    prepared: HashMap<u64, PreparationCell<PreparedPacket>>,
}

impl Driver {
    fn new(capacity_mib: usize, threads: usize) -> Driver {
        Driver {
            cache: ChunkPacketCache::new(capacity_mib, threads),
            budget: BackgroundCpuBudget::new(2, 1, threads),
            serialized: HashMap::new(),
            prepared: HashMap::new(),
        }
    }

    fn metrics(&self) -> ChunkPacketCacheMetrics {
        self.cache.metrics(&self.budget)
    }

    fn begin(&mut self, chunk: &Chunk, compression: Option<CompressionProfile>) -> PreparationTicket {
        match self.cache.prepare_chunk(chunk.identity, VERSION, compression) {
            PrepareStep::Proceed(ticket) => {
                self.serialized.entry(ticket.serialized_cell).or_default();
                self.prepared.entry(ticket.prepared_cell).or_default();
                ticket
            },
            other => panic!("{:?}", other),
        }
    }

    fn visit_serialized(&mut self, ticket: &PreparationTicket) -> CellVisit {
        self.cache.visit_serialized(
            ticket,
            self.serialized.get_mut(&ticket.serialized_cell).unwrap(),
            self.prepared.get_mut(&ticket.prepared_cell).unwrap(),
        )
    }

    fn serialize(chunk: &Chunk, mishap: Mishap) -> Result<SerializedPacket, PacketEncodeError> {
        if mishap == Mishap::FailsToSerialize {
            serialize_snapshot(write_snapshot(Ok(vec![0x27]), Err("no room".to_string())), Ok(()))
        } else {
            serialize_snapshot(write_snapshot(Ok(vec![0x27]), Ok(vec![7; chunk.size - 1])), Ok(()))
        }
    }

    fn compress(
        packet: &SerializedPacket,
        compression: Option<CompressionProfile>,
        mishap: Mishap,
    ) -> Result<PreparedPacket, PacketEncodeError> {
        if mishap == Mishap::FailsToCompress {
            return Err(PacketEncodeError::new("bad level"));
        }
        let length = if compression.is_some() { packet.len() / 2 } else { packet.len() };
        Ok(PreparedPacket::from_bytes(vec![9; length]))
    }

    fn run_winner(&mut self, ticket: &PreparationTicket, chunk: &mut Chunk, mishap: Mishap) {
        let permit = self.budget.acquire(BackgroundCpuCategory::PacketPreparation, 5).unwrap();
        let serialized_cell = self.serialized.get_mut(&ticket.serialized_cell).unwrap();
        let prepared_cell = self.prepared.get_mut(&ticket.prepared_cell).unwrap();
        if mishap == Mishap::Panics {
            self.cache.winner_panicked(ticket, serialized_cell, prepared_cell);
        } else {
            if mishap == Mishap::Changes {
                chunk.identity.revision += 1;
            }
            if self.cache.winner_captured(ticket, chunk.identity, 10, serialized_cell, prepared_cell) {
                let result = Driver::serialize(chunk, mishap);
                if let Some(packet) =
                    self.cache.winner_serialized(ticket, result, 20, serialized_cell, prepared_cell)
                {
                    let result = Driver::compress(&packet, ticket.compression, mishap);
                    self.cache.winner_prepared(
                        ticket,
                        packet,
                        result,
                        30,
                        serialized_cell,
                        prepared_cell,
                    );
                }
            }
        }
        self.budget.release(permit);
        self.cache.finish_preparation();
    }

    fn run_compression(
        &mut self,
        ticket: &PreparationTicket,
        serialized: &CachedSerializedPacket,
        mishap: Mishap,
    ) {
        let permit = self.budget.acquire(BackgroundCpuCategory::PacketPreparation, 5).unwrap();
        let prepared_cell = self.prepared.get_mut(&ticket.prepared_cell).unwrap();
        if mishap == Mishap::Panics {
            self.cache.compression_panicked(serialized.key, ticket.compression, prepared_cell);
        } else {
            let result = Driver::compress(&serialized.packet, ticket.compression, mishap);
            self.cache.compression_finished(
                serialized.key,
                ticket.compression,
                result,
                30,
                prepared_cell,
            );
        }
        self.budget.release(permit);
        self.cache.finish_preparation();
    }

    /// The rest of a request once its serialized cell has a result.
    fn complete(
        &mut self,
        ticket: &PreparationTicket,
        mishap: Mishap,
    ) -> PreparationOutcome<PreparedChunkPacket> {
        let result = self.serialized[&ticket.serialized_cell].wait().unwrap();
        let serialized = match self.cache.serialized_arrived(ticket, result) {
            PreparationOutcome::Ready(serialized) => serialized,
            PreparationOutcome::Retry => {
                self.cache.release(ticket.lease);
                return PreparationOutcome::Retry;
            },
            PreparationOutcome::Failed(error) => {
                self.cache.release(ticket.lease);
                return PreparationOutcome::Failed(error);
            },
        };
        let visit = self
            .cache
            .visit_prepared(ticket, self.prepared.get_mut(&ticket.prepared_cell).unwrap());
        if visit == CellVisit::Spawn {
            self.run_compression(ticket, &serialized, mishap);
        }
        let result = self.prepared[&ticket.prepared_cell].wait().unwrap();
        let outcome = self.cache.prepared_arrived(ticket, serialized, result);
        self.cache.release(ticket.lease);
        outcome
    }

    fn prepare(
        &mut self,
        chunk: &mut Chunk,
        compression: Option<CompressionProfile>,
        mishap: Mishap,
    ) -> Result<PreparedChunkPacket, Arc<PacketEncodeError>> {
        let mut mishap = mishap;
        loop {
            let ticket = match self.cache.prepare_chunk(chunk.identity, VERSION, compression) {
                PrepareStep::Bypass => return self.prepare_uncached(chunk, compression, mishap),
                PrepareStep::Retry => continue,
                PrepareStep::Proceed(ticket) => ticket,
            };
            self.serialized.entry(ticket.serialized_cell).or_default();
            self.prepared.entry(ticket.prepared_cell).or_default();
            if self.visit_serialized(&ticket) == CellVisit::Spawn {
                self.run_winner(&ticket, chunk, mishap);
                mishap = Mishap::Nothing;
            }
            match self.complete(&ticket, mishap) {
                PreparationOutcome::Ready(packet) => return Ok(packet),
                PreparationOutcome::Failed(error) => return Err(error),
                PreparationOutcome::Retry => {},
            }
        }
    }

    fn prepare_uncached(
        &mut self,
        chunk: &Chunk,
        compression: Option<CompressionProfile>,
        mishap: Mishap,
    ) -> Result<PreparedChunkPacket, Arc<PacketEncodeError>> {
        self.cache.prepare_uncached();
        let result = if mishap == Mishap::Panics {
            Err(ChunkPacketCache::uncached_panicked())
        } else {
            self.cache.uncached_captured(10);
            let serialized = Driver::serialize(chunk, mishap);
            match self.cache.uncached_serialized(chunk.identity, VERSION, serialized, 20) {
                Ok(serialized) => {
                    let prepared = Driver::compress(&serialized.packet, compression, mishap);
                    self.cache.uncached_prepared(serialized, prepared, 30)
                },
                Err(error) => Err(error),
            }
        };
        self.cache.finish_preparation();
        result
    }
}

fn serialized_key(chunk: &Chunk) -> RetainedKey {
    RetainedKey::Serialized(SerializationKey::new(chunk.identity, VERSION))
}

fn prepared_key(chunk: &Chunk, compression: Option<CompressionProfile>) -> RetainedKey {
    RetainedKey::Prepared(SerializationKey::new(chunk.identity, VERSION), compression)
}

#[test]
fn older_revision_cannot_displace_newer_slot() {
    let mut cache = ChunkPacketCache::new(64, 1);
    let newer = cache
        .entry(ChunkSnapshotIdentity { instance_id: 4, revision: 9 })
        .unwrap();
    assert!(
        cache
            .entry(ChunkSnapshotIdentity { instance_id: 4, revision: 8 })
            .is_none()
    );
    assert_eq!(cache.entry_revision(4).unwrap(), 9);
    cache.release(newer);
    assert!(cache.entry_revision(4).is_none());
}

#[test]
fn simultaneous_callers_share_one_snapshot_and_preparation() {
    let mut driver = Driver::new(64, 2);
    let mut chunk = chunk(1);
    let mut tickets = Vec::new();
    let mut winners = Vec::new();
    for i in 0..32 {
        let ticket = driver.begin(&chunk, None);
        if driver.visit_serialized(&ticket) == CellVisit::Spawn {
            winners.push(i);
        }
        tickets.push(ticket);
    }
    assert_eq!(winners, vec![0]);
    assert_eq!(driver.metrics().serialization_waiters, 31);
    assert_eq!(driver.metrics().preparations_in_flight, 1);
    driver.run_winner(&tickets[0], &mut chunk, Mishap::Nothing);
    let mut packets = Vec::new();
    for ticket in &tickets {
        match driver.complete(ticket, Mishap::Nothing) {
            PreparationOutcome::Ready(packet) => packets.push(packet),
            _ => panic!("not ready"),
        }
    }
    assert!(packets.windows(2).all(|pair| Arc::ptr_eq(&pair[0].prepared, &pair[1].prepared)));
    assert_eq!(driver.metrics().snapshot_captures, 1);
    assert_eq!(driver.metrics().serialization_misses, 1);
    assert_eq!(driver.metrics().preparation_misses, 1);
    assert_eq!(driver.metrics().preparation_hits, 32);
    let acquisitions = driver.metrics().background_permit_acquisitions;
    assert_eq!(acquisitions, 1);
    assert_eq!(driver.metrics().background_permit_wait_nanos, 5);

    driver.prepare(&mut chunk, None, Mishap::Nothing).unwrap();
    assert_eq!(driver.metrics().snapshot_captures, 1);
    assert_eq!(driver.metrics().background_permit_acquisitions, acquisitions);
    assert_eq!(driver.metrics().serialization_hits, 1);
}

#[test]
fn compression_profiles_have_separate_tier_two_entries() {
    let mut driver = Driver::new(64, 2);
    let mut chunk = chunk(1);
    let plain = driver.prepare(&mut chunk, None, Mishap::Nothing).unwrap();
    let squeezed = driver.prepare(&mut chunk, profile(), Mishap::Nothing).unwrap();
    assert_eq!(plain.prepared.len(), 700);
    assert_eq!(squeezed.prepared.len(), 350);
    assert!(Arc::ptr_eq(&plain.serialized.packet, &squeezed.serialized.packet));

    assert_eq!(driver.metrics().snapshot_captures, 1);
    assert_eq!(driver.metrics().serialization_misses, 1);
    assert_eq!(driver.metrics().preparation_misses, 2);
    assert_eq!(driver.metrics().retention_entries, 3);
    assert_eq!(driver.metrics().retained_bytes, 700 + 256 + 700 + 192 + 350 + 192);
}

#[test]
fn changed_identity_retries_winner_snapshot() {
    let mut driver = Driver::new(64, 1);
    let mut chunk = chunk(1);
    let result = driver.prepare(&mut chunk, None, Mishap::Changes).unwrap();
    assert!(!result.prepared.is_empty());
    assert_eq!(result.serialized.key.revision, 2);
    assert_eq!(driver.metrics().obsolete_snapshot_attempts, 1);
    assert_eq!(driver.metrics().snapshot_captures, 2);
}

#[test]
fn capacity_zero_bypasses_retention_and_single_flight() {
    let mut driver = Driver::new(0, 1);
    let mut chunk = chunk(1);
    driver.prepare(&mut chunk, None, Mishap::Nothing).unwrap();
    driver.prepare(&mut chunk, None, Mishap::Nothing).unwrap();
    let metrics = driver.metrics();
    assert_eq!(metrics.retained_bytes, 0);
    assert_eq!(metrics.snapshot_captures, 2);
    assert_eq!(metrics.serialization_misses, 2);
    assert_eq!(metrics.preparation_misses, 2);
    assert_eq!(metrics.serialization_hits, 0);
    assert_eq!(metrics.preparation_hits, 0);
    assert_eq!(metrics.serialization_waiters, 0);
    assert_eq!(metrics.preparation_waiters, 0);
    assert_eq!(metrics.cache_cells, 0);
    assert_eq!(metrics.preparations_in_flight, 0);
    assert_eq!((metrics.snapshot_nanos, metrics.serialization_nanos, metrics.compression_nanos), (
        20, 40, 60,
    ));
}

#[test]
fn panicking_winner_releases_work_and_allows_retry() {
    let mut driver = Driver::new(64, 1);
    let mut chunk = chunk(1);
    let error = driver.prepare(&mut chunk, None, Mishap::Panics).err().unwrap();
    assert_eq!(error.message(), "chunk packet preparation panicked");
    assert!(driver.prepare(&mut chunk, None, Mishap::Nothing).is_ok());
    assert_eq!(driver.metrics().serialization_misses, 2);
    assert_eq!(driver.metrics().preparations_in_flight, 0);
}

#[test]
fn capacity_eviction_bounds_retained_bytes_and_drops_oldest() {
    let mut driver = Driver::new(1, 2);
    let mut first = chunk(0);
    driver.prepare(&mut first, None, Mishap::Nothing).unwrap();
    let footprint = driver.metrics().retained_bytes;
    assert!(footprint > 0);
    assert_eq!(footprint, 700 + 256 + 700 + 192);

    let target = 1024 * 1024 / footprint.max(1) + 8;
    for i in 0..target {
        driver.prepare(&mut chunk(1 + i as u64), None, Mishap::Nothing).unwrap();
    }
    assert!(driver.metrics().retained_bytes <= 1024 * 1024);

    let misses_before = driver.metrics().serialization_misses;
    driver.prepare(&mut first, None, Mishap::Nothing).unwrap();
    assert_eq!(driver.metrics().serialization_misses, misses_before + 1);

    let last = chunk(target as u64);
    assert!(driver.cache.entry_revision(target as u64).is_some());
    assert!(driver.cache.is_retained(serialized_key(&last)));
    assert!(driver.cache.is_retained(prepared_key(&last, None)));
}

#[test]
fn revision_bump_drops_retained_entries_for_old_revision() {
    let mut driver = Driver::new(64, 1);
    let mut chunk = chunk(1);
    driver.prepare(&mut chunk, None, Mishap::Nothing).unwrap();
    let old = chunk.clone();
    assert!(driver.cache.is_retained(serialized_key(&old)));

    chunk.identity.revision += 1;
    driver.prepare(&mut chunk, None, Mishap::Nothing).unwrap();

    assert!(!driver.cache.is_retained(serialized_key(&old)));
    assert!(!driver.cache.is_retained(prepared_key(&old, None)));
    assert!(driver.cache.is_retained(serialized_key(&chunk)));
    assert_eq!(driver.metrics().retention_entries, 2);
}

#[test]
fn disabled_bypass_does_no_single_flight() {
    let mut driver = Driver::new(0, 2);
    let mut chunk = chunk(1);
    for _ in 0..16 {
        driver.prepare(&mut chunk, None, Mishap::Nothing).unwrap();
    }
    assert_eq!(driver.metrics().snapshot_captures, 16);
    assert_eq!(driver.metrics().serialization_misses, 16);
    assert_eq!(driver.metrics().serialization_hits, 0);
}

#[test]
fn concurrent_distinct_chunks_prepare_once_each() {
    let mut driver = Driver::new(64, 4);
    for i in 0..128 {
        driver.prepare(&mut chunk(i), None, Mishap::Nothing).unwrap();
    }
    assert_eq!(driver.metrics().snapshot_captures, 128);
    assert_eq!(driver.metrics().serialization_misses, 128);
    assert_eq!(driver.metrics().cache_cells, 128);
}

#[test]
fn concurrent_same_chunk_mixed_compressions_are_isolated() {
    let mut driver = Driver::new(64, 4);
    let mut chunk = chunk(1);
    let mut tickets = Vec::new();
    for i in 0..64 {
        let ticket = driver.begin(&chunk, if i % 2 == 0 { None } else { profile() });
        driver.visit_serialized(&ticket);
        tickets.push(ticket);
    }
    assert_eq!(tickets[0].serialized_cell, tickets[1].serialized_cell);
    assert_ne!(tickets[0].prepared_cell, tickets[1].prepared_cell);
    assert_eq!(tickets[1].prepared_cell, tickets[3].prepared_cell);
    driver.run_winner(&tickets[0], &mut chunk, Mishap::Nothing);
    for ticket in &tickets {
        assert!(matches!(driver.complete(ticket, Mishap::Nothing), PreparationOutcome::Ready(_)));
    }
    assert_eq!(driver.metrics().snapshot_captures, 1);
    assert_eq!(driver.metrics().serialization_misses, 1);
    assert_eq!(driver.metrics().preparation_misses, 2);
}

#[test]
fn in_flight_metric_includes_queued_preparations() {
    let mut driver = Driver::new(64, 1);
    let (mut one, mut two) = (chunk(1), chunk(2));
    let first = driver.begin(&one, None);
    driver.visit_serialized(&first);
    let second = driver.begin(&two, None);
    driver.visit_serialized(&second);
    assert_eq!(driver.metrics().preparations_in_flight, 2);
    driver.run_winner(&first, &mut one, Mishap::Nothing);
    driver.run_winner(&second, &mut two, Mishap::Nothing);
    assert_eq!(driver.metrics().preparations_in_flight, 0);
}

#[test]
fn eviction_churn_with_concurrency_bounds_retained_bytes() {
    let mut driver = Driver::new(1, 4);
    for i in 0..2048 {
        let mut chunk = chunk(i);
        let ticket = driver.begin(&chunk, None);
        assert_eq!(driver.visit_serialized(&ticket), CellVisit::Spawn);
        driver.run_winner(&ticket, &mut chunk, Mishap::Nothing);
        assert!(matches!(driver.complete(&ticket, Mishap::Nothing), PreparationOutcome::Ready(_)));
    }
    let metrics = driver.metrics();
    assert!(metrics.retained_bytes <= 1024 * 1024);
    assert!(metrics.cache_cells <= metrics.retention_entries);
    assert_eq!(metrics.snapshot_captures, 2048);
    assert_eq!(metrics.serialization_misses, 2048);
}

#[test]
fn failures_reach_every_waiter_and_leave_nothing() {
    let mut driver = Driver::new(64, 1);
    let mut chunk = chunk(1);
    let first = driver.begin(&chunk, None);
    let second = driver.begin(&chunk, None);
    driver.visit_serialized(&first);
    driver.visit_serialized(&second);
    driver.run_winner(&first, &mut chunk, Mishap::FailsToSerialize);
    for ticket in [&first, &second] {
        match driver.complete(ticket, Mishap::Nothing) {
            PreparationOutcome::Failed(error) => assert_eq!(error.message(), "no room"),
            _ => panic!("not failed"),
        }
    }
    assert_eq!(driver.metrics().cache_cells, 0);
    assert_eq!(driver.metrics().retention_entries, 0);
    assert!(driver.prepare(&mut chunk, None, Mishap::Nothing).is_ok());
}

#[test]
fn a_failed_compression_keeps_the_serialized_packet() {
    let mut driver = Driver::new(64, 1);
    let mut chunk = chunk(1);
    let ticket = driver.begin(&chunk, profile());
    driver.visit_serialized(&ticket);
    driver.run_winner(&ticket, &mut chunk, Mishap::FailsToCompress);
    match driver.complete(&ticket, Mishap::Nothing) {
        PreparationOutcome::Failed(error) => assert_eq!(error.message(), "bad level"),
        _ => panic!("not failed"),
    }
    assert!(driver.cache.is_retained(serialized_key(&chunk)));
    assert!(!driver.cache.is_retained(prepared_key(&chunk, profile())));
    driver.prepare(&mut chunk, profile(), Mishap::Nothing).unwrap();
    assert_eq!(driver.metrics().snapshot_captures, 1);
    assert_eq!(driver.metrics().preparation_misses, 2);
}

#[test]
fn a_panicking_compression_fails_its_waiters_only() {
    let mut driver = Driver::new(64, 1);
    let mut chunk = chunk(1);
    driver.prepare(&mut chunk, None, Mishap::Nothing).unwrap();
    let ticket = driver.begin(&chunk, profile());
    assert_eq!(driver.visit_serialized(&ticket), CellVisit::Wait);
    match driver.complete(&ticket, Mishap::Panics) {
        PreparationOutcome::Failed(error) => {
            assert_eq!(error.message(), "chunk packet compression panicked");
        },
        _ => panic!("not failed"),
    }
    assert!(driver.cache.is_retained(prepared_key(&chunk, None)));
    assert!(driver.prepare(&mut chunk, profile(), Mishap::Nothing).is_ok());
}

#[test]
fn uncached_failures_have_messages() {
    let mut driver = Driver::new(0, 1);
    let mut chunk = chunk(1);
    let error = driver.prepare(&mut chunk, None, Mishap::Panics).err().unwrap();
    assert_eq!(error.message(), "uncached chunk packet preparation panicked");
    let error = driver.prepare(&mut chunk, None, Mishap::FailsToCompress).err().unwrap();
    assert_eq!(error.message(), "bad level");
    let error = driver.prepare(&mut chunk, None, Mishap::FailsToSerialize).err().unwrap();
    assert_eq!(error.message(), "no room");
    assert_eq!(
        ChunkPacketCache::uncached_stopped().message(),
        "uncached chunk packet preparation task stopped"
    );
    assert_eq!(driver.metrics().preparations_in_flight, 0);
}

#[test]
fn a_newer_revision_makes_requests_start_over() {
    let mut driver = Driver::new(64, 1);
    let mut chunk = chunk(1);
    let old = chunk.clone();
    chunk.identity.revision = 5;
    driver.prepare(&mut chunk, None, Mishap::Nothing).unwrap();
    assert_eq!(
        driver.cache.prepare_chunk(old.identity, VERSION, None),
        PrepareStep::Retry
    );
    assert_eq!(driver.cache.entry_revision(1), Some(5));
}

#[test]
fn leases_keep_an_entry_until_the_last_is_given_back() {
    let mut cache = ChunkPacketCache::new(1, 0);
    assert_eq!(cache.preparation_threads(), 1);
    let identity = ChunkSnapshotIdentity { instance_id: 8, revision: 2 };
    let one = cache.entry(identity).unwrap();
    let two = cache.entry(identity).unwrap();
    assert_eq!(one, two);
    cache.release(one);
    assert_eq!(cache.entry_revision(8), Some(2));
    let newer = cache.entry(ChunkSnapshotIdentity { instance_id: 8, revision: 3 }).unwrap();
    assert_ne!(newer.entry_id, two.entry_id);
    cache.release(two);
    assert_eq!(cache.entry_revision(8), Some(3));
    cache.release(newer);
    assert_eq!(cache.entry_revision(8), None);
}

#[test]
fn packets_of_an_outdated_revision_are_not_retained() {
    let mut driver = Driver::new(64, 1);
    let mut chunk = chunk(1);
    let ticket = driver.begin(&chunk, None);
    driver.visit_serialized(&ticket);
    let newer = driver.cache.entry(ChunkSnapshotIdentity { instance_id: 1, revision: 2 }).unwrap();
    driver.run_winner(&ticket, &mut chunk, Mishap::Nothing);
    assert_eq!(driver.metrics().retention_entries, 0);
    assert!(matches!(driver.complete(&ticket, Mishap::Nothing), PreparationOutcome::Ready(_)));
    driver.cache.release(newer);
    assert_eq!(driver.metrics().cache_cells, 0);
}

#[test]
fn oversized_packets_are_sent_but_not_kept() {
    let mut driver = Driver::new(1, 1);
    let mut chunk = chunk(1);
    chunk.size = 1024 * 1024 / 8;
    let ticket = driver.begin(&chunk, None);
    driver.visit_serialized(&ticket);
    driver.run_winner(&ticket, &mut chunk, Mishap::Nothing);
    assert!(matches!(driver.complete(&ticket, Mishap::Nothing), PreparationOutcome::Ready(_)));
    assert_eq!(driver.metrics().retention_entries, 0);
    assert_eq!(driver.metrics().cache_cells, 0);
    assert_eq!(driver.metrics().capacity_bytes, 1024 * 1024);
}

#[test]
fn cells_are_won_once_and_keep_their_first_result() {
    let mut cell: PreparationCell<PreparedPacket> = PreparationCell::default();
    assert!(cell.wait().is_none());
    assert!(cell.try_start());
    assert!(!cell.try_start());
    assert!(!cell.is_finished());
    cell.finish(Err(PreparationFailure::Obsolete));
    cell.finish(Ok(Arc::new(PreparedPacket::from_bytes(vec![1]))));
    assert!(matches!(cell.wait(), Some(Err(PreparationFailure::Obsolete))));
    assert!(!cell.try_start());
}

#[test]
fn packets_hold_their_number_and_data() {
    let written = write_snapshot(Ok(vec![1]), Ok(vec![2, 3]));
    let packet = serialize_snapshot(written, Ok(())).ok().unwrap();
    assert_eq!(packet.bytes().as_ref(), &[1, 2, 3]);
    assert_eq!(packet.len(), 3);
    assert!(!packet.is_empty());
    let error = write_snapshot(Err("id".to_string()), Err("data".to_string())).err().unwrap();
    assert_eq!(error.message(), "id");
    let error = write_snapshot(Ok(vec![1]), Err("data".to_string())).err().unwrap();
    assert_eq!(error.message(), "data");
    let refused = PacketEncodeError::new("too long");
    let error = serialize_snapshot(Ok(vec![1]), Err(refused)).err().unwrap();
    assert_eq!(error.message(), "too long");
    let unwritten = Err(PacketEncodeError::new("data"));
    let refused = Err(PacketEncodeError::new("too long"));
    assert_eq!(serialize_snapshot(unwritten, refused).err().unwrap().message(), "data");
    let prepared = PreparedPacket::from_bytes(vec![]);
    assert!(prepared.is_empty());
    assert_eq!(prepared.bytes().len(), 0);
}

#[test]
fn forgotten_cells_are_reported_once() {
    let mut driver = Driver::new(64, 1);
    let mut chunk = chunk(1);
    let old = driver.begin(&chunk, profile());
    driver.visit_serialized(&old);
    driver.run_winner(&old, &mut chunk, Mishap::Nothing);
    assert_eq!(driver.cache.take_dropped(), vec![]);
    chunk.identity.revision = 2;
    let new = driver.begin(&chunk, None);
    let mut dropped = driver.cache.take_dropped();
    dropped.sort();
    let mut expected = vec![old.serialized_cell, old.prepared_cell];
    expected.sort();
    assert_eq!(dropped, expected);
    driver.visit_serialized(&new);
    driver.run_winner(&new, &mut chunk, Mishap::FailsToCompress);
    assert_eq!(driver.cache.take_dropped(), vec![new.prepared_cell]);
    assert_eq!(driver.cache.take_dropped(), vec![]);
}

#[test]
fn cancelling_first_waiter_does_not_cancel_preparation() {
    let mut driver = Driver::new(64, 1);
    let mut chunk = chunk(1);
    let first = driver.begin(&chunk, None);
    assert_eq!(driver.visit_serialized(&first), CellVisit::Spawn);
    driver.cache.release(first.lease);

    let second = driver.begin(&chunk, None);
    assert_eq!(driver.visit_serialized(&second), CellVisit::Wait);
    driver.run_winner(&first, &mut chunk, Mishap::Nothing);
    let packet = match driver.complete(&second, Mishap::Nothing) {
        PreparationOutcome::Ready(packet) => packet,
        _ => panic!("no packet"),
    };
    assert!(!packet.prepared.is_empty());
    assert_eq!(driver.metrics().snapshot_captures, 1);
    assert_eq!(driver.metrics().preparation_misses, 1);
}

#[test]
fn a_snapshot_counts_though_its_preparation_panics() {
    let mut driver = Driver::new(0, 1);
    driver.cache.prepare_uncached();
    driver.cache.uncached_captured(10);
    driver.cache.finish_preparation();
    assert_eq!(driver.metrics().snapshot_captures, 1);
    assert_eq!(driver.metrics().snapshot_nanos, 10);
    assert_eq!(driver.metrics().serialization_nanos, 0);
    assert_eq!(driver.metrics().preparations_in_flight, 0);
}

#[test]
fn requests_keep_to_their_cells() {
    let mut driver = Driver::new(64, 1);
    let mut cells = vec![];
    for instance in 1..=3 {
        let mut chunk = chunk(instance);
        for _ in 0..2 {
            let plain = driver.begin(&chunk, None);
            let packed = driver.begin(&chunk, profile());
            assert_eq!(plain.serialized_cell, packed.serialized_cell);
            cells.push(plain.serialized_cell);
            cells.push(plain.prepared_cell);
            cells.push(packed.prepared_cell);
            chunk.identity.revision += 1;
        }
    }
    let count = cells.len();
    cells.sort();
    cells.dedup();
    assert_eq!(cells.len(), count);
}

#[test]
fn a_hit_gives_the_packet_of_its_own_request() {
    let mut driver = Driver::new(64, 1);
    let (mut small, mut large) = (chunk(1), chunk(2));
    large.size = 900;
    for _ in 0..2 {
        let packet = driver.prepare(&mut small, None, Mishap::Nothing).ok().unwrap();
        assert_eq!(packet.serialized.key, SerializationKey::new(small.identity, VERSION));
        assert_eq!((packet.serialized.packet.len(), packet.prepared.len()), (700, 700));
        let packet = driver.prepare(&mut large, None, Mishap::Nothing).ok().unwrap();
        assert_eq!(packet.serialized.key, SerializationKey::new(large.identity, VERSION));
        assert_eq!((packet.serialized.packet.len(), packet.prepared.len()), (900, 900));
        let packet = driver.prepare(&mut large, profile(), Mishap::Nothing).ok().unwrap();
        assert_eq!((packet.serialized.packet.len(), packet.prepared.len()), (900, 450));
    }
    assert_eq!(driver.metrics().snapshot_captures, 2);
    assert_eq!(driver.metrics().preparation_misses, 3);
}

#[test]
fn an_idle_cache_holds_no_more_entries_than_packets() {
    let mut driver = Driver::new(1, 1);
    for instance in 0..400 {
        let mut chunk = chunk(instance);
        chunk.size = 9000;
        driver.prepare(&mut chunk, None, Mishap::Nothing).ok().unwrap();
        let metrics = driver.metrics();
        assert!(metrics.cache_cells <= metrics.retention_entries);
    }
    assert!(driver.metrics().cache_cells < 400);
    assert!(driver.metrics().cache_cells > 0);
}

#[test]
fn metrics_start_at_zero() {
    assert_eq!(
        ChunkPacketCacheMetrics {
            capacity_bytes: 64 * 1024 * 1024,
            ..ChunkPacketCacheMetrics::default()
        },
        Driver::new(64, 1).metrics(),
    );
}
