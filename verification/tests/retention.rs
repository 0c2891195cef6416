use pumpkin::packets::{CompressionProfile, SerializationKey};
use pumpkin::retention::{RetainedKey, RetainedValue, Retention, Segment};

fn key(instance: u64, revision: u64, protocol: i32) -> SerializationKey {
    SerializationKey {
        instance_id: instance,
        revision,
        protocol_version: protocol,
    }
}

fn sk(instance: u64, revision: u64, protocol: i32) -> RetainedKey {
    RetainedKey::Serialized(key(instance, revision, protocol))
}

fn pk(instance: u64, revision: u64, protocol: i32) -> RetainedKey {
    RetainedKey::Prepared(
        key(instance, revision, protocol),
        Some(CompressionProfile {
            threshold: 0,
            level: 1,
        }),
    )
}

/// Returns `(retained_bytes, serialized_bytes)` as tracked by the live map.
fn values_total(retention: &Retention) -> (u128, u128) {
    let mut retained = 0;
    let mut serialized = 0;
    for key in retention.values.keys() {
        let value = retention.values.get(&key).unwrap();
        retained += value.bytes as u128;
        if matches!(key, RetainedKey::Serialized(_)) {
            serialized += value.bytes as u128;
        }
    }
    (retained, serialized)
}

fn accounting(retention: &Retention) -> (u128, u128) {
    (retention.retained_bytes, retention.serialized_bytes)
}

#[test]
fn admit_accounts_serialized_bytes() {
    let mut retention = Retention::new(4096, 40);
    let evicted = retention.offer(sk(1, 1, 1), 300);
    assert!(evicted.is_empty());
    assert_eq!(retention.retained_bytes, 300);
    assert_eq!(retention.serialized_bytes, 300);
    assert_eq!(accounting(&retention), values_total(&retention));
}

#[test]
fn oversized_entries_are_rejected() {
    let mut retention = Retention::new(800, 40);
    let evicted = retention.offer(sk(1, 1, 1), 200);
    assert_eq!(evicted, vec![sk(1, 1, 1)]);
    assert!(retention.values.is_empty());
    assert_eq!(retention.retained_bytes, 0);
}

#[test]
fn zero_capacity_admit_rejects() {
    let mut retention = Retention::new(0, 40);
    let evicted = retention.offer(sk(1, 1, 1), 10);
    assert_eq!(evicted, vec![sk(1, 1, 1)]);
    assert!(retention.values.is_empty());
}

#[test]
fn eviction_removes_oldest_serialized_first() {
    let mut retention = Retention::new(10_000, 40);
    let mut evicted_all = Vec::new();
    for revision in 1..=18 {
        evicted_all.extend(retention.offer(sk(1, revision, 1), 600));
    }
    assert_eq!(evicted_all, vec![sk(1, 1, 1), sk(1, 2, 1)]);
    assert!(!retention.values.contains_key(&sk(1, 1, 1)));
    assert!(!retention.values.contains_key(&sk(1, 2, 1)));
    assert!(retention.values.contains_key(&sk(1, 18, 1)));
    assert_eq!(retention.retained_bytes, 9600);
}

#[test]
fn hits_promote_probationary_to_protected() {
    let mut retention = Retention::new(10_000, 40);
    retention.offer(sk(1, 1, 1), 600);
    retention.offer(sk(1, 2, 1), 600);
    retention.record_hit(sk(1, 1, 1));
    assert_eq!(
        retention.values.get(&sk(1, 1, 1)).unwrap().segment,
        Segment::Protected
    );
    let mut evicted_all = Vec::new();
    for revision in 3..=18 {
        evicted_all.extend(retention.offer(sk(1, revision, 1), 600));
    }
    assert_eq!(evicted_all, vec![sk(1, 2, 1), sk(1, 3, 1)]);
    assert!(retention.values.contains_key(&sk(1, 1, 1)));
    assert!(!retention.values.contains_key(&sk(1, 2, 1)));
    assert_eq!(retention.retained_bytes, 9600);
    assert_eq!(accounting(&retention), values_total(&retention));
}

#[test]
fn repeated_hits_keep_promotion_queues_bounded() {
    let mut retention = Retention::new(10_000, 40);
    let key = sk(1, 1, 1);
    retention.offer(key, 600);
    for _ in 0..10_000 {
        retention.record_hit(key);
    }
    assert!(retention.probationary.is_empty());
    assert_eq!(retention.protected, [key]);
}

#[test]
fn prepared_over_target_is_evicted_first() {
    let mut retention = Retention::new(10_000, 40);
    retention.offer(sk(1, 1, 1), 600);
    let mut evicted_all = Vec::new();
    for revision in 1..=18 {
        evicted_all.extend(retention.offer(pk(1, revision, 1), 600));
    }
    assert_eq!(evicted_all, vec![pk(1, 1, 1), pk(1, 2, 1), pk(1, 3, 1)]);
    assert!(retention.values.contains_key(&sk(1, 1, 1)));
    assert_eq!(retention.serialized_bytes, 600);
}

#[test]
fn serialized_over_target_is_evicted_first() {
    let mut retention = Retention::new(10_000, 40);
    for revision in 1..=7 {
        retention.offer(sk(1, revision, 1), 600);
    }
    let mut evicted_all = Vec::new();
    for revision in 1..=18 {
        evicted_all.extend(retention.offer(pk(1, revision, 1), 600));
    }
    assert_eq!(evicted_all.first(), Some(&sk(1, 1, 1)));
    assert!(!retention.values.contains_key(&sk(1, 1, 1)));
    assert!(retention.values.contains_key(&sk(1, 7, 1)));
}

#[test]
fn pop_oldest_falls_back_to_protected_segment() {
    let mut retention = Retention::new(4096, 40);
    retention.offer(pk(1, 1, 1), 300);
    retention.record_hit(pk(1, 1, 1));
    assert_eq!(retention.pop_oldest(false), Some(pk(1, 1, 1)));
}

#[test]
fn remove_revision_clears_instance_revision() {
    let mut retention = Retention::new(100_000, 40);
    retention.offer(sk(1, 5, 1), 100);
    retention.offer(pk(1, 5, 1), 200);
    retention.offer(sk(1, 6, 1), 300);
    retention.offer(sk(2, 5, 1), 400);
    retention.remove_revision(1, 5);
    assert!(!retention.values.contains_key(&sk(1, 5, 1)));
    assert!(!retention.values.contains_key(&pk(1, 5, 1)));
    assert!(retention.values.contains_key(&sk(1, 6, 1)));
    assert!(retention.values.contains_key(&sk(2, 5, 1)));
    assert_eq!(accounting(&retention), values_total(&retention));
}

#[test]
fn removal_of_absent_key_is_a_noop() {
    let mut retention = Retention::new(1000, 40);
    retention.offer(sk(1, 1, 1), 100);
    retention.remove(sk(9, 9, 9));
    assert_eq!(retention.retained_bytes, 100);
}

#[test]
fn hit_on_absent_key_is_a_noop() {
    let mut retention = Retention::new(1000, 40);
    retention.offer(sk(1, 1, 1), 100);
    retention.record_hit(sk(9, 9, 9));
    assert_eq!(retention.values.len(), 1);
    assert_eq!(
        retention.values.get(&sk(1, 1, 1)).unwrap().segment,
        Segment::Probationary
    );
}

#[test]
fn readmission_replaces_existing_entry() {
    let mut retention = Retention::new(1000, 40);
    retention.offer(sk(1, 1, 1), 100);
    let evicted = retention.offer(sk(1, 1, 1), 50);
    assert!(evicted.is_empty());
    assert_eq!(retention.values.get(&sk(1, 1, 1)).unwrap().bytes, 50);
    assert_eq!(retention.retained_bytes, 50);
    assert_eq!(retention.serialized_bytes, 50);
}

#[test]
fn oversized_readmission_removes_existing_accounting() {
    let mut retention = Retention::new(1000, 40);
    let key = sk(1, 1, 1);
    retention.offer(key, 100);
    assert_eq!(retention.offer(key, 126), vec![key]);
    assert!(!retention.values.contains_key(&key));
    assert_eq!(retention.retained_bytes, 0);
    assert_eq!(retention.serialized_bytes, 0);
    assert!(retention.probationary.is_empty());
    assert!(retention.protected.is_empty());
}

#[test]
fn pop_oldest_tolerates_stale_entries() {
    let mut retention = Retention::new(4096, 40);
    retention.offer(sk(1, 1, 1), 300);
    retention.offer(sk(1, 2, 1), 300);
    retention.remove(sk(1, 1, 1));
    assert_eq!(retention.pop_oldest(true), Some(sk(1, 2, 1)));
}

#[test]
fn accounting_stays_consistent_after_mixed_operations() {
    let mut retention = Retention::new(10_000, 40);
    for revision in 1..=5 {
        retention.offer(sk(1, revision, 1), 300);
        retention.offer(pk(1, revision, 1), 200);
    }
    retention.record_hit(sk(1, 3, 1));
    retention.record_hit(pk(1, 5, 1));
    retention.remove_revision(1, 2);
    retention.remove(sk(1, 5, 1));
    retention.offer(sk(2, 1, 1), 1200);
    retention.remove(sk(1, 4, 1));
    assert_eq!(accounting(&retention), values_total(&retention));
    assert!(retention.retained_bytes <= retention.capacity as u128);
}

#[test]
fn keys_passed_over_move_to_the_back() {
    let mut retention = Retention::new(4096, 40);
    retention.offer(pk(1, 1, 1), 100);
    retention.offer(sk(1, 2, 1), 100);
    retention.offer(pk(1, 3, 1), 100);
    assert_eq!(retention.pop_oldest(true), Some(sk(1, 2, 1)));
    assert_eq!(retention.probationary, [pk(1, 3, 1), pk(1, 1, 1)]);
    assert_eq!(retention.pop_oldest(true), None);
    assert_eq!(retention.probationary, [pk(1, 3, 1), pk(1, 1, 1)]);
    assert_eq!(retention.pop_oldest(false), Some(pk(1, 3, 1)));
}

#[test]
fn the_target_is_a_share_of_the_capacity() {
    assert_eq!(Retention::new(1000, 40).target_serialized, 400);
    assert_eq!(Retention::new(99, 40).target_serialized, 39);
    assert_eq!(Retention::new(usize::MAX, 40).target_serialized, usize::MAX / 100);
    assert_eq!(Retention::new(0, 40).target_serialized, 0);
}

#[test]
fn the_other_kind_gives_way_when_the_preferred_has_none() {
    let mut retention = Retention::new(8000, 40);
    let mut evicted = Vec::new();
    for revision in 1..=9 {
        evicted.extend(retention.offer(pk(1, revision, 1), 1000));
    }
    assert_eq!(evicted, vec![pk(1, 1, 1)]);
    let mut small = Retention::new(8000, 200);
    let mut evicted = Vec::new();
    for revision in 1..=9 {
        evicted.extend(small.offer(sk(1, revision, 1), 1000));
    }
    // Serialized packets exceed no target here, yet nothing else is left to go.
    assert_eq!(evicted, vec![sk(1, 1, 1)]);
    assert!(!small.values.is_empty());
    assert_eq!(
        small.values.get(&sk(1, 9, 1)),
        Some(RetainedValue { bytes: 1000, segment: Segment::Probationary })
    );
}

#[test]
fn retained_bytes_never_exceed_the_capacity() {
    let mut retention = Retention::new(5000, 40);
    let mut seed: u64 = 99;
    for _ in 0..2000 {
        seed = seed.wrapping_mul(6364136223846793005).wrapping_add(1442695040888963407);
        let revision = (seed >> 40) % 60;
        let bytes = (seed >> 20) as usize % 700;
        let key = if seed >> 63 == 0 { sk(1, revision, 1) } else { pk(1, revision, 1) };
        match (seed >> 33) % 5 {
            0 => retention.record_hit(key),
            1 => retention.remove(key),
            _ => {
                let evicted = retention.offer(key, bytes);
                for gone in evicted {
                    assert!(!retention.values.contains_key(&gone));
                }
            },
        }
        assert_eq!(accounting(&retention), values_total(&retention));
        assert!(retention.retained_bytes <= 5000);
        assert_eq!(
            retention.probationary.len() + retention.protected.len(),
            retention.values.len()
        );
    }
}

#[test]
fn keys_know_their_serialization() {
    assert_eq!(sk(1, 2, 3).serialization(), key(1, 2, 3));
    assert_eq!(pk(4, 5, 6).serialization(), key(4, 5, 6));
    assert!(sk(1, 2, 3).is_serialized());
    assert!(!pk(1, 2, 3).is_serialized());
}
