use pumpkin::coord::Coord;
use pumpkin::geometry::{BoundingBox, Vector3};
use pumpkin::spatial_metrics::SpatialMetrics;
use pumpkin::spatial_oracle::{OracleEntityKey, OracleEntityState, SpatialQueryOracle};
use pumpkin::spatial_pose::SpatialCategory;
use pumpkin::spatial_registry::EntityKey;
use pumpkin::world_spatial_index::WorldSpatialIndex;

fn c(value: f64) -> Coord {
    Coord::from_bits(value.to_bits())
}

fn v(x: f64, y: f64, z: f64) -> Vector3 {
    Vector3::new(c(x), c(y), c(z))
}

fn category(bits: u32) -> SpatialCategory {
    SpatialCategory { bits }
}

#[test]
fn test_world_spatial_index_shadow_registration_and_query() {
    let mut index = WorldSpatialIndex::new(SpatialMetrics::new());

    let entity1: u64 = 1;
    let bounds1 = BoundingBox::new(v(5.0, 64.0, 5.0), v(6.0, 65.0, 6.0));
    let key1 = index.register_entity(1, entity1, bounds1, category(SpatialCategory::ITEM));

    let query_box = BoundingBox::new(v(4.0, 63.0, 4.0), v(7.0, 66.0, 7.0));
    let results = index.query_candidates(1, &query_box, category(SpatialCategory::ITEM));
    assert_eq!(results.len(), 1);
    assert_eq!(results, vec![entity1]);

    index.unregister_entity(key1);
    let results_after = index.query_candidates(1, &query_box, category(SpatialCategory::ITEM));
    assert_eq!(results_after.len(), 0);
}

#[test]
fn test_revisioned_movement_and_teleport_publication() {
    let mut index = WorldSpatialIndex::new(SpatialMetrics::new());

    let living = category(SpatialCategory::LIVING);
    let initial_bounds = BoundingBox::new(v(0.0, 64.0, 0.0), v(1.0, 65.0, 1.0));
    let key = index.register_entity(1, 7, initial_bounds, living);

    // Move entity to new position (100.0, 64.0, 100.0)
    let new_bounds = BoundingBox::new(v(100.0, 64.0, 100.0), v(101.0, 65.0, 101.0));
    assert!(index.update_entity_movement(key, new_bounds));

    // Query new position -> should find candidate
    let query_new = BoundingBox::new(v(99.0, 63.0, 99.0), v(102.0, 66.0, 102.0));
    let results_new = index.query_candidates(1, &query_new, living);
    assert_eq!(results_new.len(), 1);

    // Query old position -> should return zero (old bounds fail exact intersection check)
    let query_old = BoundingBox::new(v(-1.0, 63.0, -1.0), v(2.0, 66.0, 2.0));
    let results_old = index.query_candidates(1, &query_old, living);
    assert_eq!(results_old.len(), 0);

    // Cross-world teleport to World 2
    let tp_bounds = BoundingBox::new(v(50.0, 70.0, 50.0), v(51.0, 71.0, 51.0));
    assert!(index.teleport_entity(key, 2, tp_bounds));

    // Query World 1 at tp_bounds -> should return 0 (different world ID)
    let query_tp = BoundingBox::new(v(49.0, 69.0, 49.0), v(52.0, 72.0, 52.0));
    assert_eq!(index.query_candidates(1, &query_tp, living).len(), 0);

    // Query World 2 at tp_bounds -> should return 1
    assert_eq!(index.query_candidates(2, &query_tp, living).len(), 1);
}

#[test]
fn test_shadow_index_equivalence_against_oracle_trace() {
    let mut index = WorldSpatialIndex::new(SpatialMetrics::new());
    let mut oracle = SpatialQueryOracle::new();
    let living = category(SpatialCategory::LIVING);

    let mut active_entities: Vec<(EntityKey, OracleEntityKey)> = Vec::new();

    // Perform 50 deterministic trace operations
    for step in 0..50 {
        let op = step % 5;
        match op {
            0 | 1 => {
                // Spawn entity
                let x = (step * 7 % 100) as f64;
                let y = (step * 3 % 200) as f64;
                let z = (step * 11 % 100) as f64;

                let bounds = BoundingBox::new(v(x, y, z), v(x + 1.0, y + 1.8, z + 1.0));
                let key = index.register_entity(1, step as u64, bounds, living);
                let oracle_key = OracleEntityKey { slot: key.slot, generation: key.generation };

                oracle.upsert(OracleEntityState {
                    key: oracle_key,
                    world_id: 1,
                    bounds,
                    position: v(x + 0.5, y, z + 0.5),
                    category_bits: SpatialCategory::LIVING,
                    alive: true,
                });

                active_entities.push((key, oracle_key));
            },
            2 => {
                // Move existing entity
                if let Some(&(key, oracle_key)) = active_entities.first() {
                    let new_x = (step * 13 % 100) as f64;
                    let new_y = (step * 5 % 200) as f64;
                    let new_z = (step * 17 % 100) as f64;

                    let new_bounds = BoundingBox::new(
                        v(new_x, new_y, new_z),
                        v(new_x + 1.0, new_y + 1.8, new_z + 1.0),
                    );

                    index.update_entity_movement(key, new_bounds);

                    oracle.upsert(OracleEntityState {
                        key: oracle_key,
                        world_id: 1,
                        bounds: new_bounds,
                        position: v(new_x + 0.5, new_y, new_z + 0.5),
                        category_bits: SpatialCategory::LIVING,
                        alive: true,
                    });
                }
            },
            3 => {
                // Despawn entity
                if let Some((key, oracle_key)) = active_entities.pop() {
                    index.unregister_entity(key);
                    oracle.remove(oracle_key);
                }
            },
            _ => {
                // Query check: verify ZERO false negatives between index and oracle
                let q_box = BoundingBox::new(v(0.0, 0.0, 0.0), v(50.0, 100.0, 50.0));
                let oracle_matches = oracle.query_aabb(1, &q_box, SpatialCategory::LIVING);
                let index_matches = index.query_candidates(1, &q_box, living);

                assert_eq!(
                    index_matches.len(),
                    oracle_matches.len(),
                    "Shadow index must produce zero false negatives compared to reference oracle"
                );
            },
        }
    }
}

#[test]
fn test_loose_coverage_fast_path_movement() {
    let mut index = WorldSpatialIndex::new(SpatialMetrics::new());

    let initial_bounds = BoundingBox::new(v(0.0, 64.0, 0.0), v(1.0, 65.0, 1.0));
    let key = index.register_entity(1, 7, initial_bounds, category(SpatialCategory::LIVING));

    let initial_rev = index.pose_of(key).unwrap().membership_revision;
    assert_eq!(initial_rev, 1);

    // Micro-movement within 0.1 blocks (fits inside loose coverage padding 0.25)
    let micro_move = BoundingBox::new(v(0.1, 64.0, 0.1), v(1.1, 65.0, 1.1));
    assert!(index.update_entity_movement(key, micro_move));

    // Fast-path: Membership revision should remain 1 (no cell re-indexing!)
    let rev_after_micro = index.pose_of(key).unwrap().membership_revision;
    assert_eq!(rev_after_micro, 1);

    // Large movement to (50.0, 64.0, 50.0) exceeding coverage
    let large_move = BoundingBox::new(v(50.0, 64.0, 50.0), v(51.0, 65.0, 51.0));
    assert!(index.update_entity_movement(key, large_move));

    // Slow-path: Membership revision should increment to 2
    let rev_after_large = index.pose_of(key).unwrap().membership_revision;
    assert_eq!(rev_after_large, 2);
}

#[test]
fn test_spatial_index_high_density_stress_and_concurrency() {
    let mut index = WorldSpatialIndex::new(SpatialMetrics::new());

    // Register 1,000 entities across a 500x256x500 space
    let mut keys = Vec::new();
    for i in 0..1000 {
        let x = (i % 50) as f64 * 10.0;
        let y = 64.0;
        let z = (i / 50) as f64 * 10.0;

        let bounds = BoundingBox::new(v(x, y, z), v(x + 1.0, y + 1.8, z + 1.0));
        let bits = if i % 2 == 0 {
            SpatialCategory::ITEM
        } else {
            SpatialCategory::LIVING
        };
        keys.push(index.register_entity(1, i as u64, bounds, category(bits)));
    }

    // The interleaving of eight workers, one step of each in turn
    for step in 0..100 {
        for worker in 0..8 {
            let key = keys[(worker * 100 + step) % keys.len()];
            if step % 2 == 0 {
                let q_box = BoundingBox::new(v(0.0, 60.0, 0.0), v(200.0, 70.0, 200.0));
                let results = index.query_candidates(1, &q_box, category(SpatialCategory::ITEM));
                assert!(results.len() > 0);
            } else {
                let dx = (step % 5) as f64 * 0.05;
                let new_bounds = BoundingBox::new(v(dx, 64.0, dx), v(dx + 1.0, 65.8, dx + 1.0));
                index.update_entity_movement(key, new_bounds);
            }
        }
    }

    assert!(index.metrics().total_queries > 0);
    assert_eq!(index.metrics().total_queries, 400);
    assert_eq!(index.total_entities(), 1000);
}

#[test]
fn microcell_search_agrees_with_the_oracle() {
    let mut index = WorldSpatialIndex::new(SpatialMetrics::new());
    let mut oracle = SpatialQueryOracle::new();
    let mut seed: u64 = 12345;
    let mut next = |n: u64| {
        seed = seed.wrapping_mul(6364136223846793005).wrapping_add(1442695040888963407);
        (seed >> 33) % n
    };
    let mut keys = Vec::new();
    let mut told = |oracle: &mut SpatialQueryOracle, key: EntityKey, bounds, bits| {
        oracle.upsert(OracleEntityState {
            key: OracleEntityKey { slot: key.slot, generation: key.generation },
            world_id: 1,
            bounds,
            position: v(0.0, 0.0, 0.0),
            category_bits: bits,
            alive: true,
        });
    };
    for i in 0..2500u64 {
        let (x, y, z) = (next(400) as f64 / 4.0, next(800) as f64 / 4.0 - 64.0, next(400) as f64 / 4.0);
        let bounds = BoundingBox::new(v(x, y, z), v(x + 0.6, y + 1.8, z + 0.6));
        let bits = 1 << next(10);
        let key = index.register_entity(1, i, bounds, category(bits));
        told(&mut oracle, key, bounds, bits);
        keys.push((key, bits, i));
    }
    for round in 0..600 {
        let (key, bits, _) = keys[next(2500) as usize];
        match round % 6 {
            0 | 1 => {
                let (x, y, z) = (next(400) as f64 / 4.0, next(800) as f64 / 4.0 - 64.0, next(400) as f64 / 4.0);
                let bounds = BoundingBox::new(v(x, y, z), v(x + 0.6, y + 1.8, z + 0.6));
                let moved = if round % 12 < 6 {
                    index.update_entity_movement(key, bounds)
                } else {
                    index.teleport_entity(key, 1, bounds)
                };
                if moved {
                    told(&mut oracle, key, bounds, bits);
                }
            },
            2 => {
                index.unregister_entity(key);
                oracle.remove(OracleEntityKey { slot: key.slot, generation: key.generation });
            },
            _ => {
                let (x, y, z) = (next(90) as f64, next(190) as f64 - 64.0, next(90) as f64);
                let query = BoundingBox::new(
                    v(x, y, z),
                    v(x + 1.0 + next(30) as f64, y + 1.0 + next(8) as f64, z + 1.0 + next(30) as f64),
                );
                let mask = if round % 2 == 0 { 0 } else { 1 << next(10) };
                let mut found = index.query_candidates(1, &query, category(mask));
                found.sort();
                let mut expected: Vec<u64> = oracle
                    .query_aabb(1, &query, mask)
                    .iter()
                    .map(|k| {
                        keys.iter()
                            .find(|e| e.0.slot == k.slot && e.0.generation == k.generation)
                            .unwrap()
                            .2
                    })
                    .collect();
                expected.sort();
                assert_eq!(found, expected);
            },
        }
    }
}

#[test]
fn an_entity_in_several_columns_is_found_once() {
    let mut index = WorldSpatialIndex::new(SpatialMetrics::new());
    let wide = BoundingBox::new(v(-40.0, 60.0, -40.0), v(40.0, 62.0, 40.0));
    index.register_entity(1, 5, wide, category(SpatialCategory::VEHICLE));
    let query = BoundingBox::new(v(-50.0, 0.0, -50.0), v(50.0, 100.0, 50.0));
    assert_eq!(index.query_candidates(1, &query, category(0)), vec![5]);
    for i in 0..200 {
        let at = BoundingBox::new(v(1.0, 70.0, 1.0), v(2.0, 71.0, 2.0));
        index.register_entity(1, 100 + i, at, category(SpatialCategory::ITEM));
    }
    assert_eq!(index.query_candidates(1, &query, category(SpatialCategory::VEHICLE)), vec![5]);
    assert_eq!(index.query_candidates(1, &query, category(0)).len(), 201);
}

#[test]
fn unknown_handles_are_ignored() {
    let mut index = WorldSpatialIndex::new(SpatialMetrics::new());
    let bounds = BoundingBox::new(v(0.0, 0.0, 0.0), v(1.0, 1.0, 1.0));
    let stranger = EntityKey { slot: 3, generation: 1 };
    assert!(index.can_register());
    assert!(!index.update_entity_movement(stranger, bounds));
    assert!(!index.teleport_entity(stranger, 1, bounds));
    assert!(index.pose_of(stranger).is_none());
    index.unregister_entity(stranger);
    assert_eq!(index.total_entities(), 0);
    let key = index.register_entity(1, 1, bounds, category(0xffff_ffff));
    assert_eq!(index.pose_of(key).unwrap().categories.bits(), SpatialCategory::KNOWN);
    index.unregister_entity(key);
    assert!(!index.update_entity_movement(key, bounds));
    assert_eq!(index.total_entities(), 0);
}

#[test]
fn the_total_counts_registered_entities() {
    let mut index = WorldSpatialIndex::new(SpatialMetrics::new());
    let bounds = BoundingBox::new(v(0.0, 0.0, 0.0), v(1.0, 1.0, 1.0));
    let keys: Vec<EntityKey> =
        (0..5).map(|i| index.register_entity(1, i, bounds, category(0))).collect();
    assert_eq!(index.total_entities(), 5);
    assert!(index.update_entity_movement(keys[1], BoundingBox::new(v(50.0, 0.0, 0.0), v(51.0, 1.0, 1.0))));
    assert!(index.teleport_entity(keys[2], 2, bounds));
    assert_eq!(index.total_entities(), 5);
    index.unregister_entity(keys[1]);
    index.unregister_entity(keys[1]);
    assert_eq!(index.total_entities(), 4);
    assert!(index.pose_of(keys[0]).unwrap().alive);
}

#[test]
fn entities_at_the_limit_of_sections_are_found_where_they_rest() {
    let mut index = WorldSpatialIndex::new(SpatialMetrics::new());
    let top = BoundingBox::new(v(1.0, 2046.0, 1.0), v(2.0, 2047.0, 2.0));
    let bottom = BoundingBox::new(v(1.0, -2048.0, 1.0), v(2.0, -2047.0, 2.0));
    for i in 0..300 {
        let at = BoundingBox::new(v(1.0, 0.0, 1.0), v(2.0, 1.0, 2.0));
        index.register_entity(1, 100 + i, at, category(0));
    }
    index.register_entity(1, 1, top, category(0));
    index.register_entity(1, 2, bottom, category(0));
    assert_eq!(index.query_candidates(1, &top, category(0)), vec![1]);
    assert_eq!(index.query_candidates(1, &bottom, category(0)), vec![2]);
}
