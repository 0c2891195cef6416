use pumpkin::coord::Coord;
use pumpkin::geometry::{BoundingBox, Vector3};
use pumpkin::spatial_oracle::{OracleEntityKey, OracleEntityState, SpatialQueryOracle};

fn c(value: f64) -> Coord {
    Coord::from_bits(value.to_bits())
}

fn v(x: f64, y: f64, z: f64) -> Vector3 {
    Vector3::new(c(x), c(y), c(z))
}

fn state(slot: u32, at: f64, bits: u32) -> OracleEntityState {
    OracleEntityState {
        key: OracleEntityKey { slot, generation: 1 },
        world_id: 1,
        bounds: BoundingBox::new(v(at, at, at), v(at + 1.0, at + 1.0, at + 1.0)),
        position: v(at + 0.5, at + 0.5, at + 0.5),
        category_bits: bits,
        alive: true,
    }
}

#[test]
fn test_oracle_spatial_equivalence() {
    let mut oracle = SpatialQueryOracle::new();

    let key1 = OracleEntityKey { slot: 0, generation: 1 };
    let key2 = OracleEntityKey { slot: 1, generation: 1 };

    oracle.upsert(OracleEntityState {
        key: key1,
        world_id: 1,
        bounds: BoundingBox::new(v(0.0, 0.0, 0.0), v(1.0, 1.0, 1.0)),
        position: v(0.5, 0.5, 0.5),
        category_bits: 0b0001,
        alive: true,
    });

    oracle.upsert(OracleEntityState {
        key: key2,
        world_id: 1,
        bounds: BoundingBox::new(v(10.0, 10.0, 10.0), v(11.0, 11.0, 11.0)),
        position: v(10.5, 10.5, 10.5),
        category_bits: 0b0010,
        alive: true,
    });

    let query_box = BoundingBox::new(v(-1.0, -1.0, -1.0), v(2.0, 2.0, 2.0));
    let results = oracle.query_aabb(1, &query_box, 0);
    assert_eq!(results, vec![key1]);

    let sphere_results = oracle.query_sphere(1, v(0.5, 0.5, 0.5), c(1.0), 0);
    assert_eq!(sphere_results, vec![key1]);

    oracle.remove(key1);
    assert_eq!(oracle.query_aabb(1, &query_box, 0), vec![]);
}

#[test]
fn upserts_replace_in_place() {
    let mut oracle = SpatialQueryOracle::default();
    oracle.upsert(state(0, 0.0, 1));
    oracle.upsert(state(1, 0.0, 2));
    oracle.upsert(state(0, 0.25, 4));
    let everything = BoundingBox::new(v(-9.0, -9.0, -9.0), v(9.0, 9.0, 9.0));
    let keys = oracle.query_aabb(1, &everything, 0);
    assert_eq!(keys.iter().map(|k| k.slot).collect::<Vec<_>>(), vec![0, 1]);
    assert_eq!(oracle.query_aabb(1, &everything, 1), vec![]);
    assert_eq!(oracle.query_aabb(1, &everything, 4).len(), 1);
    assert_eq!(oracle.query_aabb(2, &everything, 0), vec![]);
    assert_eq!(oracle.active_count(), 2);
    oracle.remove(OracleEntityKey { slot: 1, generation: 1 });
    oracle.remove(OracleEntityKey { slot: 9, generation: 1 });
    assert_eq!(oracle.active_count(), 1);
    oracle.upsert(state(1, 3.0, 2));
    assert_eq!(oracle.active_count(), 2);
}

#[test]
fn sphere_queries_measure_to_the_position() {
    let mut oracle = SpatialQueryOracle::new();
    for slot in 0..40u32 {
        oracle.upsert(state(slot, f64::from(slot) * 0.37 - 5.0, 1));
    }
    for (x, y, z, radius) in [(0.1, -0.2, 0.3, 2.5), (-4.0, -4.0, -4.0, 0.9), (0.0, 0.0, 0.0, -3.0)] {
        let found = oracle.query_sphere(1, v(x, y, z), c(radius), 0);
        let mut expected = Vec::new();
        for slot in 0..40u32 {
            let p = f64::from(slot) * 0.37 - 5.0 + 0.5;
            let (dx, dy, dz) = (p - x, p - y, p - z);
            if dx * dx + dy * dy + dz * dz <= radius * radius {
                expected.push(OracleEntityKey { slot, generation: 1 });
            }
        }
        assert_eq!(found, expected);
        assert!(!found.is_empty());
    }
    assert_eq!(oracle.query_sphere(1, v(0.5, 0.5, 0.5), c(f64::NAN), 0), vec![]);
    // Three, four and five: the surface counts.
    let mut one = SpatialQueryOracle::new();
    one.upsert(OracleEntityState { position: v(3.0, 4.0, 0.0), ..state(0, 0.0, 1) });
    assert_eq!(one.query_sphere(1, v(0.0, 0.0, 0.0), c(5.0), 0).len(), 1);
    assert_eq!(one.query_sphere(1, v(0.0, 0.0, 0.0), c(4.9999999), 0).len(), 0);
}

#[test]
fn swept_queries_widen_both_sides() {
    let mut oracle = SpatialQueryOracle::new();
    oracle.upsert(state(0, 0.0, 1));
    oracle.upsert(state(1, 6.0, 1));
    let query = BoundingBox::new(v(3.0, 0.0, 0.0), v(3.5, 8.0, 8.0));
    assert_eq!(oracle.query_swept_aabb(1, &query, v(1.0, 0.0, 0.0), 0), vec![]);
    assert_eq!(oracle.query_swept_aabb(1, &query, v(-2.5, 0.0, 0.0), 0).len(), 1);
    assert_eq!(oracle.query_swept_aabb(1, &query, v(-2.75, 0.0, 0.0), 0).len(), 2);
}

#[test]
fn a_copy_of_the_oracle_answers_alike() {
    let mut oracle = SpatialQueryOracle::new();
    oracle.upsert(state(1, 0.0, 1));
    let copy = oracle.clone();
    oracle.remove(OracleEntityKey { slot: 1, generation: 1 });
    assert_eq!((oracle.active_count(), copy.active_count()), (0, 1));
    assert!(format!("{:?}", copy).contains("SpatialQueryOracle"));
}
