use pumpkin::coord::Coord;
use pumpkin::geometry::{BoundingBox, Vector3};
use pumpkin::spatial_pose::{AtomicSpatialPose, SpatialCategory, SpatialPose, SpatialProxy};
use pumpkin::spatial_registry::EntityKey;

fn c(value: f64) -> Coord {
    Coord::from_bits(value.to_bits())
}

fn v(x: f64, y: f64, z: f64) -> Vector3 {
    Vector3::new(c(x), c(y), c(z))
}

#[test]
fn test_seqlock_atomic_pose_reading_and_publishing() {
    let exact1 = BoundingBox::new(v(1.0, 2.0, 3.0), v(4.0, 5.0, 6.0));
    let initial = SpatialPose {
        world_id: 42,
        exact_bounds: exact1,
        coverage_bounds: SpatialPose::compute_coverage_bounds(exact1, c(0.0)),
        membership_revision: 1,
        categories: SpatialCategory { bits: SpatialCategory::LIVING | SpatialCategory::PUSHABLE },
        alive: true,
    };

    let mut atomic_pose = AtomicSpatialPose::new(initial);
    let read1 = atomic_pose.read();
    assert_eq!(read1, initial);

    let exact2 = BoundingBox::new(v(10.0, 20.0, 30.0), v(14.0, 25.0, 36.0));
    let updated = SpatialPose {
        world_id: 42,
        exact_bounds: exact2,
        coverage_bounds: SpatialPose::compute_coverage_bounds(exact2, c(0.0)),
        membership_revision: 2,
        categories: SpatialCategory { bits: SpatialCategory::PLAYER | SpatialCategory::DAMAGEABLE },
        alive: true,
    };

    atomic_pose.publish(updated);
    let read2 = atomic_pose.read();
    assert_eq!(read2, updated);
}

#[test]
fn coverage_pads_by_speed() {
    let exact = BoundingBox::new(v(1.0, 2.0, 3.0), v(4.0, 5.0, 6.0));
    for (speed, padding) in [
        (0.0, 0.25),
        (0.1, 0.25 + 0.1 * 2.0),
        (0.5, 1.25),
        (5.0, 2.0),
        (-1.0, 0.25),
        (f64::INFINITY, 2.0),
    ] {
        let half = padding * 0.5;
        assert_eq!(
            SpatialPose::compute_coverage_bounds(exact, c(speed)),
            BoundingBox::new(
                v(1.0 - padding, 2.0 - half, 3.0 - padding),
                v(4.0 + padding, 5.0 + half, 6.0 + padding),
            ),
            "{}",
            speed
        );
    }
}

#[test]
fn containment_includes_the_faces() {
    let outer = BoundingBox::new(v(0.0, 0.0, 0.0), v(2.0, 2.0, 2.0));
    let mut pose = SpatialPose {
        world_id: 1,
        exact_bounds: outer,
        coverage_bounds: outer,
        membership_revision: 1,
        categories: SpatialCategory { bits: 0 },
        alive: true,
    };
    assert!(pose.is_contained_in(&outer));
    pose.exact_bounds = BoundingBox::new(v(0.0, 0.0, 0.0), v(2.0, 2.0000001, 2.0));
    assert!(!pose.is_contained_in(&outer));
    pose.exact_bounds = BoundingBox::new(v(f64::NAN, 0.0, 0.0), v(2.0, 2.0, 2.0));
    assert!(!pose.is_contained_in(&outer));
}

#[test]
fn a_read_is_refused_during_a_publication() {
    let exact = BoundingBox::new(v(1.0, 2.0, 3.0), v(4.0, 5.0, 6.0));
    let pose = SpatialPose {
        world_id: 7,
        exact_bounds: exact,
        coverage_bounds: exact,
        membership_revision: 3,
        categories: SpatialCategory { bits: 0xffff },
        alive: false,
    };
    let proxy = SpatialProxy::new(EntityKey { slot: 1, generation: 2 }, pose);
    assert_eq!(proxy.key, EntityKey { slot: 1, generation: 2 });
    assert!(proxy.touched_chunks.is_empty());
    assert!(proxy.pose.try_read(4, 6).is_none());
    assert!(proxy.pose.try_read(5, 5).is_none());
    let seen = proxy.pose.try_read(6, 6).unwrap();
    assert_eq!(seen.categories.bits(), SpatialCategory::KNOWN);
    assert_eq!(seen.world_id, 7);
}

#[test]
fn unknown_flags_are_dropped() {
    assert_eq!(SpatialCategory::from_bits_truncate(0xffff_fc01).bits(), SpatialCategory::PLAYER);
    let item = SpatialCategory { bits: SpatialCategory::ITEM };
    assert!(item.matches_mask(0));
    assert!(item.matches_mask(SpatialCategory::ITEM | SpatialCategory::PLAYER));
    assert!(!item.matches_mask(SpatialCategory::PLAYER));
}

#[test]
fn boxes_overlap_in_their_interior_only() {
    let a = BoundingBox::new(v(0.0, 0.0, 0.0), v(1.0, 1.0, 1.0));
    assert!(a.intersects(&BoundingBox::new(v(0.5, 0.5, 0.5), v(2.0, 2.0, 2.0))));
    assert!(!a.intersects(&BoundingBox::new(v(1.0, 0.0, 0.0), v(2.0, 1.0, 1.0))));
    assert!(!a.intersects(&BoundingBox::new(v(0.0, f64::NAN, 0.0), v(2.0, 1.0, 1.0))));
    assert_eq!(
        a.expand(c(1.0), c(2.0), c(0.5)),
        BoundingBox::new(v(-1.0, -2.0, -0.5), v(2.0, 3.0, 1.5)),
    );
    let blocks = BoundingBox::new(v(-0.5, 63.25, 15.0), v(0.5, 65.0, 16.5)).block_range();
    assert_eq!((blocks.min_x, blocks.min_y, blocks.min_z), (-1, 63, 15));
    assert_eq!((blocks.max_x, blocks.max_y, blocks.max_z), (1, 65, 17));
}

#[test]
fn coverage_holds_the_box_and_grows_with_speed() {
    let exact = BoundingBox::new(v(-3.5, 64.0, 0.1), v(-2.75, 65.8, 0.9));
    let speeds = [f64::NEG_INFINITY, -1.0, 0.0, 0.1, 0.3, 0.874, 0.875, 3.0, f64::INFINITY];
    let mut last: Option<BoundingBox> = None;
    for speed in speeds {
        let coverage = SpatialPose::compute_coverage_bounds(exact, c(speed));
        assert!(exact.is_inside(&coverage));
        if let Some(last) = last {
            assert!(last.is_inside(&coverage));
        }
        if speed <= 0.0 {
            assert_eq!(coverage, exact.expand(c(0.25), c(0.125), c(0.25)));
        }
        if speed >= 0.875 {
            assert_eq!(coverage, exact.expand(c(2.0), c(1.0), c(2.0)));
        } else {
            assert_ne!(coverage, exact.expand(c(2.0), c(1.0), c(2.0)));
        }
        last = Some(coverage);
    }
}

#[test]
fn poses_are_equal_as_numbers() {
    let pose = |x: f64| SpatialPose {
        world_id: 1,
        exact_bounds: BoundingBox::new(v(x, 0.0, 0.0), v(1.0, 1.0, 1.0)),
        coverage_bounds: BoundingBox::new(v(-1.0, -1.0, -1.0), v(2.0, 2.0, 2.0)),
        membership_revision: 1,
        categories: SpatialCategory { bits: 1 },
        alive: true,
    };
    assert!(pose(0.0) == pose(-0.0));
    assert!(pose(0.5) == pose(0.5));
    assert!(pose(0.5) != pose(0.25));
    assert!(pose(f64::NAN) != pose(f64::NAN));
    let mut dead = pose(0.5);
    dead.alive = false;
    assert!(dead != pose(0.5));
}
