use pumpkin::coord::Coord;
use pumpkin::geometry::{BoundingBox, Vector3};
use pumpkin::spatial_metrics::QueryCaller;
use pumpkin::spatial_query::SpatialQueries;

/// Answers a query with a number of its own and one for the caller.
struct Echo;

fn caller_number(caller: QueryCaller) -> u64 {
    if caller == QueryCaller::Other { 1 } else { 0 }
}

impl SpatialQueries for Echo {
    fn query_aabb_for(&self, bounds: &BoundingBox, caller: QueryCaller) -> Vec<u64> {
        vec![10, caller_number(caller), bounds.min.x.to_bits()]
    }

    fn query_sphere_for(&self, center: Vector3, radius: Coord, caller: QueryCaller) -> Vec<u64> {
        vec![20, caller_number(caller), center.x.to_bits(), radius.to_bits()]
    }

    fn query_swept_aabb_for(
        &self,
        bounds: &BoundingBox,
        movement: Vector3,
        caller: QueryCaller,
    ) -> Vec<u64> {
        vec![30, caller_number(caller), bounds.min.x.to_bits(), movement.x.to_bits()]
    }
}

fn vector(x: f64) -> Vector3 {
    let coord = Coord::from_bits(x.to_bits());
    Vector3::new(coord, coord, coord)
}

#[test]
fn queries_without_a_caller_are_those_of_others() {
    let bounds = BoundingBox::new(vector(1.5), vector(2.5));
    let (one, two) = (1.5f64.to_bits(), 7.0f64.to_bits());
    assert_eq!(Echo.query_aabb(&bounds), vec![10, 1, one]);
    let radius = Coord::from_bits(two);
    assert_eq!(Echo.query_sphere(vector(1.5), radius), vec![20, 1, one, two]);
    assert_eq!(Echo.query_swept_aabb(&bounds, vector(7.0)), vec![30, 1, one, two]);
}
