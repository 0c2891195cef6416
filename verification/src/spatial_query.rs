//! The interface through which spatial queries are asked.
use crate::coord::Coord;
use crate::geometry::{BoundingBox, Vector3};
use crate::spatial_metrics::QueryCaller;
use vstd::prelude::*;

verus! {

/// Centralized trait for spatial entity queries across the world. Queries without a
/// caller are those of `QueryCaller::Other`.
pub trait SpatialQueries {
    /// Query all entities intersecting an axis-aligned box.
    fn query_aabb(&self, bounds: &BoundingBox) -> (entities: Vec<u64>)
        default_ensures
            call_ensures(
                Self::query_aabb_for,
                (self, bounds, QueryCaller::Other),
                entities,
            ),
    {
        self.query_aabb_for(bounds, QueryCaller::Other)
    }

    /// Query all entities intersecting an axis-aligned box, for a caller.
    fn query_aabb_for(&self, bounds: &BoundingBox, caller: QueryCaller) -> Vec<u64>;

    /// Query all entities within a spherical radius of a point.
    fn query_sphere(&self, center: Vector3, radius: Coord) -> (entities: Vec<u64>)
        default_ensures
            call_ensures(
                Self::query_sphere_for,
                (self, center, radius, QueryCaller::Other),
                entities,
            ),
    {
        self.query_sphere_for(center, radius, QueryCaller::Other)
    }

    /// Query all entities within a spherical radius of a point, for a caller.
    fn query_sphere_for(&self, center: Vector3, radius: Coord, caller: QueryCaller) -> Vec<u64>;

    /// Query all entities intersecting the volume that a box sweeps.
    fn query_swept_aabb(&self, bounds: &BoundingBox, movement: Vector3) -> (entities: Vec<u64>)
        default_ensures
            call_ensures(
                Self::query_swept_aabb_for,
                (self, bounds, movement, QueryCaller::Other),
                entities,
            ),
    {
        self.query_swept_aabb_for(bounds, movement, QueryCaller::Other)
    }

    /// Query all entities intersecting the volume that a box sweeps, for a caller.
    fn query_swept_aabb_for(&self, bounds: &BoundingBox, movement: Vector3, caller: QueryCaller)
        -> Vec<u64>;
}

} // verus!
