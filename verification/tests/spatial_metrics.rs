use pumpkin::spatial_metrics::{CallerSnapshot, QueryCaller, QueryKind, SpatialMetrics};

#[test]
fn test_spatial_metrics_accumulation() {
    let mut metrics = SpatialMetrics::new();
    metrics.record_query(QueryCaller::ItemMerge, QueryKind::Aabb, 100, 5, 500);
    metrics.record_query(QueryCaller::PushCollision, QueryKind::Sphere, 50, 2, 300);

    let snap = metrics.snapshot();
    assert_eq!(snap.total_queries, 2);
    assert_eq!(snap.total_entities_examined, 150);
    assert_eq!(snap.total_candidates_returned, 7);
    assert_eq!(snap.total_duration_ns, 800);
    assert_eq!(snap.aabb_queries, 1);
    assert_eq!(snap.sphere_queries, 1);

    let item_caller = snap.callers[QueryCaller::ItemMerge.index()];
    assert_eq!(item_caller.query_count, 1);
    assert_eq!(item_caller.entities_examined, 100);
    assert_eq!(item_caller.candidates_returned, 5);
    assert_eq!(item_caller.total_duration_ns, 500);

    metrics.reset();
    let reset_snap = metrics.snapshot();
    assert_eq!(reset_snap.total_queries, 0);
    assert_eq!(reset_snap.total_entities_examined, 0);
}

#[test]
fn callers_and_kinds_add_up_to_the_total() {
    let callers = [
        QueryCaller::ItemMerge,
        QueryCaller::PushCollision,
        QueryCaller::Projectile,
        QueryCaller::Explosion,
        QueryCaller::BlockInteraction,
        QueryCaller::EntitySelector,
        QueryCaller::VillagerAi,
        QueryCaller::Other,
    ];
    let kinds = [QueryKind::Aabb, QueryKind::Sphere, QueryKind::PredicateScan];
    let mut metrics = SpatialMetrics::default();
    for i in 0..50 {
        metrics.record_query(callers[i % 8], kinds[i % 3], i, i / 2, 3);
    }
    let snap = metrics.snapshot();
    assert_eq!(snap.total_queries, 50);
    assert_eq!(snap.aabb_queries + snap.sphere_queries + snap.predicate_queries, 50);
    assert_eq!(snap.aabb_queries, 17);
    assert_eq!(snap.predicate_queries, 16);
    assert_eq!(snap.callers.iter().map(|c| c.query_count).sum::<u64>(), 50);
    assert_eq!(snap.total_duration_ns, 150);
    assert_eq!(snap.callers[QueryCaller::Other.index()].query_count, 6);
}

#[test]
fn callers_have_places_of_their_own() {
    assert_eq!(QueryCaller::COUNT, 8);
    assert_eq!(QueryCaller::ItemMerge.index(), 0);
    assert_eq!(QueryCaller::Projectile.index(), 2);
    assert_eq!(QueryCaller::Other.index(), 7);
}

#[test]
fn counters_wrap_around() {
    let mut metrics = SpatialMetrics::new();
    metrics.record_query(QueryCaller::Other, QueryKind::PredicateScan, 1, 0, u64::MAX);
    metrics.record_query(QueryCaller::Other, QueryKind::PredicateScan, 1, 0, 2);
    assert_eq!(metrics.snapshot().total_duration_ns, 1);
    metrics.reset();
    let snap = metrics.snapshot();
    assert_eq!(snap.callers[7], CallerSnapshot::default());
    assert_eq!(snap.predicate_queries, 0);
}

#[test]
fn totals_are_sums_over_callers_in_any_order() {
    let records = [
        (QueryCaller::Projectile, QueryKind::Aabb, 10, 3, 7),
        (QueryCaller::Other, QueryKind::Sphere, 20, 5, 11),
        (QueryCaller::Projectile, QueryKind::PredicateScan, 30, 9, 13),
    ];
    let mut forwards = SpatialMetrics::new();
    let mut backwards = SpatialMetrics::new();
    for i in 0..3 {
        let r = records[i];
        forwards.record_query(r.0, r.1, r.2, r.3, r.4);
        let r = records[2 - i];
        backwards.record_query(r.0, r.1, r.2, r.3, r.4);
    }
    let (a, b) = (forwards.snapshot(), backwards.snapshot());
    assert_eq!(a.callers, b.callers);
    assert_eq!((a.total_entities_examined, b.total_entities_examined), (60, 60));
    assert_eq!(a.callers.iter().map(|c| c.entities_examined).sum::<u64>(), 60);
    assert_eq!((a.total_candidates_returned, b.total_candidates_returned), (17, 17));
    assert_eq!(a.callers.iter().map(|c| c.candidates_returned).sum::<u64>(), 17);
    assert_eq!((a.total_duration_ns, b.total_duration_ns), (31, 31));
    assert_eq!(a.callers.iter().map(|c| c.total_duration_ns).sum::<u64>(), 31);
}
