use pumpkin::spatial_registry::{EntityKey, EntitySpatialRegistry};

#[test]
fn test_generational_slot_reuse_invariance() {
    let mut registry = EntitySpatialRegistry::new();
    let entity1: u64 = 101;
    let key1 = registry.allocate(entity1);

    assert_eq!(key1.slot, 0);
    assert_eq!(key1.generation, 1);

    assert!(registry.resolve(key1).is_some());

    assert!(registry.remove(key1));
    assert!(registry.resolve(key1).is_none());

    let entity2: u64 = 102;
    let key2 = registry.allocate(entity2);

    assert_eq!(key2.slot, 0);
    assert_eq!(key2.generation, 2);

    assert!(registry.resolve(key1).is_none());
    assert!(registry.resolve(key2).is_some());
}

#[test]
fn active_entities_come_in_order_of_arrival() {
    let mut registry = EntitySpatialRegistry::default();
    let a = registry.allocate(10);
    let b = registry.allocate(20);
    registry.allocate(30);
    assert_eq!(registry.for_each_active(), vec![10, 20, 30]);
    assert!(registry.remove(a));
    assert_eq!(registry.for_each_active(), vec![20, 30]);
    assert_eq!(registry.resolve(b), Some(20));
    registry.allocate(40);
    assert_eq!(registry.for_each_active(), vec![20, 30, 40]);
}

#[test]
fn the_slot_freed_last_is_reused_first() {
    let mut registry = EntitySpatialRegistry::new();
    let a = registry.allocate(1);
    let b = registry.allocate(2);
    registry.remove(a);
    registry.remove(b);
    assert_eq!(registry.allocate(3), EntityKey { slot: 1, generation: 2 });
    assert_eq!(registry.allocate(4), EntityKey { slot: 0, generation: 2 });
    assert_eq!(registry.allocate(5), EntityKey { slot: 2, generation: 1 });
}

#[test]
fn foreign_and_null_handles_do_nothing() {
    let mut registry = EntitySpatialRegistry::new();
    let key = registry.allocate(1);
    assert!(EntityKey::null().is_null());
    assert!(!key.is_null());
    assert!(registry.resolve(EntityKey::null()).is_none());
    assert!(!registry.remove(EntityKey::null()));
    assert!(!registry.remove(EntityKey { slot: 9, generation: 1 }));
    assert!(!registry.remove(EntityKey { slot: 0, generation: 7 }));
    assert!(registry.can_allocate());
    assert_eq!(registry.resolve(key), Some(1));
    assert!(registry.remove(key));
    assert!(!registry.remove(key));
}

#[test]
fn an_entity_stays_active_under_its_other_handles() {
    let mut registry = EntitySpatialRegistry::new();
    let first = registry.allocate(7);
    registry.allocate(8);
    let second = registry.allocate(7);
    assert_eq!(registry.for_each_active(), vec![7, 8, 7]);
    assert!(registry.remove(first));
    assert_eq!(registry.resolve(second), Some(7));
    assert_eq!(registry.for_each_active(), vec![8, 7]);
    assert!(registry.remove(second));
    assert_eq!(registry.for_each_active(), vec![8]);
}
