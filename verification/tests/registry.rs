use rendy_pbr::array::sync_array_entities;
use rendy_pbr::asset::{Mesh, MeshStorage, Primitive, PrimitiveStorage};
use rendy_pbr::frames::DirtyTracker;
use rendy_pbr::hierarchy::TransformSystem;
use rendy_pbr::instance::InstanceCache;

fn demo_cache() -> InstanceCache {
    // One mesh with capacity 4 and two primitives on materials 0 and 1.
    let meshes = MeshStorage(vec![Mesh { primitives: vec![0, 1], max_instances: 4 }]);
    let primitives = PrimitiveStorage(vec![
        Primitive { mesh_handle: 0, mat: 0, index_count: 36 },
        Primitive { mesh_handle: 0, mat: 1, index_count: 12 },
    ]);
    InstanceCache::new(meshes, primitives, 2)
}

#[test]
fn assign_four_then_fifth_fails() {
    // Mesh M has capacity 4: E1..E4 get slots 0,1,2,3; a fifth assignment
    // is the fatal capacity error.
    let mut cache = demo_cache();
    let mut tracker = DirtyTracker::new(3);
    for e in 1u32..=4 {
        assert!(cache.on_mesh_assigned(&mut tracker, e, 0).is_ok());
    }
    assert_eq!(cache.instance_count(0), 4);
    for e in 1u32..=4 {
        let mi = cache.instance_of(e).unwrap();
        assert_eq!(mi.mesh, 0);
        assert_eq!(mi.instance as u32, e - 1);
    }
    let r = cache.on_mesh_assigned(&mut tracker, 5, 0);
    assert_eq!(r, Err(rendy_pbr::Error::CapacityExceeded));
    assert_eq!(cache.instance_count(0), 4);
}

#[test]
fn removal_compacts_and_marks_movers() {
    // Removing E2 (slot 1) moves E3 to slot 1 and E4 to slot 2; E3 and E4
    // appear in the dirty sets, E1 does not; the instance count drops to 3.
    let mut cache = demo_cache();
    let mut tracker = DirtyTracker::new(3);
    for e in 1u32..=4 {
        cache.on_mesh_assigned(&mut tracker, e, 0).unwrap();
    }
    // Drain the assignment dirt so only the removal's dirt remains.
    for f in 0..3 {
        tracker.take_and_clear(f);
    }
    cache.on_mesh_removed(&mut tracker, 2);
    assert_eq!(cache.instance_count(0), 3);
    assert!(cache.instance_of(2).is_none());
    assert_eq!(cache.instance_of(1).unwrap().instance, 0);
    assert_eq!(cache.instance_of(3).unwrap().instance, 1);
    assert_eq!(cache.instance_of(4).unwrap().instance, 2);
    for f in 0..3 {
        assert!(!tracker.entity_is_dirty(f, 1));
        assert!(tracker.entity_is_dirty(f, 3));
        assert!(tracker.entity_is_dirty(f, 4));
        assert!(tracker.mesh_is_dirty(f, 0));
    }
}

#[test]
fn slots_stay_dense_after_mixed_churn() {
    // After any sequence of assignments and removals the occupied slots
    // are exactly 0..count-1.
    let mut cache = demo_cache();
    let mut tracker = DirtyTracker::new(2);
    cache.on_mesh_assigned(&mut tracker, 10, 0).unwrap();
    cache.on_mesh_assigned(&mut tracker, 11, 0).unwrap();
    cache.on_mesh_assigned(&mut tracker, 12, 0).unwrap();
    cache.on_mesh_removed(&mut tracker, 10);
    cache.on_mesh_assigned(&mut tracker, 13, 0).unwrap();
    cache.on_mesh_removed(&mut tracker, 12);
    let count = cache.instance_count(0) as usize;
    assert_eq!(count, 2);
    let mut seen = vec![false; count];
    for e in [11u32, 13] {
        let mi = cache.instance_of(e).unwrap();
        assert!((mi.instance as usize) < count);
        assert!(!seen[mi.instance as usize]);
        seen[mi.instance as usize] = true;
    }
    assert!(seen.iter().all(|s| *s));
}

#[test]
fn material_index_follows_membership() {
    let mut cache = demo_cache();
    let mut tracker = DirtyTracker::new(2);
    assert!(!cache.material_contains(0, 7));
    cache.on_mesh_assigned(&mut tracker, 7, 0).unwrap();
    assert!(cache.material_contains(0, 7));
    assert!(cache.material_contains(1, 7));
    assert_eq!(cache.material_entities(0), vec![7]);
    cache.on_mesh_removed(&mut tracker, 7);
    assert!(!cache.material_contains(0, 7));
    assert!(!cache.material_contains(1, 7));
    assert_eq!(cache.material_entities(0), Vec::<u32>::new());
}

#[test]
fn take_and_clear_twice_returns_nothing() {
    // With no marking in between, the second take of the same frame slot
    // is empty.
    let mut tracker = DirtyTracker::new(2);
    tracker.mark(5);
    tracker.mark_mesh(0);
    let (e1, m1) = tracker.take_and_clear(0);
    assert_eq!(e1, vec![5]);
    assert_eq!(m1, vec![0]);
    let (e2, m2) = tracker.take_and_clear(0);
    assert!(e2.is_empty());
    assert!(m2.is_empty());
    // The other frame slot still holds the broadcast dirt.
    let (e3, m3) = tracker.take_and_clear(1);
    assert_eq!(e3, vec![5]);
    assert_eq!(m3, vec![0]);
}

#[test]
fn mark_broadcasts_to_every_frame_slot() {
    let mut tracker = DirtyTracker::new(3);
    tracker.mark(9);
    for f in 0..3 {
        assert!(tracker.entity_is_dirty(f, 9));
        assert!(!tracker.entity_is_dirty(f, 8));
    }
    assert_eq!(tracker.current_frame, 0);
    tracker.advance();
    assert_eq!(tracker.current_frame, 1);
    tracker.advance();
    tracker.advance();
    assert_eq!(tracker.current_frame, 0);
}

#[test]
fn transform_dirt_needs_membership() {
    let mut cache = demo_cache();
    let mut tracker = DirtyTracker::new(2);
    cache.on_mesh_assigned(&mut tracker, 3, 0).unwrap();
    for f in 0..2 {
        tracker.take_and_clear(f);
    }
    // Entity 3 owns a slot, entity 4 does not.
    cache.apply_world_changes(&mut tracker, &vec![3, 4]);
    for f in 0..2 {
        assert!(tracker.entity_is_dirty(f, 3));
        assert!(!tracker.entity_is_dirty(f, 4));
    }
}

#[test]
fn array_sync_grows_and_shrinks() {
    let mut store = TransformSystem::new();
    let mut cache = demo_cache();
    let mut tracker = DirtyTracker::new(2);
    let mut entities = Vec::new();
    sync_array_entities(&mut store, &mut cache, &mut tracker, &mut entities, 3, 0).unwrap();
    assert_eq!(entities.len(), 3);
    assert_eq!(cache.instance_count(0), 3);
    for e in &entities {
        assert!(store.is_alive(*e));
        assert_eq!(cache.instance_of(e.index).unwrap().mesh, 0);
    }
    // Capacity 4: growing to 5 is the fatal capacity error, and changes
    // nothing.
    let r = sync_array_entities(&mut store, &mut cache, &mut tracker, &mut entities, 5, 0);
    assert_eq!(r, Err(rendy_pbr::Error::CapacityExceeded));
    assert_eq!(entities.len(), 3);
    assert_eq!(cache.instance_count(0), 3);
    // Shrinking reclaims slots and kills the surplus entities.
    let dropped = entities[2];
    sync_array_entities(&mut store, &mut cache, &mut tracker, &mut entities, 1, 0).unwrap();
    assert_eq!(entities.len(), 1);
    assert_eq!(cache.instance_count(0), 1);
    assert!(!store.is_alive(dropped));
    assert!(cache.instance_of(dropped.index).is_none());
}
