use rendy_pbr::hierarchy::TransformSystem;
use rendy_pbr::transform::Transform;
use rendy_pbr::Error;

#[test]
fn parent_child_translation_composes() {
    // P has local translate(1,0,0); C has parent P and local
    // translate(0,1,0).  After the walk, global(C) == translate(1,1,0).
    // Changing P's local to translate(2,0,0) marks both and yields
    // global(C) == translate(2,1,0).
    let mut sys = TransformSystem::new();
    let p = sys.create_entity().unwrap();
    let c = sys.create_entity().unwrap();
    sys.set_local(p, Transform::translation(1, 0, 0)).unwrap();
    sys.set_local(c, Transform::translation(0, 1, 0)).unwrap();
    sys.set_parent(c, Some(p)).unwrap();
    let dirty = sys.propagate().unwrap();
    assert!(dirty.contains(&p.index));
    assert!(dirty.contains(&c.index));
    {
        let gc = sys.global_of_entity(c).unwrap();
        assert_eq!(gc.entry(0, 3), 1);
        assert_eq!(gc.entry(1, 3), 1);
        assert_eq!(gc.entry(2, 3), 0);
        assert_eq!(gc.entry(0, 0), 1);
    }
    sys.set_local(p, Transform::translation(2, 0, 0)).unwrap();
    let dirty = sys.propagate().unwrap();
    assert!(dirty.contains(&p.index));
    assert!(dirty.contains(&c.index));
    let gc = sys.global_of_entity(c).unwrap();
    assert_eq!(gc.entry(0, 3), 2);
    assert_eq!(gc.entry(1, 3), 1);
    let gp = sys.global_of_entity(p).unwrap();
    assert_eq!(gp.entry(0, 3), 2);
    assert_eq!(gp.entry(1, 3), 0);
}

#[test]
fn ancestor_change_dirties_whole_chain() {
    // A change to the root's local marks the root, its child and its
    // grandchild as recomputed; an unrelated entity stays clean.
    let mut sys = TransformSystem::new();
    let root = sys.create_entity().unwrap();
    let mid = sys.create_entity().unwrap();
    let leaf = sys.create_entity().unwrap();
    let lone = sys.create_entity().unwrap();
    for e in [root, mid, leaf, lone] {
        sys.set_local(e, Transform::identity()).unwrap();
    }
    sys.set_parent(mid, Some(root)).unwrap();
    sys.set_parent(leaf, Some(mid)).unwrap();
    sys.propagate().unwrap();
    sys.set_local(root, Transform::translation(0, 0, 5)).unwrap();
    let dirty = sys.propagate().unwrap();
    assert!(dirty.contains(&root.index));
    assert!(dirty.contains(&mid.index));
    assert!(dirty.contains(&leaf.index));
    assert!(!dirty.contains(&lone.index));
    let gl = sys.global_of_entity(leaf).unwrap();
    assert_eq!(gl.entry(2, 3), 5);
}

#[test]
fn cycle_attempt_is_rejected_and_harmless() {
    // set_parent(a, b) where b is already a descendant of a fails with
    // CyclicParent and leaves the hierarchy unchanged.
    let mut sys = TransformSystem::new();
    let a = sys.create_entity().unwrap();
    let b = sys.create_entity().unwrap();
    sys.set_local(a, Transform::identity()).unwrap();
    sys.set_local(b, Transform::translation(1, 2, 3)).unwrap();
    sys.set_parent(b, Some(a)).unwrap();
    assert_eq!(sys.set_parent(a, Some(b)), Err(Error::CyclicParent));
    assert_eq!(sys.set_parent(a, Some(a)), Err(Error::CyclicParent));
    // The edge b -> a is still in place and composition still works.
    sys.propagate().unwrap();
    let gb = sys.global_of_entity(b).unwrap();
    assert_eq!(gb.entry(0, 3), 1);
    assert_eq!(gb.entry(1, 3), 2);
    assert_eq!(gb.entry(2, 3), 3);
}

#[test]
fn dead_entities_are_rejected() {
    let mut sys = TransformSystem::new();
    let a = sys.create_entity().unwrap();
    let b = sys.create_entity().unwrap();
    sys.delete_entity(a).unwrap();
    assert_eq!(sys.delete_entity(a), Err(Error::DeadEntity));
    assert_eq!(sys.set_local(a, Transform::identity()), Err(Error::DeadEntity));
    assert_eq!(sys.set_parent(b, Some(a)), Err(Error::DeadEntity));
    assert_eq!(sys.set_parent(a, None), Err(Error::DeadEntity));
    assert!(!sys.is_alive(a));
    assert!(sys.is_alive(b));
}

#[test]
fn recycled_row_gets_new_generation() {
    let mut sys = TransformSystem::new();
    let a = sys.create_entity().unwrap();
    sys.delete_entity(a).unwrap();
    let a2 = sys.create_entity().unwrap();
    assert_eq!(a2.index, a.index);
    assert_ne!(a2.generation, a.generation);
    assert!(!sys.is_alive(a));
    assert!(sys.is_alive(a2));
}

#[test]
fn deleted_parents_children_become_roots() {
    let mut sys = TransformSystem::new();
    let p = sys.create_entity().unwrap();
    let c = sys.create_entity().unwrap();
    sys.set_local(p, Transform::translation(4, 0, 0)).unwrap();
    sys.set_local(c, Transform::translation(0, 4, 0)).unwrap();
    sys.set_parent(c, Some(p)).unwrap();
    sys.propagate().unwrap();
    assert_eq!(sys.global_of_entity(c).unwrap().entry(0, 3), 4);
    sys.delete_entity(p).unwrap();
    let dirty = sys.propagate().unwrap();
    // The child was treated as a root: its stale global was recomputed
    // from its own local alone.
    assert!(dirty.contains(&c.index));
    let gc = sys.global_of_entity(c).unwrap();
    assert_eq!(gc.entry(0, 3), 0);
    assert_eq!(gc.entry(1, 3), 4);
}

#[test]
fn non_finite_local_is_rejected_at_assignment() {
    let mut sys = TransformSystem::new();
    let a = sys.create_entity().unwrap();
    let bad = match Transform::from_entries(vec![i64::MAX; 16]) {
        Err(e) => {
            assert_eq!(e, Error::NonFiniteTransform);
            e
        },
        Ok(_) => panic!("out-of-range entries must be rejected"),
    };
    let _ = bad;
    // A wrong shape is rejected too.
    assert!(Transform::from_entries(vec![0; 15]).is_err());
    // And a finite transform is accepted.
    let fine = Transform::from_entries(vec![0; 16]).unwrap();
    sys.set_local(a, fine).unwrap();
}

#[test]
fn reparenting_moves_the_subtree() {
    // Moving a subtree under a new parent recomputes its composition.
    let mut sys = TransformSystem::new();
    let r1 = sys.create_entity().unwrap();
    let r2 = sys.create_entity().unwrap();
    let c = sys.create_entity().unwrap();
    sys.set_local(r1, Transform::translation(10, 0, 0)).unwrap();
    sys.set_local(r2, Transform::translation(0, 10, 0)).unwrap();
    sys.set_local(c, Transform::translation(1, 1, 0)).unwrap();
    sys.set_parent(c, Some(r1)).unwrap();
    sys.propagate().unwrap();
    assert_eq!(sys.global_of_entity(c).unwrap().entry(0, 3), 11);
    sys.set_parent(c, Some(r2)).unwrap();
    let dirty = sys.propagate().unwrap();
    assert!(dirty.contains(&c.index));
    let gc = sys.global_of_entity(c).unwrap();
    assert_eq!(gc.entry(0, 3), 1);
    assert_eq!(gc.entry(1, 3), 11);
}
