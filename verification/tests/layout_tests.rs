use rendy_pbr::asset::{GltfBuffers, Mesh, MeshStorage, Primitive, PrimitiveStorage};
use rendy_pbr::array::HelmetArraySize;
use rendy_pbr::frames::DirtyTracker;
use rendy_pbr::instance::InstanceCache;
use rendy_pbr::layout::Settings;
use rendy_pbr::render::{plan_indirect_writes, plan_transform_writes};
use rendy_pbr::scene::{file_offsets, resolve_mesh_handle, single_active_camera, FileCounts};
use rendy_pbr::transform::Transform;
use rendy_pbr::Error;

#[test]
fn buffer_offsets_follow_the_alignment_formula() {
    // align 256, uniform block 100 bytes, 3 primitives (20 bytes each),
    // capacities [4, 2] (64 bytes per instance transform).
    let s = Settings::new(256, 100, 3, vec![4, 2]);
    assert_eq!(s.indirect_size(), 60);
    assert_eq!(s.transform_size(), 384);
    // ceil((100 + 60) / 256) * 256
    assert_eq!(s.uniform_indirect_buffer_frame_size(), 256);
    assert_eq!(s.transform_buffer_frame_size(), 512);
    assert_eq!(s.uniform_offset(0), 0);
    assert_eq!(s.uniform_offset(2), 512);
    assert_eq!(s.indirect_offset(1), 356);
    assert_eq!(s.transforms_offset(2), 1024);
    assert_eq!(s.mesh_transforms_index(0), 0);
    assert_eq!(s.mesh_transforms_index(1), 4);
    assert_eq!(s.instance_transform_index(1, 1), 5);
    assert_eq!(s.primitive_indirect_offset(2), 40);
}

#[test]
fn layout_mismatch_is_fatal_and_exact() {
    let a = Settings::new(256, 100, 3, vec![4, 2]);
    let b = Settings::new(256, 100, 3, vec![4, 2]);
    let c = Settings::new(256, 100, 3, vec![4, 3]);
    let d = Settings::new(128, 100, 3, vec![4, 2]);
    assert!(a.check_matches(&b).is_ok());
    assert_eq!(a.check_matches(&c), Err(Error::LayoutMismatch));
    assert_eq!(a.check_matches(&d), Err(Error::LayoutMismatch));
}

fn two_mesh_cache() -> InstanceCache {
    let meshes = MeshStorage(vec![
        Mesh { primitives: vec![0], max_instances: 4 },
        Mesh { primitives: vec![1, 2], max_instances: 2 },
    ]);
    let primitives = PrimitiveStorage(vec![
        Primitive { mesh_handle: 0, mat: 0, index_count: 36 },
        Primitive { mesh_handle: 1, mat: 0, index_count: 12 },
        Primitive { mesh_handle: 1, mat: 1, index_count: 18 },
    ]);
    InstanceCache::new(meshes, primitives, 2)
}

#[test]
fn planned_writes_carry_counts_and_offsets() {
    let s = Settings::new(256, 100, 3, vec![4, 2]);
    let mut cache = two_mesh_cache();
    let mut tracker = DirtyTracker::new(2);
    cache.on_mesh_assigned(&mut tracker, 1, 0).unwrap();
    cache.on_mesh_assigned(&mut tracker, 2, 1).unwrap();
    cache.on_mesh_assigned(&mut tracker, 3, 1).unwrap();
    let (dirty_entities, dirty_meshes) = tracker.take_and_clear(0);
    assert_eq!(dirty_meshes, vec![0, 1]);
    // Frame 1: indirect table starts at 256 + 100 = 356.
    let iw = plan_indirect_writes(&s, &cache, &dirty_meshes, 1);
    assert_eq!(iw.len(), 3);
    assert_eq!(iw[0].offset, 356);
    assert_eq!(iw[0].command.index_count, 36);
    assert_eq!(iw[0].command.instance_count, 1);
    assert_eq!(iw[1].offset, 356 + 20);
    assert_eq!(iw[1].command.index_count, 12);
    assert_eq!(iw[1].command.instance_count, 2);
    assert_eq!(iw[2].offset, 356 + 40);
    assert_eq!(iw[2].command.index_count, 18);
    assert_eq!(iw[2].command.first_index, 0);
    assert_eq!(iw[2].command.first_instance, 0);
    // Frame 1's transform table starts at 512; mesh 1's base slot is 4.
    let tw = plan_transform_writes(&s, &cache, &dirty_entities, 1);
    assert_eq!(tw.len(), 3);
    assert_eq!(tw[0].entity, 1);
    assert_eq!(tw[0].offset, 512);
    assert_eq!(tw[1].entity, 2);
    assert_eq!(tw[1].offset, 512 + 4 * 64);
    assert_eq!(tw[2].entity, 3);
    assert_eq!(tw[2].offset, 512 + 5 * 64);
}

#[test]
fn transforms_compose_exactly() {
    let a = Transform::translation(1, 0, 0);
    let b = Transform::translation(0, 1, 0);
    let ab = a.multiply(&b).unwrap();
    assert_eq!(ab.entry(0, 3), 1);
    assert_eq!(ab.entry(1, 3), 1);
    assert_eq!(ab.entry(2, 3), 0);
    let id = Transform::identity();
    let aid = a.multiply(&id).unwrap();
    for r in 0..4 {
        for c in 0..4 {
            assert_eq!(aid.entry(r, c), a.entry(r, c));
        }
    }
    assert!(a.is_finite());
}

#[test]
fn buffer_views_slice_the_loaded_bytes() {
    let buffers = GltfBuffers(vec![vec![1, 2, 3, 4, 5], vec![9, 9]]);
    assert_eq!(buffers.buffer(0).unwrap(), &vec![1, 2, 3, 4, 5]);
    assert!(buffers.buffer(2).is_none());
    assert_eq!(buffers.view(0, 1, 3).unwrap(), vec![2, 3, 4]);
    assert_eq!(buffers.view(1, 0, 2).unwrap(), vec![9, 9]);
    assert!(buffers.view(5, 0, 0).is_none());
}

#[test]
fn array_size_respects_capacity_and_floor() {
    let mut size = HelmetArraySize { x: 1, y: 1, z: 1 };
    assert_eq!(size.size(), 1);
    size.try_add_x(4);
    assert_eq!(size.x, 2);
    size.try_add_y(4);
    assert_eq!(size.y, 2);
    // 2*2*2 = 8 > 4: growing z is refused.
    size.try_add_z(4);
    assert_eq!(size.z, 1);
    assert_eq!(size.size(), 4);
    size.try_sub_x();
    assert_eq!(size.x, 1);
    size.try_sub_x();
    assert_eq!(size.x, 1);
}

#[test]
fn scene_offsets_are_prefix_sums() {
    let counts = vec![
        FileCounts { meshes: 2, materials: 3, nodes: 5 },
        FileCounts { meshes: 1, materials: 0, nodes: 2 },
        FileCounts { meshes: 4, materials: 1, nodes: 1 },
    ];
    let offsets = file_offsets(&counts);
    assert_eq!(offsets.len(), 3);
    assert_eq!((offsets[0].meshes, offsets[0].materials, offsets[0].nodes), (0, 0, 0));
    assert_eq!((offsets[1].meshes, offsets[1].materials, offsets[1].nodes), (2, 3, 5));
    assert_eq!((offsets[2].meshes, offsets[2].materials, offsets[2].nodes), (3, 3, 7));
    assert_eq!(resolve_mesh_handle(&offsets, 2, 1), Some(4));
    assert_eq!(resolve_mesh_handle(&offsets, 3, 0), None);
    assert!(single_active_camera(&vec![false, true, false]));
    assert!(!single_active_camera(&vec![true, false, true]));
    assert!(single_active_camera(&vec![]));
}

#[test]
fn error_messages_name_the_condition() {
    assert_eq!(Error::DeadEntity.message(), "entity is dead");
    assert_eq!(Error::CapacityExceeded.message(), "mesh instance capacity exceeded");
    assert_eq!(Error::CyclicParent.message(), "parent assignment would create a cycle");
    assert_eq!(Error::NonFiniteTransform.message(), "transform entry out of finite range");
    assert_eq!(Error::LayoutMismatch.message(), "layout configuration mismatch");
}
