//! The mesh instance registry.
//!
//! Every entity with a mesh membership owns exactly one dense instance
//! slot of that mesh: the occupied slots of a mesh are always
//! `{0, .., current_count-1}`, which is what lets one indirect draw
//! command carry a single instance count.  Removal compacts the slot
//! range by shifting every later slot down one, and reports each moved
//! entity to the multi-frame dirty tracker.  A per-material index of
//! owning entities is kept for draw batching.
use vstd::prelude::*;

use crate::asset::{MeshHandle, MeshStorage, PrimitiveStorage};
use crate::bits::{bitset_add, bitset_contains, bitset_items, bitset_new, bitset_remove, elems,
    strictly_ascending, MAX_INDEX};
use crate::frames::DirtyTracker;
use crate::Error;

verus! {

/// Dense instance index within a mesh's slot range.
pub type InstanceIndex = u16;

/// The slot an entity owns: its mesh and its dense instance index.
#[derive(Debug, Clone, Copy, PartialEq, Eq, Structural)]
pub struct MeshInstance {
    pub mesh: MeshHandle,
    pub instance: InstanceIndex,
}

/// Per-entity slot assignments, indexed by entity id.
pub type MeshInstanceStorage = Vec<Option<MeshInstance>>;

/// The registry: per-entity slot assignments, per-mesh dense slot
/// tables and instance counts, and the per-material entity index.
pub struct InstanceCache {
    pub meshes: MeshStorage,
    pub primitives: PrimitiveStorage,
    pub num_materials: usize,
    pub mesh_instances: MeshInstanceStorage,
    pub mesh_instance_counts: Vec<u32>,
    pub slot_entities: Vec<Vec<u32>>,
    pub material_bitsets: Vec<hibitset::BitSet>,
}

impl InstanceCache {
    pub open spec fn num_meshes(&self) -> int {
        self.meshes.0@.len() as int
    }

    /// The slot assignment of entity `e`, `None` when it has no mesh
    /// membership.
    pub open spec fn membership(&self, e: int) -> Option<MeshInstance> {
        if 0 <= e < self.mesh_instances@.len() {
            self.mesh_instances@[e]
        } else {
            None
        }
    }

    /// Current number of live instances of mesh `m`.
    pub open spec fn count_of(&self, m: int) -> u32 {
        self.mesh_instance_counts@[m]
    }

    /// The owning entity per dense slot of mesh `m`.
    pub open spec fn slots_of(&self, m: int) -> Seq<u32> {
        self.slot_entities@[m]@
    }

    /// Fixed instance capacity of mesh `m`.
    pub open spec fn max_of(&self, m: int) -> u16 {
        self.meshes.0@[m].max_instances
    }

    /// Material bound to primitive handle `p`.
    pub open spec fn prim_mat(&self, p: int) -> int {
        self.primitives.0@[p].mat as int
    }

    /// Whether some primitive of mesh `m` is bound to material `mat`.
    pub open spec fn mesh_has_material(&self, m: int, mat: int) -> bool {
        exists|i: int|
            0 <= i < self.meshes.0@[m].primitives@.len() && self.prim_mat(
                self.meshes.0@[m].primitives@[i] as int,
            ) == mat
    }

    /// The entities indexed under material `mat`.
    pub open spec fn material_set(&self, mat: int) -> Set<u32> {
        elems(&self.material_bitsets@[mat])
    }

    /// The entity set that material `mat` must index: every entity whose
    /// mesh has a primitive bound to `mat`.
    pub open spec fn expected_material_set(&self, mat: int) -> Set<u32> {
        Set::new(
            |e: u32|
                {
                    &&& self.membership(e as int) is Some
                    &&& self.mesh_has_material(
                        self.membership(e as int)->Some_0.mesh as int,
                        mat,
                    )
                },
        )
    }

    /// The fixed scene description is consistent and small enough for
    /// the id sets in use.
    pub open spec fn wf_defs(&self) -> bool {
        &&& self.mesh_instance_counts@.len() == self.num_meshes()
        &&& self.slot_entities@.len() == self.num_meshes()
        &&& self.material_bitsets@.len() == self.num_materials
        &&& self.num_meshes() <= MAX_INDEX
        &&& self.mesh_instances@.len() <= MAX_INDEX
        &&& forall|m: int, i: int|
            0 <= m < self.num_meshes() && 0 <= i < self.meshes.0@[m].primitives@.len()
                ==> #[trigger] self.meshes.0@[m].primitives@[i] < self.primitives.0@.len()
        &&& forall|p: int|
            0 <= p < self.primitives.0@.len() ==> #[trigger] self.primitives.0@[p].mat
                < self.num_materials
    }

    /// Slot tables and per-entity assignments form a bijection: slot `s`
    /// of mesh `m` is owned by exactly the entity whose assignment is
    /// `(m, s)`, and counts match table lengths within capacity.
    pub open spec fn wf_slots(&self) -> bool {
        &&& forall|m: int|
            0 <= m < self.num_meshes() ==> #[trigger] self.slots_of(m).len() == self.count_of(m)
        &&& forall|m: int|
            0 <= m < self.num_meshes() ==> #[trigger] self.count_of(m) <= self.max_of(m)
        &&& forall|m: int, s: int|
            0 <= m < self.num_meshes() && 0 <= s < self.slots_of(m).len() ==> {
                let e = #[trigger] self.slots_of(m)[s];
                &&& self.membership(e as int) == Some(
                    MeshInstance { mesh: m as MeshHandle, instance: s as InstanceIndex },
                )
            }
        &&& forall|e: int|
            0 <= e < self.mesh_instances@.len() && #[trigger] self.mesh_instances@[e] is Some
                ==> {
                let mi = self.mesh_instances@[e]->Some_0;
                &&& 0 <= mi.mesh < self.num_meshes()
                &&& (mi.instance as int) < self.slots_of(mi.mesh as int).len()
                &&& self.slots_of(mi.mesh as int)[mi.instance as int] == e
            }
    }

    /// Every material's index holds exactly the owning entities of the
    /// meshes that use it.
    pub open spec fn wf_materials(&self) -> bool {
        forall|mat: int|
            0 <= mat < self.num_materials ==> #[trigger] self.material_set(mat)
                == self.expected_material_set(mat)
    }

    pub open spec fn wf(&self) -> bool {
        &&& self.wf_defs()
        &&& self.wf_slots()
        &&& self.wf_materials()
    }

    /// The scene description is unchanged by registry operations.
    pub open spec fn same_defs(&self, other: &InstanceCache) -> bool {
        &&& self.meshes.0@ == other.meshes.0@
        &&& self.primitives.0@ == other.primitives.0@
        &&& self.num_materials == other.num_materials
    }

    /// Builds an empty registry over a fixed scene description.
    pub fn new(meshes: MeshStorage, primitives: PrimitiveStorage, num_materials: usize) -> (r:
        InstanceCache)
        requires
            meshes.0@.len() <= MAX_INDEX,
            forall|m: int, i: int|
                0 <= m < meshes.0@.len() && 0 <= i < meshes.0@[m].primitives@.len()
                    ==> #[trigger] meshes.0@[m].primitives@[i] < primitives.0@.len(),
            forall|p: int|
                0 <= p < primitives.0@.len() ==> #[trigger] primitives.0@[p].mat < num_materials,
        ensures
            r.wf(),
            r.meshes.0@ == meshes.0@,
            r.primitives.0@ == primitives.0@,
            r.num_materials == num_materials,
            forall|m: int| 0 <= m < r.num_meshes() ==> #[trigger] r.count_of(m) == 0,
            forall|e: int| r.membership(e) is None,
    {
        let num_meshes = meshes.0.len();
        let mut mesh_instance_counts: Vec<u32> = Vec::new();
        let mut slot_entities: Vec<Vec<u32>> = Vec::new();
        let mut i: usize = 0;
        while i < num_meshes
            invariant
                i <= num_meshes,
                mesh_instance_counts@.len() == i,
                slot_entities@.len() == i,
                forall|m: int| 0 <= m < i ==> #[trigger] mesh_instance_counts@[m] == 0,
                forall|m: int| 0 <= m < i ==> #[trigger] slot_entities@[m]@.len() == 0,
            decreases num_meshes - i,
        {
            mesh_instance_counts.push(0);
            slot_entities.push(Vec::new());
            i = i + 1;
        }
        let mut material_bitsets: Vec<hibitset::BitSet> = Vec::new();
        let mut j: usize = 0;
        while j < num_materials
            invariant
                j <= num_materials,
                material_bitsets@.len() == j,
                forall|mat: int|
                    0 <= mat < j ==> #[trigger] elems(&material_bitsets@[mat]) =~= Set::<
                    u32,
                    >::empty(),
            decreases num_materials - j,
        {
            material_bitsets.push(bitset_new());
            j = j + 1;
        }
        let r = InstanceCache {
            meshes,
            primitives,
            num_materials,
            mesh_instances: Vec::new(),
            mesh_instance_counts,
            slot_entities,
            material_bitsets,
        };
        proof {
            assert forall|mat: int| 0 <= mat < r.num_materials implies #[trigger] r.material_set(
                mat,
            ) == r.expected_material_set(mat) by {
                assert(r.material_set(mat) =~= r.expected_material_set(mat));
            }
        }
        r
    }

    /// Assigns the next free dense slot of `mesh` to entity `e`, indexes
    /// `e` under each material of the mesh's primitives, and marks both
    /// `e` and `mesh` dirty in every frame slot.  Fails with
    /// `CapacityExceeded`, changing nothing, exactly when the mesh's
    /// fixed capacity is exhausted.
    pub fn on_mesh_assigned(
        &mut self,
        tracker: &mut DirtyTracker,
        e: u32,
        mesh: MeshHandle,
    ) -> (r: Result<(), Error>)
        requires
            old(self).wf(),
            old(tracker).wf(),
            mesh < old(self).num_meshes(),
            e < MAX_INDEX,
            old(self).membership(e as int) is None,
        ensures
            final(self).wf(),
            final(tracker).wf(),
            final(self).same_defs(old(self)),
            final(tracker).frames_in_flight == old(tracker).frames_in_flight,
            final(tracker).current_frame == old(tracker).current_frame,
            r is Err <==> old(self).count_of(mesh as int) == old(self).max_of(mesh as int),
            match r {
                Err(err) => {
                    &&& err == Error::CapacityExceeded
                    &&& *final(self) == *old(self)
                    &&& *final(tracker) == *old(tracker)
                },
                Ok(()) => {
                    &&& final(self).count_of(mesh as int) == old(self).count_of(mesh as int) + 1
                    &&& final(self).slots_of(mesh as int) == old(self).slots_of(mesh as int).push(e)
                    &&& final(self).membership(e as int) == Some(
                        MeshInstance {
                            mesh,
                            instance: old(self).count_of(mesh as int) as InstanceIndex,
                        },
                    )
                    &&& forall|e2: int|
                        e2 != e ==> #[trigger] final(self).membership(e2) == old(self).membership(
                            e2,
                        )
                    &&& forall|m2: int|
                        0 <= m2 < old(self).num_meshes() && m2 != mesh ==> #[trigger] final(self).count_of(m2) == old(self).count_of(m2)
                    &&& forall|m2: int|
                        0 <= m2 < old(self).num_meshes() && m2 != mesh ==> #[trigger] final(self).slots_of(m2) == old(self).slots_of(m2)
                    &&& forall|f: int|
                        0 <= f < old(tracker).frames_in_flight ==> #[trigger] final(tracker).entity_set(f) == old(tracker).entity_set(f).insert(e)
                    &&& forall|f: int|
                        0 <= f < old(tracker).frames_in_flight ==> #[trigger] final(tracker).mesh_set(f) == old(tracker).mesh_set(f).insert(mesh as u32)
                },
            },
    {
        let cnt: u32 = self.mesh_instance_counts[mesh];
        let cap: u16 = self.meshes.0[mesh].max_instances;
        if cnt >= cap as u32 {
            return Err(Error::CapacityExceeded);
        }
        // Grow the per-entity table so row `e` exists.
        while self.mesh_instances.len() <= e as usize
            invariant
                e < MAX_INDEX,
                self.mesh_instances@.len() <= MAX_INDEX,
                forall|e2: int|
                    #[trigger] self.membership(e2) == old(self).membership(e2),
                self.meshes.0@ == old(self).meshes.0@,
                self.primitives.0@ == old(self).primitives.0@,
                self.num_materials == old(self).num_materials,
                self.mesh_instance_counts@ == old(self).mesh_instance_counts@,
                self.slot_entities@ == old(self).slot_entities@,
                self.material_bitsets@ == old(self).material_bitsets@,
            decreases MAX_INDEX - self.mesh_instances@.len(),
        {
            let ghost prev = *self;
            self.mesh_instances.push(None);
            proof {
                assert forall|e2: int| #[trigger] self.membership(e2) == prev.membership(e2) by {
                    if 0 <= e2 < prev.mesh_instances@.len() {
                        assert(self.mesh_instances@[e2] == prev.mesh_instances@[e2]);
                    }
                }
            }
        }
        proof {
            assert forall|e2: int|
                0 <= e2 < self.mesh_instances@.len()
                    && #[trigger] self.mesh_instances@[e2] is Some implies {
                let mi = self.mesh_instances@[e2]->Some_0;
                &&& 0 <= mi.mesh < self.num_meshes()
                &&& (mi.instance as int) < self.slots_of(mi.mesh as int).len()
                &&& self.slots_of(mi.mesh as int)[mi.instance as int] == e2
            } by {
                assert(self.membership(e2) == old(self).membership(e2));
                assert(old(self).membership(e2) is Some);
                assert(0 <= e2 < old(self).mesh_instances@.len());
            }
            assert forall|m: int, s: int|
                0 <= m < self.num_meshes() && 0 <= s < self.slots_of(m).len() implies {
                let e2 = #[trigger] self.slots_of(m)[s];
                self.membership(e2 as int) == Some(
                    MeshInstance { mesh: m as MeshHandle, instance: s as InstanceIndex },
                )
            } by {
                let e2 = self.slots_of(m)[s];
                assert(old(self).slots_of(m)[s] == e2);
                assert(self.membership(e2 as int) == old(self).membership(e2 as int));
            }
            assert forall|m: int|
                0 <= m < self.num_meshes() implies #[trigger] self.slots_of(m).len()
                == self.count_of(m) by {
                assert(old(self).slots_of(m).len() == old(self).count_of(m));
            }
            assert forall|m: int|
                0 <= m < self.num_meshes() implies #[trigger] self.count_of(m) <= self.max_of(
                m,
            ) by {
                assert(old(self).count_of(m) <= old(self).max_of(m));
            }
            assert(self.wf_slots());
        }
        let ghost pre = *self;
        let slot: InstanceIndex = cnt as InstanceIndex;
        self.mesh_instances[e as usize] = Some(MeshInstance { mesh, instance: slot });
        self.mesh_instance_counts[mesh] = cnt + 1;
        self.slot_entities[mesh].push(e);
        proof {
            lemma_after_assign(pre, *self, e, mesh as int, slot);
        }
        // Index the entity under each material of the mesh's primitives.
        let ghost mid = *self;
        let nprims: usize = self.meshes.0[mesh].primitives.len();
        let mut i: usize = 0;
        while i < nprims
            invariant
                self.wf_defs(),
                mesh < self.num_meshes(),
                e < MAX_INDEX,
                nprims == self.meshes.0@[mesh as int].primitives@.len(),
                i <= nprims,
                self.meshes.0@ == mid.meshes.0@,
                self.primitives.0@ == mid.primitives.0@,
                self.num_materials == mid.num_materials,
                self.mesh_instances@ == mid.mesh_instances@,
                self.mesh_instance_counts@ == mid.mesh_instance_counts@,
                self.slot_entities@ == mid.slot_entities@,
                forall|mat: int|
                    0 <= mat < self.num_materials ==> #[trigger] self.material_set(mat) == (
                    if exists|j: int|
                        0 <= j < i && mid.prim_mat(
                            mid.meshes.0@[mesh as int].primitives@[j] as int,
                        ) == mat {
                        mid.material_set(mat).insert(e)
                    } else {
                        mid.material_set(mat)
                    }),
            decreases nprims - i,
        {
            let p: usize = self.meshes.0[mesh].primitives[i];
            let mat: usize = self.primitives.0[p].mat;
            let ghost prev = *self;
            bitset_add(&mut self.material_bitsets[mat], e);
            proof {
                assert forall|mat2: int|
                    0 <= mat2 < self.num_materials && mat2 != mat implies #[trigger] self
                    .material_set(mat2) == prev.material_set(mat2) by {
                    assert(self.material_bitsets@[mat2] == prev.material_bitsets@[mat2]);
                }
                assert(self.material_set(mat as int) == prev.material_set(mat as int).insert(e));
                assert forall|mat2: int| 0 <= mat2 < self.num_materials implies #[trigger] self
                    .material_set(mat2) == (if exists|j: int|
                    0 <= j < i + 1 && mid.prim_mat(mid.meshes.0@[mesh as int].primitives@[j] as int)
                        == mat2 {
                    mid.material_set(mat2).insert(e)
                } else {
                    mid.material_set(mat2)
                }) by {
                    if mat2 == mat {
                        assert(mid.prim_mat(mid.meshes.0@[mesh as int].primitives@[i as int] as int)
                            == mat2);
                    } else {
                        if exists|j: int|
                            0 <= j < i + 1 && mid.prim_mat(
                                mid.meshes.0@[mesh as int].primitives@[j] as int,
                            ) == mat2 {
                            let j = choose|j: int|
                                0 <= j < i + 1 && mid.prim_mat(
                                    mid.meshes.0@[mesh as int].primitives@[j] as int,
                                ) == mat2;
                            assert(0 <= j < i && mid.prim_mat(
                                mid.meshes.0@[mesh as int].primitives@[j] as int,
                            ) == mat2);
                        }
                    }
                }
            }
            i = i + 1;
        }
        proof {
            assert forall|mat: int| 0 <= mat < self.num_materials implies #[trigger] self
                .material_set(mat) == self.expected_material_set(mat) by {
                assert(mid.material_set(mat) == old(self).material_set(mat));
                assert forall|x: u32|
                    self.material_set(mat).contains(x)
                        <==> self.expected_material_set(mat).contains(x) by {
                    if x == e {
                        if self.mesh_has_material(mesh as int, mat) {
                            assert(exists|j: int|
                                0 <= j < nprims && mid.prim_mat(
                                    mid.meshes.0@[mesh as int].primitives@[j] as int,
                                ) == mat);
                        } else {
                            if exists|j: int|
                                0 <= j < nprims && mid.prim_mat(
                                    mid.meshes.0@[mesh as int].primitives@[j] as int,
                                ) == mat {
                                let j = choose|j: int|
                                    0 <= j < nprims && mid.prim_mat(
                                        mid.meshes.0@[mesh as int].primitives@[j] as int,
                                    ) == mat;
                                assert(self.mesh_has_material(mesh as int, mat));
                            }
                            assert(!old(self).expected_material_set(mat).contains(e));
                        }
                    } else {
                        assert(old(self).material_set(mat) == old(self).expected_material_set(mat));
                        assert(old(self).expected_material_set(mat).contains(x)
                            <==> self.expected_material_set(mat).contains(x)) by {
                            assert(self.membership(x as int) == mid.membership(x as int));
                            assert(mid.membership(x as int) == pre.membership(x as int));
                            assert(pre.membership(x as int) == old(self).membership(x as int));
                        }
                    }
                }
                assert(self.material_set(mat) =~= self.expected_material_set(mat));
            }
        }
        proof {
            lemma_wf_slots_congruent(mid, *self);
            assert forall|e2: int| e2 != e implies #[trigger] self.membership(e2) == old(self).membership(e2) by {
                assert(self.membership(e2) == mid.membership(e2));
                assert(mid.membership(e2) == pre.membership(e2));
                assert(pre.membership(e2) == old(self).membership(e2));
            }
        }
        tracker.mark(e);
        tracker.mark_mesh(mesh as u32);
        Ok(())
    }

    /// Reclaims entity `e`'s slot: removes `e` from the material index,
    /// closes the slot gap by shifting every later slot of the same mesh
    /// down one, marks each moved entity and the mesh dirty in every
    /// frame slot, and decrements the mesh's instance count.
    pub fn on_mesh_removed(&mut self, tracker: &mut DirtyTracker, e: u32)
        requires
            old(self).wf(),
            old(tracker).wf(),
            e < MAX_INDEX,
            old(self).membership(e as int) is Some,
        ensures
            final(self).wf(),
            final(tracker).wf(),
            final(self).same_defs(old(self)),
            final(tracker).frames_in_flight == old(tracker).frames_in_flight,
            final(tracker).current_frame == old(tracker).current_frame,
            ({
                let mi = old(self).membership(e as int)->Some_0;
                let m = mi.mesh as int;
                let s = mi.instance as int;
                &&& final(self).count_of(m) == old(self).count_of(m) - 1
                &&& final(self).slots_of(m) == old(self).slots_of(m).remove(s)
                &&& final(self).membership(e as int) is None
                &&& forall|e2: int|
                    e2 != e ==> #[trigger] final(self).membership(e2) == shift_down(
                        old(self).membership(e2),
                        m,
                        s,
                    )
                &&& forall|m2: int|
                    0 <= m2 < old(self).num_meshes() && m2 != m ==> #[trigger] final(self).count_of(m2) == old(self).count_of(m2)
                &&& forall|m2: int|
                    0 <= m2 < old(self).num_meshes() && m2 != m ==> #[trigger] final(self).slots_of(m2) == old(self).slots_of(m2)
                &&& forall|f: int|
                    0 <= f < old(tracker).frames_in_flight ==> #[trigger] final(tracker).entity_set(f) == old(tracker).entity_set(f).union(
                        moved_entities(*old(self), e, m, s),
                    )
                &&& forall|f: int|
                    0 <= f < old(tracker).frames_in_flight ==> #[trigger] final(tracker).mesh_set(f) == old(tracker).mesh_set(f).insert(mi.mesh as u32)
            }),
    {
        let mi = match self.mesh_instances[e as usize] {
            Some(mi) => mi,
            None => { proof { assert(false); } MeshInstance { mesh: 0, instance: 0 } },
        };
        let m: MeshHandle = mi.mesh;
        let s: InstanceIndex = mi.instance;
        let ghost mint = m as int;
        let ghost sint = s as int;
        // Unindex the entity from each material of the mesh's primitives.
        let nprims: usize = self.meshes.0[m].primitives.len();
        let mut i: usize = 0;
        while i < nprims
            invariant
                self.wf_defs(),
                mint == m as int,
                sint == s as int,
                m < self.num_meshes(),
                nprims == self.meshes.0@[mint].primitives@.len(),
                i <= nprims,
                self.meshes.0@ == old(self).meshes.0@,
                self.primitives.0@ == old(self).primitives.0@,
                self.num_materials == old(self).num_materials,
                self.mesh_instances@ == old(self).mesh_instances@,
                self.mesh_instance_counts@ == old(self).mesh_instance_counts@,
                self.slot_entities@ == old(self).slot_entities@,
                forall|mat: int|
                    0 <= mat < self.num_materials ==> #[trigger] self.material_set(mat) == (
                    if exists|j: int|
                        0 <= j < i && old(self).prim_mat(
                            old(self).meshes.0@[mint].primitives@[j] as int,
                        ) == mat {
                        old(self).material_set(mat).remove(e)
                    } else {
                        old(self).material_set(mat)
                    }),
            decreases nprims - i,
        {
            let p: usize = self.meshes.0[m].primitives[i];
            let mat: usize = self.primitives.0[p].mat;
            let ghost prev = *self;
            bitset_remove(&mut self.material_bitsets[mat], e);
            proof {
                assert forall|mat2: int|
                    0 <= mat2 < self.num_materials && mat2 != mat implies #[trigger] self
                    .material_set(mat2) == prev.material_set(mat2) by {
                    assert(self.material_bitsets@[mat2] == prev.material_bitsets@[mat2]);
                }
                assert(self.material_set(mat as int) == prev.material_set(mat as int).remove(e));
                assert forall|mat2: int| 0 <= mat2 < self.num_materials implies #[trigger] self
                    .material_set(mat2) == (if exists|j: int|
                    0 <= j < i + 1 && old(self).prim_mat(
                        old(self).meshes.0@[mint].primitives@[j] as int,
                    ) == mat2 {
                    old(self).material_set(mat2).remove(e)
                } else {
                    old(self).material_set(mat2)
                }) by {
                    if mat2 == mat {
                        assert(old(self).prim_mat(
                            old(self).meshes.0@[mint].primitives@[i as int] as int,
                        ) == mat2);
                    } else {
                        if exists|j: int|
                            0 <= j < i + 1 && old(self).prim_mat(
                                old(self).meshes.0@[mint].primitives@[j] as int,
                            ) == mat2 {
                            let j = choose|j: int|
                                0 <= j < i + 1 && old(self).prim_mat(
                                    old(self).meshes.0@[mint].primitives@[j] as int,
                                ) == mat2;
                            assert(0 <= j < i && old(self).prim_mat(
                                old(self).meshes.0@[mint].primitives@[j] as int,
                            ) == mat2);
                        }
                    }
                }
            }
            i = i + 1;
        }
        let ghost matdone = *self;
        proof {
            assert forall|mat: int|
                0 <= mat < old(self).num_materials implies #[trigger] matdone.material_set(mat)
                    == (if old(self).mesh_has_material(mint, mat) {
                old(self).material_set(mat).remove(e)
            } else {
                old(self).material_set(mat)
            }) by {
                if old(self).mesh_has_material(mint, mat) {
                    let ii = choose|ii: int|
                        0 <= ii < old(self).meshes.0@[mint].primitives@.len() && old(self).prim_mat(
                            old(self).meshes.0@[mint].primitives@[ii] as int,
                        ) == mat;
                    assert(0 <= ii < nprims && old(self).prim_mat(
                        old(self).meshes.0@[mint].primitives@[ii] as int,
                    ) == mat);
                } else {
                    if exists|jj: int|
                        0 <= jj < nprims && old(self).prim_mat(
                            old(self).meshes.0@[mint].primitives@[jj] as int,
                        ) == mat {
                        let jj = choose|jj: int|
                            0 <= jj < nprims && old(self).prim_mat(
                                old(self).meshes.0@[mint].primitives@[jj] as int,
                            ) == mat;
                        assert(old(self).mesh_has_material(mint, mat));
                    }
                }
            }
        }
        // Close the gap: drop slot `s` of mesh `m` and decrement the count.
        let cnt: u32 = self.mesh_instance_counts[m];
        self.mesh_instances[e as usize] = None;
        self.slot_entities[m].remove(s as usize);
        self.mesh_instance_counts[m] = cnt - 1;
        let ghost base = *self;
        let new_len: usize = self.slot_entities[m].len();
        proof {
            assert(base.slots_of(mint) == old(self).slots_of(mint).remove(sint));
            assert(new_len == old(self).slots_of(mint).len() - 1);
            assert forall|p: int| 0 <= p < new_len implies #[trigger] base.membership(
                base.slots_of(mint)[p] as int,
            ) == Some(
                MeshInstance {
                    mesh: m,
                    instance: (if p < sint { p } else { p + 1 }) as InstanceIndex,
                },
            ) && base.slots_of(mint)[p] != e by {
                let q: int = if p < sint { p } else { p + 1 };
                assert(base.slots_of(mint)[p] == old(self).slots_of(mint)[q]);
                assert(old(self).membership(old(self).slots_of(mint)[q] as int) == Some(
                    MeshInstance { mesh: m, instance: q as InstanceIndex },
                ));
                assert(old(self).slots_of(mint)[q] != e);
            }
        }
        // Renumber every entity that sat past the removed slot, marking
        // each one dirty in every frame slot.
        let ghost tracker0 = *tracker;
        let mut j: usize = s as usize;
        while j < new_len
            invariant
                base.wf_defs(),
                mint == m as int,
                sint == s as int,
                tracker.wf(),
                tracker.frames_in_flight == tracker0.frames_in_flight,
                tracker.current_frame == tracker0.current_frame,
                0 <= mint < base.num_meshes(),
                0 <= sint <= j <= new_len,
                e < MAX_INDEX,
                new_len == base.slots_of(mint).len(),
                new_len < 65536,
                self.meshes.0@ == base.meshes.0@,
                self.primitives.0@ == base.primitives.0@,
                self.num_materials == base.num_materials,
                self.material_bitsets@ == base.material_bitsets@,
                self.mesh_instance_counts@ == base.mesh_instance_counts@,
                self.slot_entities@ == base.slot_entities@,
                self.mesh_instances@.len() == base.mesh_instances@.len(),
                forall|p: int| 0 <= p < new_len ==> #[trigger] self.membership(
                    self.slots_of(mint)[p] as int,
                ) == Some(
                    MeshInstance {
                        mesh: m,
                        instance: (if p < j { p } else if p < sint { p } else { p + 1 }) as InstanceIndex,
                    },
                ),
                forall|e2: int|
                    (forall|p: int| 0 <= p < new_len ==> #[trigger] base.slots_of(mint)[p] != e2)
                        ==> #[trigger] self.membership(e2) == base.membership(e2),
                forall|f: int|
                    0 <= f < tracker0.frames_in_flight ==> #[trigger] tracker.entity_set(f)
                        == tracker0.entity_set(f).union(
                        Set::new(
                            |x: u32|
                                exists|p: int|
                                    sint <= p < j && #[trigger] base.slots_of(mint)[p] == x,
                        ),
                    ),
                forall|f: int|
                    0 <= f < tracker0.frames_in_flight ==> #[trigger] tracker.mesh_set(f)
                        == tracker0.mesh_set(f),
            decreases new_len - j,
        {
            let e2: u32 = self.slot_entities[m][j];
            let ghost prev = *self;
            let ghost trackerprev = *tracker;
            proof {
                assert(e2 == self.slots_of(mint)[j as int]);
                assert(self.membership(self.slots_of(mint)[j as int] as int) == Some(
                    MeshInstance { mesh: m, instance: (j + 1) as InstanceIndex },
                ));
                assert(self.membership(e2 as int) is Some);
                assert(0 <= e2 < self.mesh_instances@.len());
            }
            self.mesh_instances[e2 as usize] = Some(
                MeshInstance { mesh: m, instance: j as InstanceIndex },
            );
            tracker.mark(e2);
            proof {
                assert forall|p: int| 0 <= p < new_len implies #[trigger] self.membership(
                    self.slots_of(mint)[p] as int,
                ) == Some(
                    MeshInstance {
                        mesh: m,
                        instance: (if p < j + 1 { p } else if p < sint { p } else { p + 1 }) as InstanceIndex,
                    },
                ) by {
                    let ep = self.slots_of(mint)[p];
                    assert(prev.slots_of(mint)[p] == ep);
                    assert(prev.slots_of(mint)[j as int] == e2);
                    if ep == e2 {
                        assert(prev.membership(prev.slots_of(mint)[j as int] as int) == Some(
                            MeshInstance { mesh: m, instance: (j + 1) as InstanceIndex },
                        ));
                        if p != j {
                            let vp: int = if p < j { p } else if p < sint { p } else { p + 1 };
                            assert(prev.membership(prev.slots_of(mint)[p] as int) == Some(
                                MeshInstance { mesh: m, instance: vp as InstanceIndex },
                            ));
                            assert(vp == j + 1);
                            assert(false);
                        }
                    } else {
                        assert(self.membership(ep as int) == prev.membership(ep as int));
                    }
                }
                assert forall|e3: int|
                    (forall|p: int| 0 <= p < new_len ==> #[trigger] base.slots_of(mint)[p] != e3)
                        implies #[trigger] self.membership(e3) == base.membership(e3) by {
                    assert(base.slots_of(mint)[j as int] != e3);
                    assert(e3 != e2);
                    assert(self.membership(e3) == prev.membership(e3));
                }
                assert forall|f: int|
                    0 <= f < tracker0.frames_in_flight implies #[trigger] tracker.entity_set(f)
                        == tracker0.entity_set(f).union(
                        Set::new(
                            |x: u32|
                                exists|p: int|
                                    sint <= p < j + 1 && #[trigger] base.slots_of(mint)[p] == x,
                        ),
                    ) by {
                    assert(tracker.entity_set(f) == trackerprev.entity_set(f).insert(e2));
                    assert(tracker.entity_set(f) =~= tracker0.entity_set(f).union(
                        Set::new(
                            |x: u32|
                                exists|p: int|
                                    sint <= p < j + 1 && #[trigger] base.slots_of(mint)[p] == x,
                        ),
                    )) by {
                        assert(base.slots_of(mint)[j as int] == e2);
                        assert forall|x: u32|
                            #[trigger] tracker.entity_set(f).contains(x) implies tracker0
                            .entity_set(f).union(
                            Set::new(
                                |y: u32|
                                    exists|p: int|
                                        sint <= p < j + 1 && #[trigger] base.slots_of(mint)[p]
                                            == y,
                            ),
                        ).contains(x) by {
                            if x == e2 {
                                assert(sint <= j < j + 1 && base.slots_of(mint)[j as int] == x);
                            } else {
                                assert(trackerprev.entity_set(f).contains(x));
                            }
                        }
                    }
                }
            }
            j = j + 1;
        }
        tracker.mark_mesh(m as u32);
        proof {
            assert forall|mat: int|
                0 <= mat < old(self).num_materials implies #[trigger] base.material_set(mat) == (
            if old(self).mesh_has_material(mint, mat) {
                old(self).material_set(mat).remove(e)
            } else {
                old(self).material_set(mat)
            }) by {
                assert(base.material_bitsets@[mat] == matdone.material_bitsets@[mat]);
                assert(base.material_set(mat) == matdone.material_set(mat));
            }
            assert(base.material_bitsets@ == matdone.material_bitsets@);
            assert forall|p: int|
                0 <= p < base.slots_of(mint).len() implies #[trigger] self.membership(
                base.slots_of(mint)[p] as int,
            ) == Some(
                MeshInstance { mesh: m, instance: p as InstanceIndex },
            ) by {
                assert(base.slots_of(mint)[p] == self.slots_of(mint)[p]);
                assert(self.membership(self.slots_of(mint)[p] as int) == Some(
                    MeshInstance {
                        mesh: m,
                        instance: (if p < new_len { p } else if p < sint { p } else { p + 1 }) as InstanceIndex,
                    },
                ));
            }
            lemma_removed_restores(*old(self), base, *self, e, mint, sint);
            assert forall|f: int|
                0 <= f < tracker0.frames_in_flight implies #[trigger] tracker.entity_set(f)
                    == old(tracker).entity_set(f).union(moved_entities(*old(self), e, mint, sint)) by {
                assert(Set::new(
                    |x: u32|
                        exists|p: int|
                            sint <= p < new_len && #[trigger] base.slots_of(mint)[p] == x,
                ) =~= moved_entities(*old(self), e, mint, sint)) by {
                    assert forall|x: u32|
                        moved_entities(*old(self), e, mint, sint).contains(x) implies Set::new(
                        |y: u32|
                            exists|p: int|
                                sint <= p < new_len && #[trigger] base.slots_of(mint)[p] == y,
                    ).contains(x) by {
                        let mi2 = old(self).membership(x as int)->Some_0;
                        let q = mi2.instance as int;
                        assert(old(self).slots_of(mint)[q] == x);
                        assert(base.slots_of(mint)[q - 1] == x);
                        assert(sint <= q - 1 < new_len && base.slots_of(mint)[q - 1] == x);
                    }
                    assert forall|x: u32|
                        Set::new(
                            |y: u32|
                                exists|p: int|
                                    sint <= p < new_len && #[trigger] base.slots_of(mint)[p] == y,
                        ).contains(x) implies moved_entities(*old(self), e, mint, sint).contains(
                        x,
                    ) by {
                        let p = choose|p: int|
                            sint <= p < new_len && #[trigger] base.slots_of(mint)[p] == x;
                        assert(base.slots_of(mint)[p] == old(self).slots_of(mint)[p + 1]);
                        assert(old(self).membership(x as int) == Some(
                            MeshInstance { mesh: m, instance: (p + 1) as InstanceIndex },
                        ));
                        assert(x != e);
                    }
                }
            }
        }
    }

    /// Marks an entity with a mesh membership dirty in every frame slot;
    /// an entity without a membership is left unreported.  Called for
    /// each entity whose world transform was recomputed this tick.
    pub fn on_world_transform_changed(&mut self, tracker: &mut DirtyTracker, e: u32)
        requires
            old(self).wf(),
            old(tracker).wf(),
            e < MAX_INDEX,
        ensures
            *final(self) == *old(self),
            final(tracker).wf(),
            final(tracker).frames_in_flight == old(tracker).frames_in_flight,
            final(tracker).current_frame == old(tracker).current_frame,
            forall|f: int|
                0 <= f < old(tracker).frames_in_flight ==> #[trigger] final(tracker).entity_set(f)
                    == (if old(self).membership(e as int) is Some {
                    old(tracker).entity_set(f).insert(e)
                } else {
                    old(tracker).entity_set(f)
                }),
            forall|f: int|
                0 <= f < old(tracker).frames_in_flight ==> #[trigger] final(tracker).mesh_set(f)
                    == old(tracker).mesh_set(f),
    {
        let has = (e as usize) < self.mesh_instances.len() && self.mesh_instances[e as usize].is_some();
        if has {
            tracker.mark(e);
        }
    }

    /// Feeds one walk's recomputed entity ids into the tracker: every
    /// dirty entity that has a mesh membership is marked in every frame
    /// slot, so each in-flight copy of its transform-table entry is
    /// rewritten before its dirty bit clears.
    pub fn apply_world_changes(&mut self, tracker: &mut DirtyTracker, dirty: &Vec<u32>)
        requires
            old(self).wf(),
            old(tracker).wf(),
            forall|j: int| 0 <= j < dirty@.len() ==> #[trigger] dirty@[j] < MAX_INDEX,
        ensures
            *final(self) == *old(self),
            final(tracker).wf(),
            final(tracker).frames_in_flight == old(tracker).frames_in_flight,
            final(tracker).current_frame == old(tracker).current_frame,
            forall|f: int|
                0 <= f < old(tracker).frames_in_flight ==> #[trigger] final(tracker).entity_set(f)
                    == old(tracker).entity_set(f).union(
                    Set::new(
                        |id: u32| dirty@.contains(id) && old(self).membership(id as int) is Some,
                    ),
                ),
            forall|f: int|
                0 <= f < old(tracker).frames_in_flight ==> #[trigger] final(tracker).mesh_set(f)
                    == old(tracker).mesh_set(f),
    {
        let nf = tracker.frames_in_flight;
        let mut j: usize = 0;
        while j < dirty.len()
            invariant
                self.wf(),
                *self == *old(self),
                tracker.wf(),
                tracker.frames_in_flight == old(tracker).frames_in_flight,
                tracker.current_frame == old(tracker).current_frame,
                j <= dirty@.len(),
                forall|j2: int| 0 <= j2 < dirty@.len() ==> #[trigger] dirty@[j2] < MAX_INDEX,
                forall|f: int|
                    0 <= f < old(tracker).frames_in_flight ==> #[trigger] tracker.entity_set(f)
                        == old(tracker).entity_set(f).union(
                        Set::new(
                            |id: u32|
                                dirty@.subrange(0, j as int).contains(id) && old(self).membership(
                                    id as int,
                                ) is Some,
                        ),
                    ),
                forall|f: int|
                    0 <= f < old(tracker).frames_in_flight ==> #[trigger] tracker.mesh_set(f)
                        == old(tracker).mesh_set(f),
            decreases dirty@.len() - j,
        {
            let id = dirty[j];
            let ghost tprev = *tracker;
            self.on_world_transform_changed(tracker, id);
            proof {
                assert forall|f: int|
                    0 <= f < old(tracker).frames_in_flight implies #[trigger] tracker.entity_set(f)
                        == old(tracker).entity_set(f).union(
                    Set::new(
                        |x: u32|
                            dirty@.subrange(0, j + 1).contains(x) && old(self).membership(
                                x as int,
                            ) is Some,
                    ),
                ) by {
                    assert(tracker.entity_set(f) =~= old(tracker).entity_set(f).union(
                        Set::new(
                            |x: u32|
                                dirty@.subrange(0, j + 1).contains(x) && old(self).membership(
                                    x as int,
                                ) is Some,
                        ),
                    )) by {
                        assert(dirty@.subrange(0, j + 1)[j as int] == id);
                        assert forall|x: u32|
                            dirty@.subrange(0, j + 1).contains(x) && old(self).membership(
                                x as int,
                            ) is Some implies tracker.entity_set(f).contains(x) by {
                            let k2 = choose|k2: int|
                                0 <= k2 < j + 1 && #[trigger] dirty@.subrange(0, j + 1)[k2] == x;
                            if k2 < j {
                                assert(dirty@.subrange(0, j as int)[k2] == x);
                                assert(dirty@.subrange(0, j as int).contains(x));
                                assert(tprev.entity_set(f).contains(x));
                            } else {
                                assert(x == id);
                            }
                        }
                        assert forall|x: u32| #[trigger] tracker.entity_set(f).contains(x) implies
                            old(tracker).entity_set(f).contains(x) || (dirty@.subrange(
                            0,
                            j + 1,
                        ).contains(x) && old(self).membership(x as int) is Some) by {
                            if x == id && old(self).membership(id as int) is Some {
                                assert(dirty@.subrange(0, j + 1)[j as int] == x);
                            } else {
                                assert(tprev.entity_set(f).contains(x));
                                if !old(tracker).entity_set(f).contains(x) {
                                    assert(dirty@.subrange(0, j as int).contains(x));
                                    let k2 = choose|k2: int|
                                        0 <= k2 < j && #[trigger] dirty@.subrange(0, j as int)[k2]
                                            == x;
                                    assert(dirty@.subrange(0, j + 1)[k2] == x);
                                }
                            }
                        }
                    }
                }
            }
            j = j + 1;
        }
        proof {
            assert(dirty@.subrange(0, dirty@.len() as int) =~= dirty@);
            assert forall|f: int|
                0 <= f < old(tracker).frames_in_flight implies #[trigger] tracker.entity_set(f)
                    == old(tracker).entity_set(f).union(
                Set::new(|id: u32| dirty@.contains(id) && old(self).membership(id as int) is Some),
            ) by {
                assert(Set::new(
                    |id: u32|
                        dirty@.subrange(0, dirty@.len() as int).contains(id) && old(
                            self,
                        ).membership(id as int) is Some,
                ) =~= Set::new(
                    |id: u32| dirty@.contains(id) && old(self).membership(id as int) is Some,
                ));
            }
        }
    }

    /// Current instance count of mesh `m`, the instance count its
    /// indirect draw commands must carry.
    pub fn instance_count(&self, m: MeshHandle) -> (r: u32)
        requires
            self.wf(),
            m < self.num_meshes(),
        ensures
            r == self.count_of(m as int),
    {
        self.mesh_instance_counts[m]
    }

    /// The slot assignment of entity `e`.
    pub fn instance_of(&self, e: u32) -> (r: Option<MeshInstance>)
        requires
            self.wf(),
        ensures
            r == self.membership(e as int),
    {
        if (e as usize) < self.mesh_instances.len() {
            self.mesh_instances[e as usize]
        } else {
            None
        }
    }

    /// Whether entity `e` is indexed under material `mat`.
    pub fn material_contains(&self, mat: usize, e: u32) -> (r: bool)
        requires
            self.wf(),
            mat < self.num_materials,
        ensures
            r == self.material_set(mat as int).contains(e),
    {
        bitset_contains(&self.material_bitsets[mat], e)
    }

    /// The entities indexed under material `mat`, ascending.
    pub fn material_entities(&self, mat: usize) -> (r: Vec<u32>)
        requires
            self.wf(),
            mat < self.num_materials,
        ensures
            forall|id: u32| r@.contains(id) <==> self.material_set(mat as int).contains(id),
            strictly_ascending(r@),
    {
        bitset_items(&self.material_bitsets[mat])
    }
}

/// How one removal at slot `s` of mesh `m` renumbers another entity's
/// assignment: a later slot of the same mesh shifts down one, everything
/// else is kept.
pub open spec fn shift_down(o: Option<MeshInstance>, m: int, s: int) -> Option<MeshInstance> {
    match o {
        None => None,
        Some(mi) => if mi.mesh == m && mi.instance > s {
            Some(MeshInstance { mesh: mi.mesh, instance: (mi.instance - 1) as InstanceIndex })
        } else {
            Some(mi)
        },
    }
}

/// The entities whose slots move when `e`'s slot `s` of mesh `m` is
/// reclaimed: the other owners of the same mesh with a later slot.
pub open spec fn moved_entities(pre: InstanceCache, e: u32, m: int, s: int) -> Set<u32> {
    Set::new(
        |x: u32|
            {
                &&& x != e
                &&& pre.membership(x as int) is Some
                &&& pre.membership(x as int)->Some_0.mesh == m
                &&& pre.membership(x as int)->Some_0.instance > s
            },
    )
}

/// The slot bijection depends only on the mesh definitions, the
/// per-entity assignments, the counts and the slot tables: two registry
/// values agreeing on those agree on it.
proof fn lemma_wf_slots_congruent(a: InstanceCache, b: InstanceCache)
    requires
        a.wf_slots(),
        b.meshes.0@ == a.meshes.0@,
        b.mesh_instances@ == a.mesh_instances@,
        b.mesh_instance_counts@ == a.mesh_instance_counts@,
        b.slot_entities@ == a.slot_entities@,
    ensures
        b.wf_slots(),
{
    assert forall|m: int|
        0 <= m < b.num_meshes() implies #[trigger] b.slots_of(m).len() == b.count_of(m) by {
        assert(a.slots_of(m).len() == a.count_of(m));
    }
    assert forall|m: int|
        0 <= m < b.num_meshes() implies #[trigger] b.count_of(m) <= b.max_of(m) by {
        assert(a.count_of(m) <= a.max_of(m));
    }
    assert forall|m: int, s: int|
        0 <= m < b.num_meshes() && 0 <= s < b.slots_of(m).len() implies {
        let e = #[trigger] b.slots_of(m)[s];
        b.membership(e as int) == Some(
            MeshInstance { mesh: m as MeshHandle, instance: s as InstanceIndex },
        )
    } by {
        let e = b.slots_of(m)[s];
        assert(a.slots_of(m)[s] == e);
        assert(b.membership(e as int) == a.membership(e as int));
    }
    assert forall|e: int|
        0 <= e < b.mesh_instances@.len() && #[trigger] b.mesh_instances@[e] is Some implies {
        let mi = b.mesh_instances@[e]->Some_0;
        &&& 0 <= mi.mesh < b.num_meshes()
        &&& (mi.instance as int) < b.slots_of(mi.mesh as int).len()
        &&& b.slots_of(mi.mesh as int)[mi.instance as int] == e
    } by {
        assert(a.mesh_instances@[e] is Some);
        let mi = a.mesh_instances@[e]->Some_0;
        assert(a.slots_of(mi.mesh as int)[mi.instance as int] == e);
    }
}

/// After writing the new slot assignment, appending the entity to the
/// mesh's slot table and bumping the count, the slot bijection holds
/// again.
proof fn lemma_after_assign(
    pre: InstanceCache,
    post: InstanceCache,
    e: u32,
    mesh: int,
    slot: InstanceIndex,
)
    requires
        pre.wf_defs(),
        pre.wf_slots(),
        0 <= mesh < pre.num_meshes(),
        e < pre.mesh_instances@.len(),
        pre.membership(e as int) is None,
        slot == pre.count_of(mesh),
        pre.count_of(mesh) < pre.max_of(mesh),
        post.meshes.0@ == pre.meshes.0@,
        post.primitives.0@ == pre.primitives.0@,
        post.num_materials == pre.num_materials,
        post.mesh_instances@ == pre.mesh_instances@.update(
            e as int,
            Some(MeshInstance { mesh: mesh as MeshHandle, instance: slot }),
        ),
        post.mesh_instance_counts@ == pre.mesh_instance_counts@.update(
            mesh,
            (pre.count_of(mesh) + 1) as u32,
        ),
        post.slot_entities@.len() == pre.slot_entities@.len(),
        post.slots_of(mesh) == pre.slots_of(mesh).push(e),
        forall|m2: int|
            0 <= m2 < pre.num_meshes() && m2 != mesh ==> post.slot_entities@[m2]
                == pre.slot_entities@[m2],
        post.material_bitsets@.len() == pre.material_bitsets@.len(),
    ensures
        post.wf_defs(),
        post.wf_slots(),
{
    assert forall|m: int|
        0 <= m < post.num_meshes() implies #[trigger] post.slots_of(m).len() == post.count_of(
        m,
    ) by {
        assert(pre.slots_of(m).len() == pre.count_of(m));
        if m != mesh {
            assert(post.slot_entities@[m] == pre.slot_entities@[m]);
        }
    }
    assert forall|m: int|
        0 <= m < post.num_meshes() implies #[trigger] post.count_of(m) <= post.max_of(m) by {
        assert(pre.slots_of(m).len() == pre.count_of(m));
        assert(pre.count_of(m) <= pre.max_of(m));
        if m != mesh {
            assert(post.slot_entities@[m] == pre.slot_entities@[m]);
        }
    }
    assert forall|m: int, s: int|
        0 <= m < post.num_meshes() && 0 <= s < post.slots_of(m).len() implies {
        let e2 = #[trigger] post.slots_of(m)[s];
        post.membership(e2 as int) == Some(
            MeshInstance { mesh: m as MeshHandle, instance: s as InstanceIndex },
        )
    } by {
        let e2 = post.slots_of(m)[s];
        if m == mesh {
            if s < pre.slots_of(mesh).len() {
                assert(pre.slots_of(m)[s] == e2);
                assert(e2 != e);
            } else {
                assert(e2 == e);
            }
        } else {
            assert(post.slots_of(m) == pre.slots_of(m));
            assert(pre.slots_of(m)[s] == e2);
            assert(e2 != e);
        }
    }
    assert forall|e2: int|
        0 <= e2 < post.mesh_instances@.len() && #[trigger] post.mesh_instances@[e2] is Some implies {
        let mi = post.mesh_instances@[e2]->Some_0;
        &&& 0 <= mi.mesh < post.num_meshes()
        &&& (mi.instance as int) < post.slots_of(mi.mesh as int).len()
        &&& post.slots_of(mi.mesh as int)[mi.instance as int] == e2
    } by {
        if e2 == e {
        } else {
            assert(post.mesh_instances@[e2] == pre.mesh_instances@[e2]);
        }
    }
}

/// Which meshes use which materials depends only on the fixed scene
/// description.
proof fn lemma_same_defs_same_materials(a: InstanceCache, b: InstanceCache)
    requires
        b.meshes.0@ == a.meshes.0@,
        b.primitives.0@ == a.primitives.0@,
    ensures
        forall|mm: int, mat: int| #[trigger] b.mesh_has_material(mm, mat) == a.mesh_has_material(
            mm,
            mat,
        ),
{
    assert forall|mm: int, mat: int| #[trigger] b.mesh_has_material(mm, mat) == a.mesh_has_material(
        mm,
        mat,
    ) by {
        if a.mesh_has_material(mm, mat) {
            let i = choose|i: int|
                0 <= i < a.meshes.0@[mm].primitives@.len() && a.prim_mat(
                    a.meshes.0@[mm].primitives@[i] as int,
                ) == mat;
            assert(b.prim_mat(b.meshes.0@[mm].primitives@[i] as int) == mat);
            assert(b.mesh_has_material(mm, mat));
        }
        if b.mesh_has_material(mm, mat) {
            let i = choose|i: int|
                0 <= i < b.meshes.0@[mm].primitives@.len() && b.prim_mat(
                    b.meshes.0@[mm].primitives@[i] as int,
                ) == mat;
            assert(a.prim_mat(a.meshes.0@[mm].primitives@[i] as int) == mat);
            assert(a.mesh_has_material(mm, mat));
        }
    }
}

/// After the gap is closed and every later slot renumbered, the registry
/// invariant holds again and each entity's assignment is the old one
/// shifted down where the removal demands it.
proof fn lemma_removed_restores(
    pre: InstanceCache,
    base: InstanceCache,
    post: InstanceCache,
    e: u32,
    m: int,
    s: int,
)
    requires
        pre.wf(),
        e < pre.mesh_instances@.len(),
        pre.membership(e as int) == Some(
            MeshInstance { mesh: m as MeshHandle, instance: s as InstanceIndex },
        ),
        0 <= m < pre.num_meshes(),
        0 <= s < pre.slots_of(m).len(),
        base.meshes.0@ == pre.meshes.0@,
        base.primitives.0@ == pre.primitives.0@,
        base.num_materials == pre.num_materials,
        base.mesh_instances@ == pre.mesh_instances@.update(e as int, None),
        base.mesh_instance_counts@ == pre.mesh_instance_counts@.update(
            m,
            (pre.count_of(m) - 1) as u32,
        ),
        base.slot_entities@.len() == pre.slot_entities@.len(),
        base.slots_of(m) == pre.slots_of(m).remove(s),
        forall|m2: int|
            0 <= m2 < pre.num_meshes() && m2 != m ==> base.slot_entities@[m2]
                == pre.slot_entities@[m2],
        base.material_bitsets@.len() == pre.material_bitsets@.len(),
        forall|mat: int|
            0 <= mat < pre.num_materials ==> #[trigger] base.material_set(mat) == (
            if pre.mesh_has_material(m, mat) {
                pre.material_set(mat).remove(e)
            } else {
                pre.material_set(mat)
            }),
        post.meshes.0@ == base.meshes.0@,
        post.primitives.0@ == base.primitives.0@,
        post.num_materials == base.num_materials,
        post.material_bitsets@ == base.material_bitsets@,
        post.mesh_instance_counts@ == base.mesh_instance_counts@,
        post.slot_entities@ == base.slot_entities@,
        post.mesh_instances@.len() == base.mesh_instances@.len(),
        forall|p: int|
            0 <= p < base.slots_of(m).len() ==> #[trigger] post.membership(
                base.slots_of(m)[p] as int,
            ) == Some(MeshInstance { mesh: m as MeshHandle, instance: p as InstanceIndex }),
        forall|e2: int|
            (forall|p: int|
                0 <= p < base.slots_of(m).len() ==> #[trigger] base.slots_of(m)[p] != e2)
                ==> #[trigger] post.membership(e2) == base.membership(e2),
    ensures
        post.wf(),
        post.count_of(m) == pre.count_of(m) - 1,
        post.slots_of(m) == pre.slots_of(m).remove(s),
        post.membership(e as int) is None,
        forall|e2: int|
            e2 != e ==> #[trigger] post.membership(e2) == shift_down(pre.membership(e2), m, s),
        forall|m2: int|
            0 <= m2 < pre.num_meshes() && m2 != m ==> #[trigger] post.count_of(m2) == pre.count_of(
                m2,
            ),
        forall|m2: int|
            0 <= m2 < pre.num_meshes() && m2 != m ==> #[trigger] post.slots_of(m2) == pre.slots_of(
                m2,
            ),
{
    let newlen = base.slots_of(m).len() as int;
    assert(newlen == pre.slots_of(m).len() - 1);
    assert(pre.slots_of(m)[s] == e) by {
        assert(pre.mesh_instances@[e as int] is Some);
    }
    // `e` sits in no slot table any more.
    assert forall|p: int| 0 <= p < newlen implies #[trigger] base.slots_of(m)[p] != e by {
        let q: int = if p < s { p } else { p + 1 };
        assert(base.slots_of(m)[p] == pre.slots_of(m)[q]);
        if pre.slots_of(m)[q] == e {
            assert(pre.membership(e as int) == Some(
                MeshInstance { mesh: m as MeshHandle, instance: q as InstanceIndex },
            ));
        }
    }
    assert(post.membership(e as int) == base.membership(e as int));
    assert(base.membership(e as int) is None);
    // The assignment of every other entity is the old one, shifted.
    assert forall|e2: int|
        e2 != e implies #[trigger] post.membership(e2) == shift_down(pre.membership(e2), m, s) by {
        match pre.membership(e2) {
            None => {
                assert forall|p: int|
                    0 <= p < newlen implies #[trigger] base.slots_of(m)[p] != e2 by {
                    let q: int = if p < s { p } else { p + 1 };
                    assert(base.slots_of(m)[p] == pre.slots_of(m)[q]);
                    if pre.slots_of(m)[q] == e2 {
                        assert(pre.membership(e2) == Some(
                            MeshInstance { mesh: m as MeshHandle, instance: q as InstanceIndex },
                        ));
                    }
                }
                assert(post.membership(e2) == base.membership(e2));
                if 0 <= e2 < base.mesh_instances@.len() {
                    assert(base.mesh_instances@[e2] == pre.mesh_instances@[e2]);
                }
            },
            Some(mi2) => {
                assert(0 <= e2 < pre.mesh_instances@.len());
                let m2 = mi2.mesh as int;
                let q2 = mi2.instance as int;
                assert(pre.slots_of(m2)[q2] == e2);
                if m2 == m {
                    if q2 == s {
                        assert(pre.slots_of(m)[s] == e);
                        assert(false);
                    } else if q2 < s {
                        assert(base.slots_of(m)[q2] == pre.slots_of(m)[q2]);
                        assert(post.membership(e2) == Some(
                            MeshInstance { mesh: m as MeshHandle, instance: q2 as InstanceIndex },
                        ));
                    } else {
                        assert(base.slots_of(m)[q2 - 1] == pre.slots_of(m)[q2]);
                        assert(post.membership(e2) == Some(
                            MeshInstance {
                                mesh: m as MeshHandle,
                                instance: (q2 - 1) as InstanceIndex,
                            },
                        ));
                    }
                } else {
                    assert forall|p: int|
                        0 <= p < newlen implies #[trigger] base.slots_of(m)[p] != e2 by {
                        let q: int = if p < s { p } else { p + 1 };
                        assert(base.slots_of(m)[p] == pre.slots_of(m)[q]);
                        if pre.slots_of(m)[q] == e2 {
                            assert(pre.membership(e2) == Some(
                                MeshInstance {
                                    mesh: m as MeshHandle,
                                    instance: q as InstanceIndex,
                                },
                            ));
                        }
                    }
                    assert(post.membership(e2) == base.membership(e2));
                    assert(base.mesh_instances@[e2] == pre.mesh_instances@[e2]);
                }
            },
        }
    }
    // Slot-table lengths and capacities.
    assert forall|mm: int|
        0 <= mm < post.num_meshes() implies #[trigger] post.slots_of(mm).len() == post.count_of(
        mm,
    ) by {
        assert(pre.slots_of(mm).len() == pre.count_of(mm));
        if mm != m {
            assert(post.slot_entities@[mm] == pre.slot_entities@[mm]);
        }
    }
    assert forall|mm: int|
        0 <= mm < post.num_meshes() implies #[trigger] post.count_of(mm) <= post.max_of(mm) by {
        assert(pre.count_of(mm) <= pre.max_of(mm));
        if mm != m {
            assert(post.slot_entities@[mm] == pre.slot_entities@[mm]);
            assert(post.count_of(mm) == pre.count_of(mm));
        }
    }
    // Slot tables point at entities whose assignment points back.
    assert forall|mm: int, p: int|
        0 <= mm < post.num_meshes() && 0 <= p < post.slots_of(mm).len() implies {
        let e2 = #[trigger] post.slots_of(mm)[p];
        post.membership(e2 as int) == Some(
            MeshInstance { mesh: mm as MeshHandle, instance: p as InstanceIndex },
        )
    } by {
        let e2 = post.slots_of(mm)[p];
        if mm == m {
            assert(post.membership(base.slots_of(m)[p] as int) == Some(
                MeshInstance { mesh: m as MeshHandle, instance: p as InstanceIndex },
            ));
        } else {
            assert(post.slot_entities@[mm] == pre.slot_entities@[mm]);
            assert(pre.slots_of(mm)[p] == e2);
            assert(pre.membership(e2 as int) == Some(
                MeshInstance { mesh: mm as MeshHandle, instance: p as InstanceIndex },
            ));
            assert(e2 != e);
            assert(post.membership(e2 as int) == shift_down(pre.membership(e2 as int), m, s));
        }
    }
    // Assignments point into the slot tables.
    assert forall|e2: int|
        0 <= e2 < post.mesh_instances@.len() && #[trigger] post.mesh_instances@[e2] is Some implies {
        let mi = post.mesh_instances@[e2]->Some_0;
        &&& 0 <= mi.mesh < post.num_meshes()
        &&& (mi.instance as int) < post.slots_of(mi.mesh as int).len()
        &&& post.slots_of(mi.mesh as int)[mi.instance as int] == e2
    } by {
        assert(e2 != e);
        assert(post.membership(e2) == shift_down(pre.membership(e2), m, s));
        let mi2 = pre.membership(e2)->Some_0;
        let m2 = mi2.mesh as int;
        let q2 = mi2.instance as int;
        assert(pre.mesh_instances@[e2] is Some);
        assert(pre.slots_of(m2)[q2] == e2);
        if m2 == m {
            if q2 > s {
                assert(base.slots_of(m)[q2 - 1] == pre.slots_of(m)[q2]);
            } else {
                assert(q2 != s);
                assert(base.slots_of(m)[q2] == pre.slots_of(m)[q2]);
            }
        } else {
            assert(post.slot_entities@[m2] == pre.slot_entities@[m2]);
        }
    }
    // Material indices match the new assignments.
    lemma_same_defs_same_materials(pre, post);
    assert forall|mat: int|
        0 <= mat < post.num_materials implies #[trigger] post.material_set(mat)
            == post.expected_material_set(mat) by {
        assert(post.material_bitsets@[mat] == base.material_bitsets@[mat]);
        assert(post.material_set(mat) == base.material_set(mat));
        assert(pre.material_set(mat) == pre.expected_material_set(mat));
        assert forall|x: u32|
            post.material_set(mat).contains(x) <==> post.expected_material_set(mat).contains(
                x,
            ) by {
            if x == e {
                assert(post.membership(e as int) is None);
                assert(!post.expected_material_set(mat).contains(e));
                if pre.mesh_has_material(m, mat) {
                    assert(base.material_set(mat) == pre.material_set(mat).remove(e));
                    assert(!post.material_set(mat).contains(e));
                } else {
                    assert(base.material_set(mat) == pre.material_set(mat));
                    if pre.expected_material_set(mat).contains(e) {
                        assert(pre.membership(e as int)->Some_0.mesh == m);
                        assert(pre.mesh_has_material(m, mat));
                    }
                    assert(!post.material_set(mat).contains(e));
                }
            } else {
                assert(post.membership(x as int) == shift_down(pre.membership(x as int), m, s));
                assert(post.expected_material_set(mat).contains(x) <==> pre.expected_material_set(
                    mat,
                ).contains(x)) by {
                    match pre.membership(x as int) {
                        None => {
                            assert(post.membership(x as int) is None);
                        },
                        Some(mi2) => {
                            assert(post.membership(x as int) is Some);
                            assert(post.membership(x as int)->Some_0.mesh == mi2.mesh);
                            assert(post.mesh_has_material(mi2.mesh as int, mat)
                                == pre.mesh_has_material(mi2.mesh as int, mat));
                        },
                    }
                }
                if pre.mesh_has_material(m, mat) {
                    assert(post.material_set(mat).contains(x) <==> pre.material_set(mat).contains(
                        x,
                    ));
                } else {
                    assert(post.material_set(mat).contains(x) <==> pre.material_set(mat).contains(
                        x,
                    ));
                }
            }
        }
        assert(post.material_set(mat) =~= post.expected_material_set(mat));
    }
}

/// The dense slots a mesh currently occupies: every instance index some
/// entity is assigned to.
pub open spec fn occupied_slots(c: InstanceCache, m: int) -> Set<int> {
    Set::new(
        |s: int|
            exists|e: int|
                {
                    &&& #[trigger] c.membership(e) is Some
                    &&& c.membership(e)->Some_0.mesh == m
                    &&& c.membership(e)->Some_0.instance == s
                },
    )
}

/// *Slot density.*  In every well-formed registry state — so after any
/// sequence of assignments and removals — the occupied slots of each
/// mesh are exactly `{0, .., current_count-1}`, and each is occupied by
/// exactly one entity.
pub proof fn lemma_slot_density(c: InstanceCache, m: int)
    requires
        c.wf(),
        0 <= m < c.num_meshes(),
    ensures
        occupied_slots(c, m) == Set::new(|s: int| 0 <= s < c.count_of(m)),
        forall|e1: int, e2: int|
            #[trigger] c.membership(e1) is Some && #[trigger] c.membership(e2) is Some
                && c.membership(e1) == c.membership(e2) ==> e1 == e2,
{
    assert forall|s: int| #[trigger]
        occupied_slots(c, m).contains(s) <==> 0 <= s < c.count_of(m) by {
        if occupied_slots(c, m).contains(s) {
            let e = choose|e: int|
                {
                    &&& #[trigger] c.membership(e) is Some
                    &&& c.membership(e)->Some_0.mesh == m
                    &&& c.membership(e)->Some_0.instance == s
                };
            assert(c.mesh_instances@[e] is Some);
        }
        if 0 <= s < c.count_of(m) {
            let e = c.slots_of(m)[s];
            assert(c.membership(e as int) == Some(
                MeshInstance { mesh: m as MeshHandle, instance: s as InstanceIndex },
            ));
        }
    }
    assert(occupied_slots(c, m) =~= Set::new(|s: int| 0 <= s < c.count_of(m)));
    assert forall|e1: int, e2: int|
        #[trigger] c.membership(e1) is Some && #[trigger] c.membership(e2) is Some
            && c.membership(e1) == c.membership(e2) implies e1 == e2 by {
        assert(c.mesh_instances@[e1] is Some);
        assert(c.mesh_instances@[e2] is Some);
        let mi = c.membership(e1)->Some_0;
        assert(c.slots_of(mi.mesh as int)[mi.instance as int] == e1);
        assert(c.slots_of(mi.mesh as int)[mi.instance as int] == e2);
    }
}

} // verus!
