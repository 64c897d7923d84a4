//! Interactive sizing of the instanced-mesh array.
//!
//! The demo scene shows a 3-D array of instances of one mesh; input
//! grows or shrinks each axis.  Growing is clamped so the array never
//! exceeds the mesh's fixed instance capacity; shrinking never goes
//! below one instance per axis.
use vstd::prelude::*;

use crate::asset::MeshHandle;
use crate::bits::MAX_INDEX;
use crate::frames::DirtyTracker;
use crate::hierarchy::{Entity, TransformSystem};
use crate::instance::InstanceCache;
use crate::Error;

verus! {

/// The requested array dimensions, one instance per cell.
#[derive(Debug, Clone, Copy, PartialEq, Eq, Structural)]
pub struct HelmetArraySize {
    pub x: u8,
    pub y: u8,
    pub z: u8,
}

impl HelmetArraySize {
    pub open spec fn size_spec(&self) -> int {
        self.x * self.y * self.z
    }

    /// How many instances the array asks for.
    pub fn size(&self) -> (r: usize)
        ensures
            r == self.size_spec(),
    {
        proof {
            assert(0 <= self.x * self.y <= 65025) by (nonlinear_arith)
                requires self.x <= 255, self.y <= 255;
            assert(0 <= (self.x * self.y) * self.z <= 16581375) by (nonlinear_arith)
                requires 0 <= self.x * self.y <= 65025, self.z <= 255;
        }
        self.x as usize * self.y as usize * self.z as usize
    }

    /// Grows the first axis by one, saturating at the type's limit, but
    /// only when the enlarged array still fits the mesh's capacity.
    pub fn try_add_x(&mut self, max: u16)
        ensures
            ({
                let grown = HelmetArraySize {
                    x: if old(self).x < 255 {
                        (old(self).x + 1) as u8
                    } else {
                        255u8
                    },
                    ..*old(self)
                };
                *final(self) == (if grown.size_spec() <= max {
                    grown
                } else {
                    *old(self)
                })
            }),
    {
        let mut n_size = *self;
        n_size.x = if n_size.x < 255 {
            n_size.x + 1
        } else {
            255
        };
        if n_size.size() <= max as usize {
            *self = n_size;
        }
    }

    /// Grows the second axis by one under the same capacity rule.
    pub fn try_add_y(&mut self, max: u16)
        ensures
            ({
                let grown = HelmetArraySize {
                    y: if old(self).y < 255 {
                        (old(self).y + 1) as u8
                    } else {
                        255u8
                    },
                    ..*old(self)
                };
                *final(self) == (if grown.size_spec() <= max {
                    grown
                } else {
                    *old(self)
                })
            }),
    {
        let mut n_size = *self;
        n_size.y = if n_size.y < 255 {
            n_size.y + 1
        } else {
            255
        };
        if n_size.size() <= max as usize {
            *self = n_size;
        }
    }

    /// Grows the third axis by one under the same capacity rule.
    pub fn try_add_z(&mut self, max: u16)
        ensures
            ({
                let grown = HelmetArraySize {
                    z: if old(self).z < 255 {
                        (old(self).z + 1) as u8
                    } else {
                        255u8
                    },
                    ..*old(self)
                };
                *final(self) == (if grown.size_spec() <= max {
                    grown
                } else {
                    *old(self)
                })
            }),
    {
        let mut n_size = *self;
        n_size.z = if n_size.z < 255 {
            n_size.z + 1
        } else {
            255
        };
        if n_size.size() <= max as usize {
            *self = n_size;
        }
    }

    /// Shrinks the first axis by one, never below one instance.
    pub fn try_sub_x(&mut self)
        requires
            old(self).x >= 1,
        ensures
            final(self).x == (if old(self).x >= 2 {
                old(self).x - 1
            } else {
                1
            }),
            final(self).y == old(self).y,
            final(self).z == old(self).z,
    {
        self.x = if self.x - 1 >= 1 {
            self.x - 1
        } else {
            1
        };
    }

    /// Shrinks the second axis by one, never below one instance.
    pub fn try_sub_y(&mut self)
        requires
            old(self).y >= 1,
        ensures
            final(self).y == (if old(self).y >= 2 {
                old(self).y - 1
            } else {
                1
            }),
            final(self).x == old(self).x,
            final(self).z == old(self).z,
    {
        self.y = if self.y - 1 >= 1 {
            self.y - 1
        } else {
            1
        };
    }

    /// Shrinks the third axis by one, never below one instance.
    pub fn try_sub_z(&mut self)
        requires
            old(self).z >= 1,
        ensures
            final(self).z == (if old(self).z >= 2 {
                old(self).z - 1
            } else {
                1
            }),
            final(self).x == old(self).x,
            final(self).y == old(self).y,
    {
        self.z = if self.z - 1 >= 1 {
            self.z - 1
        } else {
            1
        };
    }
}

/// Handles in the demo's array list name pairwise distinct rows.
proof fn lemma_distinct_handles(s: Seq<Entity>, a: int, b: int)
    requires
        forall|j1: int, j2: int|
            0 <= j1 < j2 < s.len() ==> (#[trigger] s[j1]).index != (#[trigger] s[j2]).index,
        0 <= a < s.len(),
        0 <= b < s.len(),
        a != b,
    ensures
        s[a].index != s[b].index,
{
    if a < b {
        assert((s[a]).index != (s[b]).index);
    } else {
        assert((s[b]).index != (s[a]).index);
    }
}

/// Reconciles the demo's instance-array entity list with a requested
/// size: missing entities are created and given slots of `mesh`,
/// surplus ones give their slots back and die, from the back of the
/// list.  Growing past the mesh's fixed capacity, or past the row
/// limit, is the fatal capacity error, reported before anything is
/// touched.
pub fn sync_array_entities(
    store: &mut TransformSystem,
    cache: &mut InstanceCache,
    tracker: &mut DirtyTracker,
    entities: &mut Vec<Entity>,
    target: usize,
    mesh: MeshHandle,
) -> (r: Result<(), Error>)
    requires
        old(store).wf(),
        old(cache).wf(),
        old(tracker).wf(),
        (mesh as int) < old(cache).num_meshes(),
        forall|j: int|
            0 <= j < old(entities)@.len() ==> {
                let e = #[trigger] old(entities)@[j];
                &&& old(store).is_alive_spec(e)
                &&& old(cache).membership(e.index as int) is Some
                &&& old(cache).membership(e.index as int)->Some_0.mesh == mesh
            },
        forall|j1: int, j2: int|
            0 <= j1 < j2 < old(entities)@.len() ==> (#[trigger] old(entities)@[j1]).index != (
            #[trigger] old(entities)@[j2]).index,
        forall|id: u32|
            #[trigger] old(cache).membership(id as int) is Some ==> old(store).alive_row(
                id as int,
            ),
    ensures
        final(store).wf(),
        final(cache).wf(),
        final(tracker).wf(),
        final(cache).same_defs(old(cache)),
        final(tracker).frames_in_flight == old(tracker).frames_in_flight,
        final(tracker).current_frame == old(tracker).current_frame,
        forall|id: u32|
            #[trigger] final(cache).membership(id as int) is Some ==> final(store).alive_row(
                id as int,
            ),
        r is Err <==> (target > old(entities)@.len() && (old(cache).count_of(mesh as int) + (
        target - old(entities)@.len()) > old(cache).max_of(mesh as int) || old(store).nrows() + (
        target - old(entities)@.len()) > MAX_INDEX)),
        match r {
            Err(err) => {
                &&& err == Error::CapacityExceeded
                &&& *final(store) == *old(store)
                &&& *final(cache) == *old(cache)
                &&& *final(tracker) == *old(tracker)
                &&& *final(entities) == *old(entities)
            },
            Ok(()) => {
                &&& final(entities)@.len() == target
                &&& forall|j: int|
                    0 <= j < target && j < old(entities)@.len() ==> #[trigger] final(entities)@[j] == old(entities)@[j]
                &&& forall|j: int|
                    0 <= j < target ==> {
                        let e = #[trigger] final(entities)@[j];
                        &&& final(store).is_alive_spec(e)
                        &&& final(cache).membership(e.index as int) is Some
                        &&& final(cache).membership(e.index as int)->Some_0.mesh == mesh
                    }
                &&& forall|j: int|
                    target <= j < old(entities)@.len() ==> {
                        let e = #[trigger] old(entities)@[j];
                        &&& !final(store).is_alive_spec(e)
                        &&& final(cache).membership(e.index as int) is None
                    }
                &&& final(cache).count_of(mesh as int) == old(cache).count_of(mesh as int)
                    + target - old(entities)@.len()
            },
        },
{
    let len0 = entities.len();
    if target > len0 {
        let need = target - len0;
        let cnt0: u32 = cache.instance_count(mesh);
        let cap: u16 = cache.meshes.0[mesh].max_instances;
        if need > (cap as usize) || (cnt0 as usize) > (cap as usize) - need {
            return Err(Error::CapacityExceeded);
        }
        if store.alive.len() > (MAX_INDEX as usize) - need {
            return Err(Error::CapacityExceeded);
        }
        while entities.len() < target
            invariant
                store.wf(),
                cache.wf(),
                tracker.wf(),
                cache.same_defs(old(cache)),
                tracker.frames_in_flight == old(tracker).frames_in_flight,
                tracker.current_frame == old(tracker).current_frame,
                (mesh as int) < cache.num_meshes(),
                len0 <= entities@.len() <= target,
                len0 == old(entities)@.len(),
                cache.max_of(mesh as int) == old(cache).max_of(mesh as int),
                cache.count_of(mesh as int) == old(cache).count_of(mesh as int) + entities@.len()
                    - len0,
                cache.count_of(mesh as int) <= old(cache).count_of(mesh as int) + (target - len0),
                old(cache).count_of(mesh as int) + (target - len0) <= cache.max_of(mesh as int),
                store.nrows() <= old(store).nrows() + entities@.len() - len0,
                old(store).nrows() + (target - len0) <= MAX_INDEX,
                forall|j: int|
                    0 <= j < len0 ==> #[trigger] entities@[j] == old(entities)@[j],
                forall|j: int|
                    0 <= j < entities@.len() ==> {
                        let e = #[trigger] entities@[j];
                        &&& store.is_alive_spec(e)
                        &&& cache.membership(e.index as int) is Some
                        &&& cache.membership(e.index as int)->Some_0.mesh == mesh
                    },
                forall|id: u32|
                    #[trigger] cache.membership(id as int) is Some ==> store.alive_row(id as int),
            decreases target - entities@.len(),
        {
            let ghost store_pre = *store;
            let e = match store.create_entity() {
                Ok(e) => e,
                Err(err) => {
                    proof {
                        assert(false);
                    }
                    return Err(err);
                },
            };
            proof {
                assert(cache.membership(e.index as int) is None) by {
                    if cache.membership(e.index as int) is Some {
                        assert(store_pre.alive_row(e.index as int));
                    }
                }
            }
            let ghost cache_prev = *cache;
            let ghost store_now = *store;
            let r2 = cache.on_mesh_assigned(tracker, e.index, mesh);
            proof {
                assert(r2 is Ok);
            }
            match r2 {
                Ok(()) => {},
                Err(err) => {
                    return Err(err);
                },
            }
            entities.push(e);
            proof {
                assert forall|j: int|
                    0 <= j < entities@.len() implies {
                    let e2 = #[trigger] entities@[j];
                    &&& store.is_alive_spec(e2)
                    &&& cache.membership(e2.index as int) is Some
                    &&& cache.membership(e2.index as int)->Some_0.mesh == mesh
                } by {
                    if j < entities@.len() - 1 {
                        let e2 = entities@[j];
                        assert(store_now.is_alive_spec(e2));
                        if e2.index == e.index {
                            assert(cache_prev.membership(e2.index as int) is Some);
                            assert(false);
                        }
                        assert(cache.membership(e2.index as int) == cache_prev.membership(
                            e2.index as int,
                        ));
                    }
                }
                assert forall|id: u32|
                    #[trigger] cache.membership(id as int) is Some implies store.alive_row(
                    id as int,
                ) by {
                    if id != e.index {
                        assert(cache.membership(id as int) == cache_prev.membership(id as int));
                        assert(store_pre.alive_row(id as int));
                        assert(store.alive@[id as int] == store_pre.alive@[id as int]);
                    } else {
                        assert(store.is_alive_spec(e));
                    }
                }
            }
        }
        return Ok(());
    }
    while entities.len() > target
        invariant
            store.wf(),
            cache.wf(),
            tracker.wf(),
            cache.same_defs(old(cache)),
            tracker.frames_in_flight == old(tracker).frames_in_flight,
            tracker.current_frame == old(tracker).current_frame,
            (mesh as int) < cache.num_meshes(),
            target <= len0,
            target <= entities@.len() <= len0,
            len0 == old(entities)@.len(),
            cache.count_of(mesh as int) == old(cache).count_of(mesh as int) + entities@.len()
                - len0,
            forall|j1: int, j2: int|
                0 <= j1 < j2 < old(entities)@.len() ==> (#[trigger] old(entities)@[j1]).index != (
                #[trigger] old(entities)@[j2]).index,
            forall|j: int| 0 <= j < entities@.len() ==> #[trigger] entities@[j] == old(entities)@[j],
            forall|j: int|
                0 <= j < entities@.len() ==> {
                    let e = #[trigger] entities@[j];
                    &&& store.is_alive_spec(e)
                    &&& cache.membership(e.index as int) is Some
                    &&& cache.membership(e.index as int)->Some_0.mesh == mesh
                },
            forall|j: int|
                entities@.len() <= j < len0 ==> {
                    let e = #[trigger] old(entities)@[j];
                    &&& !store.is_alive_spec(e)
                    &&& cache.membership(e.index as int) is None
                },
            forall|id: u32|
                #[trigger] cache.membership(id as int) is Some ==> store.alive_row(id as int),
        decreases entities@.len(),
    {
        let e = match entities.pop() {
            Some(e) => e,
            None => {
                proof {
                    assert(false);
                }
                return Ok(());
            },
        };
        proof {
            assert(e == old(entities)@[entities@.len() as int]);
            assert(store.is_alive_spec(e));
            assert(cache.membership(e.index as int) is Some);
            assert forall|j: int| 0 <= j < entities@.len() implies old(entities)@[j].index
                != e.index by {
                lemma_distinct_handles(old(entities)@, j, entities@.len() as int);
            }
        }
        let ghost cache_prev = *cache;
        cache.on_mesh_removed(tracker, e.index);
        let ghost store_prev = *store;
        let r3 = store.delete_entity(e);
        proof {
            assert(r3 is Ok);
            assert forall|j: int|
                0 <= j < entities@.len() implies {
                let e2 = #[trigger] entities@[j];
                &&& store.is_alive_spec(e2)
                &&& cache.membership(e2.index as int) is Some
                &&& cache.membership(e2.index as int)->Some_0.mesh == mesh
            } by {
                let e2 = entities@[j];
                assert(e2 == old(entities)@[j]);
                lemma_distinct_handles(old(entities)@, j, entities@.len() as int);
                assert(e2.index != e.index);
                assert(cache.membership(e2.index as int) == crate::instance::shift_down(
                    cache_prev.membership(e2.index as int),
                    cache_prev.membership(e.index as int)->Some_0.mesh as int,
                    cache_prev.membership(e.index as int)->Some_0.instance as int,
                ));
                assert(store.alive@[e2.index as int] == store_prev.alive@[e2.index as int]);
                assert(store.generations@ == store_prev.generations@);
            }
            assert forall|j: int|
                entities@.len() <= j < len0 implies {
                let e2 = #[trigger] old(entities)@[j];
                &&& !store.is_alive_spec(e2)
                &&& cache.membership(e2.index as int) is None
            } by {
                let e2 = old(entities)@[j];
                if j == entities@.len() {
                    assert(e2 == e);
                } else {
                    lemma_distinct_handles(old(entities)@, j, entities@.len() as int);
                    assert(e2.index != e.index);
                    assert(!store_prev.is_alive_spec(e2));
                    assert(cache_prev.membership(e2.index as int) is None);
                    assert(cache.membership(e2.index as int) == crate::instance::shift_down(
                        cache_prev.membership(e2.index as int),
                        cache_prev.membership(e.index as int)->Some_0.mesh as int,
                        cache_prev.membership(e.index as int)->Some_0.instance as int,
                    ));
                    assert(!store.is_alive_spec(e2)) by {
                        if store.is_alive_spec(e2) {
                            assert((e2.index as int) < store_prev.nrows());
                            assert(store.alive@[e2.index as int] == store_prev.alive@[e2.index
                                as int]);
                            assert(store_prev.is_alive_spec(e2));
                        }
                    }
                }
            }
            assert forall|id: u32|
                #[trigger] cache.membership(id as int) is Some implies store.alive_row(
                id as int,
            ) by {
                assert(id != e.index);
                assert(cache.membership(id as int) == crate::instance::shift_down(
                    cache_prev.membership(id as int),
                    cache_prev.membership(e.index as int)->Some_0.mesh as int,
                    cache_prev.membership(e.index as int)->Some_0.instance as int,
                ));
                assert(cache_prev.membership(id as int) is Some);
                assert(store_prev.alive_row(id as int));
                assert(store.alive@[id as int] == store_prev.alive@[id as int]);
            }
        }
        match r3 {
            Ok(()) => {},
            Err(err) => {
                return Err(err);
            },
        }
    }
    Ok(())
}

} // verus!
