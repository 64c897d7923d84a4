//! Multi-frame dirty tracking.
//!
//! With N frames in flight, each frame slot owns a GPU-visible copy of
//! the scene data, so a single logical change must be refreshed once per
//! slot.  A [`DirtyTracker`] keeps one dirty entity-id set and one dirty
//! mesh-id set per slot; marking broadcasts into every slot, and a slot's
//! consumer takes and clears only its own pair after refreshing its copy.
use vstd::prelude::*;

use crate::bits::{
    bitset_add, bitset_clear, bitset_contains, bitset_items, bitset_new, elems, strictly_ascending,
    MAX_INDEX,
};

verus! {

/// One dirty entity-id set and one dirty mesh-id set per frame in flight,
/// with the round-robin pointer of the slot currently being recorded.
pub struct DirtyTracker {
    pub frames_in_flight: usize,
    pub current_frame: usize,
    pub dirty_entities: Vec<hibitset::BitSet>,
    pub dirty_mesh_indirects: Vec<hibitset::BitSet>,
}

impl DirtyTracker {
    pub open spec fn wf(&self) -> bool {
        &&& 1 <= self.frames_in_flight
        &&& self.current_frame < self.frames_in_flight
        &&& self.dirty_entities@.len() == self.frames_in_flight
        &&& self.dirty_mesh_indirects@.len() == self.frames_in_flight
    }

    /// The dirty entity ids recorded for frame slot `f`.
    pub open spec fn entity_set(&self, f: int) -> Set<u32> {
        elems(&self.dirty_entities@[f])
    }

    /// The dirty mesh ids recorded for frame slot `f`.
    pub open spec fn mesh_set(&self, f: int) -> Set<u32> {
        elems(&self.dirty_mesh_indirects@[f])
    }

    /// Creates a tracker for `frames_in_flight` slots, all sets empty,
    /// recording for slot 0.
    pub fn new(frames_in_flight: usize) -> (r: DirtyTracker)
        requires
            1 <= frames_in_flight,
        ensures
            r.wf(),
            r.frames_in_flight == frames_in_flight,
            r.current_frame == 0,
            forall|f: int| 0 <= f < frames_in_flight ==> #[trigger] r.entity_set(f) =~= Set::<u32>::empty(),
            forall|f: int| 0 <= f < frames_in_flight ==> #[trigger] r.mesh_set(f) =~= Set::<u32>::empty(),
    {
        let mut dirty_entities: Vec<hibitset::BitSet> = Vec::new();
        let mut dirty_mesh_indirects: Vec<hibitset::BitSet> = Vec::new();
        let mut i: usize = 0;
        while i < frames_in_flight
            invariant
                i <= frames_in_flight,
                dirty_entities@.len() == i,
                dirty_mesh_indirects@.len() == i,
                forall|f: int| 0 <= f < i ==> elems(&dirty_entities@[f]) =~= Set::<u32>::empty(),
                forall|f: int| 0 <= f < i ==> elems(&dirty_mesh_indirects@[f]) =~= Set::<u32>::empty(),
            decreases frames_in_flight - i,
        {
            dirty_entities.push(bitset_new());
            dirty_mesh_indirects.push(bitset_new());
            i = i + 1;
        }
        DirtyTracker { frames_in_flight, current_frame: 0, dirty_entities, dirty_mesh_indirects }
    }

    /// Broadcasts a changed entity id into every frame slot's dirty set.
    pub fn mark(&mut self, id: u32)
        requires
            old(self).wf(),
            id < MAX_INDEX,
        ensures
            final(self).wf(),
            final(self).frames_in_flight == old(self).frames_in_flight,
            final(self).current_frame == old(self).current_frame,
            forall|f: int| 0 <= f < old(self).frames_in_flight
                ==> #[trigger] final(self).entity_set(f) == old(self).entity_set(f).insert(id),
            forall|f: int| 0 <= f < old(self).frames_in_flight
                ==> #[trigger] final(self).mesh_set(f) == old(self).mesh_set(f),
    {
        let n = self.frames_in_flight;
        let mut i: usize = 0;
        while i < n
            invariant
                self.wf(),
                i <= n,
                n == self.frames_in_flight == old(self).frames_in_flight,
                self.current_frame == old(self).current_frame,
                id < MAX_INDEX,
                forall|f: int| 0 <= f < i
                    ==> #[trigger] self.entity_set(f) == old(self).entity_set(f).insert(id),
                forall|f: int| i <= f < n
                    ==> #[trigger] self.entity_set(f) == old(self).entity_set(f),
                forall|f: int| 0 <= f < n
                    ==> #[trigger] self.mesh_set(f) == old(self).mesh_set(f),
            decreases n - i,
        {
            let ghost prev = *self;
            bitset_add(&mut self.dirty_entities[i], id);
            proof {
                assert forall|f: int| 0 <= f < n && f != i implies #[trigger] self.entity_set(f)
                    == prev.entity_set(f) by {
                    assert(self.dirty_entities@[f] == prev.dirty_entities@[f]);
                }
                assert(self.entity_set(i as int) == prev.entity_set(i as int).insert(id));
                assert forall|f: int| 0 <= f < n implies #[trigger] self.mesh_set(f)
                    == prev.mesh_set(f) by {
                    assert(self.dirty_mesh_indirects@[f] == prev.dirty_mesh_indirects@[f]);
                }
            }
            i = i + 1;
        }
    }

    /// Broadcasts a changed mesh id into every frame slot's dirty set.
    pub fn mark_mesh(&mut self, id: u32)
        requires
            old(self).wf(),
            id < MAX_INDEX,
        ensures
            final(self).wf(),
            final(self).frames_in_flight == old(self).frames_in_flight,
            final(self).current_frame == old(self).current_frame,
            forall|f: int| 0 <= f < old(self).frames_in_flight
                ==> #[trigger] final(self).mesh_set(f) == old(self).mesh_set(f).insert(id),
            forall|f: int| 0 <= f < old(self).frames_in_flight
                ==> #[trigger] final(self).entity_set(f) == old(self).entity_set(f),
    {
        let n = self.frames_in_flight;
        let mut i: usize = 0;
        while i < n
            invariant
                self.wf(),
                i <= n,
                n == self.frames_in_flight == old(self).frames_in_flight,
                self.current_frame == old(self).current_frame,
                id < MAX_INDEX,
                forall|f: int| 0 <= f < i
                    ==> #[trigger] self.mesh_set(f) == old(self).mesh_set(f).insert(id),
                forall|f: int| i <= f < n
                    ==> #[trigger] self.mesh_set(f) == old(self).mesh_set(f),
                forall|f: int| 0 <= f < n
                    ==> #[trigger] self.entity_set(f) == old(self).entity_set(f),
            decreases n - i,
        {
            let ghost prev = *self;
            bitset_add(&mut self.dirty_mesh_indirects[i], id);
            proof {
                assert forall|f: int| 0 <= f < n && f != i implies #[trigger] self.mesh_set(f)
                    == prev.mesh_set(f) by {
                    assert(self.dirty_mesh_indirects@[f] == prev.dirty_mesh_indirects@[f]);
                }
                assert(self.mesh_set(i as int) == prev.mesh_set(i as int).insert(id));
                assert forall|f: int| 0 <= f < n implies #[trigger] self.entity_set(f)
                    == prev.entity_set(f) by {
                    assert(self.dirty_entities@[f] == prev.dirty_entities@[f]);
                }
            }
            i = i + 1;
        }
    }

    /// What one `take_and_clear` call does: the returned lists enumerate
    /// exactly the sets frame `f` had accumulated, frame `f`'s sets are
    /// left empty, and every other slot and the configuration are kept.
    pub open spec fn take_and_clear_rel(
        pre: DirtyTracker,
        f: int,
        entities: Seq<u32>,
        mesh_ids: Seq<u32>,
        post: DirtyTracker,
    ) -> bool {
        &&& (forall|id: u32| entities.contains(id) <==> pre.entity_set(f).contains(id))
        &&& (forall|id: u32| mesh_ids.contains(id) <==> pre.mesh_set(f).contains(id))
        &&& strictly_ascending(entities)
        &&& strictly_ascending(mesh_ids)
        &&& post.entity_set(f) == Set::<u32>::empty()
        &&& post.mesh_set(f) == Set::<u32>::empty()
        &&& post.frames_in_flight == pre.frames_in_flight
        &&& post.current_frame == pre.current_frame
        &&& (forall|g: int| 0 <= g < pre.frames_in_flight && g != f
            ==> #[trigger] post.entity_set(g) == pre.entity_set(g))
        &&& (forall|g: int| 0 <= g < pre.frames_in_flight && g != f
            ==> #[trigger] post.mesh_set(g) == pre.mesh_set(g))
    }

    /// Returns the dirty entity ids and dirty mesh ids accumulated for
    /// frame slot `frame` and clears that slot's sets, leaving every
    /// other slot untouched.  To be called once per use of the slot,
    /// after its buffer copy has been refreshed.
    pub fn take_and_clear(&mut self, frame: usize) -> (r: (Vec<u32>, Vec<u32>))
        requires
            old(self).wf(),
            frame < old(self).frames_in_flight,
        ensures
            final(self).wf(),
            Self::take_and_clear_rel(*old(self), frame as int, r.0@, r.1@, *final(self)),
    {
        let entities = bitset_items(&self.dirty_entities[frame]);
        bitset_clear(&mut self.dirty_entities[frame]);
        let mesh_ids = bitset_items(&self.dirty_mesh_indirects[frame]);
        bitset_clear(&mut self.dirty_mesh_indirects[frame]);
        (entities, mesh_ids)
    }

    /// Advances the round-robin current-slot pointer by one frame.
    pub fn advance(&mut self)
        requires
            old(self).wf(),
        ensures
            final(self).wf(),
            final(self).frames_in_flight == old(self).frames_in_flight,
            final(self).current_frame == (old(self).current_frame + 1) % (
            old(self).frames_in_flight as int),
            forall|f: int| 0 <= f < old(self).frames_in_flight
                ==> #[trigger] final(self).entity_set(f) == old(self).entity_set(f),
            forall|f: int| 0 <= f < old(self).frames_in_flight
                ==> #[trigger] final(self).mesh_set(f) == old(self).mesh_set(f),
    {
        self.current_frame = (self.current_frame + 1) % self.frames_in_flight;
    }

    /// Whether entity `id` is still marked dirty for frame slot `frame`.
    pub fn entity_is_dirty(&self, frame: usize, id: u32) -> (r: bool)
        requires
            self.wf(),
            frame < self.frames_in_flight,
        ensures
            r == self.entity_set(frame as int).contains(id),
    {
        bitset_contains(&self.dirty_entities[frame], id)
    }

    /// Whether mesh `id` is still marked dirty for frame slot `frame`.
    pub fn mesh_is_dirty(&self, frame: usize, id: u32) -> (r: bool)
        requires
            self.wf(),
            frame < self.frames_in_flight,
        ensures
            r == self.mesh_set(frame as int).contains(id),
    {
        bitset_contains(&self.dirty_mesh_indirects[frame], id)
    }
}

/// Taking a frame slot's dirty sets twice in a row, with no marking in
/// between, yields empty lists the second time.
pub proof fn lemma_take_and_clear_twice(
    t0: DirtyTracker,
    t1: DirtyTracker,
    t2: DirtyTracker,
    f: int,
    e1: Seq<u32>,
    m1: Seq<u32>,
    e2: Seq<u32>,
    m2: Seq<u32>,
)
    requires
        0 <= f < t0.frames_in_flight,
        DirtyTracker::take_and_clear_rel(t0, f, e1, m1, t1),
        DirtyTracker::take_and_clear_rel(t1, f, e2, m2, t2),
    ensures
        e2.len() == 0,
        m2.len() == 0,
{
    if e2.len() > 0 {
        assert(e2.contains(e2[0]));
    }
    if m2.len() > 0 {
        assert(m2.contains(m2[0]));
    }
}

} // verus!
