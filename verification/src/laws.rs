//! Cross-component guarantees, stated over the contracts of the
//! hierarchy walk, the registry and the multi-frame tracker.
use vstd::prelude::*;

use crate::frames::DirtyTracker;
use crate::hierarchy::TransformSystem;
use crate::instance::InstanceCache;

verus! {

/// *Dirty completeness.*  Suppose an entity's local transform changed,
/// or an ancestor's did — that is, the walk found it stale
/// (`anc_marked`).  Then its id is in the list the walk returns, and
/// once that list is fed to the tracker, the id sits in the dirty set
/// of every frame-in-flight slot, before any of those slots is taken
/// and cleared.
pub proof fn lemma_dirty_completeness(
    store: TransformSystem,
    dirty: Seq<u32>,
    cache: InstanceCache,
    tracker_pre: DirtyTracker,
    tracker_post: DirtyTracker,
    e: u32,
)
    requires
        forall|id: u32|
            dirty.contains(id) <==> (store.alive_row(id as int) && store.locals@[id as int] is Some
                && store.anc_marked(id as int)),
        forall|f: int|
            0 <= f < tracker_pre.frames_in_flight ==> #[trigger] tracker_post.entity_set(f)
                == tracker_pre.entity_set(f).union(
                Set::new(|id: u32| dirty.contains(id) && cache.membership(id as int) is Some),
            ),
        store.alive_row(e as int),
        store.locals@[e as int] is Some,
        store.anc_marked(e as int),
        cache.membership(e as int) is Some,
    ensures
        dirty.contains(e),
        forall|f: int|
            0 <= f < tracker_pre.frames_in_flight ==> #[trigger] tracker_post.entity_set(
                f,
            ).contains(e),
{
    assert(dirty.contains(e));
    assert forall|f: int|
        0 <= f < tracker_pre.frames_in_flight implies #[trigger] tracker_post.entity_set(
        f,
    ).contains(e) by {
        assert(Set::new(
            |id: u32| dirty.contains(id) && cache.membership(id as int) is Some,
        ).contains(e));
    }
}

} // verus!
