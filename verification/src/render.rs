//! Frame refresh planning: what the renderer must rewrite, and where.
//!
//! Once per tick the renderer takes the current frame slot's dirty sets
//! and rewrites, in that slot's region of the shared buffers, the
//! indirect draw command of every dirty mesh and the transform-table
//! entry of every dirty entity that owns a slot.  The planners here
//! compute those writes — byte offsets under the layout's alignment
//! rules and command contents from the registry — as plain data for the
//! GPU-facing caller to apply.
use vstd::prelude::*;

use crate::instance::InstanceCache;
use crate::layout::{Settings, INDIRECT_COMMAND_SIZE, TRANSFORM_SIZE};

verus! {

/// One indirect indexed-draw command, as the GPU consumes it: five
/// 4-byte words.
#[derive(Debug, Clone, Copy, PartialEq, Eq, Structural)]
pub struct DrawIndexedCommand {
    pub index_count: u32,
    pub instance_count: u32,
    pub first_index: u32,
    pub vertex_offset: i32,
    pub first_instance: u32,
}

/// A pending write of one indirect command at an absolute byte offset.
#[derive(Debug, Clone, Copy, PartialEq, Eq, Structural)]
pub struct IndirectWrite {
    pub offset: u64,
    pub command: DrawIndexedCommand,
}

/// A pending write of one entity's world transform at an absolute byte
/// offset of the transform buffer.
#[derive(Debug, Clone, Copy, PartialEq, Eq, Structural)]
pub struct TransformWrite {
    pub offset: u64,
    pub entity: u32,
}

/// The layout was built for exactly this scene: same per-mesh
/// capacities and same primitive count.
pub open spec fn settings_match(settings: Settings, cache: InstanceCache) -> bool {
    &&& settings.max_mesh_instances@.len() == cache.num_meshes()
    &&& forall|m: int|
        0 <= m < cache.num_meshes() ==> #[trigger] settings.max_mesh_instances@[m] == cache.max_of(
            m,
        )
    &&& settings.num_primitives == cache.primitives.0@.len()
}

/// The command a dirty mesh's primitive must carry: the primitive's
/// index count, and the mesh's current instance count.
pub open spec fn indirect_write_spec(
    settings: Settings,
    cache: InstanceCache,
    m: int,
    q: int,
    frame: u64,
) -> IndirectWrite {
    IndirectWrite {
        offset: (settings.spec_indirect_offset(frame) + INDIRECT_COMMAND_SIZE
            * cache.meshes.0@[m].primitives@[q]) as u64,
        command: DrawIndexedCommand {
            index_count: cache.primitives.0@[cache.meshes.0@[m].primitives@[q] as int].index_count,
            instance_count: cache.count_of(m),
            first_index: 0,
            vertex_offset: 0,
            first_instance: 0,
        },
    }
}

/// The transform-table write a dirty entity with a slot must get: its
/// mesh's base slot plus its dense index, scaled to bytes within the
/// frame's table.
pub open spec fn transform_write_spec(
    settings: Settings,
    cache: InstanceCache,
    e: u32,
    frame: u64,
) -> TransformWrite {
    let mi = cache.membership(e as int)->Some_0;
    TransformWrite {
        offset: (settings.spec_transforms_offset(frame) + TRANSFORM_SIZE * (
        settings.spec_mesh_transforms_index(mi.mesh as int) + mi.instance)) as u64,
        entity: e,
    }
}

/// The writes one dirty mesh demands: one command per primitive.
pub open spec fn mesh_indirect_writes(
    settings: Settings,
    cache: InstanceCache,
    m: int,
    frame: u64,
) -> Seq<IndirectWrite> {
    Seq::new(
        cache.meshes.0@[m].primitives@.len(),
        |q: int| indirect_write_spec(settings, cache, m, q, frame),
    )
}

/// The writes a list of dirty meshes demands, in list order.
pub open spec fn planned_indirect_writes(
    settings: Settings,
    cache: InstanceCache,
    dirty_meshes: Seq<u32>,
    frame: u64,
) -> Seq<IndirectWrite>
    decreases dirty_meshes.len(),
{
    if dirty_meshes.len() == 0 {
        Seq::empty()
    } else {
        planned_indirect_writes(settings, cache, dirty_meshes.drop_last(), frame)
            + mesh_indirect_writes(settings, cache, dirty_meshes.last() as int, frame)
    }
}

/// The writes a list of dirty entities demands, in list order: one per
/// entity that has a slot, none for the rest.
pub open spec fn planned_transform_writes(
    settings: Settings,
    cache: InstanceCache,
    dirty_entities: Seq<u32>,
    frame: u64,
) -> Seq<TransformWrite>
    decreases dirty_entities.len(),
{
    if dirty_entities.len() == 0 {
        Seq::empty()
    } else {
        planned_transform_writes(settings, cache, dirty_entities.drop_last(), frame) + (
        if cache.membership(dirty_entities.last() as int) is Some {
            seq![transform_write_spec(settings, cache, dirty_entities.last(), frame)]
        } else {
            Seq::empty()
        })
    }
}

/// Plans the indirect-command rewrites for frame slot `frame`: for every
/// dirty mesh, one command per primitive at that primitive's offset,
/// carrying the mesh's current instance count.
pub fn plan_indirect_writes(
    settings: &Settings,
    cache: &InstanceCache,
    dirty_meshes: &Vec<u32>,
    frame: u64,
) -> (r: Vec<IndirectWrite>)
    requires
        settings.wf(),
        cache.wf(),
        settings_match(*settings, *cache),
        forall|d: int|
            0 <= d < dirty_meshes@.len() ==> (#[trigger] dirty_meshes@[d] as int)
                < cache.num_meshes(),
        settings.spec_indirect_offset(frame) + settings.spec_indirect_size() <= u64::MAX,
    ensures
        r@ == planned_indirect_writes(*settings, *cache, dirty_meshes@, frame),
{
    let base: u64 = settings.indirect_offset(frame);
    let mut out: Vec<IndirectWrite> = Vec::new();
    let mut d: usize = 0;
    while d < dirty_meshes.len()
        invariant
            settings.wf(),
            cache.wf(),
            settings_match(*settings, *cache),
            forall|d2: int|
                0 <= d2 < dirty_meshes@.len() ==> (#[trigger] dirty_meshes@[d2] as int)
                    < cache.num_meshes(),
            settings.spec_indirect_offset(frame) + settings.spec_indirect_size() <= u64::MAX,
            base == settings.spec_indirect_offset(frame),
            d <= dirty_meshes@.len(),
            out@ == planned_indirect_writes(
                *settings,
                *cache,
                dirty_meshes@.subrange(0, d as int),
                frame,
            ),
        decreases dirty_meshes@.len() - d,
    {
        let m: usize = dirty_meshes[d] as usize;
        let count: u32 = cache.instance_count(m);
        let nprims: usize = cache.meshes.0[m].primitives.len();
        let ghost mpref = dirty_meshes@.subrange(0, d as int);
        let mut q: usize = 0;
        while q < nprims
            invariant
                settings.wf(),
                cache.wf(),
                settings_match(*settings, *cache),
                settings.spec_indirect_offset(frame) + settings.spec_indirect_size() <= u64::MAX,
                base == settings.spec_indirect_offset(frame),
                (m as int) < cache.num_meshes(),
                count == cache.count_of(m as int),
                nprims == cache.meshes.0@[m as int].primitives@.len(),
                q <= nprims,
                out@ == planned_indirect_writes(*settings, *cache, mpref, frame)
                    + mesh_indirect_writes(*settings, *cache, m as int, frame).subrange(
                    0,
                    q as int,
                ),
            decreases nprims - q,
        {
            let p: usize = cache.meshes.0[m].primitives[q];
            proof {
                assert(cache.meshes.0@[m as int].primitives@[q as int] < cache.primitives.0@.len());
                assert((p as int) < settings.num_primitives);
                assert(INDIRECT_COMMAND_SIZE * (p as int) + INDIRECT_COMMAND_SIZE
                    <= INDIRECT_COMMAND_SIZE * (settings.num_primitives as int))
                    by (nonlinear_arith)
                    requires (p as int) < settings.num_primitives as int;
            }
            let w = IndirectWrite {
                offset: base + (p as u64) * INDIRECT_COMMAND_SIZE,
                command: DrawIndexedCommand {
                    index_count: cache.primitives.0[p].index_count,
                    instance_count: count,
                    first_index: 0,
                    vertex_offset: 0,
                    first_instance: 0,
                },
            };
            out.push(w);
            proof {
                assert(w == mesh_indirect_writes(*settings, *cache, m as int, frame)[q as int]);
                assert(mesh_indirect_writes(*settings, *cache, m as int, frame).subrange(
                    0,
                    q as int,
                ).push(w) =~= mesh_indirect_writes(*settings, *cache, m as int, frame).subrange(
                    0,
                    q + 1,
                ));
                assert((planned_indirect_writes(*settings, *cache, mpref, frame)
                    + mesh_indirect_writes(*settings, *cache, m as int, frame).subrange(
                    0,
                    q as int,
                )).push(w) =~= planned_indirect_writes(*settings, *cache, mpref, frame)
                    + mesh_indirect_writes(*settings, *cache, m as int, frame).subrange(0, q + 1));
            }
            q = q + 1;
        }
        proof {
            assert(mesh_indirect_writes(*settings, *cache, m as int, frame).subrange(
                0,
                nprims as int,
            ) =~= mesh_indirect_writes(*settings, *cache, m as int, frame));
            assert(dirty_meshes@.subrange(0, d + 1).drop_last() =~= mpref);
            assert(dirty_meshes@.subrange(0, d + 1).last() == dirty_meshes@[d as int]);
        }
        d = d + 1;
    }
    proof {
        assert(dirty_meshes@.subrange(0, dirty_meshes@.len() as int) =~= dirty_meshes@);
    }
    out
}

/// Plans the transform-table rewrites for frame slot `frame`: for every
/// dirty entity that owns a slot, one write at that slot's byte offset
/// within the frame's table.
pub fn plan_transform_writes(
    settings: &Settings,
    cache: &InstanceCache,
    dirty_entities: &Vec<u32>,
    frame: u64,
) -> (r: Vec<TransformWrite>)
    requires
        settings.wf(),
        cache.wf(),
        settings_match(*settings, *cache),
        1 <= settings.spec_transform_size(),
        settings.spec_transforms_offset(frame) + settings.spec_transform_size() <= u64::MAX,
    ensures
        r@ == planned_transform_writes(*settings, *cache, dirty_entities@, frame),
{
    let mut out: Vec<TransformWrite> = Vec::new();
    let base: u64 = settings.transforms_offset(frame);
    let mut d: usize = 0;
    while d < dirty_entities.len()
        invariant
            settings.wf(),
            cache.wf(),
            settings_match(*settings, *cache),
            1 <= settings.spec_transform_size(),
            settings.spec_transforms_offset(frame) + settings.spec_transform_size() <= u64::MAX,
            base == settings.spec_transforms_offset(frame),
            d <= dirty_entities@.len(),
            out@ == planned_transform_writes(
                *settings,
                *cache,
                dirty_entities@.subrange(0, d as int),
                frame,
            ),
        decreases dirty_entities@.len() - d,
    {
        let e: u32 = dirty_entities[d];
        let ghost epref = dirty_entities@.subrange(0, d as int);
        match cache.instance_of(e) {
            Some(mi) => {
                proof {
                    assert(cache.mesh_instances@[e as int] is Some);
                    assert(0 <= mi.mesh < cache.num_meshes());
                    assert((mi.instance as int) < cache.slots_of(mi.mesh as int).len());
                    assert(cache.count_of(mi.mesh as int) <= cache.max_of(mi.mesh as int));
                    crate::layout::lemma_sum_instances_bounds(
                        settings.max_mesh_instances@.subrange(0, mi.mesh as int),
                    );
                    lemma_slot_in_table(*settings, *cache, mi.mesh as int, mi.instance as int);
                }
                let slot_index: usize = settings.instance_transform_index(mi.mesh, mi.instance);
                let w = TransformWrite {
                    offset: base + (slot_index as u64) * TRANSFORM_SIZE,
                    entity: e,
                };
                out.push(w);
                proof {
                    assert(w == transform_write_spec(*settings, *cache, e, frame));
                    assert(dirty_entities@.subrange(0, d + 1).drop_last() =~= epref);
                    assert(dirty_entities@.subrange(0, d + 1).last() == e);
                    assert(planned_transform_writes(*settings, *cache, epref, frame).push(w)
                        =~= planned_transform_writes(*settings, *cache, epref, frame) + seq![w]);
                }
            },
            None => {
                proof {
                    assert(dirty_entities@.subrange(0, d + 1).drop_last() =~= epref);
                    assert(dirty_entities@.subrange(0, d + 1).last() == e);
                    assert(planned_transform_writes(*settings, *cache, epref, frame)
                        + Seq::<TransformWrite>::empty() =~= planned_transform_writes(
                        *settings,
                        *cache,
                        epref,
                        frame,
                    ));
                }
            },
        }
        d = d + 1;
    }
    proof {
        assert(dirty_entities@.subrange(0, dirty_entities@.len() as int) =~= dirty_entities@);
    }
    out
}

/// A live slot's scaled index stays inside the frame's transform table.
proof fn lemma_slot_in_table(settings: Settings, cache: InstanceCache, m: int, slot: int)
    requires
        settings.wf(),
        cache.wf(),
        settings_match(settings, cache),
        0 <= m < cache.num_meshes(),
        0 <= slot < cache.count_of(m),
    ensures
        0 <= settings.spec_mesh_transforms_index(m) + slot,
        TRANSFORM_SIZE * (settings.spec_mesh_transforms_index(m) + slot) + TRANSFORM_SIZE
            <= settings.spec_transform_size(),
        settings.spec_mesh_transforms_index(m) + slot < 0x8000 * 65536,
    decreases m,
{
    crate::layout::lemma_sum_instances_bounds(settings.max_mesh_instances@.subrange(0, m));
    lemma_prefix_plus_slot(settings, cache, m, slot);
    let idx = settings.spec_mesh_transforms_index(m) + slot;
    let total = crate::layout::sum_instances(settings.max_mesh_instances@);
    assert(TRANSFORM_SIZE * idx + TRANSFORM_SIZE <= TRANSFORM_SIZE * total) by (nonlinear_arith)
        requires idx < total;
    crate::layout::lemma_sum_instances_bounds(settings.max_mesh_instances@);
    assert(settings.max_mesh_instances@.len() * 65535 <= 0x8000 * 65535) by (nonlinear_arith)
        requires settings.max_mesh_instances@.len() <= 0x8000;
}

/// A mesh's base slot plus a live slot index is below the total
/// capacity.
proof fn lemma_prefix_plus_slot(settings: Settings, cache: InstanceCache, m: int, slot: int)
    requires
        settings.wf(),
        cache.wf(),
        settings_match(settings, cache),
        0 <= m < cache.num_meshes(),
        0 <= slot < cache.count_of(m),
    ensures
        settings.spec_mesh_transforms_index(m) + slot < crate::layout::sum_instances(
            settings.max_mesh_instances@,
        ),
{
    lemma_sum_split(settings.max_mesh_instances@, m);
    crate::layout::lemma_sum_instances_bounds(
        settings.max_mesh_instances@.subrange(m + 1, settings.max_mesh_instances@.len() as int),
    );
    assert(cache.count_of(m) <= cache.max_of(m));
    assert(settings.max_mesh_instances@[m] == cache.max_of(m));
}

/// Splitting a capacity list at one mesh splits its sum.
proof fn lemma_sum_split(s: Seq<u16>, m: int)
    requires
        0 <= m < s.len(),
    ensures
        crate::layout::sum_instances(s) == crate::layout::sum_instances(s.subrange(0, m)) + s[m]
            + crate::layout::sum_instances(s.subrange(m + 1, s.len() as int)),
    decreases s.len(),
{
    if m == s.len() - 1 {
        assert(s.drop_last() =~= s.subrange(0, m));
        assert(s.subrange(m + 1, s.len() as int) =~= Seq::<u16>::empty());
    } else {
        lemma_sum_split(s.drop_last(), m);
        assert(s.drop_last().subrange(0, m) =~= s.subrange(0, m));
        assert(s.drop_last().subrange(m + 1, s.len() - 1) =~= s.subrange(m + 1, s.len() - 1));
        assert(s.subrange(m + 1, s.len() as int).drop_last() =~= s.subrange(m + 1, s.len() - 1));
        crate::layout::lemma_sum_instances_push(
            s.subrange(m + 1, s.len() - 1),
            s[s.len() - 1],
        );
        assert(s.subrange(m + 1, s.len() - 1).push(s[s.len() - 1]) =~= s.subrange(
            m + 1,
            s.len() as int,
        ));
    }
}

} // verus!
