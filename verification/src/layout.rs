//! Deterministic layout planning for the shared per-frame GPU buffers.
//!
//! A `Settings` value is a pure function of the scene configuration: the
//! device's minimum buffer alignment, the size of the per-frame uniform
//! block, the number of primitives, and the fixed per-mesh instance
//! capacities.  It yields the byte offset of every logical region of the
//! uniform/indirect buffer and of the per-instance transform buffer, for
//! any frame-in-flight index.
use vstd::prelude::*;

verus! {

/// Size in bytes of one per-instance transform record: a 4x4 matrix of
/// 4-byte entries.
pub const TRANSFORM_SIZE: u64 = 64;

/// Size in bytes of one indirect indexed-draw command: five 4-byte words.
pub const INDIRECT_COMMAND_SIZE: u64 = 20;

/// Sum of a sequence of per-mesh instance capacities.
pub open spec fn sum_instances(s: Seq<u16>) -> int
    decreases s.len(),
{
    if s.len() == 0 {
        0
    } else {
        sum_instances(s.drop_last()) + s.last()
    }
}

/// Every partial sum of capacities is bounded by 65535 per element.
pub proof fn lemma_sum_instances_bounds(s: Seq<u16>)
    ensures
        0 <= sum_instances(s) <= s.len() * 65535,
    decreases s.len(),
{
    if s.len() > 0 {
        lemma_sum_instances_bounds(s.drop_last());
        assert((s.len() - 1) * 65535 + 65535 == s.len() * 65535) by (nonlinear_arith);
    }
}

/// Appending one capacity adds it to the sum.
pub proof fn lemma_sum_instances_push(s: Seq<u16>, x: u16)
    ensures
        sum_instances(s.push(x)) == sum_instances(s) + x,
{
    assert(s.push(x).drop_last() =~= s);
}

/// Fixed layout parameters for one scene configuration.
///
/// Two `Settings` describe the same buffer layout exactly when they are
/// equal; addressing a buffer that was built for different settings is a
/// fatal mismatch, checked by [`Settings::check_matches`].
pub struct Settings {
    pub align: u64,
    pub uniform_size: u64,
    pub num_primitives: usize,
    pub max_mesh_instances: Vec<u16>,
    pub total_max_mesh_instances: u64,
}

impl Settings {
    /// The derived total equals the sum of the per-mesh capacities, and
    /// every quantity the offset formulas produce fits in a `u64`.
    pub open spec fn wf(&self) -> bool {
        &&& 1 <= self.align
        &&& 1 <= self.uniform_size <= 0x1_0000_0000
        &&& self.align <= 0x1_0000_0000
        &&& self.num_primitives <= 0x1_0000_0000
        &&& self.max_mesh_instances@.len() <= 0x8000
        &&& self.total_max_mesh_instances == sum_instances(self.max_mesh_instances@)
    }

    pub open spec fn spec_align(&self) -> u64 {
        self.align
    }

    pub open spec fn spec_uniform_size(&self) -> u64 {
        self.uniform_size
    }

    pub open spec fn spec_num_primitives(&self) -> usize {
        self.num_primitives
    }

    pub open spec fn spec_max_mesh_instances(&self) -> Seq<u16> {
        self.max_mesh_instances@
    }

    /// Builds the layout for a scene with the given alignment, uniform
    /// block size, primitive count and per-mesh instance capacities.
    pub fn new(align: u64, uniform_size: u64, num_primitives: usize, max_mesh_instances: Vec<u16>)
        -> (r: Settings)
        requires
            1 <= align <= 0x1_0000_0000,
            1 <= uniform_size <= 0x1_0000_0000,
            num_primitives <= 0x1_0000_0000,
            max_mesh_instances@.len() <= 0x8000,
        ensures
            r.wf(),
            r.spec_align() == align,
            r.spec_uniform_size() == uniform_size,
            r.spec_num_primitives() == num_primitives,
            r.spec_max_mesh_instances() == max_mesh_instances@,
    {
        let mut total: u64 = 0;
        let mut i: usize = 0;
        while i < max_mesh_instances.len()
            invariant
                i <= max_mesh_instances@.len() <= 0x8000,
                total == sum_instances(max_mesh_instances@.subrange(0, i as int)),
            decreases max_mesh_instances@.len() - i,
        {
            proof {
                lemma_sum_instances_bounds(max_mesh_instances@.subrange(0, i as int));
                lemma_sum_instances_push(
                    max_mesh_instances@.subrange(0, i as int),
                    max_mesh_instances@[i as int],
                );
                assert(max_mesh_instances@.subrange(0, i as int).push(max_mesh_instances@[i as int])
                    =~= max_mesh_instances@.subrange(0, i + 1));
                assert(i * 65535 <= 0x8000 * 65535) by (nonlinear_arith)
                    requires i <= 0x8000;
            }
            total = total + max_mesh_instances[i] as u64;
            i = i + 1;
        }
        proof {
            assert(max_mesh_instances@.subrange(0, max_mesh_instances@.len() as int)
                =~= max_mesh_instances@);
        }
        Settings { align, uniform_size, num_primitives, max_mesh_instances, total_max_mesh_instances: total }
    }

    /// Total size in bytes of the per-instance transform table.
    pub open spec fn spec_transform_size(&self) -> int {
        TRANSFORM_SIZE * sum_instances(self.max_mesh_instances@)
    }

    /// Total size in bytes of the indirect-draw-command table.
    pub open spec fn spec_indirect_size(&self) -> int {
        INDIRECT_COMMAND_SIZE * self.num_primitives
    }

    /// Stride between successive frames' uniform+indirect regions: the
    /// region size rounded up to the next alignment boundary.
    pub open spec fn spec_uniform_indirect_frame_size(&self) -> int {
        ((self.uniform_size + self.spec_indirect_size() - 1) / self.align as int + 1) * self.align
    }

    /// Stride between successive frames' transform tables.  An empty
    /// table still occupies one alignment unit, as the reference formula
    /// rounds up from a size of zero.
    pub open spec fn spec_transform_frame_size(&self) -> int {
        ((self.spec_transform_size() - 1) / self.align as int + 1) * self.align
    }

    pub open spec fn spec_uniform_offset(&self, index: u64) -> int {
        self.spec_uniform_indirect_frame_size() * index
    }

    pub open spec fn spec_indirect_offset(&self, index: u64) -> int {
        self.spec_uniform_offset(index) + self.uniform_size
    }

    pub open spec fn spec_transforms_offset(&self, index: u64) -> int {
        self.spec_transform_frame_size() * index
    }

    /// First transform-table slot index reserved for `mesh_index`: the sum
    /// of the capacities of all earlier meshes.
    pub open spec fn spec_mesh_transforms_index(&self, mesh_index: int) -> int {
        sum_instances(self.max_mesh_instances@.subrange(0, mesh_index))
    }

    /// Transform table entry size times total capacity.
    pub fn transform_size(&self) -> (r: u64)
        requires
            self.wf(),
        ensures
            r == self.spec_transform_size(),
    {
        proof {
            lemma_sum_instances_bounds(self.max_mesh_instances@);
            assert(self.max_mesh_instances@.len() * 65535 <= 0x8000 * 65535)
                by (nonlinear_arith)
                requires self.max_mesh_instances@.len() <= 0x8000;
        }
        TRANSFORM_SIZE * self.total_max_mesh_instances
    }

    /// Indirect table size: one command per primitive.
    pub fn indirect_size(&self) -> (r: u64)
        requires
            self.wf(),
        ensures
            r == self.spec_indirect_size(),
    {
        INDIRECT_COMMAND_SIZE * (self.num_primitives as u64)
    }

    /// Per-frame stride of the uniform+indirect buffer.
    pub fn uniform_indirect_buffer_frame_size(&self) -> (r: u64)
        requires
            self.wf(),
        ensures
            r == self.spec_uniform_indirect_frame_size(),
            r >= 1,
    {
        let isz = self.indirect_size();
        let q = (self.uniform_size + isz - 1) / self.align;
        proof {
            lemma_div_quotient_bound((self.uniform_size + isz - 1) as int, self.align as int);
            assert((q + 1) * self.align <= (self.uniform_size + isz - 1 + self.align as int))
                by (nonlinear_arith)
                requires
                    self.align >= 1,
                    q == ((self.uniform_size + isz - 1) as int) / (self.align as int),
                    q * self.align as int <= (self.uniform_size + isz - 1) as int;
            assert((q + 1) * self.align >= 1) by (nonlinear_arith)
                requires self.align >= 1, q >= 0;
        }
        (q + 1) * self.align
    }

    /// Per-frame stride of the transform buffer.
    pub fn transform_buffer_frame_size(&self) -> (r: u64)
        requires
            self.wf(),
            self.spec_transform_size() >= 1,
        ensures
            r == self.spec_transform_frame_size(),
            r >= 1,
    {
        let tsz = self.transform_size();
        proof {
            lemma_sum_instances_bounds(self.max_mesh_instances@);
            assert(self.max_mesh_instances@.len() * 65535 <= 0x8000 * 65535)
                by (nonlinear_arith)
                requires self.max_mesh_instances@.len() <= 0x8000;
        }
        let q = (tsz - 1) / self.align;
        proof {
            lemma_div_quotient_bound((tsz - 1) as int, self.align as int);
            assert((q + 1) * self.align <= (tsz - 1 + self.align as int)) by (nonlinear_arith)
                requires
                    self.align >= 1,
                    q == ((tsz - 1) as int) / (self.align as int),
                    q * self.align as int <= (tsz - 1) as int;
            assert((q + 1) * self.align >= 1) by (nonlinear_arith)
                requires self.align >= 1, q >= 0;
        }
        (q + 1) * self.align
    }

    /// Byte offset of frame `index`'s uniform block.
    pub fn uniform_offset(&self, index: u64) -> (r: u64)
        requires
            self.wf(),
            self.spec_uniform_offset(index) <= u64::MAX,
        ensures
            r == self.spec_uniform_offset(index),
    {
        let fsz = self.uniform_indirect_buffer_frame_size();
        proof {
            assert(fsz * index <= u64::MAX) by (nonlinear_arith)
                requires fsz == self.spec_uniform_indirect_frame_size(),
                    self.spec_uniform_indirect_frame_size() * index <= u64::MAX;
        }
        fsz * index
    }

    /// Byte offset of frame `index`'s indirect-draw-command table, which
    /// follows the uniform block within the same frame region.
    pub fn indirect_offset(&self, index: u64) -> (r: u64)
        requires
            self.wf(),
            self.spec_indirect_offset(index) <= u64::MAX,
        ensures
            r == self.spec_indirect_offset(index),
    {
        proof {
            assert(self.spec_uniform_indirect_frame_size() * index >= 0) by (nonlinear_arith)
                requires self.spec_uniform_indirect_frame_size() >= 0;
        }
        let base = self.uniform_offset(index);
        base + self.uniform_size
    }

    /// Byte offset of frame `index`'s transform table.
    pub fn transforms_offset(&self, index: u64) -> (r: u64)
        requires
            self.wf(),
            self.spec_transform_size() >= 1,
            self.spec_transforms_offset(index) <= u64::MAX,
        ensures
            r == self.spec_transforms_offset(index),
    {
        let fsz = self.transform_buffer_frame_size();
        proof {
            assert(fsz * index <= u64::MAX) by (nonlinear_arith)
                requires fsz == self.spec_transform_frame_size(),
                    self.spec_transform_frame_size() * index <= u64::MAX;
        }
        fsz * index
    }

    /// First transform slot reserved for `mesh_index` within a frame's
    /// transform table.
    pub fn mesh_transforms_index(&self, mesh_index: usize) -> (r: usize)
        requires
            self.wf(),
            mesh_index <= self.spec_max_mesh_instances().len(),
        ensures
            r == self.spec_mesh_transforms_index(mesh_index as int),
    {
        let mut sum: usize = 0;
        let mut i: usize = 0;
        while i < mesh_index
            invariant
                i <= mesh_index <= self.max_mesh_instances@.len() <= 0x8000,
                sum == sum_instances(self.max_mesh_instances@.subrange(0, i as int)),
            decreases mesh_index - i,
        {
            proof {
                lemma_sum_instances_bounds(self.max_mesh_instances@.subrange(0, i as int));
                lemma_sum_instances_push(
                    self.max_mesh_instances@.subrange(0, i as int),
                    self.max_mesh_instances@[i as int],
                );
                assert(self.max_mesh_instances@.subrange(0, i as int).push(
                    self.max_mesh_instances@[i as int]) =~= self.max_mesh_instances@.subrange(0, i + 1));
                assert(i * 65535 <= 0x8000 * 65535) by (nonlinear_arith)
                    requires i <= 0x8000;
            }
            sum = sum + self.max_mesh_instances[i] as usize;
            i = i + 1;
        }
        sum
    }

    /// Transform slot of a given instance of a mesh: the mesh's base slot
    /// plus the instance's dense index.
    pub fn instance_transform_index(&self, mesh_index: usize, instance: u16) -> (r: usize)
        requires
            self.wf(),
            mesh_index < self.spec_max_mesh_instances().len(),
        ensures
            r == self.spec_mesh_transforms_index(mesh_index as int) + instance,
    {
        let base = self.mesh_transforms_index(mesh_index);
        proof {
            lemma_sum_instances_bounds(self.max_mesh_instances@.subrange(0, mesh_index as int));
            assert(mesh_index * 65535 <= 0x8000 * 65535) by (nonlinear_arith)
                requires mesh_index <= 0x8000;
        }
        base + instance as usize
    }

    /// Byte offset of a primitive's command within a frame's indirect table.
    pub fn primitive_indirect_offset(&self, prim_index: usize) -> (r: u64)
        requires
            self.wf(),
            prim_index <= self.spec_num_primitives(),
        ensures
            r == INDIRECT_COMMAND_SIZE * prim_index,
    {
        (prim_index as u64) * INDIRECT_COMMAND_SIZE
    }

    /// Reports a fatal mismatch when asked to address a configuration
    /// other than the one the buffers were built for; succeeds exactly on
    /// the configuration it was built from.
    pub fn check_matches(&self, other: &Settings) -> (r: Result<(), crate::Error>)
        ensures
            r is Ok <==> {
                &&& self.spec_align() == other.spec_align()
                &&& self.spec_uniform_size() == other.spec_uniform_size()
                &&& self.spec_num_primitives() == other.spec_num_primitives()
                &&& self.spec_max_mesh_instances() == other.spec_max_mesh_instances()
            },
    {
        if self.align == other.align
            && self.uniform_size == other.uniform_size
            && self.num_primitives == other.num_primitives
            && eq_u16_vecs(&self.max_mesh_instances, &other.max_mesh_instances) {
            Ok(())
        } else {
            Err(crate::Error::LayoutMismatch)
        }
    }
}

/// Element-wise equality of two capacity lists.
fn eq_u16_vecs(a: &Vec<u16>, b: &Vec<u16>) -> (r: bool)
    ensures
        r <==> a@ == b@,
{
    if a.len() != b.len() {
        proof {
            assert(a@.len() != b@.len());
        }
        return false;
    }
    let mut i: usize = 0;
    while i < a.len()
        invariant
            i <= a@.len() == b@.len(),
            forall|j: int| 0 <= j < i ==> a@[j] == b@[j],
        decreases a@.len() - i,
    {
        if a[i] != b[i] {
            return false;
        }
        i = i + 1;
    }
    proof {
        assert(a@ =~= b@);
    }
    true
}

/// For a nonnegative dividend and positive divisor, the quotient times the
/// divisor does not exceed the dividend.
proof fn lemma_div_quotient_bound(x: int, d: int)
    requires
        x >= 0,
        d >= 1,
    ensures
        0 <= x / d,
        (x / d) * d <= x,
{
    vstd::arithmetic::div_mod::lemma_div_pos_is_pos(x, d);
    vstd::arithmetic::div_mod::lemma_fundamental_div_mod(x, d);
    vstd::arithmetic::div_mod::lemma_mod_bound(x, d);
}

} // verus!
