//! Scene asset descriptions, as the loader hands them over.
//!
//! A mesh definition is immutable after load: an ordered list of
//! primitive handles and a fixed maximum instance capacity.  Each
//! primitive is bound to one material and carries the index count of its
//! vertex data.  Raw source-file buffers are held as plain byte vectors.
use vstd::prelude::*;

verus! {

pub type MeshHandle = usize;

pub type PrimitiveHandle = usize;

pub type MaterialHandle = usize;

/// One primitive of a mesh: its owning mesh, its material binding and
/// the number of indices of its vertex data.
pub struct Primitive {
    pub mesh_handle: MeshHandle,
    pub mat: MaterialHandle,
    pub index_count: u32,
}

pub struct PrimitiveStorage(pub Vec<Primitive>);

/// A mesh definition: its primitives and its fixed instance capacity.
pub struct Mesh {
    pub primitives: Vec<PrimitiveHandle>,
    pub max_instances: u16,
}

pub struct MeshStorage(pub Vec<Mesh>);

/// The raw byte buffers of one source file, in declaration order.
pub struct GltfBuffers(pub Vec<Vec<u8>>);

impl GltfBuffers {
    /// The contents of a loaded buffer, if the index names one.
    pub fn buffer(&self, index: usize) -> (r: Option<&Vec<u8>>)
        ensures
            match r {
                Some(b) => index < self.0@.len() && b@ == self.0@[index as int]@,
                None => index >= self.0@.len(),
            },
    {
        if index < self.0.len() {
            Some(&self.0[index])
        } else {
            None
        }
    }

    /// The contents of a buffer view: `length` bytes of the buffer at
    /// `buffer_index` starting at byte `offset`.
    pub fn view(&self, buffer_index: usize, offset: usize, length: usize) -> (r: Option<Vec<u8>>)
        requires
            buffer_index < self.0@.len()
                ==> offset + length <= self.0@[buffer_index as int]@.len(),
        ensures
            match r {
                Some(bytes) => {
                    &&& buffer_index < self.0@.len()
                    &&& bytes@ == self.0@[buffer_index as int]@.subrange(
                        offset as int,
                        offset + length,
                    )
                },
                None => buffer_index >= self.0@.len(),
            },
    {
        if buffer_index >= self.0.len() {
            return None;
        }
        let data = &self.0[buffer_index];
        let dlen: usize = data.len();
        let mut out: Vec<u8> = Vec::new();
        let mut i: usize = 0;
        while i < length
            invariant
                i <= length,
                buffer_index < self.0@.len(),
                data@ == self.0@[buffer_index as int]@,
                offset + length <= dlen == data@.len(),
                out@.len() == i,
                forall|j: int| 0 <= j < i ==> out@[j] == data@[offset + j],
            decreases length - i,
        {
            out.push(data[offset + i]);
            i = i + 1;
        }
        proof {
            assert(out@ =~= self.0@[buffer_index as int]@.subrange(offset as int, offset + length));
        }
        Some(out)
    }
}

} // verus!
