//! Scene-description bookkeeping.
//!
//! A scene is loaded from several source files, each contributing a run
//! of meshes, materials and nodes; handles in the combined storages are
//! the per-file index plus the file's base offset.  The loader itself is
//! an external collaborator; this module computes the offsets, resolves
//! handles, and checks the one-active-camera rule.
use vstd::prelude::*;

verus! {

/// An index of a source file within the scene's file list.
pub type GltfFileIndex = usize;

/// The index of an entity in the scene description's entity list.
pub type SceneEntityIndex = usize;

/// A node of one source file, picked by index or by name.
#[derive(Debug, Clone, PartialEq, Eq)]
pub enum GltfNode {
    Index(GltfFileIndex, usize),
    Name(GltfFileIndex, String),
}

/// A mesh of one source file, picked by index or by name.
#[derive(Debug, Clone, PartialEq, Eq)]
pub enum GltfMesh {
    Index(GltfFileIndex, usize),
    Name(GltfFileIndex, String),
}

impl GltfNode {
    /// The source file the node reference points into.
    pub fn source_index(&self) -> (r: GltfFileIndex)
        ensures
            r == match self {
                GltfNode::Index(src, _) => *src,
                GltfNode::Name(src, _) => *src,
            },
    {
        match self {
            GltfNode::Index(src, _) => *src,
            GltfNode::Name(src, _) => *src,
        }
    }
}

/// Where an entity's transform comes from: a node of a source file, or
/// spelled out in the scene description itself.
#[derive(Debug, Clone)]
pub enum TransformSource {
    Gltf(GltfNode),
    Manual(crate::transform::Transform),
}

/// Where an entity's mesh comes from: a node with an attached mesh, or
/// a mesh picked directly.
#[derive(Debug, Clone)]
pub enum MeshSource {
    Node(GltfNode),
    Mesh(GltfMesh),
}

impl MeshSource {
    /// The source file the mesh reference points into.
    pub fn source_index(&self) -> (r: GltfFileIndex)
        ensures
            r == match self {
                MeshSource::Node(GltfNode::Index(src, _)) => *src,
                MeshSource::Node(GltfNode::Name(src, _)) => *src,
                MeshSource::Mesh(GltfMesh::Index(src, _)) => *src,
                MeshSource::Mesh(GltfMesh::Name(src, _)) => *src,
            },
    {
        match self {
            MeshSource::Node(GltfNode::Index(src, _)) => *src,
            MeshSource::Node(GltfNode::Name(src, _)) => *src,
            MeshSource::Mesh(GltfMesh::Index(src, _)) => *src,
            MeshSource::Mesh(GltfMesh::Name(src, _)) => *src,
        }
    }
}

/// How many meshes, materials and nodes one source file contributes.
#[derive(Debug, Clone, Copy, PartialEq, Eq, Structural)]
pub struct FileCounts {
    pub meshes: usize,
    pub materials: usize,
    pub nodes: usize,
}

/// The base offsets of one source file's contributions within the
/// combined storages.
#[derive(Debug, Clone, Copy, PartialEq, Eq, Structural)]
pub struct FileOffsets {
    pub meshes: usize,
    pub materials: usize,
    pub nodes: usize,
}

/// The sum of mesh counts of the first `k` files.
pub open spec fn mesh_prefix(counts: Seq<FileCounts>, k: int) -> int
    decreases k,
{
    if k <= 0 {
        0
    } else {
        mesh_prefix(counts, k - 1) + counts[k - 1].meshes
    }
}

/// The sum of material counts of the first `k` files.
pub open spec fn material_prefix(counts: Seq<FileCounts>, k: int) -> int
    decreases k,
{
    if k <= 0 {
        0
    } else {
        material_prefix(counts, k - 1) + counts[k - 1].materials
    }
}

/// The sum of node counts of the first `k` files.
pub open spec fn node_prefix(counts: Seq<FileCounts>, k: int) -> int
    decreases k,
{
    if k <= 0 {
        0
    } else {
        node_prefix(counts, k - 1) + counts[k - 1].nodes
    }
}

/// Computes each file's base offsets: the sums of the counts of all
/// earlier files.
pub fn file_offsets(counts: &Vec<FileCounts>) -> (r: Vec<FileOffsets>)
    requires
        mesh_prefix(counts@, counts@.len() as int) <= usize::MAX,
        material_prefix(counts@, counts@.len() as int) <= usize::MAX,
        node_prefix(counts@, counts@.len() as int) <= usize::MAX,
        forall|k: int|
            0 <= k <= counts@.len() ==> #[trigger] mesh_prefix(counts@, k) <= mesh_prefix(
                counts@,
                counts@.len() as int,
            ) && material_prefix(counts@, k) <= material_prefix(counts@, counts@.len() as int)
                && node_prefix(counts@, k) <= node_prefix(counts@, counts@.len() as int),
    ensures
        r@.len() == counts@.len(),
        forall|k: int|
            0 <= k < counts@.len() ==> {
                &&& (#[trigger] r@[k]).meshes == mesh_prefix(counts@, k)
                &&& r@[k].materials == material_prefix(counts@, k)
                &&& r@[k].nodes == node_prefix(counts@, k)
            },
{
    let mut out: Vec<FileOffsets> = Vec::new();
    let mut meshes: usize = 0;
    let mut materials: usize = 0;
    let mut nodes: usize = 0;
    let mut k: usize = 0;
    while k < counts.len()
        invariant
            k <= counts@.len(),
            out@.len() == k,
            meshes == mesh_prefix(counts@, k as int),
            materials == material_prefix(counts@, k as int),
            nodes == node_prefix(counts@, k as int),
            mesh_prefix(counts@, counts@.len() as int) <= usize::MAX,
            material_prefix(counts@, counts@.len() as int) <= usize::MAX,
            node_prefix(counts@, counts@.len() as int) <= usize::MAX,
            forall|k2: int|
                0 <= k2 <= counts@.len() ==> #[trigger] mesh_prefix(counts@, k2) <= mesh_prefix(
                    counts@,
                    counts@.len() as int,
                ) && material_prefix(counts@, k2) <= material_prefix(counts@, counts@.len() as int)
                    && node_prefix(counts@, k2) <= node_prefix(counts@, counts@.len() as int),
            forall|k2: int|
                0 <= k2 < k ==> {
                    &&& (#[trigger] out@[k2]).meshes == mesh_prefix(counts@, k2)
                    &&& out@[k2].materials == material_prefix(counts@, k2)
                    &&& out@[k2].nodes == node_prefix(counts@, k2)
                },
        decreases counts@.len() - k,
    {
        out.push(FileOffsets { meshes, materials, nodes });
        proof {
            lemma_prefix_nonneg(counts@, k as int);
            assert(mesh_prefix(counts@, k + 1) == mesh_prefix(counts@, k as int)
                + counts@[k as int].meshes);
            assert(mesh_prefix(counts@, k + 1) <= mesh_prefix(counts@, counts@.len() as int));
        }
        meshes = meshes + counts[k].meshes;
        materials = materials + counts[k].materials;
        nodes = nodes + counts[k].nodes;
        k = k + 1;
    }
    out
}

/// Prefix sums of counts never go negative.
proof fn lemma_prefix_nonneg(counts: Seq<FileCounts>, k: int)
    ensures
        mesh_prefix(counts, k) >= 0,
        material_prefix(counts, k) >= 0,
        node_prefix(counts, k) >= 0,
    decreases k,
{
    if k > 0 {
        lemma_prefix_nonneg(counts, k - 1);
    }
}

/// Resolves a per-file mesh index to its handle in the combined mesh
/// storage; a source index past the file list is reported, as the scene
/// description referenced a file that was never loaded.
pub fn resolve_mesh_handle(offsets: &Vec<FileOffsets>, src: GltfFileIndex, local_index: usize)
    -> (r: Option<crate::asset::MeshHandle>)
    requires
        forall|k: int| 0 <= k < offsets@.len() ==> (#[trigger] offsets@[k]).meshes + usize::MAX
            >= 0,
    ensures
        match r {
            Some(h) => src < offsets@.len() && h == offsets@[src as int].meshes + local_index,
            None => src >= offsets@.len() || offsets@[src as int].meshes + local_index
                > usize::MAX,
        },
{
    if src >= offsets.len() {
        return None;
    }
    let base = offsets[src].meshes;
    if local_index <= usize::MAX - base {
        Some(base + local_index)
    } else {
        None
    }
}

/// At most one scene entity may be the active camera.
pub fn single_active_camera(flags: &Vec<bool>) -> (r: bool)
    ensures
        r <==> (forall|i: int, j: int|
            0 <= i < j < flags@.len() ==> !(#[trigger] flags@[i] && #[trigger] flags@[j])),
{
    let mut seen_active: bool = false;
    let mut k: usize = 0;
    while k < flags.len()
        invariant
            k <= flags@.len(),
            seen_active <==> exists|i: int| 0 <= i < k && flags@[i],
            forall|i: int, j: int| 0 <= i < j < k ==> !(#[trigger] flags@[i] && #[trigger] flags@[j]),
        decreases flags@.len() - k,
    {
        if flags[k] {
            if seen_active {
                proof {
                    let i = choose|i: int| 0 <= i < k && flags@[i];
                    assert(flags@[i] && flags@[k as int]);
                }
                return false;
            }
            seen_active = true;
        }
        k = k + 1;
    }
    true
}

} // verus!
