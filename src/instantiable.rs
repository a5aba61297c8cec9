//! Index bookkeeping for an instantiable model: where each mesh finds its
//! transformation matrix and its bone matrices.

use vstd::prelude::*;

verus! {

/// For one mesh of an instantiable: the index of its mesh matrix, and the
/// range of bone matrices it needs ((0,0) if none)
pub struct MeshIndexData {
    /// Index to the mesh matrices of the first mesh for the BoneSet
    pub mesh_matrix_index: usize,
    /// Pair of usize
    pub bone_matrices: (usize, usize),
}

impl MeshIndexData {
    /// Create the index data of a mesh
    pub fn new(mesh_matrix_index: usize, bone_matrices: (usize, usize)) -> (r: Self)
        ensures
            r.mesh_matrix_index == mesh_matrix_index,
            r.bone_matrices == bone_matrices,
    {
        Self { mesh_matrix_index, bone_matrices }
    }
}

} // verus!
