//! Where the nodes of a surface keep their memory.

use vstd::prelude::*;

verus! {

/// The fields that the nodes of one surface have in the two blocks of memory
/// of the surface: node `n` has the field `node_scratch_indices[n]` of the
/// scratch block and the field `node_pointer_indices[n]` of the pointer block.
#[derive(Debug, PartialEq, Eq)]
pub struct SurfaceLayout {
    pub node_scratch_indices: Vec<u32>,
    pub node_pointer_indices: Vec<u32>,
}

impl SurfaceLayout {
    pub fn new(node_scratch_indices: Vec<u32>, node_pointer_indices: Vec<u32>) -> (r: Self)
        ensures
            r.node_scratch_indices == node_scratch_indices,
            r.node_pointer_indices == node_pointer_indices,
    {
        SurfaceLayout { node_scratch_indices, node_pointer_indices }
    }

    /// Whether the layout has a place for the node of that index.
    pub open spec fn covers(&self, node: int) -> bool {
        0 <= node < self.node_scratch_indices.len() && node < self.node_pointer_indices.len()
    }

    /// The field of the node in the scratch block.
    pub fn node_scratch_index(&self, node: usize) -> (r: Option<u32>)
        ensures
            r == if node < self.node_scratch_indices.len() {
                Some(self.node_scratch_indices[node as int])
            } else {
                None
            },
    {
        if node < self.node_scratch_indices.len() {
            Some(self.node_scratch_indices[node])
        } else {
            None
        }
    }

    /// The field of the node in the pointer block.
    pub fn node_ptr_index(&self, node: usize) -> (r: Option<u32>)
        ensures
            r == if node < self.node_pointer_indices.len() {
                Some(self.node_pointer_indices[node as int])
            } else {
                None
            },
    {
        if node < self.node_pointer_indices.len() {
            Some(self.node_pointer_indices[node])
        } else {
            None
        }
    }
}

/// The fields that the controls of one block have in the pointer block of
/// the block.
#[derive(Debug, PartialEq, Eq)]
pub struct BlockLayout {
    pub control_indices: Vec<u32>,
}

impl BlockLayout {
    pub fn new(control_indices: Vec<u32>) -> (r: Self)
        ensures
            r.control_indices == control_indices,
    {
        BlockLayout { control_indices }
    }

    /// The field of the control in the pointer block.
    pub fn control_index(&self, control: usize) -> (r: Option<u32>)
        ensures
            r == if control < self.control_indices.len() {
                Some(self.control_indices[control as int])
            } else {
                None
            },
    {
        if control < self.control_indices.len() {
            Some(self.control_indices[control])
        } else {
            None
        }
    }
}

} // verus!
