//! Everything a compilation knows of: the surfaces and the blocks.

use super::graph::{Surface, SurfaceView};
use super::ids::{BlockId, BlockIdView, SurfaceId};
use vstd::prelude::*;

verus! {

/// A leaf computation. What it computes is the business of the block
/// compiler; here it has a name only.
#[derive(Debug, PartialEq, Eq)]
pub struct Block {
    pub id: BlockId,
}

impl View for Block {
    type V = BlockIdView;

    open spec fn view(&self) -> BlockIdView {
        self.id@
    }
}

/// What an `MIRContext` is, as plain values.
pub struct MIRContextView {
    pub surfaces: Seq<SurfaceView>,
    pub blocks: Seq<BlockIdView>,
}

/// The surfaces and blocks of one compilation, found by their identities.
#[derive(Debug, PartialEq, Eq)]
pub struct MIRContext {
    pub surfaces: Vec<Surface>,
    pub blocks: Vec<Block>,
}

impl View for MIRContext {
    type V = MIRContextView;

    open spec fn view(&self) -> MIRContextView {
        MIRContextView {
            surfaces: self.surfaces@.map_values(|s: Surface| s@),
            blocks: self.blocks@.map_values(|b: Block| b@),
        }
    }
}

impl MIRContextView {
    /// Whether a surface has the identity `id`.
    pub open spec fn has_surface(self, id: u64) -> bool {
        exists|i: int| self.is_surface_position(id, i)
    }

    /// Whether a block has the identity `id`.
    pub open spec fn has_block(self, id: u64) -> bool {
        exists|i: int| self.is_block_position(id, i)
    }

    /// Surface `i` is the first one with the identity `id`.
    pub open spec fn is_surface_position(self, id: u64, i: int) -> bool {
        &&& 0 <= i < self.surfaces.len()
        &&& self.surfaces[i].id.id == id
        &&& forall|j: int| 0 <= j < i ==> (#[trigger] self.surfaces[j]).id.id != id
    }

    /// Block `i` is the first one with the identity `id`.
    pub open spec fn is_block_position(self, id: u64, i: int) -> bool {
        &&& 0 <= i < self.blocks.len()
        &&& self.blocks[i].id == id
        &&& forall|j: int| 0 <= j < i ==> (#[trigger] self.blocks[j]).id != id
    }

    /// The first surface with the identity `id`.
    pub open spec fn surface(self, id: u64) -> SurfaceView {
        self.surfaces[choose|i: int| self.is_surface_position(id, i)]
    }

    /// The first block with the identity `id`.
    pub open spec fn block(self, id: u64) -> BlockIdView {
        self.blocks[choose|i: int| self.is_block_position(id, i)]
    }
}

impl MIRContext {
    pub fn new(surfaces: Vec<Surface>, blocks: Vec<Block>) -> (r: Self)
        ensures
            r.surfaces == surfaces,
            r.blocks == blocks,
    {
        MIRContext { surfaces, blocks }
    }

    /// The first surface with that identity.
    pub fn surface(&self, id: &SurfaceId) -> (r: Option<&Surface>)
        ensures
            match r {
                Some(surface) => self@.has_surface(id.id) && surface@ == self@.surface(id.id),
                None => !self@.has_surface(id.id),
            },
    {
        let mut index: usize = 0;
        while index < self.surfaces.len()
            invariant
                index <= self.surfaces.len(),
                forall|j: int| 0 <= j < index ==> (#[trigger] self@.surfaces[j]).id.id != id.id,
            decreases self.surfaces.len() - index,
        {
            if self.surfaces[index].id.id == id.id {
                proof {
                    assert(self@.surfaces[index as int] == self.surfaces[index as int]@);
                    assert(self@.is_surface_position(id.id, index as int));
                    let chosen = choose|i: int| self@.is_surface_position(id.id, i);
                    assert(chosen == index);
                }
                return Some(&self.surfaces[index]);
            }
            assert(self@.surfaces[index as int] == self.surfaces[index as int]@);
            index += 1;
        }
        None
    }

    /// The first block with that identity.
    pub fn block(&self, id: &BlockId) -> (r: Option<&Block>)
        ensures
            match r {
                Some(block) => self@.has_block(id.id) && block@ == self@.block(id.id),
                None => !self@.has_block(id.id),
            },
    {
        let mut index: usize = 0;
        while index < self.blocks.len()
            invariant
                index <= self.blocks.len(),
                forall|j: int| 0 <= j < index ==> (#[trigger] self@.blocks[j]).id != id.id,
            decreases self.blocks.len() - index,
        {
            if self.blocks[index].id.id == id.id {
                proof {
                    assert(self@.blocks[index as int] == self.blocks[index as int]@);
                    assert(self@.is_block_position(id.id, index as int));
                    let chosen = choose|i: int| self@.is_block_position(id.id, i);
                    assert(chosen == index);
                }
                return Some(&self.blocks[index]);
            }
            assert(self@.blocks[index as int] == self.blocks[index as int]@);
            index += 1;
        }
        None
    }
}

} // verus!
