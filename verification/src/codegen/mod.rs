//! Lowering of surfaces into procedures.
//!
//! A surface compiles into three procedures, one for each part of its life.
//! Each takes two blocks of memory, `scratch` and `pointers`, and deals with
//! the nodes of the surface in their order. The procedures are written down
//! as streams of instructions for a builder to carry out.

pub mod block;
pub mod builder_context;
pub mod instruction;
pub mod layout;
pub mod machine;
pub mod module;
pub mod names;
pub mod procedure;
pub mod surface;
pub mod target_properties;
pub mod voices;

pub use self::builder_context::BuilderContext;
pub use self::instruction::{BlockRef, FunctionRef, Instruction, ValueRef};
pub use self::layout::{BlockLayout, SurfaceLayout};
pub use self::module::{Function, FunctionView, Linkage, Module};
pub use self::target_properties::{all_slots, TargetProperties, BITMAP_BITS};

use vstd::prelude::*;

verus! {

/// The three parts of the life of a surface or a block.
#[derive(Debug, PartialEq, Eq, Clone, Copy, Structural)]
pub enum LifecycleFunc {
    Construct,
    Update,
    Destruct,
}

impl LifecycleFunc {
    /// Only an update looks at which voices are live, and says which have
    /// run.
    pub fn is_update(&self) -> (r: bool)
        ensures
            r == (*self == LifecycleFunc::Update),
    {
        match self {
            LifecycleFunc::Update => true,
            _ => false,
        }
    }

    /// The word for it in the names of procedures.
    pub open spec fn text(self) -> Seq<char> {
        match self {
            LifecycleFunc::Construct => "construct"@,
            LifecycleFunc::Update => "update"@,
            LifecycleFunc::Destruct => "destruct"@,
        }
    }

    /// The word for it in the names of procedures.
    pub fn name(&self) -> (r: &'static str)
        ensures
            r@ == self.text(),
    {
        match self {
            LifecycleFunc::Construct => "construct",
            LifecycleFunc::Update => "update",
            LifecycleFunc::Destruct => "destruct",
        }
    }
}

/// Why a surface could not be lowered. Each of these says that the surface
/// does not belong to the compilation it was handed in with.
#[derive(Debug, PartialEq, Eq, Clone, Copy, Structural)]
pub enum CodegenError {
    /// A node instantiates a surface that the compilation does not have.
    UndefinedSurface { id: u64 },
    /// A node is compiled from a block that the compilation does not have.
    UndefinedBlock { id: u64 },
    /// The layout has no place for the node of that index.
    LayoutMiss { node: usize },
    /// The node of that index names a socket that it does not have.
    SocketOutOfRange { node: usize, socket: usize },
    /// More voices are asked for than a bitmap has bits.
    CapacityTooLarge { capacity: u32 },
}

} // verus!
