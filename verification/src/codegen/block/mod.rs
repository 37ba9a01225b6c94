//! What the code of a block is built with.

pub mod block_context;

pub use self::block_context::{BlockContext, ControlPointers};
