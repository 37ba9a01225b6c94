//! The graph model: surfaces made of nodes, sockets and value groups.

pub mod context;
pub mod graph;
pub mod ids;
pub mod types;

pub use self::context::{Block, MIRContext, MIRContextView};
pub use self::graph::{
    Node, NodeData, NodeDataView, NodeView, Surface, SurfaceView, ValueGroup, ValueGroupSource,
    ValueGroupView, ValueSocket,
};
pub use self::ids::{BlockId, BlockIdView, IdAllocator, SurfaceId, SurfaceIdView};
pub use self::types::{VarType, VarTypeView};
