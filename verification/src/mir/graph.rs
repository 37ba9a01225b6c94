//! Surfaces, nodes, sockets and value groups.

use super::ids::{BlockId, BlockIdView, SurfaceId, SurfaceIdView};
use super::types::{VarType, VarTypeView};
use vstd::prelude::*;

verus! {

/// A connection point of a node, bound to the value group `group_id`.
#[derive(Debug, PartialEq, Eq, Clone, Copy, Structural)]
pub struct ValueSocket {
    pub group_id: usize,
    pub value_written: bool,
    pub value_read: bool,
    pub is_extractor: bool,
}

impl ValueSocket {
    pub fn new(group_id: usize, value_written: bool, value_read: bool, is_extractor: bool) -> (r:
        Self)
        ensures
            r == (ValueSocket { group_id, value_written, value_read, is_extractor }),
    {
        ValueSocket { group_id, value_written, value_read, is_extractor }
    }
}

/// Where the value of a group comes from.
#[derive(Debug, PartialEq, Eq, Clone, Copy, Structural)]
pub enum ValueGroupSource {
    /// The surface itself produces it.
    Internal,
    /// It is forwarded through the socket of that index on the node that
    /// instantiates the surface.
    Socket(usize),
}

/// What a `ValueGroup` is, as plain values.
pub struct ValueGroupView {
    pub value_type: VarTypeView,
    pub source: ValueGroupSource,
}

/// One logical value slot, shared by every socket bound to it.
#[derive(Debug, PartialEq, Eq)]
pub struct ValueGroup {
    pub value_type: VarType,
    pub source: ValueGroupSource,
}

impl View for ValueGroup {
    type V = ValueGroupView;

    open spec fn view(&self) -> ValueGroupView {
        ValueGroupView { value_type: self.value_type@, source: self.source }
    }
}

impl Clone for ValueGroup {
    fn clone(&self) -> (r: Self)
        ensures
            r@ == self@,
    {
        ValueGroup { value_type: self.value_type.clone(), source: self.source }
    }
}

impl ValueGroup {
    pub fn new(value_type: VarType, source: ValueGroupSource) -> (r: Self)
        ensures
            r@ == (ValueGroupView { value_type: value_type@, source }),
    {
        ValueGroup { value_type, source }
    }
}

/// What a `NodeData` is, as plain values.
pub enum NodeDataView {
    Custom(BlockIdView),
    Group(SurfaceIdView),
    ExtractGroup { surface: SurfaceIdView, source_sockets: Seq<usize>, dest_sockets: Seq<usize> },
}

/// What a node computes.
#[derive(Debug, PartialEq, Eq)]
pub enum NodeData {
    /// A leaf computation, compiled from the block of that identity.
    Custom(BlockId),
    /// A nested surface with exactly one instance.
    Group(SurfaceId),
    /// A nested surface with one instance per voice. `source_sockets` and
    /// `dest_sockets` index the node's own sockets: the arrays bound to the
    /// first say which voices are live, the arrays bound to the second are
    /// told.
    ExtractGroup { surface: SurfaceId, source_sockets: Vec<usize>, dest_sockets: Vec<usize> },
}

impl View for NodeData {
    type V = NodeDataView;

    open spec fn view(&self) -> NodeDataView {
        match self {
            NodeData::Custom(block) => NodeDataView::Custom(block@),
            NodeData::Group(surface) => NodeDataView::Group(surface@),
            NodeData::ExtractGroup { surface, source_sockets, dest_sockets } => {
                NodeDataView::ExtractGroup {
                    surface: surface@,
                    source_sockets: source_sockets@,
                    dest_sockets: dest_sockets@,
                }
            },
        }
    }
}

/// What a `Node` is, as plain values.
pub struct NodeView {
    pub sockets: Seq<ValueSocket>,
    pub data: NodeDataView,
}

/// A vertex of a surface: its sockets, in wiring order, and what it computes.
#[derive(Debug, PartialEq, Eq)]
pub struct Node {
    pub sockets: Vec<ValueSocket>,
    pub data: NodeData,
}

impl View for Node {
    type V = NodeView;

    open spec fn view(&self) -> NodeView {
        NodeView { sockets: self.sockets@, data: self.data@ }
    }
}

impl Node {
    pub fn new(sockets: Vec<ValueSocket>, data: NodeData) -> (r: Self)
        ensures
            r@ == (NodeView { sockets: sockets@, data: data@ }),
    {
        Node { sockets, data }
    }
}

/// What a `Surface` is, as plain values.
pub struct SurfaceView {
    pub id: SurfaceIdView,
    pub groups: Seq<ValueGroupView>,
    pub nodes: Seq<NodeView>,
}

/// A named graph of nodes over value groups. Sockets name groups by their
/// index in `groups`; the order of both lists is how everything else
/// addresses them.
#[derive(Debug, PartialEq, Eq)]
pub struct Surface {
    pub id: SurfaceId,
    pub groups: Vec<ValueGroup>,
    pub nodes: Vec<Node>,
}

impl View for Surface {
    type V = SurfaceView;

    open spec fn view(&self) -> SurfaceView {
        SurfaceView {
            id: self.id@,
            groups: self.groups@.map_values(|g: ValueGroup| g@),
            nodes: self.nodes@.map_values(|n: Node| n@),
        }
    }
}

impl Surface {
    pub fn new(id: SurfaceId, groups: Vec<ValueGroup>, nodes: Vec<Node>) -> (r: Self)
        ensures
            r@.id == id@,
            r@.groups == groups@.map_values(|g: ValueGroup| g@),
            r@.nodes == nodes@.map_values(|n: Node| n@),
    {
        Surface { id, groups, nodes }
    }
}

impl SurfaceView {
    /// Whether socket `k` of node `n` exists.
    pub open spec fn has_socket(self, n: int, k: int) -> bool {
        0 <= n < self.nodes.len() && 0 <= k < self.nodes[n].sockets.len()
    }

    /// Every socket names a group the surface has.
    pub open spec fn well_formed(self) -> bool {
        forall|n: int, k: int| #[trigger]
            self.has_socket(n, k) ==> self.nodes[n].sockets[k].group_id < self.groups.len()
    }
}

} // verus!
