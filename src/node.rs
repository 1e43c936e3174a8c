//! The node graph: one dense array of nodes, linked by index.

use vstd::prelude::*;

verus! {

/// Index of a node in the backing array.
pub type NodeId = usize;

#[derive(Debug, Clone, Copy, PartialEq, Eq, Structural)]
pub enum ComparatorMode {
    Compare,
    Subtract,
}

#[derive(Debug, Clone, Copy, PartialEq, Eq, Structural)]
pub enum NodeType {
    Repeater(u8),
    Comparator(ComparatorMode),
    Torch,
    StoneButton,
    StonePressurePlate,
    Lamp,
    Lever,
    Constant,
    Wire,
}

#[derive(Debug, Clone, Copy, PartialEq, Eq, Structural)]
pub enum LinkType {
    Default,
    Side,
}

/// An input edge: the node `to` feeds the node that holds this link.
#[derive(Debug, Clone, Copy, PartialEq, Eq, Structural)]
pub struct Link {
    pub ty: LinkType,
    pub weight: u8,
    pub to: NodeId,
}

#[derive(Debug, Clone, Copy, PartialEq, Eq, Structural)]
pub struct BlockPos {
    pub x: i32,
    pub y: i32,
    pub z: i32,
}

#[derive(Debug)]
pub struct Node {
    pub ty: NodeType,
    pub inputs: Vec<Link>,
    pub updates: Vec<NodeId>,
    pub facing_diode: bool,
    pub comparator_far_input: Option<u8>,
    pub output_power: u8,
    /// Comparator powered / Repeater locked
    pub diode_state: bool,
    pub pos: BlockPos,
}

/// Sources whose value is changed from outside the circuit.
pub open spec fn is_external_source(ty: NodeType) -> bool {
    ty == NodeType::Lever || ty == NodeType::StoneButton || ty == NodeType::StonePressurePlate
}

/// Every link and every dependent names a node of the array.
pub open spec fn well_indexed(nodes: Seq<Node>) -> bool {
    &&& forall|i: int, k: int|
        0 <= i < nodes.len() && 0 <= k < nodes[i].inputs@.len() ==> nodes[i].inputs@[k].to
            < nodes.len()
    &&& forall|i: int, u: NodeId|
        0 <= i < nodes.len() && #[trigger] nodes[i].updates@.contains(u) ==> u < nodes.len()
}

/// Node `x` has an input link whose source is `y`.
pub open spec fn has_input_from(x: Node, y: NodeId) -> bool {
    exists|k: int| 0 <= k < x.inputs@.len() && #[trigger] x.inputs@[k].to == y
}

/// The forward and backward edges agree: `x` lists `y` as an input source
/// exactly when `y` lists `x` as a dependent.
pub open spec fn consistent(nodes: Seq<Node>) -> bool {
    forall|x: int, y: int|
        0 <= x < nodes.len() && 0 <= y < nodes.len() ==> (#[trigger] has_input_from(nodes[x], y as NodeId)
            <==> #[trigger] nodes[y].updates@.contains(x as NodeId))
}

} // verus!
