//! Code generation plan: which entry points and which persistent slots each
//! node gets, and how a slot or an immediate supplies a node's power.

pub mod runtime;
pub mod semantics;

use crate::node::{Node, NodeId, NodeType};
use vstd::prelude::*;

verus! {

/// The lowering routine that produces the body of one entry point.
#[derive(Debug, Clone, Copy, PartialEq, Eq, Structural)]
pub enum GenFn {
    ComparatorUpdate,
    RepeaterUpdate,
    TorchUpdate,
    LampUpdate,
    ComparatorTick,
    RepeaterTick,
    TorchTick,
    LampTick,
    ButtonTick,
    PressurePlateTick,
    LeverUse,
    ButtonUse,
    PressurePlateUse,
}

pub open spec fn update_fn_of(ty: NodeType) -> Option<GenFn> {
    match ty {
        NodeType::Comparator(_) => Some(GenFn::ComparatorUpdate),
        NodeType::Repeater(_) => Some(GenFn::RepeaterUpdate),
        NodeType::Torch => Some(GenFn::TorchUpdate),
        NodeType::Lamp => Some(GenFn::LampUpdate),
        _ => None,
    }
}

pub open spec fn tick_fn_of(ty: NodeType) -> Option<GenFn> {
    match ty {
        NodeType::Comparator(_) => Some(GenFn::ComparatorTick),
        NodeType::Repeater(_) => Some(GenFn::RepeaterTick),
        NodeType::Torch => Some(GenFn::TorchTick),
        NodeType::Lamp => Some(GenFn::LampTick),
        NodeType::StoneButton => Some(GenFn::ButtonTick),
        NodeType::StonePressurePlate => Some(GenFn::PressurePlateTick),
        _ => None,
    }
}

pub open spec fn use_fn_of(ty: NodeType) -> Option<GenFn> {
    match ty {
        NodeType::Lever => Some(GenFn::LeverUse),
        NodeType::StoneButton => Some(GenFn::ButtonUse),
        NodeType::StonePressurePlate => Some(GenFn::PressurePlateUse),
        _ => None,
    }
}

/// Types with delayed effects: they get a tick entry point and a pending
/// tick flag.
pub open spec fn is_tick_capable(ty: NodeType) -> bool {
    tick_fn_of(ty).is_some()
}

/// Types whose power lives in a slot: all but constants (inlined) and wires
/// (folded into link weights).
pub open spec fn has_power_slot(ty: NodeType) -> bool {
    ty != NodeType::Constant && ty != NodeType::Wire
}

pub fn get_gen_update(ty: NodeType) -> (r: Option<GenFn>)
    ensures
        r == update_fn_of(ty),
{
    match ty {
        NodeType::Comparator(_) => Some(GenFn::ComparatorUpdate),
        NodeType::Repeater(_) => Some(GenFn::RepeaterUpdate),
        NodeType::Torch => Some(GenFn::TorchUpdate),
        NodeType::Lamp => Some(GenFn::LampUpdate),
        _ => None,
    }
}

pub fn get_gen_tick(ty: NodeType) -> (r: Option<GenFn>)
    ensures
        r == tick_fn_of(ty),
{
    match ty {
        NodeType::Comparator(_) => Some(GenFn::ComparatorTick),
        NodeType::Repeater(_) => Some(GenFn::RepeaterTick),
        NodeType::Torch => Some(GenFn::TorchTick),
        NodeType::Lamp => Some(GenFn::LampTick),
        NodeType::StoneButton => Some(GenFn::ButtonTick),
        NodeType::StonePressurePlate => Some(GenFn::PressurePlateTick),
        _ => None,
    }
}

pub fn get_gen_use(ty: NodeType) -> (r: Option<GenFn>)
    ensures
        r == use_fn_of(ty),
{
    match ty {
        NodeType::Lever => Some(GenFn::LeverUse),
        NodeType::StoneButton => Some(GenFn::ButtonUse),
        NodeType::StonePressurePlate => Some(GenFn::PressurePlateUse),
        _ => None,
    }
}

/// What is generated for one node.
#[derive(Debug, Clone, Copy, PartialEq, Eq, Structural)]
pub struct NodePlan {
    pub update_fn: Option<GenFn>,
    pub tick_fn: Option<GenFn>,
    pub use_fn: Option<GenFn>,
    pub pending_tick_slot: bool,
    pub output_power_slot: bool,
    pub locked_slot: bool,
}

pub open spec fn plan_of(ty: NodeType) -> NodePlan {
    NodePlan {
        update_fn: update_fn_of(ty),
        tick_fn: tick_fn_of(ty),
        use_fn: use_fn_of(ty),
        pending_tick_slot: is_tick_capable(ty),
        output_power_slot: has_power_slot(ty),
        locked_slot: ty is Repeater,
    }
}

/// Where generated code reads a node's power from.
#[derive(Debug, Clone, Copy, PartialEq, Eq, Structural)]
pub enum PowerSource {
    /// The node's own `output_power` slot.
    Slot(NodeId),
    /// A value fixed at compile time.
    Immediate(u8),
}

/// The code generation plan for a whole graph, one entry per node.
pub struct Codegen {
    pub plans: Vec<NodePlan>,
}

impl Codegen {
    /// The plan matches the node types of `nodes`, node by node.
    pub open spec fn plans_for(&self, nodes: Seq<Node>) -> bool {
        &&& self.plans@.len() == nodes.len()
        &&& forall|i: int| 0 <= i < nodes.len() ==> #[trigger] self.plans@[i] == plan_of(nodes[i].ty)
    }

    /// Declares every entry point and slot that `nodes` needs.
    pub fn gen(nodes: &[Node]) -> (c: Codegen)
        ensures
            c.plans_for(nodes@),
    {
        let mut plans: Vec<NodePlan> = Vec::new();
        let mut i: usize = 0;
        while i < nodes.len()
            invariant
                i <= nodes@.len(),
                plans@.len() == i,
                forall|j: int| 0 <= j < i ==> #[trigger] plans@[j] == plan_of(nodes@[j].ty),
            decreases nodes@.len() - i,
        {
            let ty = nodes[i].ty;
            let tick_fn = get_gen_tick(ty);
            let plan = NodePlan {
                update_fn: get_gen_update(ty),
                tick_fn,
                use_fn: get_gen_use(ty),
                pending_tick_slot: tick_fn.is_some(),
                output_power_slot: !matches!(ty, NodeType::Constant | NodeType::Wire),
                locked_slot: matches!(ty, NodeType::Repeater(_)),
            };
            plans.push(plan);
            i += 1;
        }
        Codegen { plans }
    }

    /// How generated code reads the power of node `n`: from its slot, or as
    /// an immediate for a constant. A wire has neither.
    pub fn get_output_power(&self, nodes: &[Node], n: NodeId) -> (r: Option<PowerSource>)
        requires
            self.plans_for(nodes@),
            n < nodes@.len(),
        ensures
            r == (if nodes@[n as int].ty == NodeType::Constant {
                Some(PowerSource::Immediate(nodes@[n as int].output_power))
            } else if has_power_slot(nodes@[n as int].ty) {
                Some(PowerSource::Slot(n))
            } else {
                None
            }),
    {
        if nodes[n].ty == NodeType::Constant {
            Some(PowerSource::Immediate(nodes[n].output_power))
        } else if self.plans[n].output_power_slot {
            Some(PowerSource::Slot(n))
        } else {
            None
        }
    }

    /// The `locked` slot of node `n`, which only repeaters have.
    pub fn get_locked(&self, n: NodeId) -> (r: Option<NodeId>)
        requires
            n < self.plans@.len(),
        ensures
            r == (if self.plans@[n as int].locked_slot {
                Some(n)
            } else {
                None
            }),
    {
        if self.plans[n].locked_slot {
            Some(n)
        } else {
            None
        }
    }

    /// Whether node `n` has a pending tick flag.
    pub fn pending_tick_at(&self, n: NodeId) -> (r: bool)
        requires
            n < self.plans@.len(),
        ensures
            r == self.plans@[n as int].pending_tick_slot,
    {
        self.plans[n].pending_tick_slot
    }

    /// Whether a change of power is propagated to node `n` by a call of its
    /// update entry point.
    pub fn call_update(&self, n: NodeId) -> (r: bool)
        requires
            n < self.plans@.len(),
        ensures
            r == self.plans@[n as int].update_fn.is_some(),
    {
        self.plans[n].update_fn.is_some()
    }
}

/// Every node of a tick-capable type gets exactly one tick entry point and
/// one pending tick flag; every other node gets neither.
pub proof fn tick_slots_match_tick_fns(nodes: Seq<Node>, c: Codegen, i: int)
    requires
        c.plans_for(nodes),
        0 <= i < nodes.len(),
    ensures
        c.plans@[i].tick_fn.is_some() <==> is_tick_capable(nodes[i].ty),
        c.plans@[i].pending_tick_slot <==> is_tick_capable(nodes[i].ty),
{
}

/// A graph of constants only gets no update and no tick entry point.
pub proof fn constant_graph_generates_nothing(nodes: Seq<Node>, c: Codegen)
    requires
        c.plans_for(nodes),
        forall|i: int| 0 <= i < nodes.len() ==> (#[trigger] nodes[i]).ty == NodeType::Constant,
    ensures
        forall|i: int|
            0 <= i < nodes.len() ==> (#[trigger] c.plans@[i]).update_fn.is_none()
                && c.plans@[i].tick_fn.is_none() && c.plans@[i].use_fn.is_none(),
{
    assert forall|i: int| 0 <= i < nodes.len() implies (#[trigger] c.plans@[i]).update_fn.is_none()
        && c.plans@[i].tick_fn.is_none() && c.plans@[i].use_fn.is_none() by {
        assert(nodes[i].ty == NodeType::Constant);
    }
}

} // verus!
