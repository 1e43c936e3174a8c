//! The scheduling contract that generated code relies on: a context object
//! that collects the ticks requested by nodes.

use crate::node::NodeId;
use vstd::prelude::*;

verus! {

/// Ordering tiers for ticks that fall due on the same simulated tick, from
/// first to last.
#[derive(Debug, Clone, Copy, PartialEq, Eq, Structural)]
pub enum TickPriority {
    Highest,
    Higher,
    High,
    Normal,
}

/// A requested tick: `node`'s tick entry point fires after `ticks_left`
/// ticks.
#[derive(Debug, Clone, Copy, PartialEq, Eq, Structural)]
pub struct TickEntry {
    pub ticks_left: u32,
    pub priority: TickPriority,
    pub node: NodeId,
}

/// The handle threaded through every generated entry point.
pub struct ContextObject {
    pub to_be_ticked: Vec<TickEntry>,
}

impl ContextObject {
    pub fn new() -> (ctx: ContextObject)
        ensures
            ctx.to_be_ticked@.len() == 0,
    {
        ContextObject { to_be_ticked: Vec::new() }
    }
}

/// Requests that `node` be ticked `delay` ticks from now, at `priority`.
pub fn schedule_tick(ctx: &mut ContextObject, node: NodeId, delay: u32, priority: TickPriority)
    ensures
        final(ctx).to_be_ticked@ == old(ctx).to_be_ticked@.push(
            TickEntry { ticks_left: delay, priority, node },
        ),
{
    ctx.to_be_ticked.push(TickEntry { ticks_left: delay, priority, node });
}

} // verus!
