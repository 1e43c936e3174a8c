//! What the generated entry points do, stated over the persistent slots of
//! every node and the ticks requested from the scheduler.

use crate::codegen::runtime::{schedule_tick, ContextObject, TickEntry, TickPriority};
use crate::node::{well_indexed, ComparatorMode, Link, LinkType, Node, NodeId, NodeType};
use vstd::prelude::*;

verus! {

/// Ticks after which a stone button turns off again.
pub const STONE_BUTTON_DELAY: u32 = 10;

/// Ticks after which a stone pressure plate turns off again.
pub const PRESSURE_PLATE_DELAY: u32 = 10;

/// The persistent slots, one entry per node.
pub struct State {
    pub output_power: Vec<u8>,
    pub pending_tick: Vec<bool>,
    /// The power that the pending tick commits.
    pub pending_power: Vec<u8>,
    pub locked: Vec<bool>,
    /// A comparator's "powered" indicator.
    pub powered: Vec<bool>,
}

/// The slots and the requested ticks, as values.
pub struct Model {
    pub power: Seq<u8>,
    pub pending: Seq<bool>,
    pub pending_power: Seq<u8>,
    pub locked: Seq<bool>,
    pub powered: Seq<bool>,
    pub ticks: Seq<TickEntry>,
}

pub open spec fn model_of(st: &State, ctx: &ContextObject) -> Model {
    Model {
        power: st.output_power@,
        pending: st.pending_tick@,
        pending_power: st.pending_power@,
        locked: st.locked@,
        powered: st.powered@,
        ticks: ctx.to_be_ticked@,
    }
}

/// The slots have one entry per node and the graph's links are in range.
pub open spec fn state_wf(nodes: Seq<Node>, st: &State) -> bool {
    &&& well_indexed(nodes)
    &&& st.output_power@.len() == nodes.len()
    &&& st.pending_tick@.len() == nodes.len()
    &&& st.pending_power@.len() == nodes.len()
    &&& st.locked@.len() == nodes.len()
    &&& st.powered@.len() == nodes.len()
}

/// The power that arrives over link `l`: the source's power less the
/// link's weight, and never below zero.
pub open spec fn link_power(power: Seq<u8>, l: Link) -> u8 {
    if power[l.to as int] > l.weight {
        (power[l.to as int] - l.weight) as u8
    } else {
        0
    }
}

/// The strongest power arriving over the side links (`side`) or over the
/// default links (`!side`) among `links`.
pub open spec fn max_input(power: Seq<u8>, links: Seq<Link>, side: bool) -> u8
    decreases links.len(),
{
    if links.len() == 0 {
        0
    } else {
        let rest = max_input(power, links.drop_last(), side);
        let l = links.last();
        if (l.ty == LinkType::Side) == side && link_power(power, l) > rest {
            link_power(power, l)
        } else {
            rest
        }
    }
}

/// A comparator's output for a main input and a side input.
pub open spec fn comparator_spec(mode: ComparatorMode, main: u8, side: u8) -> u8 {
    match mode {
        ComparatorMode::Compare => if side >= main {
            0
        } else {
            main
        },
        ComparatorMode::Subtract => if main > side {
            (main - side) as u8
        } else {
            0
        },
    }
}

/// The power that node `i` settles to given the powers of all nodes: an
/// inverter for a torch, on or off for a lamp and a repeater, the comparison
/// for a comparator, whose side value is its precomputed far input where it
/// has one; any other node keeps its power.
pub open spec fn target_power(nodes: Seq<Node>, power: Seq<u8>, i: int) -> u8 {
    let main = max_input(power, nodes[i].inputs@, false);
    let side = max_input(power, nodes[i].inputs@, true);
    match nodes[i].ty {
        NodeType::Torch => if main == 0 && side == 0 {
            15
        } else {
            0
        },
        NodeType::Lamp => if main > 0 || side > 0 {
            15
        } else {
            0
        },
        NodeType::Repeater(_) => if main > 0 {
            15
        } else {
            0
        },
        NodeType::Comparator(mode) => {
            let side_value = match nodes[i].comparator_far_input {
                Some(v) => v,
                None => side,
            };
            comparator_spec(mode, main, side_value)
        },
        _ => power[i],
    }
}

/// The tier at which node `i` asks for a tick that commits `target`.
pub open spec fn tick_priority(node: Node, target: u8) -> TickPriority {
    match node.ty {
        NodeType::Repeater(_) => if node.facing_diode {
            TickPriority::Highest
        } else if target == 0 {
            TickPriority::Higher
        } else {
            TickPriority::High
        },
        NodeType::Comparator(_) => if node.facing_diode {
            TickPriority::High
        } else {
            TickPriority::Normal
        },
        _ => TickPriority::Normal,
    }
}

/// The delay of node `i`'s tick after an update.
pub open spec fn update_delay(ty: NodeType) -> u32 {
    match ty {
        NodeType::Repeater(d) => d as u32,
        _ => 1,
    }
}

/// Asks for a tick of node `i` after `delay` ticks that commits `value`,
/// and marks it pending.
pub open spec fn request_tick(m: Model, i: int, delay: u32, priority: TickPriority, value: u8) -> Model {
    Model {
        pending: m.pending.update(i, true),
        pending_power: m.pending_power.update(i, value),
        ticks: m.ticks.push(TickEntry { ticks_left: delay, priority, node: i as NodeId }),
        ..m
    }
}

/// The update entry point of node `i`. A repeater first sets its lock from
/// its side inputs. Then a torch, lamp, comparator, or unlocked repeater
/// whose target differs from its power asks for a tick, unless one is
/// already pending. Other nodes do nothing.
pub open spec fn update_spec(nodes: Seq<Node>, m: Model, i: int) -> Model {
    let ty = nodes[i].ty;
    let m1 = if ty is Repeater {
        Model { locked: m.locked.update(i, max_input(m.power, nodes[i].inputs@, true) > 0), ..m }
    } else {
        m
    };
    let target = target_power(nodes, m.power, i);
    if (ty is Repeater || ty is Comparator || ty == NodeType::Torch || ty == NodeType::Lamp)
        && !(ty is Repeater && m1.locked[i]) && !m1.pending[i] && target != m1.power[i] {
        request_tick(m1, i, update_delay(ty), tick_priority(nodes[i], target), target)
    } else {
        m1
    }
}

/// The update entry points of `deps`, called in order.
pub open spec fn notify_all(nodes: Seq<Node>, m: Model, deps: Seq<NodeId>) -> Model
    decreases deps.len(),
{
    if deps.len() == 0 {
        m
    } else {
        update_spec(nodes, notify_all(nodes, m, deps.drop_last()), deps.last() as int)
    }
}

/// Sets node `i`'s power to `p` and, if that is a change, calls the update
/// entry point of each dependent.
pub open spec fn commit(nodes: Seq<Node>, m: Model, i: int, p: u8) -> Model {
    if p == m.power[i] {
        m
    } else {
        notify_all(nodes, Model { power: m.power.update(i, p), ..m }, nodes[i].updates@)
    }
}

/// The tick entry point of node `i`: the pending flag is cleared and the
/// value that was pending when the tick was asked for is committed. For a
/// torch that is its stored output flipped, for a button or pressure plate
/// it is off. A comparator also sets its powered indicator from that value,
/// whether or not its power changes. Nodes without ticks do nothing.
pub open spec fn tick_spec(nodes: Seq<Node>, m: Model, i: int) -> Model {
    let m1 = Model { pending: m.pending.update(i, false), ..m };
    let v = m.pending_power[i];
    match nodes[i].ty {
        NodeType::Repeater(_) | NodeType::Torch | NodeType::Lamp | NodeType::StoneButton
        | NodeType::StonePressurePlate => commit(nodes, m1, i, v),
        NodeType::Comparator(_) => commit(nodes, Model { powered: m1.powered.update(i, v > 0), ..m1 }, i, v),
        _ => m,
    }
}

/// The use entry point of node `i`: a lever toggles between 0 and 15; a
/// button or pressure plate with no tick pending turns on and asks for the
/// tick that turns it off. Other nodes do nothing.
pub open spec fn use_spec(nodes: Seq<Node>, m: Model, i: int) -> Model {
    match nodes[i].ty {
        NodeType::Lever => commit(nodes, m, i, if m.power[i] > 0 { 0 } else { 15 }),
        NodeType::StoneButton => if m.pending[i] {
            m
        } else {
            commit(nodes, request_tick(m, i, STONE_BUTTON_DELAY, TickPriority::Normal, 0), i, 15)
        },
        NodeType::StonePressurePlate => if m.pending[i] {
            m
        } else {
            commit(nodes, request_tick(m, i, PRESSURE_PLATE_DELAY, TickPriority::Normal, 0), i, 15)
        },
        _ => m,
    }
}

/// The output of a comparator in `mode` for a main input and a side input:
/// in compare mode the main input, or 0 when the side input is at least as
/// strong; in subtract mode the difference, never below 0.
pub fn comparator_output(mode: ComparatorMode, main: u8, side: u8) -> (r: u8)
    ensures
        r == comparator_spec(mode, main, side),
{
    match mode {
        ComparatorMode::Compare => if side >= main {
            0
        } else {
            main
        },
        ComparatorMode::Subtract => if main > side {
            main - side
        } else {
            0
        },
    }
}

/// The strongest power arriving at node `i` over its side links (`side`) or
/// its default links.
pub fn input_power(nodes: &[Node], power: &Vec<u8>, i: NodeId, side: bool) -> (r: u8)
    requires
        well_indexed(nodes@),
        power@.len() == nodes@.len(),
        i < nodes@.len(),
    ensures
        r == max_input(power@, nodes@[i as int].inputs@, side),
{
    let links = &nodes[i].inputs;
    let mut best: u8 = 0;
    let mut k: usize = 0;
    while k < links.len()
        invariant
            well_indexed(nodes@),
            power@.len() == nodes@.len(),
            i < nodes@.len(),
            links@ == nodes@[i as int].inputs@,
            k <= links@.len(),
            best == max_input(power@, links@.subrange(0, k as int), side),
        decreases links@.len() - k,
    {
        let l = links[k];
        assert(links@.subrange(0, k as int + 1).drop_last() =~= links@.subrange(0, k as int));
        assert(l.to < nodes@.len());
        let src = power[l.to];
        let p: u8 = if src > l.weight {
            src - l.weight
        } else {
            0
        };
        let is_side = match l.ty {
            LinkType::Side => true,
            LinkType::Default => false,
        };
        if is_side == side && p > best {
            best = p;
        }
        k += 1;
    }
    assert(links@.subrange(0, links@.len() as int) =~= links@);
    best
}

/// The power that node `i` settles to given the powers of all nodes.
pub fn target_of(nodes: &[Node], power: &Vec<u8>, i: NodeId) -> (r: u8)
    requires
        well_indexed(nodes@),
        power@.len() == nodes@.len(),
        i < nodes@.len(),
    ensures
        r == target_power(nodes@, power@, i as int),
{
    let main = input_power(nodes, power, i, false);
    let side = input_power(nodes, power, i, true);
    match nodes[i].ty {
        NodeType::Torch => if main == 0 && side == 0 {
            15
        } else {
            0
        },
        NodeType::Lamp => if main > 0 || side > 0 {
            15
        } else {
            0
        },
        NodeType::Repeater(_) => if main > 0 {
            15
        } else {
            0
        },
        NodeType::Comparator(mode) => {
            let side_value: u8 = match nodes[i].comparator_far_input {
                Some(v) => v,
                None => side,
            };
            comparator_output(mode, main, side_value)
        },
        _ => power[i],
    }
}

fn priority_of(node: &Node, target: u8) -> (r: TickPriority)
    ensures
        r == tick_priority(*node, target),
{
    match node.ty {
        NodeType::Repeater(_) => if node.facing_diode {
            TickPriority::Highest
        } else if target == 0 {
            TickPriority::Higher
        } else {
            TickPriority::High
        },
        NodeType::Comparator(_) => if node.facing_diode {
            TickPriority::High
        } else {
            TickPriority::Normal
        },
        _ => TickPriority::Normal,
    }
}

impl State {
    /// The slots as the graph snapshot has them, with no tick pending; a
    /// repeater starts locked, and a comparator powered, as its
    /// `diode_state` says.
    pub fn new(nodes: &[Node]) -> (st: State)
        ensures
            st.output_power@.len() == nodes@.len(),
            st.pending_tick@.len() == nodes@.len(),
            st.locked@.len() == nodes@.len(),
            forall|i: int| 0 <= i < nodes@.len() ==> #[trigger] st.output_power@[i] == nodes@[i].output_power,
            forall|i: int| 0 <= i < nodes@.len() ==> !#[trigger] st.pending_tick@[i],
            forall|i: int|
                0 <= i < nodes@.len() ==> #[trigger] st.locked@[i] == (nodes@[i].ty is Repeater
                    && nodes@[i].diode_state),
            forall|i: int|
                0 <= i < nodes@.len() ==> #[trigger] st.powered@[i] == (nodes@[i].ty is Comparator
                    && nodes@[i].diode_state),
            forall|i: int| 0 <= i < nodes@.len() ==> #[trigger] st.pending_power@[i] == nodes@[i].output_power,
    {
        let mut output_power: Vec<u8> = Vec::new();
        let mut pending_tick: Vec<bool> = Vec::new();
        let mut locked: Vec<bool> = Vec::new();
        let mut pending_power: Vec<u8> = Vec::new();
        let mut powered: Vec<bool> = Vec::new();
        let mut i: usize = 0;
        while i < nodes.len()
            invariant
                i <= nodes@.len(),
                output_power@.len() == i,
                pending_tick@.len() == i,
                locked@.len() == i,
                forall|j: int| 0 <= j < i ==> #[trigger] output_power@[j] == nodes@[j].output_power,
                forall|j: int| 0 <= j < i ==> !#[trigger] pending_tick@[j],
                forall|j: int|
                    0 <= j < i ==> #[trigger] locked@[j] == (nodes@[j].ty is Repeater && nodes@[j].diode_state),
                pending_power@.len() == i,
                powered@.len() == i,
                forall|j: int|
                    0 <= j < i ==> #[trigger] powered@[j] == (nodes@[j].ty is Comparator && nodes@[j].diode_state),
                forall|j: int| 0 <= j < i ==> #[trigger] pending_power@[j] == nodes@[j].output_power,
            decreases nodes@.len() - i,
        {
            output_power.push(nodes[i].output_power);
            pending_tick.push(false);
            let is_repeater = match nodes[i].ty {
                NodeType::Repeater(_) => true,
                _ => false,
            };
            locked.push(is_repeater && nodes[i].diode_state);
            let is_comparator = match nodes[i].ty {
                NodeType::Comparator(_) => true,
                _ => false,
            };
            powered.push(is_comparator && nodes[i].diode_state);
            pending_power.push(nodes[i].output_power);
            i += 1;
        }
        State { output_power, pending_tick, pending_power, locked, powered }
    }

    /// Runs the update entry point of node `i`.
    pub fn update(&mut self, ctx: &mut ContextObject, nodes: &[Node], i: NodeId)
        requires
            state_wf(nodes@, old(self)),
            i < nodes@.len(),
        ensures
            state_wf(nodes@, final(self)),
            model_of(final(self), final(ctx)) == update_spec(nodes@, model_of(old(self), old(ctx)), i as int),
    {
        let ty = nodes[i].ty;
        let is_repeater = matches!(ty, NodeType::Repeater(_));
        if is_repeater {
            let side = input_power(nodes, &self.output_power, i, true);
            self.locked.set(i, side > 0);
        }
        let target = target_of(nodes, &self.output_power, i);
        let delayed = matches!(ty, NodeType::Repeater(_) | NodeType::Comparator(_) | NodeType::Torch | NodeType::Lamp);
        if delayed && !(is_repeater && self.locked[i]) && !self.pending_tick[i] && target != self.output_power[i] {
            let delay: u32 = match ty {
                NodeType::Repeater(d) => d as u32,
                _ => 1,
            };
            let priority = priority_of(&nodes[i], target);
            self.pending_tick.set(i, true);
            self.pending_power.set(i, target);
            schedule_tick(ctx, i, delay, priority);
        }
    }

    /// Calls the update entry point of each dependent of node `i`, in order.
    fn notify(&mut self, ctx: &mut ContextObject, nodes: &[Node], i: NodeId)
        requires
            state_wf(nodes@, old(self)),
            i < nodes@.len(),
        ensures
            state_wf(nodes@, final(self)),
            model_of(final(self), final(ctx)) == notify_all(nodes@, model_of(old(self), old(ctx)), nodes@[i as int].updates@),
    {
        let ghost m0 = model_of(self, ctx);
        let deps = &nodes[i].updates;
        let mut k: usize = 0;
        while k < deps.len()
            invariant
                state_wf(nodes@, self),
                i < nodes@.len(),
                deps@ == nodes@[i as int].updates@,
                k <= deps@.len(),
                model_of(self, ctx) == notify_all(nodes@, m0, deps@.subrange(0, k as int)),
            decreases deps@.len() - k,
        {
            assert(deps@.subrange(0, k as int + 1).drop_last() =~= deps@.subrange(0, k as int));
            assert(deps@.contains(deps@[k as int]));
            self.update(ctx, nodes, deps[k]);
            k += 1;
        }
        assert(deps@.subrange(0, deps@.len() as int) =~= deps@);
    }

    /// Sets node `i`'s power to `p` and, if that is a change, notifies its
    /// dependents.
    fn commit(&mut self, ctx: &mut ContextObject, nodes: &[Node], i: NodeId, p: u8)
        requires
            state_wf(nodes@, old(self)),
            i < nodes@.len(),
        ensures
            state_wf(nodes@, final(self)),
            model_of(final(self), final(ctx)) == commit(nodes@, model_of(old(self), old(ctx)), i as int, p),
    {
        if p != self.output_power[i] {
            self.output_power.set(i, p);
            self.notify(ctx, nodes, i);
        }
    }

    /// Runs the tick entry point of node `i`.
    pub fn tick(&mut self, ctx: &mut ContextObject, nodes: &[Node], i: NodeId)
        requires
            state_wf(nodes@, old(self)),
            i < nodes@.len(),
        ensures
            state_wf(nodes@, final(self)),
            model_of(final(self), final(ctx)) == tick_spec(nodes@, model_of(old(self), old(ctx)), i as int),
    {
        let v = self.pending_power[i];
        match nodes[i].ty {
            NodeType::Repeater(_) | NodeType::Torch | NodeType::Lamp | NodeType::StoneButton
            | NodeType::StonePressurePlate => {
                self.pending_tick.set(i, false);
                self.commit(ctx, nodes, i, v);
            },
            NodeType::Comparator(_) => {
                self.pending_tick.set(i, false);
                self.powered.set(i, v > 0);
                self.commit(ctx, nodes, i, v);
            },
            _ => {},
        }
    }

    /// Runs the use entry point of node `i`: the player flips a lever or
    /// presses a button or pressure plate.
    pub fn interact(&mut self, ctx: &mut ContextObject, nodes: &[Node], i: NodeId)
        requires
            state_wf(nodes@, old(self)),
            i < nodes@.len(),
        ensures
            state_wf(nodes@, final(self)),
            model_of(final(self), final(ctx)) == use_spec(nodes@, model_of(old(self), old(ctx)), i as int),
    {
        match nodes[i].ty {
            NodeType::Lever => {
                let p: u8 = if self.output_power[i] > 0 {
                    0
                } else {
                    15
                };
                self.commit(ctx, nodes, i, p);
            },
            NodeType::StoneButton => {
                if !self.pending_tick[i] {
                    self.pending_tick.set(i, true);
                    self.pending_power.set(i, 0);
                    schedule_tick(ctx, i, STONE_BUTTON_DELAY, TickPriority::Normal);
                    self.commit(ctx, nodes, i, 15);
                }
            },
            NodeType::StonePressurePlate => {
                if !self.pending_tick[i] {
                    self.pending_tick.set(i, true);
                    self.pending_power.set(i, 0);
                    schedule_tick(ctx, i, PRESSURE_PLATE_DELAY, TickPriority::Normal);
                    self.commit(ctx, nodes, i, 15);
                }
            },
            _ => {},
        }
    }
}

/// A repeater sets its lock before it looks at its main input: when a side
/// input is powered, its update locks it and asks for no tick, whatever the
/// main input.
pub proof fn lock_precedes_main_input(nodes: Seq<Node>, m: Model, i: int)
    requires
        0 <= i < nodes.len(),
        0 <= i < m.locked.len(),
        nodes[i].ty is Repeater,
        max_input(m.power, nodes[i].inputs@, true) > 0,
    ensures
        update_spec(nodes, m, i).locked[i],
        update_spec(nodes, m, i).ticks == m.ticks,
        update_spec(nodes, m, i).pending == m.pending,
        update_spec(nodes, m, i).power == m.power,
{
}

} // verus!
