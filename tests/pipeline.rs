use redpiler::codegen::runtime::{ContextObject, TickEntry, TickPriority};
use redpiler::codegen::semantics::{comparator_output, target_of, State};
use redpiler::codegen::{get_gen_tick, get_gen_update, get_gen_use, Codegen, GenFn, PowerSource};
use redpiler::constant_fold::constant_fold;
use redpiler::group::{group, walk_back};
use redpiler::node::{BlockPos, ComparatorMode, Link, LinkType, Node, NodeType};

fn node(ty: NodeType, inputs: Vec<Link>, updates: Vec<usize>, power: u8) -> Node {
    Node {
        ty,
        inputs,
        updates,
        facing_diode: false,
        comparator_far_input: None,
        output_power: power,
        diode_state: false,
        pos: BlockPos { x: 0, y: 0, z: 0 },
    }
}

fn link(to: usize) -> Link {
    Link { ty: LinkType::Default, weight: 0, to }
}

fn side(to: usize) -> Link {
    Link { ty: LinkType::Side, weight: 0, to }
}

#[test]
fn fold_chain_of_constants() {
    let mut nodes = vec![
        node(NodeType::Constant, vec![], vec![1], 15),
        node(NodeType::Torch, vec![link(0)], vec![2], 0),
        node(NodeType::Lamp, vec![link(1)], vec![], 0),
    ];
    let folded = constant_fold(&mut nodes);
    assert_eq!(folded, 2);
    assert_eq!(nodes[1].ty, NodeType::Constant);
    assert_eq!(nodes[2].ty, NodeType::Constant);
    assert!(nodes[1].inputs.is_empty());
    assert!(nodes[2].inputs.is_empty());
    assert!(nodes[0].updates.is_empty());
    assert!(nodes[1].updates.is_empty());
    assert_eq!(nodes[1].output_power, 0);
}

#[test]
fn fold_leaves_external_sources() {
    let mut nodes = vec![
        node(NodeType::Lever, vec![], vec![1], 0),
        node(NodeType::Torch, vec![link(0)], vec![], 15),
        node(NodeType::StoneButton, vec![], vec![], 0),
        node(NodeType::StonePressurePlate, vec![], vec![], 0),
    ];
    assert_eq!(constant_fold(&mut nodes), 0);
    assert_eq!(nodes[0].ty, NodeType::Lever);
    assert_eq!(nodes[1].ty, NodeType::Torch);
    assert_eq!(nodes[2].ty, NodeType::StoneButton);
    assert_eq!(nodes[3].ty, NodeType::StonePressurePlate);
    assert_eq!(nodes[0].updates, vec![1]);
}

#[test]
fn fold_keeps_other_dependents() {
    let mut nodes = vec![
        node(NodeType::Constant, vec![], vec![1, 3], 15),
        node(NodeType::Torch, vec![link(0)], vec![], 0),
        node(NodeType::Lever, vec![], vec![3], 0),
        node(NodeType::Lamp, vec![link(0), link(2)], vec![], 15),
    ];
    assert_eq!(constant_fold(&mut nodes), 1);
    assert_eq!(nodes[1].ty, NodeType::Constant);
    assert_eq!(nodes[3].ty, NodeType::Lamp);
    assert_eq!(nodes[0].updates, vec![3]);
    assert_eq!(nodes[3].inputs.len(), 2);
}

#[test]
fn fold_twice_changes_nothing() {
    let mut nodes = vec![
        node(NodeType::Constant, vec![], vec![1], 15),
        node(NodeType::Repeater(1), vec![link(0)], vec![3], 15),
        node(NodeType::Lever, vec![], vec![3], 0),
        node(NodeType::Lamp, vec![link(1), link(2)], vec![], 15),
    ];
    assert_eq!(constant_fold(&mut nodes), 1);
    let tys: Vec<NodeType> = nodes.iter().map(|n| n.ty).collect();
    let ups: Vec<Vec<usize>> = nodes.iter().map(|n| n.updates.clone()).collect();
    let ins: Vec<usize> = nodes.iter().map(|n| n.inputs.len()).collect();
    assert_eq!(constant_fold(&mut nodes), 0);
    assert_eq!(nodes.iter().map(|n| n.ty).collect::<Vec<_>>(), tys);
    assert_eq!(nodes.iter().map(|n| n.updates.clone()).collect::<Vec<_>>(), ups);
    assert_eq!(nodes.iter().map(|n| n.inputs.len()).collect::<Vec<_>>(), ins);
}

#[test]
fn fold_leaves_cycles_without_constants() {
    let mut nodes = vec![
        node(NodeType::Torch, vec![link(1)], vec![1], 15),
        node(NodeType::Torch, vec![link(0)], vec![0], 0),
    ];
    assert_eq!(constant_fold(&mut nodes), 0);
    assert_eq!(nodes[0].ty, NodeType::Torch);
    assert_eq!(nodes[1].ty, NodeType::Torch);
}

#[test]
fn group_strict_chain() {
    let nodes = vec![
        node(NodeType::Lever, vec![], vec![1], 0),
        node(NodeType::Repeater(1), vec![link(0)], vec![2], 0),
        node(NodeType::Repeater(1), vec![link(1)], vec![3], 0),
        node(NodeType::Lamp, vec![link(2)], vec![], 0),
    ];
    assert_eq!(walk_back(&nodes, 3), 0);
    assert_eq!(walk_back(&nodes, 0), 0);
    let groups = group(&nodes);
    assert_eq!(groups, vec![Some(0), Some(0), Some(0), Some(0)]);
}

#[test]
fn group_stops_at_fan_out() {
    let nodes = vec![
        node(NodeType::Lever, vec![], vec![1], 0),
        node(NodeType::Torch, vec![link(0)], vec![2, 3], 0),
        node(NodeType::Lamp, vec![link(1)], vec![], 0),
        node(NodeType::Lamp, vec![link(1)], vec![], 0),
    ];
    assert_eq!(walk_back(&nodes, 2), 2);
    let groups = group(&nodes);
    assert_eq!(groups, vec![Some(0), Some(0), None, None]);
}

#[test]
fn group_stops_at_fan_in() {
    let nodes = vec![
        node(NodeType::Lever, vec![], vec![2], 0),
        node(NodeType::Lever, vec![], vec![2], 0),
        node(NodeType::Lamp, vec![link(0), link(1)], vec![], 0),
    ];
    assert_eq!(walk_back(&nodes, 2), 2);
    assert_eq!(group(&nodes), vec![None, None, None]);
}

#[test]
fn group_wire_never_starts_a_group() {
    let nodes = vec![
        node(NodeType::Lever, vec![], vec![1], 0),
        node(NodeType::Wire, vec![link(0)], vec![], 0),
    ];
    assert_eq!(group(&nodes), vec![None, None]);
}

#[test]
fn group_cycle_terminates() {
    let nodes = vec![
        node(NodeType::Torch, vec![link(1)], vec![1], 15),
        node(NodeType::Torch, vec![link(0)], vec![0], 0),
    ];
    assert_eq!(walk_back(&nodes, 0), 0);
    assert_eq!(group(&nodes), vec![None, None]);
}

#[test]
fn entry_point_tables() {
    assert_eq!(get_gen_update(NodeType::Torch), Some(GenFn::TorchUpdate));
    assert_eq!(get_gen_update(NodeType::Lever), None);
    assert_eq!(get_gen_tick(NodeType::StonePressurePlate), Some(GenFn::PressurePlateTick));
    assert_eq!(get_gen_tick(NodeType::Lever), None);
    assert_eq!(get_gen_use(NodeType::StoneButton), Some(GenFn::ButtonUse));
    assert_eq!(get_gen_use(NodeType::Constant), None);
}

#[test]
fn plan_gives_tick_slots_to_tick_capable_nodes() {
    let nodes = vec![
        node(NodeType::Repeater(2), vec![], vec![], 0),
        node(NodeType::Comparator(ComparatorMode::Compare), vec![], vec![], 0),
        node(NodeType::Torch, vec![], vec![], 0),
        node(NodeType::Lamp, vec![], vec![], 0),
        node(NodeType::StoneButton, vec![], vec![], 0),
        node(NodeType::StonePressurePlate, vec![], vec![], 0),
        node(NodeType::Lever, vec![], vec![], 0),
        node(NodeType::Constant, vec![], vec![], 7),
        node(NodeType::Wire, vec![], vec![], 0),
    ];
    let c = Codegen::gen(&nodes);
    for i in 0..6 {
        assert!(c.plans[i].tick_fn.is_some());
        assert!(c.plans[i].pending_tick_slot);
        assert!(c.pending_tick_at(i));
    }
    for i in 6..9 {
        assert!(c.plans[i].tick_fn.is_none());
        assert!(!c.plans[i].pending_tick_slot);
    }
    assert_eq!(c.get_locked(0), Some(0));
    assert_eq!(c.get_locked(1), None);
    assert!(c.call_update(3));
    assert!(!c.call_update(6));
    assert_eq!(c.get_output_power(&nodes, 7), Some(PowerSource::Immediate(7)));
    assert_eq!(c.get_output_power(&nodes, 6), Some(PowerSource::Slot(6)));
    assert_eq!(c.get_output_power(&nodes, 8), None);
}

#[test]
fn constant_graph_generates_no_functions() {
    let nodes = vec![
        node(NodeType::Constant, vec![], vec![], 15),
        node(NodeType::Constant, vec![], vec![], 0),
    ];
    let c = Codegen::gen(&nodes);
    for p in &c.plans {
        assert!(p.update_fn.is_none());
        assert!(p.tick_fn.is_none());
        assert!(p.use_fn.is_none());
        assert!(!p.pending_tick_slot);
        assert!(!p.output_power_slot);
    }
}

#[test]
fn propagation_chain_lights_lamp_after_three_ticks() {
    let nodes = vec![
        node(NodeType::Lever, vec![], vec![1], 0),
        node(NodeType::Repeater(2), vec![link(0)], vec![2], 0),
        node(NodeType::Lamp, vec![link(1)], vec![], 0),
    ];
    let mut st = State::new(&nodes);
    let mut ctx = ContextObject::new();
    st.interact(&mut ctx, &nodes, 0);
    assert_eq!(st.output_power[0], 15);
    assert_eq!(
        ctx.to_be_ticked,
        vec![TickEntry { ticks_left: 2, priority: TickPriority::High, node: 1 }]
    );
    assert!(st.pending_tick[1]);
    assert_eq!(st.output_power[2], 0);
    st.tick(&mut ctx, &nodes, 1);
    assert_eq!(st.output_power[1], 15);
    assert!(!st.pending_tick[1]);
    assert_eq!(ctx.to_be_ticked.len(), 2);
    assert_eq!(ctx.to_be_ticked[1], TickEntry { ticks_left: 1, priority: TickPriority::Normal, node: 2 });
    assert_eq!(st.output_power[2], 0);
    st.tick(&mut ctx, &nodes, 2);
    assert_eq!(st.output_power[2], 15);
    let delay: u32 = ctx.to_be_ticked.iter().map(|e| e.ticks_left).sum();
    assert_eq!(delay, 3);
}

#[test]
fn comparator_subtract_scenario() {
    assert_eq!(comparator_output(ComparatorMode::Subtract, 10, 4), 6);
    let nodes = vec![
        node(NodeType::Constant, vec![], vec![2], 10),
        node(NodeType::Constant, vec![], vec![2], 4),
        node(NodeType::Comparator(ComparatorMode::Subtract), vec![link(0), side(1)], vec![], 0),
    ];
    let st = State::new(&nodes);
    assert_eq!(target_of(&nodes, &st.output_power, 2), 6);
}

#[test]
fn comparator_compare_and_floor() {
    assert_eq!(comparator_output(ComparatorMode::Compare, 7, 3), 7);
    assert_eq!(comparator_output(ComparatorMode::Compare, 5, 5), 0);
    assert_eq!(comparator_output(ComparatorMode::Compare, 2, 9), 0);
    assert_eq!(comparator_output(ComparatorMode::Subtract, 4, 10), 0);
}

#[test]
fn comparator_far_input_acts_as_side() {
    let mut nodes = vec![
        node(NodeType::Constant, vec![], vec![1], 12),
        node(NodeType::Comparator(ComparatorMode::Subtract), vec![link(0), side(2)], vec![], 0),
        node(NodeType::Constant, vec![], vec![1], 9),
    ];
    let st = State::new(&nodes);
    assert_eq!(target_of(&nodes, &st.output_power, 1), 3);
    nodes[1].comparator_far_input = Some(5);
    assert_eq!(target_of(&nodes, &st.output_power, 1), 7);
}

#[test]
fn lock_applies_before_main_input() {
    let nodes = vec![
        node(NodeType::Constant, vec![], vec![2], 15),
        node(NodeType::Constant, vec![], vec![2], 15),
        node(NodeType::Repeater(1), vec![link(0), side(1)], vec![], 0),
    ];
    let mut st = State::new(&nodes);
    let mut ctx = ContextObject::new();
    st.update(&mut ctx, &nodes, 2);
    assert!(st.locked[2]);
    assert!(!st.pending_tick[2]);
    assert!(ctx.to_be_ticked.is_empty());
}

#[test]
fn unlocked_repeater_schedules_once() {
    let nodes = vec![
        node(NodeType::Constant, vec![], vec![1], 15),
        node(NodeType::Repeater(3), vec![link(0)], vec![], 0),
    ];
    let mut st = State::new(&nodes);
    let mut ctx = ContextObject::new();
    st.update(&mut ctx, &nodes, 1);
    st.update(&mut ctx, &nodes, 1);
    assert_eq!(
        ctx.to_be_ticked,
        vec![TickEntry { ticks_left: 3, priority: TickPriority::High, node: 1 }]
    );
}

#[test]
fn torch_inverts_with_one_tick_delay() {
    let nodes = vec![
        node(NodeType::Lever, vec![], vec![1], 0),
        node(NodeType::Torch, vec![link(0)], vec![], 15),
    ];
    let mut st = State::new(&nodes);
    let mut ctx = ContextObject::new();
    st.interact(&mut ctx, &nodes, 0);
    assert_eq!(ctx.to_be_ticked[0].ticks_left, 1);
    assert_eq!(st.output_power[1], 15);
    st.tick(&mut ctx, &nodes, 1);
    assert_eq!(st.output_power[1], 0);
}

#[test]
fn link_weight_attenuates_power() {
    let nodes = vec![
        node(NodeType::Constant, vec![], vec![1], 15),
        node(NodeType::Lamp, vec![Link { ty: LinkType::Default, weight: 15, to: 0 }], vec![], 0),
    ];
    let st = State::new(&nodes);
    assert_eq!(target_of(&nodes, &st.output_power, 1), 0);
}

#[test]
fn button_turns_off_after_its_delay() {
    let nodes = vec![
        node(NodeType::StoneButton, vec![], vec![1], 0),
        node(NodeType::Lamp, vec![link(0)], vec![], 0),
    ];
    let mut st = State::new(&nodes);
    let mut ctx = ContextObject::new();
    st.interact(&mut ctx, &nodes, 0);
    assert_eq!(st.output_power[0], 15);
    assert_eq!(ctx.to_be_ticked[0], TickEntry { ticks_left: 10, priority: TickPriority::Normal, node: 0 });
    assert_eq!(ctx.to_be_ticked[1].node, 1);
    st.interact(&mut ctx, &nodes, 0);
    assert_eq!(ctx.to_be_ticked.len(), 2);
    st.tick(&mut ctx, &nodes, 0);
    assert_eq!(st.output_power[0], 0);
    assert!(!st.pending_tick[0]);
}

#[test]
fn lever_toggles_back_off() {
    let nodes = vec![node(NodeType::Lever, vec![], vec![], 0)];
    let mut st = State::new(&nodes);
    let mut ctx = ContextObject::new();
    st.interact(&mut ctx, &nodes, 0);
    assert_eq!(st.output_power[0], 15);
    st.interact(&mut ctx, &nodes, 0);
    assert_eq!(st.output_power[0], 0);
    assert!(ctx.to_be_ticked.is_empty());
}

#[test]
fn group_forward_walk_stops_at_a_joining_node() {
    let nodes = vec![
        node(NodeType::Lever, vec![], vec![1], 0),
        node(NodeType::Torch, vec![link(0)], vec![2], 0),
        node(NodeType::Lamp, vec![link(1), link(3)], vec![], 0),
        node(NodeType::Lever, vec![], vec![2], 0),
    ];
    assert_eq!(group(&nodes), vec![Some(0), Some(0), None, None]);
}

#[test]
fn group_wire_head_starts_no_group() {
    let nodes = vec![
        node(NodeType::Wire, vec![], vec![1], 0),
        node(NodeType::Repeater(1), vec![link(0)], vec![2], 0),
        node(NodeType::Lamp, vec![link(1)], vec![], 0),
    ];
    assert_eq!(walk_back(&nodes, 2), 0);
    assert_eq!(group(&nodes), vec![None, None, None]);
}

#[test]
fn group_ids_count_up_per_chain() {
    let nodes = vec![
        node(NodeType::Lever, vec![], vec![1], 0),
        node(NodeType::Lamp, vec![link(0)], vec![], 0),
        node(NodeType::Lever, vec![], vec![3], 0),
        node(NodeType::Torch, vec![link(2)], vec![4], 0),
        node(NodeType::Lamp, vec![link(3)], vec![], 0),
    ];
    assert_eq!(group(&nodes), vec![Some(0), Some(0), Some(1), Some(1), Some(1)]);
}

#[test]
fn comparator_powered_follows_committed_value() {
    let nodes = vec![
        node(NodeType::Lever, vec![], vec![1], 0),
        node(NodeType::Comparator(ComparatorMode::Compare), vec![link(0)], vec![], 0),
    ];
    let mut st = State::new(&nodes);
    let mut ctx = ContextObject::new();
    assert!(!st.powered[1]);
    st.interact(&mut ctx, &nodes, 0);
    assert_eq!(ctx.to_be_ticked[0], TickEntry { ticks_left: 1, priority: TickPriority::Normal, node: 1 });
    assert_eq!(st.pending_power[1], 15);
    st.tick(&mut ctx, &nodes, 1);
    assert_eq!(st.output_power[1], 15);
    assert!(st.powered[1]);
}

#[test]
fn torch_tick_commits_the_pending_flip() {
    let nodes = vec![
        node(NodeType::Lever, vec![], vec![1], 0),
        node(NodeType::Torch, vec![link(0)], vec![], 15),
    ];
    let mut st = State::new(&nodes);
    let mut ctx = ContextObject::new();
    st.interact(&mut ctx, &nodes, 0);
    st.interact(&mut ctx, &nodes, 0);
    assert_eq!(st.output_power[0], 0);
    assert_eq!(ctx.to_be_ticked.len(), 1);
    st.tick(&mut ctx, &nodes, 1);
    assert_eq!(st.output_power[1], 0);
}

#[test]
fn fold_keeps_order_of_remaining_dependents() {
    let mut nodes = vec![
        node(NodeType::Constant, vec![], vec![3, 1, 4], 15),
        node(NodeType::Torch, vec![link(0)], vec![], 0),
        node(NodeType::Lever, vec![], vec![3, 4], 0),
        node(NodeType::Lamp, vec![link(0), link(2)], vec![], 15),
        node(NodeType::Lamp, vec![link(0), link(2)], vec![], 15),
    ];
    assert_eq!(constant_fold(&mut nodes), 1);
    assert_eq!(nodes[0].updates, vec![3, 4]);
    assert_eq!(nodes[2].updates, vec![3, 4]);
}
