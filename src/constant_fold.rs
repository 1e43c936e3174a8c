//! Constant propagation: nodes whose every input is constant are turned into
//! constants themselves, until no more can be.
//!
//! When a node is folded, the edge from each of its former sources to it is
//! removed from that source's dependents; other dependents of the source are
//! kept, so their notification paths stay intact.

use crate::node::{has_input_from, is_external_source, well_indexed, consistent, Node, NodeId, NodeType};
use vstd::prelude::*;
use vstd::seq_lib::lemma_seq_contains_after_push;
use vstd::set_lib::{lemma_int_range, lemma_len_subset, set_int_range};

verus! {

broadcast use lemma_seq_contains_after_push;

/// Node `i` is not yet constant, can only change through its inputs, and
/// every input's source is constant.
pub open spec fn foldable(nodes: Seq<Node>, i: int) -> bool {
    &&& nodes[i].ty != NodeType::Constant
    &&& !is_external_source(nodes[i].ty)
    &&& forall|k: int|
        0 <= k < nodes[i].inputs@.len() ==> #[trigger] nodes[nodes[i].inputs@[k].to as int].ty
            == NodeType::Constant
}

/// No node of the graph can be folded.
pub open spec fn at_fixed_point(nodes: Seq<Node>) -> bool {
    forall|i: int| 0 <= i < nodes.len() ==> !#[trigger] foldable(nodes, i)
}

/// Node `i` was turned into a constant between `before` and `after`.
pub open spec fn was_folded(before: Seq<Node>, after: Seq<Node>, i: int) -> bool {
    before[i].ty != NodeType::Constant && after[i].ty == NodeType::Constant
}

/// The fields that no pass changes.
pub open spec fn same_payload(a: Node, b: Node) -> bool {
    &&& a.facing_diode == b.facing_diode
    &&& a.comparator_far_input == b.comparator_far_input
    &&& a.output_power == b.output_power
    &&& a.diode_state == b.diode_state
    &&& a.pos == b.pos
}

/// Two nodes are equal in every field.
pub open spec fn same_node(a: Node, b: Node) -> bool {
    &&& a.ty == b.ty
    &&& a.inputs@ == b.inputs@
    &&& a.updates@ == b.updates@
    &&& same_payload(a, b)
}

/// Dependent `u` of node `j` survives: it was a dependent before, and it is
/// not a folded node that took its input from `j`.
pub open spec fn keeps_dependent(before: Seq<Node>, after: Seq<Node>, j: int, u: NodeId) -> bool {
    before[j].updates@.contains(u) && !(was_folded(before, after, u as int) && has_input_from(
        before[u as int],
        j as NodeId,
    ))
}

/// Node `j` loses dependent `u`: `u` was folded and took an input from `j`.
pub open spec fn drops(before: Seq<Node>, after: Seq<Node>, j: int, u: NodeId) -> bool {
    u < before.len() && was_folded(before, after, u as int) && has_input_from(before[u as int], j as NodeId)
}

/// The dependents in `s` that node `j` keeps, in their order.
pub open spec fn surviving(before: Seq<Node>, after: Seq<Node>, j: int, s: Seq<NodeId>) -> Seq<NodeId>
    decreases s.len(),
{
    if s.len() == 0 {
        s
    } else {
        let r = surviving(before, after, j, s.drop_last());
        if drops(before, after, j, s.last()) {
            r
        } else {
            r.push(s.last())
        }
    }
}

/// `s` without any occurrence of `x`, in order.
pub open spec fn drop_val(s: Seq<NodeId>, x: NodeId) -> Seq<NodeId>
    decreases s.len(),
{
    if s.len() == 0 {
        s
    } else {
        let r = drop_val(s.drop_last(), x);
        if s.last() == x {
            r
        } else {
            r.push(s.last())
        }
    }
}

proof fn lemma_drop_val_idem(s: Seq<NodeId>, x: NodeId)
    ensures
        drop_val(drop_val(s, x), x) == drop_val(s, x),
    decreases s.len(),
{
    if s.len() > 0 {
        lemma_drop_val_idem(s.drop_last(), x);
        let r = drop_val(s.drop_last(), x);
        if s.last() != x {
            assert(r.push(s.last()).drop_last() =~= r);
        }
    }
}

proof fn lemma_surviving_drop(orig: Seq<Node>, pre: Seq<Node>, post: Seq<Node>, j: int, i: NodeId, s: Seq<NodeId>)
    requires
        forall|u: NodeId| u != i ==> drops(orig, pre, j, u) == drops(orig, post, j, u),
        !drops(orig, pre, j, i),
        drops(orig, post, j, i),
    ensures
        drop_val(surviving(orig, pre, j, s), i) == surviving(orig, post, j, s),
    decreases s.len(),
{
    if s.len() > 0 {
        lemma_surviving_drop(orig, pre, post, j, i, s.drop_last());
        let r = surviving(orig, pre, j, s.drop_last());
        if !drops(orig, pre, j, s.last()) {
            assert(r.push(s.last()).drop_last() =~= r);
        }
    }
}

proof fn lemma_surviving_same(orig: Seq<Node>, pre: Seq<Node>, post: Seq<Node>, j: int, s: Seq<NodeId>)
    requires
        forall|u: NodeId| drops(orig, pre, j, u) == drops(orig, post, j, u),
    ensures
        surviving(orig, pre, j, s) == surviving(orig, post, j, s),
    decreases s.len(),
{
    if s.len() > 0 {
        lemma_surviving_same(orig, pre, post, j, s.drop_last());
    }
}

proof fn lemma_surviving_all(before: Seq<Node>, after: Seq<Node>, j: int, s: Seq<NodeId>)
    requires
        forall|u: NodeId| !drops(before, after, j, u),
    ensures
        surviving(before, after, j, s) == s,
    decreases s.len(),
{
    if s.len() > 0 {
        lemma_surviving_all(before, after, j, s.drop_last());
        assert(s.drop_last().push(s.last()) =~= s);
    }
}

/// `after` arises from `before` by folding some nodes: each folded node was
/// foldable in kind, lost its inputs, and all of its former sources are
/// constant; every other node keeps its type and inputs; each node keeps its
/// dependents in order, except the folded ones that took an input from it;
/// no other field changes.
pub open spec fn folds_of(before: Seq<Node>, after: Seq<Node>) -> bool {
    &&& after.len() == before.len()
    &&& forall|i: int| 0 <= i < before.len() ==> #[trigger] same_payload(before[i], after[i])
    &&& forall|i: int|
        0 <= i < before.len() && #[trigger] was_folded(before, after, i) ==> {
            &&& !is_external_source(before[i].ty)
            &&& after[i].inputs@.len() == 0
            &&& forall|k: int|
                0 <= k < before[i].inputs@.len() ==> #[trigger] after[before[i].inputs@[k].to as int].ty
                    == NodeType::Constant
        }
    &&& forall|i: int|
        0 <= i < before.len() && !#[trigger] was_folded(before, after, i) ==> {
            &&& after[i].ty == before[i].ty
            &&& after[i].inputs@ == before[i].inputs@
        }
    &&& forall|j: int, u: NodeId|
        0 <= j < before.len() ==> (#[trigger] after[j].updates@.contains(u) <==> keeps_dependent(
            before,
            after,
            j,
            u,
        ))
    &&& forall|j: int|
        0 <= j < before.len() ==> (#[trigger] after[j]).updates@ == surviving(before, after, j, before[j].updates@)
}

/// Node `i` is constant, or can be proved constant by looking at most `d`
/// links back: it is not a lever, button or pressure plate and each of its
/// inputs settles within `d - 1`.
pub open spec fn settles(nodes: Seq<Node>, i: int, d: nat) -> bool
    decreases d,
{
    nodes[i].ty == NodeType::Constant || (d > 0 && !is_external_source(nodes[i].ty) && forall|k: int|
        #![trigger nodes[i].inputs@[k]]
        0 <= k < nodes[i].inputs@.len() ==> settles(nodes, nodes[i].inputs@[k].to as int, (d - 1) as nat))
}

proof fn lemma_settles_mono(nodes: Seq<Node>, i: int, d: nat)
    requires
        settles(nodes, i, d),
    ensures
        settles(nodes, i, d + 1),
    decreases d,
{
    if nodes[i].ty != NodeType::Constant {
        assert(d > 0);
        assert(!is_external_source(nodes[i].ty));
        assert forall|k: int| 0 <= k < nodes[i].inputs@.len() implies #[trigger] settles(
            nodes,
            nodes[i].inputs@[k].to as int,
            d,
        ) by {
            assert(settles(nodes, nodes[i].inputs@[k].to as int, (d - 1) as nat));
            lemma_settles_mono(nodes, nodes[i].inputs@[k].to as int, (d - 1) as nat);
        }
        assert(forall|k: int| #![trigger nodes[i].inputs@[k]]
            0 <= k < nodes[i].inputs@.len() ==> settles(nodes, nodes[i].inputs@[k].to as int, d));
        assert(settles(nodes, i, (d + 1) as nat));
    }
}

/// A node that settles in the input graph is constant once no node can be
/// folded any more: the folder reaches every node whose inputs lead back
/// only to constants.
pub proof fn settled_nodes_are_folded(before: Seq<Node>, after: Seq<Node>, i: int, d: nat)
    requires
        well_indexed(before),
        folds_of(before, after),
        at_fixed_point(after),
        0 <= i < before.len(),
        settles(before, i, d),
    ensures
        after[i].ty == NodeType::Constant,
    decreases d,
{
    if after[i].ty != NodeType::Constant {
        assert(!was_folded(before, after, i));
        assert(before[i].ty != NodeType::Constant);
        assert forall|k: int| 0 <= k < after[i].inputs@.len() implies #[trigger] after[after[i].inputs@[k].to as int].ty
            == NodeType::Constant by {
            assert(settles(before, before[i].inputs@[k].to as int, (d - 1) as nat));
            settled_nodes_are_folded(before, after, before[i].inputs@[k].to as int, (d - 1) as nat);
        }
        assert(foldable(after, i));
    }
}

/// The result of the folder: the nodes that settle, and no others, are
/// constant; nothing is left to fold; and a graph with nothing to fold is
/// left as it was.
pub open spec fn fold_result(before: Seq<Node>, after: Seq<Node>) -> bool {
    &&& folds_of(before, after)
    &&& at_fixed_point(after)
    &&& forall|i: int|
        0 <= i < before.len() ==> ((#[trigger] after[i]).ty == NodeType::Constant <==> exists|d: nat|
            settles(before, i, d))
    &&& at_fixed_point(before) ==> forall|i: int|
        0 <= i < before.len() ==> #[trigger] same_node(before[i], after[i])
}

/// The indices of the nodes folded between `before` and `after`.
pub open spec fn folded_set(before: Seq<Node>, after: Seq<Node>) -> Set<int> {
    Set::new(|i: int| 0 <= i < before.len() && was_folded(before, after, i))
}

proof fn lemma_folded_set_bounded(before: Seq<Node>, after: Seq<Node>)
    ensures
        folded_set(before, after).finite(),
        folded_set(before, after).len() <= before.len(),
{
    lemma_int_range(0, before.len() as int);
    lemma_len_subset(folded_set(before, after), set_int_range(0, before.len() as int));
}

/// The dependents of `v` other than `x`, in their order.
fn without(v: &Vec<NodeId>, x: NodeId) -> (r: Vec<NodeId>)
    ensures
        forall|u: NodeId| #[trigger] r@.contains(u) <==> (v@.contains(u) && u != x),
        r@ == drop_val(v@, x),
{
    let mut r: Vec<NodeId> = Vec::new();
    let mut k: usize = 0;
    while k < v.len()
        invariant
            k <= v@.len(),
            forall|u: NodeId| #[trigger] r@.contains(u) <==> (v@.subrange(0, k as int).contains(u) && u != x),
            r@ == drop_val(v@.subrange(0, k as int), x),
        decreases v@.len() - k,
    {
        assert(v@.subrange(0, k as int + 1) =~= v@.subrange(0, k as int).push(v@[k as int]));
        assert(v@.subrange(0, k as int + 1).drop_last() =~= v@.subrange(0, k as int));
        if v[k] != x {
            r.push(v[k]);
        }
        k += 1;
    }
    assert(v@.subrange(0, v@.len() as int) =~= v@);
    r
}

/// Whether every input of node `i` comes from a constant node.
fn inputs_constant(nodes: &Vec<Node>, i: usize) -> (r: bool)
    requires
        i < nodes@.len(),
        well_indexed(nodes@),
    ensures
        r == forall|k: int|
            0 <= k < nodes@[i as int].inputs@.len() ==> #[trigger] nodes@[nodes@[i as int].inputs@[k].to as int].ty
                == NodeType::Constant,
{
    let mut k: usize = 0;
    while k < nodes[i].inputs.len()
        invariant
            i < nodes@.len(),
            well_indexed(nodes@),
            k <= nodes@[i as int].inputs@.len(),
            forall|k2: int|
                0 <= k2 < k ==> #[trigger] nodes@[nodes@[i as int].inputs@[k2].to as int].ty
                    == NodeType::Constant,
        decreases nodes@[i as int].inputs@.len() - k,
    {
        let src = nodes[i].inputs[k].to;
        if nodes[src].ty != NodeType::Constant {
            return false;
        }
        k += 1;
    }
    true
}

/// Some of the first `k` inputs of `x` come from `y`.
spec fn has_input_among(x: Node, y: NodeId, k: int) -> bool {
    exists|k2: int| 0 <= k2 < k && #[trigger] x.inputs@[k2].to == y
}

/// Folds node `i`: removes it from the dependents of each of its sources,
/// makes it a constant and empties its inputs.
fn fold_node(nodes: &mut Vec<Node>, i: usize, Ghost(orig): Ghost<Seq<Node>>)
    requires
        i < old(nodes)@.len(),
        well_indexed(old(nodes)@),
        well_indexed(orig),
        folds_of(orig, old(nodes)@),
        foldable(old(nodes)@, i as int),
    ensures
        final(nodes)@.len() == old(nodes)@.len(),
        well_indexed(final(nodes)@),
        folds_of(orig, final(nodes)@),
        final(nodes)@[i as int].ty == NodeType::Constant,
        forall|j: int|
            0 <= j < old(nodes)@.len() && j != i ==> #[trigger] final(nodes)@[j].ty == old(
                nodes,
            )@[j].ty,
{
    let ghost pre = nodes@;
    let n = nodes.len();
    let ins_len = nodes[i].inputs.len();
    let mut k: usize = 0;
    while k < ins_len
        invariant
            i < n,
            nodes@.len() == n,
            pre.len() == n,
            well_indexed(pre),
            well_indexed(nodes@),
            ins_len == pre[i as int].inputs@.len(),
            k <= ins_len,
            forall|j: int|
                0 <= j < n ==> {
                    &&& (#[trigger] nodes@[j]).ty == pre[j].ty
                    &&& nodes@[j].inputs@ == pre[j].inputs@
                    &&& same_payload(pre[j], nodes@[j])
                },
            forall|j: int, u: NodeId|
                0 <= j < n && u != i ==> (#[trigger] nodes@[j].updates@.contains(u)
                    <==> pre[j].updates@.contains(u)),
            forall|j: int|
                0 <= j < n ==> (#[trigger] nodes@[j].updates@.contains(i) <==> (
                pre[j].updates@.contains(i) && !has_input_among(pre[i as int], j as NodeId, k as int))),
            forall|j: int|
                0 <= j < n ==> (#[trigger] nodes@[j]).updates@ == (if has_input_among(pre[i as int], j as NodeId, k as int) {
                    drop_val(pre[j].updates@, i)
                } else {
                    pre[j].updates@
                }),
        decreases ins_len - k,
    {
        assert(nodes@[i as int].inputs@ == pre[i as int].inputs@);
        assert(pre[i as int].inputs@[k as int].to < n);
        assert(nodes@[i as int].inputs@ == pre[i as int].inputs@);
        assert(pre[i as int].inputs@[k as int].to < n);
        let src = nodes[i].inputs[k].to;
        let nu = without(&nodes[src].updates, i);
        nodes[src].updates = nu;
        proof {
            assert forall|j: int|
                0 <= j < n implies (#[trigger] nodes@[j].updates@.contains(i) <==> (
                pre[j].updates@.contains(i) && !has_input_among(pre[i as int], j as NodeId, k + 1)))
                by {
                if pre[i as int].inputs@[k as int].to == j {
                    assert(has_input_among(pre[i as int], j as NodeId, k + 1));
                } else if has_input_among(pre[i as int], j as NodeId, k + 1) {
                    let k2 = choose|k2: int| 0 <= k2 < k + 1 && #[trigger] pre[i as int].inputs@[k2].to == j as NodeId;
                    assert(has_input_among(pre[i as int], j as NodeId, k as int));
                }
            }
            lemma_drop_val_idem(pre[src as int].updates@, i);
            assert forall|j: int|
                0 <= j < n implies (#[trigger] nodes@[j]).updates@ == (if has_input_among(pre[i as int], j as NodeId, k + 1) {
                    drop_val(pre[j].updates@, i)
                } else {
                    pre[j].updates@
                }) by {
                if pre[i as int].inputs@[k as int].to == j {
                    assert(has_input_among(pre[i as int], j as NodeId, k + 1));
                } else if has_input_among(pre[i as int], j as NodeId, k + 1) {
                    let k2 = choose|k2: int| 0 <= k2 < k + 1 && #[trigger] pre[i as int].inputs@[k2].to == j as NodeId;
                    assert(has_input_among(pre[i as int], j as NodeId, k as int));
                }
            }
        }
        k += 1;
    }
    let ghost mid = nodes@;
    nodes[i].ty = NodeType::Constant;
    nodes[i].inputs = Vec::new();
    proof {
        let post = nodes@;
        assert forall|m: int| 0 <= m < n implies {
            &&& (#[trigger] post[m]).updates@ == mid[m].updates@
            &&& pre[m].ty == NodeType::Constant ==> post[m].ty == NodeType::Constant
            &&& m != i ==> post[m].ty == pre[m].ty && post[m].inputs@ == pre[m].inputs@
        } by {
            assert(mid[m].ty == pre[m].ty);
        }
        assert forall|j: int| 0 <= j < n implies #[trigger] has_input_from(pre[i as int], j as NodeId)
            == has_input_among(pre[i as int], j as NodeId, ins_len as int) by {
            if has_input_from(pre[i as int], j as NodeId) {
                let k2 = choose|k2: int| 0 <= k2 < pre[i as int].inputs@.len() && #[trigger] pre[i as int].inputs@[k2].to == j as NodeId;
                assert(pre[i as int].inputs@[k2].to == j as NodeId);
            }
        }
        assert forall|j: int| 0 <= j < n && j != i implies #[trigger] was_folded(orig, post, j) == was_folded(orig, pre, j) by {}
        assert(!was_folded(orig, pre, i as int));
        assert(was_folded(orig, post, i as int));
        assert forall|j: int, u: NodeId|
            0 <= j < n implies (#[trigger] post[j].updates@.contains(u) <==> keeps_dependent(orig, post, j, u)) by {
            assert(post[j].updates@ == mid[j].updates@);
            if u == i {
                assert(has_input_from(pre[i as int], j as NodeId) == has_input_among(pre[i as int], j as NodeId, ins_len as int));
                assert(mid[j].updates@.contains(i) <==> (pre[j].updates@.contains(i) && !has_input_among(pre[i as int], j as NodeId, ins_len as int)));
                assert(pre[j].updates@.contains(i) <==> keeps_dependent(orig, pre, j, i));
                assert(orig[i as int].inputs@ == pre[i as int].inputs@);
            } else if u < n {
                assert(post[u as int].ty == pre[u as int].ty);
                assert(mid[j].updates@.contains(u) <==> pre[j].updates@.contains(u));
                assert(pre[j].updates@.contains(u) <==> keeps_dependent(orig, pre, j, u));
            } else {
                assert(!orig[j].updates@.contains(u));
                assert(!mid[j].updates@.contains(u));
            }
        }
        assert forall|j: int| 0 <= j < n implies (#[trigger] post[j]).updates@ == surviving(orig, post, j, orig[j].updates@) by {
            assert(post[j].updates@ == mid[j].updates@);
            assert(pre[j].updates@ == surviving(orig, pre, j, orig[j].updates@));
            assert forall|u: NodeId| u != i implies drops(orig, pre, j, u) == drops(orig, post, j, u) by {
                if u < n {
                    assert(post[u as int].ty == pre[u as int].ty);
                }
            }
            assert(orig[i as int].inputs@ == pre[i as int].inputs@);
            if has_input_from(pre[i as int], j as NodeId) {
                lemma_surviving_drop(orig, pre, post, j, i, orig[j].updates@);
            } else {
                lemma_surviving_same(orig, pre, post, j, orig[j].updates@);
            }
        }
        assert forall|j: int| 0 <= j < n && #[trigger] was_folded(orig, post, j) implies {
            &&& !is_external_source(orig[j].ty)
            &&& post[j].inputs@.len() == 0
            &&& forall|k2: int|
                0 <= k2 < orig[j].inputs@.len() ==> #[trigger] post[orig[j].inputs@[k2].to as int].ty
                    == NodeType::Constant
        } by {
            if j != i {
                assert(was_folded(orig, pre, j));
                assert forall|k2: int| 0 <= k2 < orig[j].inputs@.len() implies #[trigger] post[orig[j].inputs@[k2].to as int].ty
                    == NodeType::Constant by {
                    assert(pre[orig[j].inputs@[k2].to as int].ty == NodeType::Constant);
                    assert(orig[j].inputs@[k2].to < n);
                }
            } else {
                assert(orig[i as int].inputs@ == pre[i as int].inputs@);
                assert forall|k2: int| 0 <= k2 < orig[j].inputs@.len() implies #[trigger] post[orig[j].inputs@[k2].to as int].ty
                    == NodeType::Constant by {
                    assert(pre[pre[i as int].inputs@[k2].to as int].ty == NodeType::Constant);
                    assert(pre[i as int].inputs@[k2].to < n);
                }
            }
        }
        assert forall|j: int| 0 <= j < n && !#[trigger] was_folded(orig, post, j) implies {
            &&& post[j].ty == orig[j].ty
            &&& post[j].inputs@ == orig[j].inputs@
        } by {
            assert(!was_folded(orig, pre, j));
        }
        assert forall|j: int| 0 <= j < n implies #[trigger] same_payload(orig[j], post[j]) by {
            assert(same_payload(orig[j], pre[j]));
            assert(same_payload(pre[j], post[j]));
        }
    }
}

/// Folds every node that can be proved constant, until none is left, and
/// returns how many nodes were folded. A node is folded when it is not a
/// constant already, is not a lever, button or pressure plate, and all of its
/// inputs come from constants: it becomes a constant that keeps its current
/// power, and it loses its inputs.
pub fn constant_fold(nodes: &mut Vec<Node>) -> (folded: usize)
    requires
        well_indexed(old(nodes)@),
    ensures
        fold_result(old(nodes)@, final(nodes)@),
        well_indexed(final(nodes)@),
        folded == folded_set(old(nodes)@, final(nodes)@).len(),
{
    let ghost orig = nodes@;
    let n = nodes.len();
    let mut count: usize = 0;
    proof {
        assert(folded_set(orig, nodes@) =~= Set::empty());
        assert forall|j: int, u: NodeId|
            0 <= j < n implies (#[trigger] nodes@[j].updates@.contains(u) <==> keeps_dependent(orig, nodes@, j, u)) by {}
        assert forall|j: int| 0 <= j < n implies (#[trigger] nodes@[j]).updates@ == surviving(orig, nodes@, j, orig[j].updates@) by {
            lemma_surviving_all(orig, nodes@, j, orig[j].updates@);
        }
    }
    loop
        invariant
            nodes@.len() == n,
            orig.len() == n,
            well_indexed(orig),
            well_indexed(nodes@),
            folds_of(orig, nodes@),
            count == folded_set(orig, nodes@).len(),
            count <= n,
            at_fixed_point(orig) ==> count == 0 && forall|i: int|
                0 <= i < n ==> #[trigger] same_node(orig[i], nodes@[i]),
            forall|i: int|
                0 <= i < n && (#[trigger] nodes@[i]).ty == NodeType::Constant ==> settles(orig, i, count as nat),
        ensures
            at_fixed_point(nodes@),
        decreases n - count,
    {
        let count_at_pass_start = count;
        let mut i: usize = 0;
        while i < n
            invariant
                nodes@.len() == n,
                orig.len() == n,
                i <= n,
                well_indexed(orig),
                well_indexed(nodes@),
                folds_of(orig, nodes@),
                count == folded_set(orig, nodes@).len(),
                count <= n,
                count_at_pass_start <= count,
                at_fixed_point(orig) ==> count == 0 && forall|i: int|
                    0 <= i < n ==> #[trigger] same_node(orig[i], nodes@[i]),
                count == count_at_pass_start ==> forall|j: int| 0 <= j < i ==> !#[trigger] foldable(nodes@, j),
                forall|i: int|
                    0 <= i < n && (#[trigger] nodes@[i]).ty == NodeType::Constant ==> settles(orig, i, count as nat),
            decreases n - i,
        {
            let skip = match nodes[i].ty {
                NodeType::Constant | NodeType::Lever | NodeType::StonePressurePlate
                | NodeType::StoneButton => true,
                _ => false,
            };
            if skip || !inputs_constant(nodes, i) {
                i += 1;
            } else {
                proof {
                    if at_fixed_point(orig) {
                        assert(same_node(orig[i as int], nodes@[i as int]));
                        assert forall|k: int| 0 <= k < orig[i as int].inputs@.len() implies
                            #[trigger] orig[orig[i as int].inputs@[k].to as int].ty == NodeType::Constant by {
                            assert(nodes@[nodes@[i as int].inputs@[k].to as int].ty == NodeType::Constant);
                            assert(same_node(orig[orig[i as int].inputs@[k].to as int], nodes@[orig[i as int].inputs@[k].to as int]));
                        }
                        assert(foldable(orig, i as int));
                    }
                }
                let ghost pre = nodes@;
                fold_node(nodes, i, Ghost(orig));
                proof {
                    let post = nodes@;
                    assert(!was_folded(orig, pre, i as int));
                    assert(pre[i as int].ty == orig[i as int].ty);
                    assert(was_folded(orig, post, i as int));
                    assert forall|j: int| #[trigger] folded_set(orig, post).contains(j) <==> folded_set(orig, pre).insert(i as int).contains(j) by {
                        if 0 <= j < n && j != i {
                            assert(post[j].ty == pre[j].ty);
                        }
                    }
                    assert(folded_set(orig, post) =~= folded_set(orig, pre).insert(i as int));
                    lemma_folded_set_bounded(orig, pre);
                    lemma_folded_set_bounded(orig, post);
                    assert forall|j: int|
                        0 <= j < n && (#[trigger] post[j]).ty == NodeType::Constant implies settles(orig, j, count as nat + 1) by {
                        if j == i {
                            assert(pre[i as int].inputs@ == orig[i as int].inputs@);
                            assert forall|k: int| 0 <= k < orig[j].inputs@.len() implies #[trigger] settles(
                                orig, orig[j].inputs@[k].to as int, count as nat) by {
                                assert(pre[pre[i as int].inputs@[k].to as int].ty == NodeType::Constant);
                                assert(orig[j].inputs@[k].to < n);
                            }
                            assert(pre[i as int].ty == orig[i as int].ty);
                            assert(forall|k: int| #![trigger orig[j].inputs@[k]]
                                0 <= k < orig[j].inputs@.len() ==> settles(orig, orig[j].inputs@[k].to as int, count as nat));
                            assert(settles(orig, j, (count + 1) as nat));
                        } else {
                            assert(post[j].ty == pre[j].ty);
                            assert(pre[j].ty == NodeType::Constant);
                            lemma_settles_mono(orig, j, count as nat);
                        }
                    }
                }
                count += 1;
                i += 1;
            }
        }
        if count == count_at_pass_start {
            assert(at_fixed_point(nodes@));
            break;
        }
    }
    proof {
        let post = nodes@;
        assert forall|i: int| 0 <= i < n implies ((#[trigger] post[i]).ty == NodeType::Constant <==> exists|d: nat|
            settles(orig, i, d)) by {
            if post[i].ty == NodeType::Constant {
                assert(settles(orig, i, count as nat));
            }
            if exists|d: nat| settles(orig, i, d) {
                let d = choose|d: nat| settles(orig, i, d);
                settled_nodes_are_folded(orig, post, i, d);
            }
        }
    }
    count
}

/// Folding is idempotent: running the folder on its own result changes no
/// node.
pub proof fn fold_idempotent(a: Seq<Node>, b: Seq<Node>, c: Seq<Node>)
    requires
        fold_result(a, b),
        fold_result(b, c),
    ensures
        forall|i: int| 0 <= i < b.len() ==> #[trigger] same_node(b[i], c[i]),
{
}

/// Folding keeps the forward and backward edges in agreement.
pub proof fn fold_keeps_consistency(before: Seq<Node>, after: Seq<Node>)
    requires
        well_indexed(before),
        consistent(before),
        folds_of(before, after),
        before.len() <= usize::MAX,
    ensures
        consistent(after),
{
    assert forall|x: int, y: int|
        0 <= x < after.len() && 0 <= y < after.len() implies (#[trigger] has_input_from(after[x], y as NodeId)
            <==> #[trigger] after[y].updates@.contains(x as NodeId)) by {
        assert((x as NodeId) as int == x);
        assert(has_input_from(before[x], y as NodeId) <==> before[y].updates@.contains(x as NodeId));
        assert(after[y].updates@.contains(x as NodeId) <==> keeps_dependent(before, after, y, x as NodeId));
        if was_folded(before, after, x) {
            assert(!has_input_from(after[x], y as NodeId));
        } else {
            assert(after[x].inputs@ == before[x].inputs@);
            if has_input_from(after[x], y as NodeId) {
                let k = choose|k: int| 0 <= k < after[x].inputs@.len() && #[trigger] after[x].inputs@[k].to == y as NodeId;
                assert(before[x].inputs@[k].to == y as NodeId);
            }
            if has_input_from(before[x], y as NodeId) {
                let k = choose|k: int| 0 <= k < before[x].inputs@.len() && #[trigger] before[x].inputs@[k].to == y as NodeId;
                assert(after[x].inputs@[k].to == y as NodeId);
            }
        }
    }
}

} // verus!
