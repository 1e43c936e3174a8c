//! Chain grouping: nodes that form a linear pipeline, each with one input
//! whose source has one dependent, share a group id.

use crate::node::{consistent, has_input_from, well_indexed, Node, NodeId, NodeType};
use vstd::prelude::*;
use vstd::set_lib::{lemma_int_range, lemma_len_subset, set_int_range};

verus! {

/// The backward walk goes on from `q`: it has one input, whose source has
/// one dependent.
pub open spec fn walks_back(nodes: Seq<Node>, q: int) -> bool {
    nodes[q].inputs@.len() == 1 && nodes[nodes[q].inputs@[0].to as int].updates@.len() == 1
}

/// The node reached from `q` after `k` steps back along first inputs.
pub open spec fn back_from(nodes: Seq<Node>, q: int, k: nat) -> int
    decreases k,
{
    if k == 0 {
        q
    } else {
        nodes[back_from(nodes, q, (k - 1) as nat)].inputs@[0].to as int
    }
}

/// `q` continues a chain from `p`: `q` has exactly one input, from `p`, and
/// `p` has exactly one dependent, `q`.
pub open spec fn chain_link(nodes: Seq<Node>, p: int, q: int) -> bool {
    &&& nodes[q].inputs@.len() == 1
    &&& nodes[q].inputs@[0].to == p
    &&& nodes[p].updates@.len() == 1
    &&& nodes[p].updates@[0] == q
}

/// A chain link that starts at a head of a chain (where the walk back
/// stops), with neither end a wire.
pub open spec fn head_link(nodes: Seq<Node>, p: int, q: int) -> bool {
    &&& chain_link(nodes, p, q)
    &&& !walks_back(nodes, p)
    &&& nodes[p].ty != NodeType::Wire
    &&& nodes[q].ty != NodeType::Wire
}

/// Node `k` is grouped together with its only source, over a chain link.
pub open spec fn linked(nodes: Seq<Node>, groups: Seq<Option<usize>>, k: int) -> bool {
    &&& nodes[k].inputs@.len() == 1
    &&& chain_link(nodes, nodes[k].inputs@[0].to as int, k)
    &&& groups[nodes[k].inputs@[0].to as int] == groups[k]
}

/// Node `k` is the first node of its group: it is grouped, and the walk
/// back stops at it.
pub open spec fn is_first(nodes: Seq<Node>, groups: Seq<Option<usize>>, k: int) -> bool {
    groups[k].is_some() && !walks_back(nodes, k)
}

/// Walking back `d` links from `k`, each over a chain link within `k`'s
/// group, ends at the first node of that group.
pub open spec fn reaches_first(nodes: Seq<Node>, groups: Seq<Option<usize>>, k: int, d: nat) -> bool {
    &&& 0 <= back_from(nodes, k, d) < nodes.len()
    &&& is_first(nodes, groups, back_from(nodes, k, d))
    &&& groups[back_from(nodes, k, d)] == groups[k]
    &&& forall|j: nat|
        j < d ==> #[trigger] linked(nodes, groups, back_from(nodes, k, j)) && groups[back_from(nodes, k, j)]
            == groups[k] && 0 <= back_from(nodes, k, j) < nodes.len()
}

/// Walks back from `start` while the node has one input whose source has one
/// dependent, and returns the node where the walk stops. A walk that is still
/// going after as many steps as there are nodes is on a cycle with no head;
/// then `start` is returned.
pub fn walk_back(nodes: &[Node], start: NodeId) -> (head: NodeId)
    requires
        well_indexed(nodes@),
        start < nodes@.len(),
    ensures
        head < nodes@.len(),
        (exists|k: nat|
            k < nodes@.len() && head == back_from(nodes@, start as int, k) && !walks_back(nodes@, head as int)
                && forall|j: nat| j < k ==> #[trigger] walks_back(nodes@, back_from(nodes@, start as int, j)))
            || (head == start && forall|j: nat|
            j < nodes@.len() ==> #[trigger] walks_back(nodes@, back_from(nodes@, start as int, j))),
        head != start ==> nodes@[head as int].updates@.len() == 1 && !walks_back(nodes@, head as int),
{
    let n = nodes.len();
    let mut cur = start;
    let mut steps: usize = 0;
    while steps < n
        invariant
            n == nodes@.len(),
            well_indexed(nodes@),
            start < n,
            cur < n,
            steps <= n,
            cur == back_from(nodes@, start as int, steps as nat),
            forall|j: nat| j < steps ==> #[trigger] walks_back(nodes@, back_from(nodes@, start as int, j)),
            steps > 0 ==> nodes@[cur as int].updates@.len() == 1,
        decreases n - steps,
    {
        let node = &nodes[cur];
        if node.inputs.len() == 1 && nodes[node.inputs[0].to].updates.len() == 1 {
            assert(nodes@[cur as int].inputs@[0].to < n);
            assert(back_from(nodes@, start as int, (steps + 1) as nat) == nodes@[cur as int].inputs@[0].to as int);
            cur = node.inputs[0].to;
            steps += 1;
        } else {
            assert(!walks_back(nodes@, cur as int));
            return cur;
        }
    }
    start
}

/// The nodes that carry group id `g`.
spec fn members(groups: Seq<Option<usize>>, g: usize) -> Set<int> {
    Set::new(|k: int| 0 <= k < groups.len() && groups[k] == Some(g))
}

proof fn lemma_members_bounded(groups: Seq<Option<usize>>, g: usize)
    ensures
        members(groups, g).finite(),
        members(groups, g).len() <= groups.len(),
{
    lemma_int_range(0, groups.len() as int);
    lemma_len_subset(members(groups, g), set_int_range(0, groups.len() as int));
}

proof fn lemma_back_from_succ(nodes: Seq<Node>, q: int, j: nat)
    ensures
        back_from(nodes, q, j + 1) == back_from(nodes, nodes[q].inputs@[0].to as int, j),
    decreases j,
{
    let s = nodes[q].inputs@[0].to as int;
    let j1 = (j + 1) as nat;
    assert(back_from(nodes, q, j1) == nodes[back_from(nodes, q, j)].inputs@[0].to as int);
    if j == 0 {
        assert(back_from(nodes, q, 0) == q);
        assert(back_from(nodes, s, 0) == s);
    } else {
        let jm = (j - 1) as nat;
        lemma_back_from_succ(nodes, q, jm);
        assert(back_from(nodes, s, j) == nodes[back_from(nodes, s, jm)].inputs@[0].to as int);
    }
}

/// Giving an ungrouped node a group keeps every walk to a first node.
proof fn lemma_reach_kept(nodes: Seq<Node>, groups: Seq<Option<usize>>, x: int, v: Option<usize>, k: int, d: nat)
    requires
        0 <= x < groups.len(),
        groups.len() == nodes.len(),
        groups[x].is_none(),
        0 <= k < groups.len(),
        groups[k].is_some(),
        reaches_first(nodes, groups, k, d),
    ensures
        reaches_first(nodes, groups.update(x, v), k, d),
{
    let g2 = groups.update(x, v);
    assert forall|j: nat| j < d implies #[trigger] linked(nodes, g2, back_from(nodes, k, j)) && g2[back_from(
        nodes,
        k,
        j,
    )] == g2[k] && 0 <= back_from(nodes, k, j) < nodes.len() by {
        let j1 = (j + 1) as nat;
        let y = back_from(nodes, k, j);
        let z = back_from(nodes, k, j1);
        assert(linked(nodes, groups, y));
        assert(z == nodes[y].inputs@[0].to as int);
        if j1 < d {
            assert(linked(nodes, groups, back_from(nodes, k, j1)));
        }
        assert(0 <= z < nodes.len());
        assert(groups[z] == groups[k]);
        assert(y != x && z != x && k != x);
        assert(g2[y] == groups[y] && g2[z] == groups[z] && g2[k] == groups[k]);
    }
}

/// Group `g` has a first node.
pub open spec fn has_first(nodes: Seq<Node>, groups: Seq<Option<usize>>, g: usize) -> bool {
    exists|h: int| 0 <= h < nodes.len() && #[trigger] is_first(nodes, groups, h) && groups[h] == Some(g)
}

/// The invariant of the grouping loop, over the first node of each group.
spec fn grouping_inv(nodes: Seq<Node>, groups: Seq<Option<usize>>, firsts: Seq<int>, open_end: int) -> bool {
    &&& groups.len() == nodes.len()
    &&& forall|k: int|
        0 <= k < groups.len() && (#[trigger] groups[k]).is_some() ==> groups[k].unwrap() < firsts.len()
    &&& forall|g: int|
        0 <= g < firsts.len() ==> 0 <= #[trigger] firsts[g] < nodes.len() && groups[firsts[g]] == Some(
            g as usize,
        ) && !walks_back(nodes, firsts[g]) && nodes[firsts[g]].ty != NodeType::Wire
    &&& forall|k: int|
        0 <= k < groups.len() && #[trigger] is_first(nodes, groups, k) ==> k == firsts[groups[k].unwrap() as int]
    &&& forall|k: int|
        0 <= k < groups.len() && (#[trigger] groups[k]).is_some() ==> exists|d: nat| reaches_first(nodes, groups, k, d)
    &&& forall|p: int, q: int|
        0 <= p < nodes.len() && 0 <= q < nodes.len() && p != open_end && #[trigger] chain_link(nodes, p, q)
            ==> groups[p] == groups[q]
}

/// Assigns a group id to the nodes of each chain and returns, per node, its
/// group or `None`. For each node that is not a wire and not yet grouped, the
/// head of its chain is found by walking back; if the head is another node,
/// not a wire and not yet grouped, a new group starts at the head and
/// follows chain links forward: it goes on while the node has exactly one
/// dependent and that dependent has exactly one input, from the node.
///
/// So ids run from 0 up without gaps; each group has one first node, which
/// is no wire; every other member reaches it by walking back over chain links
/// within the group; a node with more than one input is only ever the first
/// node of its group; where edges agree, a node with more than one dependent
/// shares its id with a dependent only if that dependent is the group's
/// first node; and both ends of every chain link carry the same group.
pub fn group(nodes: &[Node]) -> (groups: Vec<Option<usize>>)
    requires
        well_indexed(nodes@),
    ensures
        groups@.len() == nodes@.len(),
        forall|k: int, g: usize|
            #![trigger groups@[k], has_first(nodes@, groups@, g)]
            0 <= k < nodes@.len() && groups@[k].is_some() && g <= groups@[k].unwrap() ==> has_first(nodes@, groups@, g),
        forall|h1: int, h2: int|
            0 <= h1 < nodes@.len() && 0 <= h2 < nodes@.len() && #[trigger] is_first(nodes@, groups@, h1)
                && #[trigger] is_first(nodes@, groups@, h2) && groups@[h1] == groups@[h2] ==> h1 == h2,
        forall|h: int| 0 <= h < nodes@.len() && #[trigger] is_first(nodes@, groups@, h) ==> nodes@[h].ty != NodeType::Wire,
        forall|k: int|
            0 <= k < nodes@.len() && (#[trigger] groups@[k]).is_some() ==> exists|d: nat| reaches_first(nodes@, groups@, k, d),
        forall|b: int|
            0 <= b < nodes@.len() && (#[trigger] groups@[b]).is_some() && nodes@[b].inputs@.len() != 1 ==> is_first(nodes@, groups@, b),
        consistent(nodes@) ==> forall|a: int, b: int|
            0 <= a < nodes@.len() && 0 <= b < nodes@.len() && nodes@[a].updates@.len() > 1
                && #[trigger] nodes@[a].updates@.contains(b as NodeId) && groups@[a].is_some() && #[trigger] groups@[b] == groups@[a]
                ==> is_first(nodes@, groups@, b),
        forall|p: int, q: int|
            0 <= p < nodes@.len() && 0 <= q < nodes@.len() && #[trigger] chain_link(nodes@, p, q) ==> groups@[p] == groups@[q],
        forall|p: int, q: int|
            0 <= p < nodes@.len() && 0 <= q < nodes@.len() && #[trigger] head_link(nodes@, p, q) ==> groups@[q].is_some(),
{
    let n = nodes.len();
    let mut groups: Vec<Option<usize>> = Vec::new();
    let mut k: usize = 0;
    while k < n
        invariant
            k <= n,
            groups@.len() == k,
            forall|j: int| 0 <= j < k ==> groups@[j] == None::<usize>,
        decreases n - k,
    {
        groups.push(None);
        k += 1;
    }
    let ghost mut firsts: Seq<int> = Seq::empty();
    let mut num_groups: usize = 0;
    let mut i: usize = 0;
    while i < n
        invariant
            n == nodes@.len(),
            well_indexed(nodes@),
            i <= n,
            num_groups <= i,
            firsts.len() == num_groups,
            grouping_inv(nodes@, groups@, firsts, -1),
            forall|p: int, q: int|
                0 <= p < n && 0 <= q < i && #[trigger] head_link(nodes@, p, q) ==> groups@[q].is_some(),
        decreases n - i,
    {
        if nodes[i].ty == NodeType::Wire || groups[i].is_some() {
            i += 1;
            continue;
        }
        let start = walk_back(nodes, i);
        let ghost hl = exists|p: int| 0 <= p < n && #[trigger] head_link(nodes@, p, i as int);
        proof {
            if hl {
                let p = choose|p: int| 0 <= p < n && #[trigger] head_link(nodes@, p, i as int);
                assert(walks_back(nodes@, i as int));
                assert(back_from(nodes@, i as int, 0) == i);
                assert(back_from(nodes@, i as int, 1) == p);
                if start == i {
                    assert(walks_back(nodes@, back_from(nodes@, i as int, 0)));
                    assert(!walks_back(nodes@, back_from(nodes@, i as int, 1)));
                }
                assert(start != i);
                assert(start == p) by {
                    let k = choose|k: nat|
                        k < n && start == back_from(nodes@, i as int, k) && !walks_back(nodes@, start as int)
                            && forall|j: nat| j < k ==> #[trigger] walks_back(nodes@, back_from(nodes@, i as int, j));
                    if k == 0 {
                    } else if k >= 2 {
                        assert(walks_back(nodes@, back_from(nodes@, i as int, 1)));
                    }
                }
                if groups@[start as int].is_some() {
                    assert(chain_link(nodes@, start as int, i as int));
                }
            }
        }
        if i == start || nodes[start].ty == NodeType::Wire || groups[start].is_some() {
            i += 1;
            continue;
        }
        let g = num_groups;
        num_groups += 1;
        proof {
            assert(members(groups@, g) =~= Set::empty());
        }
        let ghost entry = groups@;
        let mut ptr = start;
        groups.set(ptr, Some(g));
        proof {
            assert forall|k: int| 0 <= k < n && (#[trigger] entry[k]).is_some() implies exists|d: nat|
                reaches_first(nodes@, groups@, k, d) by {
                let d = choose|d: nat| reaches_first(nodes@, entry, k, d);
                lemma_reach_kept(nodes@, entry, start as int, Some(g), k, d);
            }
            assert(back_from(nodes@, start as int, 0) == start);
            assert(reaches_first(nodes@, groups@, start as int, 0));
            let old_firsts = firsts;
            firsts = firsts.push(start as int);
            assert forall|gg: int| 0 <= gg < firsts.len() implies 0 <= #[trigger] firsts[gg] < n && groups@[firsts[gg]] == Some(
                gg as usize) && !walks_back(nodes@, firsts[gg]) && nodes@[firsts[gg]].ty != NodeType::Wire by {
                if gg < old_firsts.len() {
                    assert(old_firsts[gg] == firsts[gg]);
                    assert(entry[old_firsts[gg]] == Some(gg as usize));
                }
            }
            assert forall|k: int| 0 <= k < n && #[trigger] is_first(nodes@, groups@, k) implies k == firsts[groups@[k].unwrap() as int] by {
                if k != start {
                    assert(is_first(nodes@, entry, k));
                }
            }
            assert forall|k: int| 0 <= k < n && (#[trigger] groups@[k]).is_some() implies groups@[k].unwrap() < firsts.len() by {
                if k != start {
                    assert(entry[k].is_some());
                }
            }
            assert forall|p: int, q: int|
                0 <= p < n && 0 <= q < n && p != start && #[trigger] chain_link(nodes@, p, q)
                    implies groups@[p] == groups@[q] by {
                if q == start {
                    assert(walks_back(nodes@, q));
                }
            }
            assert(members(groups@, g) =~= Set::empty().insert(start as int));
        }
        loop
            invariant
                n == nodes@.len(),
                well_indexed(nodes@),
                ptr < n,
                i < n,
                g < num_groups,
                num_groups <= i + 1,
                firsts.len() == num_groups,
                groups@[ptr as int] == Some(g),
                grouping_inv(nodes@, groups@, firsts, ptr as int),
                entry.len() == n,
                forall|k: int| 0 <= k < n && (#[trigger] entry[k]).is_some() ==> groups@[k] == entry[k],
                hl ==> chain_link(nodes@, start as int, i as int) && (ptr == start || groups@[i as int].is_some()),
            ensures
                firsts.len() == num_groups,
                grouping_inv(nodes@, groups@, firsts, -1),
                forall|k: int| 0 <= k < n && (#[trigger] entry[k]).is_some() ==> groups@[k] == entry[k],
                hl ==> groups@[i as int].is_some(),
            decreases n - members(groups@, g).len(),
        {
            proof {
                lemma_members_bounded(groups@, g);
            }
            if nodes[ptr].updates.len() != 1 {
                break;
            }
            let next = nodes[ptr].updates[0];
            assert(nodes@[ptr as int].updates@.contains(next));
            if nodes[next].inputs.len() != 1 || nodes[next].inputs[0].to != ptr {
                break;
            }
            if groups[next].is_some() {
                proof {
                    assert(chain_link(nodes@, ptr as int, next as int));
                    assert(walks_back(nodes@, next as int));
                    assert(!is_first(nodes@, groups@, next as int));
                    let d = choose|d: nat| reaches_first(nodes@, groups@, next as int, d);
                    assert(back_from(nodes@, next as int, 0) == next);
                    assert(linked(nodes@, groups@, back_from(nodes@, next as int, 0)));
                }
                break;
            }
            let ghost before = groups@;
            groups.set(next, Some(g));
            proof {
                assert(chain_link(nodes@, ptr as int, next as int));
                assert forall|k: int| 0 <= k < n && (#[trigger] before[k]).is_some() implies exists|d: nat|
                    reaches_first(nodes@, groups@, k, d) by {
                    let d = choose|d: nat| reaches_first(nodes@, before, k, d);
                    lemma_reach_kept(nodes@, before, next as int, Some(g), k, d);
                }
                let dp = choose|d: nat| reaches_first(nodes@, groups@, ptr as int, d);
                assert(reaches_first(nodes@, groups@, next as int, dp + 1)) by {
                    lemma_back_from_succ(nodes@, next as int, dp);
                    assert forall|j: nat| j < dp + 1 implies #[trigger] linked(nodes@, groups@, back_from(nodes@, next as int, j))
                        && groups@[back_from(nodes@, next as int, j)] == groups@[next as int]
                        && 0 <= back_from(nodes@, next as int, j) < nodes@.len() by {
                        if j == 0 {
                            assert(back_from(nodes@, next as int, 0) == next);
                        } else {
                            lemma_back_from_succ(nodes@, next as int, (j - 1) as nat);
                            assert(linked(nodes@, groups@, back_from(nodes@, ptr as int, (j - 1) as nat)));
                        }
                    }
                }
                assert forall|k: int| 0 <= k < n && #[trigger] is_first(nodes@, groups@, k) implies k == firsts[groups@[k].unwrap() as int] by {
                    if k != next {
                        assert(is_first(nodes@, before, k));
                    }
                }
                assert forall|gg: int| 0 <= gg < firsts.len() implies 0 <= #[trigger] firsts[gg] < n && groups@[firsts[gg]] == Some(
                    gg as usize) && !walks_back(nodes@, firsts[gg]) && nodes@[firsts[gg]].ty != NodeType::Wire by {
                    assert(before[firsts[gg]] == Some(gg as usize));
                }
                assert forall|p: int, q: int|
                    0 <= p < n && 0 <= q < n && p != next && #[trigger] chain_link(nodes@, p, q)
                        implies groups@[p] == groups@[q] by {
                    if p == ptr {
                        assert(q == next);
                    } else {
                        assert(before[p] == before[q]);
                    }
                }
                assert(members(groups@, g) =~= members(before, g).insert(next as int));
                lemma_members_bounded(groups@, g);
            }
            ptr = next;
        }
        proof {
            assert forall|p: int, q: int|
                0 <= p < n && 0 <= q < i + 1 && #[trigger] head_link(nodes@, p, q) implies groups@[q].is_some() by {
                if q < i {
                    assert(entry[q].is_some());
                } else {
                    assert(hl);
                }
            }
        }
        i += 1;
    }
    proof {
        let gs = groups@;
        assert forall|k: int, gg: usize|
            #![trigger gs[k], has_first(nodes@, gs, gg)]
            0 <= k < n && gs[k].is_some() && gg <= gs[k].unwrap() implies has_first(nodes@, gs, gg) by {
            assert(is_first(nodes@, gs, firsts[gg as int]));
        }
        assert forall|h1: int, h2: int|
            0 <= h1 < n && 0 <= h2 < n && #[trigger] is_first(nodes@, gs, h1)
                && #[trigger] is_first(nodes@, gs, h2) && gs[h1] == gs[h2] implies h1 == h2 by {}
        assert forall|h: int| 0 <= h < n && #[trigger] is_first(nodes@, gs, h) implies nodes@[h].ty != NodeType::Wire by {
            assert(firsts[gs[h].unwrap() as int] == h);
        }
        if consistent(nodes@) {
            assert forall|a: int, b: int|
                0 <= a < n && 0 <= b < n && nodes@[a].updates@.len() > 1
                    && #[trigger] nodes@[a].updates@.contains(b as NodeId) && gs[a].is_some() && #[trigger] gs[b] == gs[a]
                    implies is_first(nodes@, gs, b) by {
                if !is_first(nodes@, gs, b) {
                    let d = choose|d: nat| reaches_first(nodes@, gs, b, d);
                    assert(back_from(nodes@, b, 0) == b);
                    if d == 0 {
                    } else {
                        assert(linked(nodes@, gs, back_from(nodes@, b, 0)));
                        assert((b as NodeId) as int == b);
                        assert(has_input_from(nodes@[b], a as NodeId));
                        let kk = choose|kk: int| 0 <= kk < nodes@[b].inputs@.len() && #[trigger] nodes@[b].inputs@[kk].to == a as NodeId;
                        assert(kk == 0);
                    }
                }
            }
        }
    }
    groups
}

/// A strict chain, each node the only dependent of the one before and having
/// it as its only input, carries one group id throughout, given an
/// assignment in which both ends of every chain link agree (as `group`
/// ensures).
pub proof fn strict_chain_shares_id(nodes: Seq<Node>, groups: Seq<Option<usize>>, chain: Seq<int>)
    requires
        forall|p: int, q: int|
            0 <= p < nodes.len() && 0 <= q < nodes.len() && #[trigger] chain_link(nodes, p, q) ==> groups[p] == groups[q],
        forall|k: int| 0 <= k < chain.len() ==> 0 <= #[trigger] chain[k] < nodes.len(),
        forall|k: int| 0 < k < chain.len() ==> #[trigger] chain_link(nodes, chain[k - 1], chain[k]),
    ensures
        forall|k: int| 0 <= k < chain.len() ==> #[trigger] groups[chain[k]] == groups[chain[0]],
    decreases chain.len(),
{
    if chain.len() > 1 {
        let front = chain.drop_last();
        assert forall|k: int| 0 < k < front.len() implies #[trigger] chain_link(nodes, front[k - 1], front[k]) by {
            assert(chain_link(nodes, chain[k - 1], chain[k]));
        }
        strict_chain_shares_id(nodes, groups, front);
        let l = chain.len() - 1;
        assert(chain_link(nodes, chain[l - 1], chain[l]));
        assert(groups[front[l - 1]] == groups[front[0]]);
        assert forall|k: int| 0 <= k < chain.len() implies #[trigger] groups[chain[k]] == groups[chain[0]] by {
            if k < l {
                assert(front[k] == chain[k]);
                assert(groups[front[k]] == groups[front[0]]);
            }
        }
    }
}

} // verus!
