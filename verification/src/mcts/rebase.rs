//! Re-rooting: keeping the subtree behind one root action and nothing else.
//!
//! The nodes that can still be reached are found breadth first and moved into a
//! fresh arena; every link is renumbered, and the transposition index is built
//! anew from the survivors.

use crate::game::Action;
use crate::mcts::search::{arena, schedule_fits, MctsSearcher, Node};
use crate::mcts::tree::{NodeView, TreeView, NO_NODE};
use crate::score::Score;
use std::collections::HashMap;
use vstd::prelude::*;

verus! {

/// Node `id` is listed.
pub open spec fn listed(order: Seq<u32>, id: int) -> bool {
    exists|i: int| 0 <= i < order.len() && #[trigger] order[i] == id
}

/// Where node `id` is listed.
pub open spec fn place(order: Seq<u32>, id: int) -> int {
    choose|i: int| 0 <= i < order.len() && #[trigger] order[i] == id
}

/// The node at place `i` is a child of a node listed before it.
pub open spec fn has_listed_parent(nodes: Seq<NodeView>, order: Seq<u32>, i: int) -> bool {
    exists|j: int, e: int|
        0 <= j < i && 0 <= e < nodes[order[j] as int].children.len()
            && #[trigger] nodes[order[j] as int].children[e] == order[i]
}

/// Edge `e` of the node at place `j` comes before edge `f` of the one at place
/// `k`.
pub open spec fn walked_before(j: int, e: int, k: int, f: int) -> bool {
    j < k || (j == k && e < f)
}

/// The node at place `i` is first found by edge `e` of the node at place `j`:
/// the edge leads to it, and no edge before that one does.
pub open spec fn found_by(nodes: Seq<NodeView>, order: Seq<u32>, i: int, j: int, e: int) -> bool {
    &&& 0 <= j < order.len()
    &&& 0 <= e < nodes[order[j] as int].children.len()
    &&& nodes[order[j] as int].children[e] == order[i]
    &&& forall|k: int, f: int|
        0 <= k < order.len() && 0 <= f < nodes[order[k] as int].children.len() && walked_before(
            k,
            f,
            j,
            e,
        ) ==> #[trigger] nodes[order[k] as int].children[f] != order[i]
}

/// The nodes are listed in the order they are first found in, walking the
/// listed nodes one after another and each node's edges in turn.
pub open spec fn breadth_first(nodes: Seq<NodeView>, order: Seq<u32>) -> bool {
    forall|i: int, j: int, e: int, l: int, k: int, f: int|
        #![trigger found_by(nodes, order, i, j, e), found_by(nodes, order, l, k, f)]
        0 < i < order.len() && 0 < l < order.len() && found_by(nodes, order, i, j, e) && found_by(
            nodes,
            order,
            l,
            k,
            f,
        ) ==> (i < l <==> walked_before(j, e, k, f))
}

/// `order` lists, each once and breadth first, the nodes that can be reached
/// from its first: every other one is a child of one listed before it, and no
/// child of a listed node is missing.
pub open spec fn lists_reachable(nodes: Seq<NodeView>, order: Seq<u32>) -> bool {
    &&& breadth_first(nodes, order)
    &&& order.len() >= 1
    &&& order.no_duplicates()
    &&& forall|i: int| 0 <= i < order.len() ==> #[trigger] order[i] < nodes.len()
    &&& forall|i: int| 0 < i < order.len() ==> #[trigger] has_listed_parent(nodes, order, i)
    &&& forall|i: int, e: int|
        0 <= i < order.len() && 0 <= e < nodes[order[i] as int].children.len() ==> {
            let child = #[trigger] nodes[order[i] as int].children[e];
            child == NO_NODE || listed(order, child as int)
        }
}

/// A node with its links renumbered.
pub open spec fn renumbered(node: NodeView, order: Seq<u32>) -> NodeView {
    NodeView {
        children: Seq::new(
            node.children.len(),
            |e: int|
                if node.children[e] == NO_NODE {
                    NO_NODE
                } else {
                    place(order, node.children[e] as int) as u32
                },
        ),
        ..node
    }
}

/// The surviving nodes, in their new order.
pub open spec fn kept(nodes: Seq<NodeView>, order: Seq<u32>) -> Seq<NodeView> {
    Seq::new(order.len(), |i: int| renumbered(nodes[order[i] as int], order))
}

/// The index holds, for every key of a node but the root, the first node with
/// that key, and nothing else.
pub open spec fn first_index(nodes: Seq<NodeView>, dag: bool, index: Map<u64, u32>) -> bool {
    &&& crate::mcts::tree::index_wf(nodes, dag, index)
    &&& forall|k: u64, i: int|
        #![trigger index.contains_key(k), nodes[i]]
        index.contains_key(k) && 1 <= i < index[k] ==> nodes[i].state.hash != k
}

/// `edge` is the first edge of the root that plays `action`.
pub open spec fn plays(root: NodeView, action: Action, edge: int) -> bool {
    &&& 0 <= edge < root.actions.len()
    &&& root.actions[edge] == action
    &&& forall|e: int| 0 <= e < edge ==> #[trigger] root.actions[e] != action
}

/// `w` is `v` with the nodes that `order` lists, under the numbers it gives them,
/// and everything the search has counted.
pub open spec fn re_rooted(v: TreeView, w: TreeView, order: Seq<u32>) -> bool {
    w == (TreeView { nodes: kept(v.nodes, order), index: w.index, plan: w.plan, ..v })
}

/// `action` leads to a node.
pub open spec fn can_rebase(v: TreeView, action: Action) -> bool {
    !v.nodes[0].terminal && exists|edge: int|
        #[trigger] plays(v.nodes[0], action, edge) && v.nodes[0].children[edge] != NO_NODE
}

/// Nodes that a chain of links leads to, one step at a time.
pub open spec fn reaches(nodes: Seq<NodeView>, from: int, to: int, steps: nat) -> bool
    decreases steps,
{
    if steps == 0 {
        from == to
    } else {
        exists|mid: int, e: int|
            reaches(nodes, from, mid, (steps - 1) as nat) && 0 <= mid < nodes.len() && 0 <= e
                < nodes[mid].children.len() && #[trigger] nodes[mid].children[e] == to
    }
}

/// Every kept node can be reached from the new root.
pub proof fn kept_nodes_are_reachable(nodes: Seq<NodeView>, order: Seq<u32>, i: int)
    requires
        lists_reachable(nodes, order),
        0 <= i < order.len(),
    ensures
        exists|steps: nat| reaches(nodes, order[0] as int, order[i] as int, steps),
    decreases i,
{
    if i == 0 {
        assert(reaches(nodes, order[0] as int, order[0] as int, 0));
    } else {
        assert(has_listed_parent(nodes, order, i));
        let (j, e) = choose|j: int, e: int|
            0 <= j < i && 0 <= e < nodes[order[j] as int].children.len()
                && #[trigger] nodes[order[j] as int].children[e] == order[i];
        kept_nodes_are_reachable(nodes, order, j);
        let steps = choose|steps: nat|
            reaches(nodes, order[0] as int, order[j] as int, steps);
        assert(nodes[order[j] as int].children[e] == order[i]);
        assert(reaches(nodes, order[0] as int, order[i] as int, steps + 1));
    }
}

/// Every node that can be reached from the new root is kept.
pub proof fn reachable_nodes_are_kept(nodes: Seq<NodeView>, order: Seq<u32>, to: int, steps: nat)
    requires
        lists_reachable(nodes, order),
        nodes.len() <= NO_NODE,
        0 <= to < NO_NODE,
        reaches(nodes, order[0] as int, to, steps),
    ensures
        listed(order, to),
    decreases steps,
{
    if steps == 0 {
        assert(order[0] == to);
    } else {
        let (mid, e) = choose|mid: int, e: int|
            reaches(nodes, order[0] as int, mid, (steps - 1) as nat) && 0 <= mid < nodes.len()
                && 0 <= e < nodes[mid].children.len() && #[trigger] nodes[mid].children[e] == to;
        reachable_nodes_are_kept(nodes, order, mid, (steps - 1) as nat);
        let i = choose|i: int| 0 <= i < order.len() && #[trigger] order[i] == mid;
        assert(nodes[order[i] as int].children[e] == to);
    }
}

proof fn place_is(order: Seq<u32>, i: int)
    requires
        order.no_duplicates(),
        0 <= i < order.len(),
    ensures
        place(order, order[i] as int) == i,
{
    let p = place(order, order[i] as int);
    assert(0 <= p < order.len() && order[p] == order[i]);
}

/// The nodes that can be reached from `from`, breadth first.
fn reachable(nodes: &Vec<Node>, from: u32) -> (r: Vec<u32>)
    requires
        1 <= nodes@.len() <= NO_NODE,
        from < nodes@.len(),
        crate::mcts::tree::links_wf(arena(nodes@)),
    ensures
        lists_reachable(arena(nodes@), r@),
        r@[0] == from,
{
    let ghost view = arena(nodes@);
    let mut found: Vec<bool> = Vec::new();
    let mut i: usize = 0;
    while i < nodes.len()
        invariant
            i <= nodes@.len(),
            found@.len() == i,
            forall|k: int| 0 <= k < i ==> !#[trigger] found@[k],
        decreases nodes@.len() - i,
    {
        found.push(false);
        i += 1;
    }
    let mut order: Vec<u32> = Vec::new();
    order.push(from);
    found.set(from as usize, true);
    let mut head: usize = 0;
    let ghost mut via: Seq<(int, int)> = seq![(-1int, -1int)];
    proof {
        assert(order@[0] == from);
        listing_fits(order@, found@);
    }
    while head < order.len()
        invariant
            view == arena(nodes@),
            1 <= nodes@.len() <= NO_NODE,
            crate::mcts::tree::links_wf(view),
            found@.len() == nodes@.len(),
            head <= order@.len() <= nodes@.len(),
            order@.len() >= 1,
            order@[0] == from,
            order@.no_duplicates(),
            forall|k: int| 0 <= k < order@.len() ==> #[trigger] order@[k] < nodes@.len(),
            forall|k: int| 0 <= k < found@.len() ==> #[trigger] found@[k] == listed(order@, k),
            forall|k: int|
                0 < k < order@.len() ==> #[trigger] has_listed_parent(view, order@, k),
            found_in_turn(view, order@, via),
            found_up_to(via, head as int, 0),
            forall|k: int, e: int|
                0 <= k < head && 0 <= e < view[order@[k] as int].children.len() ==> {
                    let child = #[trigger] view[order@[k] as int].children[e];
                    child == NO_NODE || listed(order@, child as int)
                },
        decreases nodes@.len() - head,
    {
        let id: usize = order[head] as usize;
        assert(order@[head as int] < nodes@.len());
        let mut slot: usize = 0;
        let ghost settled = order@;
        assert(view[id as int] == nodes@[id as int]@);
        while slot < nodes[id].children.len()
            invariant
                view == arena(nodes@),
                1 <= nodes@.len() <= NO_NODE,
                crate::mcts::tree::links_wf(view),
                id < nodes@.len(),
                view[id as int] == nodes@[id as int]@,
                head < settled.len() <= order@.len() <= nodes@.len(),
                order@[head as int] == id,
                forall|k: int| 0 <= k < settled.len() ==> #[trigger] settled[k] == order@[k],
                found@.len() == nodes@.len(),
                order@[0] == from,
                order@.no_duplicates(),
                slot <= nodes@[id as int].children@.len(),
                forall|k: int| 0 <= k < order@.len() ==> #[trigger] order@[k] < nodes@.len(),
                forall|k: int|
                    0 <= k < found@.len() ==> #[trigger] found@[k] == listed(order@, k),
                forall|k: int|
                    0 < k < order@.len() ==> #[trigger] has_listed_parent(view, order@, k),
                found_in_turn(view, order@, via),
                found_up_to(via, head as int, slot as int),
                forall|k: int, e: int|
                    0 <= k < head && 0 <= e < view[settled[k] as int].children.len() ==> {
                        let child = #[trigger] view[settled[k] as int].children[e];
                        child == NO_NODE || listed(order@, child as int)
                    },
                forall|e: int|
                    0 <= e < slot ==> {
                        let child = #[trigger] view[id as int].children[e];
                        child == NO_NODE || listed(order@, child as int)
                    },
            decreases nodes@[id as int].children@.len() - slot,
        {
            let next: u32 = nodes[id].children[slot];
            assert(view[id as int].children[slot as int] == next);
            if next != NO_NODE && !found[next as usize] {
                let ghost before = order@;
                let ghost marks = found@;
                proof {
                    room_for_one_more(before, marks, next as int);
                    assert forall|k: int, f: int|
                        0 <= k < before.len() && 0 <= f < view[before[k] as int].children.len()
                            && walked_before(k, f, head as int, slot as int) implies
                        #[trigger] view[before[k] as int].children[f] != next by {
                        if k < head {
                            assert(settled[k] == before[k]);
                            assert(view[settled[k] as int].children[f]
                                == view[before[k] as int].children[f]);
                        } else {
                            assert(before[k] == id);
                        }
                    }
                    one_more_found(view, before, via, next, head as int, slot as int);
                    via = via.push((head as int, slot as int));
                }
                order.push(next);
                found.set(next as usize, true);
                proof {
                    let last = before.len() as int;
                    assert(order@[last] == next);
                    assert forall|k: int| 0 <= k < before.len() implies #[trigger] order@[k]
                        == before[k] by {}
                    assert(order@.no_duplicates()) by {
                        assert(!listed(before, next as int));
                        assert forall|a: int, b: int|
                            0 <= a < order@.len() && 0 <= b < order@.len() && a != b implies order@[a]
                            != order@[b] by {
                            if a == last {
                                assert(before[b] == order@[b]);
                            } else if b == last {
                                assert(before[a] == order@[a]);
                            }
                        }
                    }
                    assert forall|k: int| listed(order@, k) == (listed(before, k) || k == next) by {
                        listing_grows(before, next, k);
                    }
                    assert forall|k: int| 0 <= k < found@.len() implies #[trigger] found@[k]
                        == listed(order@, k) by {
                        assert(marks[k] == listed(before, k));
                    }
                    assert(has_listed_parent(view, order@, last)) by {
                        assert(view[order@[head as int] as int].children[slot as int]
                            == order@[last]);
                    }
                    assert forall|k: int| 0 < k < order@.len() implies #[trigger] has_listed_parent(
                        view,
                        order@,
                        k,
                    ) by {
                        if k < last {
                            assert(has_listed_parent(view, before, k));
                            let (j, e) = choose|j: int, e: int|
                                0 <= j < k && 0 <= e < view[before[j] as int].children.len()
                                    && #[trigger] view[before[j] as int].children[e] == before[k];
                            assert(view[order@[j] as int].children[e] == order@[k]);
                        }
                    }
                }
            }
            slot += 1;
        }
        proof {
            assert forall|k: int, e: int|
                0 <= k < head + 1 && 0 <= e < view[order@[k] as int].children.len() implies {
                let child = #[trigger] view[order@[k] as int].children[e];
                child == NO_NODE || listed(order@, child as int)
            } by {
                if k < head {
                    assert(settled[k] == order@[k]);
                    assert(view[settled[k] as int].children[e] == view[order@[k] as int].children[e]);
                } else {
                    assert(order@[k] == id);
                }
            }
        }
        head += 1;
    }
    proof {
        turns_are_breadth_first(view, order@, via);
    }
    order
}

/// `via` names, for every node but the first, the edge it is first found by,
/// each after the one before.
spec fn found_in_turn(nodes: Seq<NodeView>, order: Seq<u32>, via: Seq<(int, int)>) -> bool {
    &&& via.len() == order.len()
    &&& forall|i: int|
        0 < i < order.len() ==> found_by(nodes, order, i, (#[trigger] via[i]).0, via[i].1)
    &&& forall|i: int, l: int|
        0 < i < l < order.len() ==> walked_before(
            (#[trigger] via[i]).0,
            via[i].1,
            (#[trigger] via[l]).0,
            via[l].1,
        )
}

/// Every edge named lies before edge `slot` of the node at place `head`.
spec fn found_up_to(via: Seq<(int, int)>, head: int, slot: int) -> bool {
    forall|i: int|
        0 < i < via.len() ==> walked_before((#[trigger] via[i]).0, via[i].1, head, slot)
}

/// Listing a node that no edge walked so far leads to.
proof fn one_more_found(
    nodes: Seq<NodeView>,
    order: Seq<u32>,
    via: Seq<(int, int)>,
    next: u32,
    head: int,
    slot: int,
)
    requires
        order.len() >= 1,
        found_in_turn(nodes, order, via),
        found_up_to(via, head, slot),
        0 <= head < order.len(),
        0 <= slot < nodes[order[head] as int].children.len(),
        nodes[order[head] as int].children[slot] == next,
        forall|k: int, f: int|
            0 <= k < order.len() && 0 <= f < nodes[order[k] as int].children.len()
                && walked_before(k, f, head, slot) ==> #[trigger] nodes[order[k] as int].children[f]
                != next,
    ensures
        found_in_turn(nodes, order.push(next), via.push((head, slot))),
        found_up_to(via.push((head, slot)), head, slot + 1),
{
    let grown = order.push(next);
    let named = via.push((head, slot));
    let last = order.len() as int;
    assert forall|i: int| 0 < i < grown.len() implies found_by(
        nodes,
        grown,
        i,
        (#[trigger] named[i]).0,
        named[i].1,
    ) by {
        let (j, e) = named[i];
        if i < last {
            assert(named[i] == via[i]);
            assert(found_by(nodes, order, i, j, e));
        }
        assert(0 <= j < order.len());
        assert forall|k: int, f: int|
            0 <= k < grown.len() && 0 <= f < nodes[grown[k] as int].children.len()
                && walked_before(k, f, j, e) implies
            #[trigger] nodes[grown[k] as int].children[f] != grown[i] by {
            assert(grown[k] == order[k]);
            assert(nodes[order[k] as int].children[f] == nodes[grown[k] as int].children[f]);
        }
    }
    assert forall|i: int, l: int| 0 < i < l < grown.len() implies walked_before(
        (#[trigger] named[i]).0,
        named[i].1,
        (#[trigger] named[l]).0,
        named[l].1,
    ) by {
        assert(named[i] == via[i]);
        if l < last {
            assert(named[l] == via[l]);
        }
    }
    assert forall|i: int| 0 < i < named.len() implies walked_before(
        (#[trigger] named[i]).0,
        named[i].1,
        head,
        slot + 1,
    ) by {
        if i < last {
            assert(named[i] == via[i]);
        }
    }
}

/// One edge only is the first to find a node.
proof fn one_edge_finds_it(
    nodes: Seq<NodeView>,
    order: Seq<u32>,
    i: int,
    j: int,
    e: int,
    k: int,
    f: int,
)
    requires
        found_by(nodes, order, i, j, e),
        found_by(nodes, order, i, k, f),
    ensures
        j == k,
        e == f,
{
    if walked_before(j, e, k, f) {
        assert(nodes[order[j] as int].children[e] != order[i]);
    } else if walked_before(k, f, j, e) {
        assert(nodes[order[k] as int].children[f] != order[i]);
    }
}

proof fn turns_are_breadth_first(nodes: Seq<NodeView>, order: Seq<u32>, via: Seq<(int, int)>)
    requires
        found_in_turn(nodes, order, via),
    ensures
        breadth_first(nodes, order),
{
    assert forall|i: int, j: int, e: int, l: int, k: int, f: int|
        #![trigger found_by(nodes, order, i, j, e), found_by(nodes, order, l, k, f)]
        0 < i < order.len() && 0 < l < order.len() && found_by(nodes, order, i, j, e) && found_by(
            nodes,
            order,
            l,
            k,
            f,
        ) implies (i < l <==> walked_before(j, e, k, f)) by {
        one_edge_finds_it(nodes, order, i, j, e, via[i].0, via[i].1);
        one_edge_finds_it(nodes, order, l, k, f, via[l].0, via[l].1);
        if i < l {
            assert(walked_before(via[i].0, via[i].1, via[l].0, via[l].1));
        } else if l < i {
            assert(walked_before(via[l].0, via[l].1, via[i].0, via[i].1));
        }
    }
}

proof fn listing_grows(order: Seq<u32>, next: u32, k: int)
    ensures
        listed(order.push(next), k) == (listed(order, k) || k == next),
{
    let grown = order.push(next);
    if listed(order, k) {
        let i = choose|i: int| 0 <= i < order.len() && #[trigger] order[i] == k;
        assert(grown[i] == k);
    }
    if k == next {
        assert(grown[order.len() as int] == k);
    }
    if listed(grown, k) && k != next {
        let i = choose|i: int| 0 <= i < grown.len() && #[trigger] grown[i] == k;
        assert(order[i] == k);
    }
}

/// The marks after the first node was listed.
proof fn listing_fits(order: Seq<u32>, found: Seq<bool>)
    requires
        order.len() == 1,
        order[0] < found.len(),
        forall|k: int| 0 <= k < found.len() ==> #[trigger] found[k] == (k == order[0]),
    ensures
        forall|k: int| 0 <= k < found.len() ==> #[trigger] found[k] == listed(order, k),
{
    assert forall|k: int| 0 <= k < found.len() implies #[trigger] found[k] == listed(order, k) by {
        if k == order[0] {
            assert(order[0] == k);
        }
    }
}

/// A list without repetitions that misses a node is shorter than the arena.
proof fn room_for_one_more(order: Seq<u32>, found: Seq<bool>, missing: int)
    requires
        order.no_duplicates(),
        forall|k: int| 0 <= k < order.len() ==> #[trigger] order[k] < found.len(),
        0 <= missing < found.len(),
        !listed(order, missing),
    ensures
        order.len() < found.len(),
{
    let all = vstd::set_lib::set_int_range(0, found.len() as int);
    let ids = order.map_values(|id: u32| id as int);
    vstd::set_lib::lemma_int_range(0, found.len() as int);
    assert(ids.no_duplicates()) by {
        assert forall|a: int, b: int|
            0 <= a < ids.len() && 0 <= b < ids.len() && a != b implies ids[a] != ids[b] by {
            assert(order[a] != order[b]);
        }
    }
    ids.unique_seq_to_set();
    let chosen = ids.to_set();
    assert(chosen.subset_of(all.remove(missing))) by {
        assert forall|k: int| chosen.contains(k) implies all.remove(missing).contains(k) by {
            let i = choose|i: int| 0 <= i < ids.len() && ids[i] == k;
            assert(order[i] == k);
        }
    }
    vstd::set_lib::lemma_len_subset(chosen, all.remove(missing));
}

/// A kept node lies further into the game than the new root.
proof fn kept_nodes_follow_the_root(nodes: Seq<NodeView>, order: Seq<u32>, i: int)
    requires
        lists_reachable(nodes, order),
        crate::mcts::tree::progress_wf(nodes),
        nodes.len() <= NO_NODE,
        0 < i < order.len(),
    ensures
        nodes[order[0] as int].state.precedes(nodes[order[i] as int].state),
    decreases i,
{
    assert(has_listed_parent(nodes, order, i));
    let (j, e) = choose|j: int, e: int|
        0 <= j < i && 0 <= e < nodes[order[j] as int].children.len()
            && #[trigger] nodes[order[j] as int].children[e] == order[i];
    assert(order[i] < nodes.len() && order[j] < nodes.len());
    assert(nodes[order[j] as int].children[e] != NO_NODE);
    if j > 0 {
        kept_nodes_follow_the_root(nodes, order, j);
    }
}

/// A renumbered link leads to a kept node other than the new root, and to the
/// node it led to before.
proof fn links_survive(nodes: Seq<NodeView>, order: Seq<u32>, i: int, e: int)
    requires
        lists_reachable(nodes, order),
        crate::mcts::tree::progress_wf(nodes),
        nodes.len() <= NO_NODE,
        order.len() <= NO_NODE,
        0 <= i < order.len(),
        0 <= e < nodes[order[i] as int].children.len(),
        nodes[order[i] as int].children[e] != NO_NODE,
    ensures
        ({
            let child = kept(nodes, order)[i].children[e] as int;
            &&& 0 < child < order.len()
            &&& order[child] == nodes[order[i] as int].children[e]
        }),
{
    let target = nodes[order[i] as int].children[e];
    assert(listed(order, target as int));
    let p = place(order, target as int);
    assert(0 <= p < order.len() && order[p] == target);
    if p == 0 {
        assert(order[i] < nodes.len());
        assert(nodes[order[i] as int].state.precedes(nodes[target as int].state));
        if i > 0 {
            kept_nodes_follow_the_root(nodes, order, i);
        }
        assert(false);
    }
}

/// The re-rooted tree is well formed.
proof fn rebasing_keeps(v: TreeView, order: Seq<u32>, index: Map<u64, u32>)
    requires
        v.wf(),
        v.resting(),
        lists_reachable(v.nodes, order),
        order.len() <= NO_NODE,
        first_index(kept(v.nodes, order), v.dag, index),
    ensures
        (TreeView { nodes: kept(v.nodes, order), index, plan: None, ..v }).wf(),
{
    let w = TreeView { nodes: kept(v.nodes, order), index, plan: None, ..v };
    assert forall|i: int| 0 <= i < w.nodes.len() implies (#[trigger] w.nodes[i]).wf()
        && w.nodes[i].settled() && !w.nodes[i].pending && w.nodes[i].state
        == v.nodes[order[i] as int].state && w.nodes[i].vl == v.nodes[order[i] as int].vl
        && w.nodes[i].vl_visits == 0 by {
        let old_id = order[i] as int;
        assert(order[i] < v.nodes.len());
        assert(v.nodes[old_id].wf());
        assert(v.nodes[old_id].settled());
        assert(v.nodes[old_id].vl_visits == crate::mcts::tree::departures(v.path, old_id));
    }
    assert(crate::mcts::tree::nodes_wf(w.nodes));
    assert(w.nodes[0].settled());
    assert(crate::mcts::tree::links_wf(w.nodes)) by {
        assert forall|i: int, e: int|
            0 <= i < w.nodes.len() && 0 <= e < w.nodes[i].children.len() implies {
            let child = #[trigger] w.nodes[i].children[e];
            child == NO_NODE || 0 < child < w.nodes.len()
        } by {
            if v.nodes[order[i] as int].children[e] != NO_NODE {
                links_survive(v.nodes, order, i, e);
            }
        }
    }
    assert(crate::mcts::tree::carried_wf(w.nodes)) by {
        assert forall|i: int, e: int|
            0 <= i < w.nodes.len() && 0 <= e < w.nodes[i].children.len() && w.nodes[i].n[e]
                > 0 implies #[trigger] w.nodes[i].children[e] != NO_NODE by {
            assert(order[i] < v.nodes.len());
            assert(v.nodes[order[i] as int].children[e] != NO_NODE);
            links_survive(v.nodes, order, i, e);
        }
    }
    assert(crate::mcts::tree::below_wf(w.nodes)) by {
        assert forall|i: int| 1 <= i < w.nodes.len() implies w.nodes[0].state.precedes((
        #[trigger] w.nodes[i]).state) by {
            kept_nodes_follow_the_root(v.nodes, order, i);
        }
    }
    assert(crate::mcts::tree::progress_wf(w.nodes)) by {
        assert forall|i: int, e: int|
            0 <= i < w.nodes.len() && 0 <= e < w.nodes[i].children.len() implies {
            let child = #[trigger] w.nodes[i].children[e];
            child == NO_NODE || w.nodes[i].state.precedes(w.nodes[child as int].state)
        } by {
            if v.nodes[order[i] as int].children[e] != NO_NODE {
                links_survive(v.nodes, order, i, e);
                assert(order[i] < v.nodes.len());
                assert(v.nodes[order[i] as int].state.precedes(
                    v.nodes[v.nodes[order[i] as int].children[e] as int].state,
                ));
            }
        }
    }
    assert(crate::mcts::tree::flight_wf(w.nodes, w.path)) by {
        crate::mcts::tree::a_round_leaves_no_virtual_loss_behind(v);
        assert forall|i: int, e: int| 0 <= i < w.nodes.len() && 0 <= e < w.nodes[i].vl.len() implies (
        #[trigger] w.nodes[i].vl[e]) == crate::mcts::tree::walks(w.path, i, e) by {
            assert(order[i] < v.nodes.len());
            assert(w.nodes[i].vl == v.nodes[order[i] as int].vl);
            assert(v.nodes[order[i] as int].vl[e] == 0);
            vstd::seq_lib::to_multiset_len(w.path);
            vstd::seq_lib::to_multiset_contains(w.path, (i as u32, e as u32));
        }
    }
    assert(crate::mcts::tree::distinct_wf(w.nodes, w.dag, w.key_collisions)) by {
        if w.dag && w.key_collisions == 0 {
            assert forall|i: int, j: int| 1 <= i < j < w.nodes.len() implies (
            #[trigger] w.nodes[i]).state.hash != (#[trigger] w.nodes[j]).state.hash by {
                let a = order[i] as int;
                let b = order[j] as int;
                assert(order[i] != order[j]);
                assert(has_listed_parent(v.nodes, order, i) && has_listed_parent(v.nodes, order, j));
                assert(a != 0 && b != 0);
                if a < b {
                    assert(v.nodes[a].state.hash != v.nodes[b].state.hash);
                } else {
                    assert(v.nodes[b].state.hash != v.nodes[a].state.hash);
                }
            }
        }
    }
    assert(w.open_steps() =~= Seq::empty());
}

/// Builds the index anew from the surviving arena. The first node with a key
/// keeps it, and node 0 is skipped, so the root cannot be merged onto.
fn rebuild_transpositions(nodes: &Vec<Node>, dag: bool) -> (r: HashMap<u64, u32>)
    requires
        1 <= nodes@.len() <= NO_NODE,
    ensures
        first_index(arena(nodes@), dag, r@),
{
    broadcast use vstd::std_specs::hash::group_hash_axioms;

    let ghost view = arena(nodes@);
    let mut index: HashMap<u64, u32> = HashMap::new();
    if !dag {
        assert(index@ =~= Map::<u64, u32>::empty());
        return index;
    }
    let mut id: usize = 1;
    while id < nodes.len()
        invariant
            view == arena(nodes@),
            1 <= id <= nodes@.len() <= NO_NODE,
            forall|k: u64| #[trigger]
                index@.contains_key(k) ==> 0 < index@[k] < id && view[index@[k] as int].state.hash
                    == k,
            forall|i: int|
                1 <= i < id ==> index@.contains_key((#[trigger] view[i]).state.hash),
            forall|k: u64, i: int|
                #![trigger index@.contains_key(k), view[i]]
                index@.contains_key(k) && 1 <= i < index@[k] ==> view[i].state.hash != k,
        decreases nodes@.len() - id,
    {
        broadcast use vstd::std_specs::hash::group_hash_axioms;

        let key: u64 = nodes[id].state.hash;
        assert(view[id as int] == nodes@[id as int]@);
        let ghost before = index@;
        if !index.contains_key(&key) {
            index.insert(key, id as u32);
            assert(index@ == before.insert(key, id as u32));
            assert forall|k: u64, i: int|
                #![trigger index@.contains_key(k), view[i]]
                index@.contains_key(k) && 1 <= i < index@[k] implies view[i].state.hash != k by {
                if k == key {
                    assert(before.contains_key(view[i].state.hash));
                } else {
                    assert(before.contains_key(k));
                }
            }
        }
        id += 1;
    }
    index
}

/// Where each listed node is listed, by its old number.
fn places(order: &Vec<u32>, count: usize) -> (r: Vec<u32>)
    requires
        order@.no_duplicates(),
        order@.len() <= NO_NODE,
        forall|i: int| 0 <= i < order@.len() ==> #[trigger] order@[i] < count,
    ensures
        r@.len() == count,
        forall|i: int| 0 <= i < order@.len() ==> r@[#[trigger] order@[i] as int] == i,
{
    let mut mapping: Vec<u32> = Vec::new();
    let mut k: usize = 0;
    while k < count
        invariant
            k <= count,
            mapping@.len() == k,
        decreases count - k,
    {
        mapping.push(NO_NODE);
        k += 1;
    }
    let mut i: usize = 0;
    while i < order.len()
        invariant
            i <= order@.len() <= NO_NODE,
            mapping@.len() == count,
            order@.no_duplicates(),
            forall|j: int| 0 <= j < order@.len() ==> #[trigger] order@[j] < count,
            forall|j: int| 0 <= j < i ==> mapping@[#[trigger] order@[j] as int] == j,
        decreases order@.len() - i,
    {
        let ghost before = mapping@;
        mapping.set(order[i] as usize, i as u32);
        assert forall|j: int| 0 <= j < i + 1 implies mapping@[#[trigger] order@[j] as int] == j by {
            if j < i {
                assert(order@[j] != order@[i as int]);
                assert(mapping@[order@[j] as int] == before[order@[j] as int]);
            }
        }
        i += 1;
    }
    mapping
}

/// `slot` holds the node `node`.
spec fn parks(slot: Option<Node>, node: NodeView) -> bool {
    slot matches Some(parked) && parked@ == node
}

/// Renumbers a node's links.
fn renumber(node: &mut Node, order: &Vec<u32>, mapping: &Vec<u32>)
    requires
        order@.no_duplicates(),
        forall|i: int| 0 <= i < order@.len() ==> mapping@[#[trigger] order@[i] as int] == i,
        forall|e: int|
            0 <= e < old(node)@.children.len() ==> {
                let child = #[trigger] old(node)@.children[e];
                child == NO_NODE || (child < mapping@.len() && listed(order@, child as int))
            },
    ensures
        final(node)@ == renumbered(old(node)@, order@),
{
    let ghost before = node@;
    let mut e: usize = 0;
    while e < node.children.len()
        invariant
            order@.no_duplicates(),
            forall|i: int| 0 <= i < order@.len() ==> mapping@[#[trigger] order@[i] as int] == i,
            e <= node.children@.len(),
            node.children@.len() == before.children.len(),
            node@ == (NodeView { children: node.children@, ..before }),
            forall|k: int|
                0 <= k < before.children.len() ==> {
                    let child = #[trigger] before.children[k];
                    child == NO_NODE || (child < mapping@.len() && listed(order@, child as int))
                },
            forall|k: int|
                0 <= k < e ==> #[trigger] node.children@[k] == renumbered(
                    before,
                    order@,
                ).children[k],
            forall|k: int|
                e <= k < before.children.len() ==> #[trigger] node.children@[k]
                    == before.children[k],
        decreases node.children@.len() - e,
    {
        let child: u32 = node.children[e];
        assert(before.children[e as int] == child);
        if child != NO_NODE {
            proof {
                let i = choose|i: int| 0 <= i < order@.len() && #[trigger] order@[i] == child;
                place_is(order@, i);
            }
            let moved: u32 = mapping[child as usize];
            node.children.set(e, moved);
        }
        e += 1;
    }
    assert(node.children@ =~= renumbered(before, order@).children);
    assert(node@ =~= renumbered(before, order@));
}

impl MctsSearcher {
    /// The node `action` leads to, which [`MctsSearcher::rebase`] would make the
    /// root. `None` when `action` is not a root action or has never been
    /// expanded into a node.
    pub fn heir(&self, action: Action) -> (r: Option<u32>)
        requires
            self.wf(),
        ensures
            r is Some <==> can_rebase(self@, action),
            r matches Some(child) ==> {
                &&& child < self@.nodes.len()
                &&& exists|edge: int|
                    #[trigger] plays(self@.nodes[0], action, edge) && child
                        == self@.nodes[0].children[edge]
            },
    {
        let ghost before = self@;
        assert(before.nodes[0] == self.nodes@[0]@);
        assert(before.nodes[0].wf());
        if self.nodes[0].terminal {
            return None;
        }
        let edges: usize = self.nodes[0].actions.len();
        let mut edge: usize = 0;
        while edge < edges && self.nodes[0].actions[edge] != action
            invariant
                edge <= edges,
                self.nodes@.len() >= 1,
                edges == self.nodes@[0].actions@.len(),
                forall|e: int| 0 <= e < edge ==> #[trigger] self.nodes@[0].actions@[e] != action,
            decreases edges - edge,
        {
            edge += 1;
        }
        if edge == edges {
            return None;
        }
        assert(plays(before.nodes[0], action, edge as int));
        let child: u32 = self.nodes[0].children[edge];
        assert(before.nodes[0].children[edge as int] == child);
        if child == NO_NODE {
            assert forall|e: int| #[trigger] plays(before.nodes[0], action, e) implies e
                == edge by {
                only_one_plays(before.nodes[0], action, e, edge as int);
            }
            return None;
        }
        Some(child)
    }

    /// Re-roots the tree at the child reached by `action`, keeping its subtree
    /// and discarding everything else, and draws the new root's schedule if one
    /// is configured. The result lists, by its old number, what each kept node
    /// was. `scores`, read only for a schedule, is `g + logit` for every edge of
    /// the new root, in edge order.
    ///
    /// `None`, with the tree untouched, when `action` is not a root action or
    /// has never been expanded into a node.
    pub fn rebase(&mut self, action: Action, scores: &Vec<Score>) -> (r: Option<Vec<u32>>)
        requires
            old(self).wf(),
            old(self)@.resting(),
            forall|edge: int|
                #![trigger plays(old(self)@.nodes[0], action, edge)]
                old(self).config.gumbel is Some && plays(old(self)@.nodes[0], action, edge) && old(
                    self,
                )@.nodes[0].children[edge] != NO_NODE ==> scores@.len() == old(self)@.nodes[old(
                    self,
                )@.nodes[0].children[edge] as int].actions.len(),
        ensures
            r is Some <==> can_rebase(old(self)@, action),
            r is None ==> final(self)@ == old(self)@,
            r matches Some(order) ==> {
                &&& lists_reachable(old(self)@.nodes, order@)
                &&& exists|edge: int|
                    #[trigger] plays(old(self)@.nodes[0], action, edge) && order@[0]
                        == old(self)@.nodes[0].children[edge]
                &&& final(self)@ == (TreeView {
                    nodes: kept(old(self)@.nodes, order@),
                    index: final(self)@.index,
                    plan: final(self)@.plan,
                    ..old(self)@
                })
                &&& re_rooted(old(self)@, final(self)@, order@)
                &&& schedule_fits(final(self)@, final(self).config, scores@)
                &&& first_index(final(self)@.nodes, final(self)@.dag, final(self)@.index)
            },
            final(self).wf(),
            final(self)@.resting(),
            final(self).config == old(self).config,
    {
        let ghost before = self@;
        let child: u32 = match self.heir(action) {
            Some(child) => child,
            None => {
                return None;
            },
        };
        let ghost edge = choose|edge: int|
            #[trigger] plays(before.nodes[0], action, edge) && child
                == before.nodes[0].children[edge];
        assert(plays(before.nodes[0], action, edge));
        assert(before.nodes[0].wf());
        assert(before.nodes[0].children[edge] == child);
        assert(child != NO_NODE);
        let order = reachable(&self.nodes, child);
        proof {
            order_fits(before.nodes, order@);
        }
        let count: usize = self.nodes.len();
        let mapping = places(&order, count);
        // The survivors are moved, not copied: a node owns a whole position.
        let mut slots: Vec<Option<Node>> = Vec::new();
        let mut left: usize = count;
        while left > 0
            invariant
                left <= count,
                count == before.nodes.len(),
                self@.nodes == before.nodes.take(left as int),
                self@ == (TreeView { nodes: self@.nodes, ..before }),
                self.config == old(self).config,
                slots@.len() == count - left,
                forall|k: int|
                    0 <= k < slots@.len() ==> parks(#[trigger] slots@[k], before.nodes[count - 1 - k]),
            decreases left,
        {
            assert(self@.nodes.len() == self.nodes@.len());
            let ghost last = self.nodes@[left as int - 1];
            assert(self@.nodes[left as int - 1] == last@);
            let node = self.nodes.pop();
            slots.push(node);
            left -= 1;
            assert(self@.nodes =~= before.nodes.take(left as int));
        }
        let mut survivors: Vec<Node> = Vec::new();
        let mut i: usize = 0;
        while i < order.len()
            invariant
                i <= order@.len(),
                before.wf(),
                lists_reachable(before.nodes, order@),
                count == before.nodes.len(),
                mapping@.len() == count,
                forall|j: int|
                    0 <= j < order@.len() ==> mapping@[#[trigger] order@[j] as int] == j,
                slots@.len() == count,
                survivors@.len() == i,
                arena(survivors@) == kept(before.nodes, order@).take(i as int),
                forall|j: int|
                    i <= j < order@.len() ==> parks(
                        slots@[count - 1 - #[trigger] order@[j]],
                        before.nodes[order@[j] as int],
                    ),
            decreases order@.len() - i,
        {
            let old_id: usize = order[i] as usize;
            assert(order@[i as int] < before.nodes.len());
            let slot: usize = count - 1 - old_id;
            let ghost parked = slots@;
            assert(parks(parked[slot as int], before.nodes[old_id as int]));
            let taken = slots[slot].take();
            match taken {
                Some(mut node) => {
                    proof {
                        assert(node@ == before.nodes[old_id as int]);
                        assert forall|e: int| 0 <= e < node@.children.len() implies {
                            let child = #[trigger] node@.children[e];
                            child == NO_NODE || (child < mapping@.len() && listed(
                                order@,
                                child as int,
                            ))
                        } by {
                            assert(before.nodes[order@[i as int] as int].children[e]
                                == node@.children[e]);
                        }
                    }
                    renumber(&mut node, &order, &mapping);
                    survivors.push(node);
                },
                None => {},
            }
            proof {
                let next = kept(before.nodes, order@).take(i as int + 1);
                assert(next[i as int] == renumbered(before.nodes[order@[i as int] as int], order@));
                assert(arena(survivors@) =~= next);
                assert forall|j: int| i + 1 <= j < order@.len() implies parks(
                    slots@[count - 1 - #[trigger] order@[j]],
                    before.nodes[order@[j] as int],
                ) by {
                    assert(order@[j] != order@[i as int]);
                    assert(slots@[count - 1 - order@[j]] == parked[count - 1 - order@[j]]);
                }
            }
            i += 1;
        }
        assert(kept(before.nodes, order@).take(i as int) =~= kept(before.nodes, order@));
        assert(survivors@.len() == order@.len());
        self.nodes = survivors;
        self.transpositions = rebuild_transpositions(&self.nodes, self.config.dag);
        self.gumbel = None;
        proof {
            rebasing_keeps(before, order@, self@.index);
            assert(self@ =~= (TreeView {
                nodes: kept(before.nodes, order@),
                index: self@.index,
                plan: None,
                ..before
            }));
            assert(self@.nodes[0] == renumbered(before.nodes[child as int], order@));
        }
        self.plan_gumbel(scores);
        Some(order)
    }
}

/// One edge at most is the first to play an action.
proof fn only_one_plays(root: NodeView, action: Action, a: int, b: int)
    requires
        plays(root, action, a),
        plays(root, action, b),
    ensures
        a == b,
{
    if a < b {
        assert(root.actions[a] != action);
    } else if b < a {
        assert(root.actions[b] != action);
    }
}

/// A list without repetitions of nodes there are is no longer than the arena.
proof fn order_fits(nodes: Seq<NodeView>, order: Seq<u32>)
    requires
        lists_reachable(nodes, order),
    ensures
        order.len() <= nodes.len(),
{
    let all = vstd::set_lib::set_int_range(0, nodes.len() as int);
    let ids = order.map_values(|id: u32| id as int);
    vstd::set_lib::lemma_int_range(0, nodes.len() as int);
    assert(ids.no_duplicates()) by {
        assert forall|a: int, b: int|
            0 <= a < ids.len() && 0 <= b < ids.len() && a != b implies ids[a] != ids[b] by {
            assert(order[a] != order[b]);
        }
    }
    ids.unique_seq_to_set();
    let chosen = ids.to_set();
    assert(chosen.subset_of(all)) by {
        assert forall|k: int| chosen.contains(k) implies all.contains(k) by {
            let i = choose|i: int| 0 <= i < ids.len() && ids[i] == k;
            assert(order[i] < nodes.len());
        }
    }
    vstd::set_lib::lemma_len_subset(chosen, all);
}

/// Re-rooting keeps what was learned: the new root is the node the action led
/// to, and every kept node has the position, the actions, the visit counts and
/// the outcome it had.
pub proof fn rebasing_keeps_the_statistics(v: TreeView, order: Seq<u32>, i: int)
    requires
        lists_reachable(v.nodes, order),
        0 <= i < order.len(),
    ensures
        ({
            let now = kept(v.nodes, order)[i];
            let then = v.nodes[order[i] as int];
            &&& now.state == then.state
            &&& now.actions == then.actions
            &&& now.n == then.n
            &&& now.visits == then.visits
            &&& now.terminal == then.terminal
            &&& now.terminal_value == then.terminal_value
            &&& now.expanded == then.expanded
            &&& now.mover == then.mover
        }),
{
}

/// Re-rooting keeps every link between kept nodes: what an edge led to before,
/// it leads to after.
pub proof fn rebasing_keeps_the_links(v: TreeView, order: Seq<u32>, i: int, e: int)
    requires
        v.wf(),
        lists_reachable(v.nodes, order),
        0 <= i < order.len(),
        0 <= e < v.nodes[order[i] as int].children.len(),
    ensures
        ({
            let then = v.nodes[order[i] as int].children[e];
            let now = kept(v.nodes, order)[i].children[e];
            &&& then == NO_NODE <==> now == NO_NODE
            &&& then != NO_NODE ==> kept(v.nodes, order)[now as int].state == v.nodes[then as int].state
        }),
{
    order_fits(v.nodes, order);
    if v.nodes[order[i] as int].children[e] != NO_NODE {
        links_survive(v.nodes, order, i, e);
    }
}

/// A node that an edge leads to is first found by some edge, that one or one
/// before it.
proof fn somebody_finds_it(
    nodes: Seq<NodeView>,
    order: Seq<u32>,
    i: int,
    j: int,
    e: int,
) -> (first: (int, int))
    requires
        0 <= j < order.len(),
        0 <= e < nodes[order[j] as int].children.len(),
        nodes[order[j] as int].children[e] == order[i],
    ensures
        found_by(nodes, order, i, first.0, first.1),
        first.0 <= j,
    decreases j, e,
{
    if found_by(nodes, order, i, j, e) {
        (j, e)
    } else {
        let (k, f) = choose|k: int, f: int|
            0 <= k < order.len() && 0 <= f < nodes[order[k] as int].children.len()
                && walked_before(k, f, j, e)
                && #[trigger] nodes[order[k] as int].children[f] == order[i];
        somebody_finds_it(nodes, order, i, k, f)
    }
}

/// The node at place `count` of `a`, found in `b` by the same edge, where the
/// two lists agree up to there.
proof fn found_in_both(
    nodes: Seq<NodeView>,
    a: Seq<u32>,
    b: Seq<u32>,
    count: int,
) -> (found: (int, int, int))
    requires
        nodes.len() <= NO_NODE,
        lists_reachable(nodes, a),
        lists_reachable(nodes, b),
        0 < count < a.len(),
        count <= b.len(),
        forall|k: int| 0 <= k < count ==> #[trigger] a[k] == b[k],
    ensures
        count <= found.0 < b.len(),
        b[found.0] == a[count],
        found_by(nodes, a, count, found.1, found.2),
        found_by(nodes, b, found.0, found.1, found.2),
{
    assert(has_listed_parent(nodes, a, count));
    let (from, edge) = choose|j: int, e: int|
        0 <= j < count && 0 <= e < nodes[a[j] as int].children.len()
            && #[trigger] nodes[a[j] as int].children[e] == a[count];
    let (j, e) = somebody_finds_it(nodes, a, count, from, edge);
    assert(a[j] == b[j]);
    assert(a[count] < nodes.len());
    assert(nodes[b[j] as int].children[e] == a[count]);
    assert(listed(b, a[count] as int));
    let p = choose|p: int| 0 <= p < b.len() && #[trigger] b[p] == a[count];
    if p < count {
        assert(a[p] == b[p]);
        assert(a[p] != a[count]);
    }
    assert forall|k: int, f: int|
        0 <= k < b.len() && 0 <= f < nodes[b[k] as int].children.len() && walked_before(
            k,
            f,
            j,
            e,
        ) implies #[trigger] nodes[b[k] as int].children[f] != b[p] by {
        assert(a[k] == b[k]);
        assert(nodes[a[k] as int].children[f] != a[count]);
    }
    (p, j, e)
}

proof fn listings_agree(nodes: Seq<NodeView>, a: Seq<u32>, b: Seq<u32>, count: int)
    requires
        nodes.len() <= NO_NODE,
        lists_reachable(nodes, a),
        lists_reachable(nodes, b),
        a[0] == b[0],
        1 <= count <= a.len(),
    ensures
        count <= b.len(),
        forall|k: int| 0 <= k < count ==> #[trigger] a[k] == b[k],
    decreases count,
{
    if count > 1 {
        let last = count - 1;
        listings_agree(nodes, a, b, last);
        let (p, j, e) = found_in_both(nodes, a, b, last);
        assert forall|k: int| 0 <= k < last implies #[trigger] b[k] == a[k] by {}
        let (q, k, f) = found_in_both(nodes, b, a, last);
        if p > last {
            assert(walked_before(k, f, j, e));
            assert(q > last) by {
                if q == last {
                    assert(b[p] == b[last]);
                }
            }
            assert(walked_before(j, e, k, f));
        }
    }
}

/// Re-rooting leaves nothing open: from one root there is one breadth-first
/// listing, so what is kept has one numbering.
pub proof fn one_numbering_is_breadth_first(nodes: Seq<NodeView>, a: Seq<u32>, b: Seq<u32>)
    requires
        nodes.len() <= NO_NODE,
        lists_reachable(nodes, a),
        lists_reachable(nodes, b),
        a[0] == b[0],
    ensures
        a == b,
{
    listings_agree(nodes, a, b, a.len() as int);
    listings_agree(nodes, b, a, b.len() as int);
    assert(a =~= b);
}

/// An action that has carried a visit can be re-rooted at.
pub proof fn a_visited_action_can_be_re_rooted_at(v: TreeView, action: Action, edge: int)
    requires
        v.wf(),
        plays(v.nodes[0], action, edge),
        v.nodes[0].n[edge] > 0,
    ensures
        can_rebase(v, action),
{
    assert(v.nodes[0].wf());
    assert(v.nodes[0].children[edge] != NO_NODE);
}

/// A tree can be re-rooted at an action exactly when the action is legal at the
/// root and a node stands behind its first edge.
pub proof fn an_expanded_action_can_be_re_rooted_at(v: TreeView, action: Action)
    requires
        v.wf(),
    ensures
        can_rebase(v, action) <==> exists|edge: int|
            {
                &&& 0 <= edge < v.nodes[0].children.len()
                &&& v.nodes[0].state.legal_actions[edge] == action
                &&& #[trigger] v.nodes[0].children[edge] != NO_NODE
                &&& forall|e: int|
                    0 <= e < edge ==> #[trigger] v.nodes[0].state.legal_actions[e] != action
            },
{
    let root = v.nodes[0];
    assert(root.wf());
    if can_rebase(v, action) {
        let edge = choose|edge: int|
            #[trigger] plays(root, action, edge) && root.children[edge] != NO_NODE;
        assert(root.children[edge] != NO_NODE);
        assert forall|e: int| 0 <= e < edge implies #[trigger] root.state.legal_actions[e]
            != action by {
            assert(root.actions[e] != action);
        }
    }
    if exists|edge: int|
        {
            &&& 0 <= edge < root.children.len()
            &&& root.state.legal_actions[edge] == action
            &&& #[trigger] root.children[edge] != NO_NODE
            &&& forall|e: int| 0 <= e < edge ==> #[trigger] root.state.legal_actions[e] != action
        } {
        let edge = choose|edge: int|
            {
                &&& 0 <= edge < root.children.len()
                &&& root.state.legal_actions[edge] == action
                &&& #[trigger] root.children[edge] != NO_NODE
                &&& forall|e: int|
                    0 <= e < edge ==> #[trigger] root.state.legal_actions[e] != action
            };
        assert(plays(root, action, edge));
    }
}

/// Re-rooting loses nothing it keeps: the new root is the position the action
/// led to with all it had been visited, every kept node still holds its own
/// position, actions and visits, an edge leads to the same position as before,
/// and what the search has counted stays counted.
pub proof fn re_rooting_loses_nothing_it_keeps(
    v: TreeView,
    w: TreeView,
    order: Seq<u32>,
    i: int,
    e: int,
)
    requires
        v.wf(),
        lists_reachable(v.nodes, order),
        re_rooted(v, w, order),
        0 <= i < order.len(),
        0 <= e < v.nodes[order[i] as int].children.len(),
    ensures
        ({
            let before = v.nodes[order[i] as int];
            let after = w.nodes[i];
            &&& w.nodes.len() == order.len()
            &&& after.state == before.state
            &&& after.actions == before.actions
            &&& after.n == before.n
            &&& after.visits == before.visits
            &&& after.expanded == before.expanded
            &&& after.terminal == before.terminal
            &&& after.terminal_value == before.terminal_value
            &&& before.children[e] == NO_NODE <==> after.children[e] == NO_NODE
            &&& before.children[e] != NO_NODE ==> {
                &&& 0 <= after.children[e] < w.nodes.len()
                &&& w.nodes[after.children[e] as int].state
                    == v.nodes[before.children[e] as int].state
                &&& w.nodes[after.children[e] as int].n == v.nodes[before.children[e] as int].n
            }
            &&& w.sims == v.sims
            &&& w.merges == v.merges
            &&& w.key_collisions == v.key_collisions
            &&& w.dag == v.dag
        }),
{
    let before = v.nodes[order[i] as int];
    assert(order[i] < v.nodes.len());
    let child = before.children[e];
    assert(v.nodes[order[i] as int].children[e] == child);
    if child != NO_NODE {
        assert(listed(order, child as int));
        let at = place(order, child as int);
        assert(0 <= at < order.len() && order[at] == child);
        order_is_short(v.nodes, order);
    }
}

proof fn order_is_short(nodes: Seq<NodeView>, order: Seq<u32>)
    requires
        lists_reachable(nodes, order),
        nodes.len() <= NO_NODE,
    ensures
        order.len() <= nodes.len(),
{
    let whole = vstd::set_lib::set_int_range(0, nodes.len() as int);
    let numbers = order.map_values(|id: u32| id as int);
    vstd::set_lib::lemma_int_range(0, nodes.len() as int);
    assert(numbers.no_duplicates());
    numbers.unique_seq_to_set();
    assert(numbers.to_set().subset_of(whole)) by {
        assert forall|id: int| numbers.to_set().contains(id) implies whole.contains(id) by {
            let k = choose|k: int| 0 <= k < numbers.len() && numbers[k] == id;
            assert(order[k] < nodes.len());
        }
    }
    vstd::set_lib::lemma_len_subset(numbers.to_set(), whole);
}

} // verus!
