//! Where the visits of a node come from.
//!
//! Searching one descent at a time, every descent that reaches a node either
//! goes on through it or is the one that expanded it. So the visits all its
//! parents have delivered are its own visits and that one, however many parents
//! a merged node has.

use crate::game::StateView;
use crate::mcts::moves::{can_search, none_waits, searcher_after, searcher_run, Move};
use crate::mcts::search::{sapling, sapling_is_wf};
use crate::mcts::tree::{
    fresh, landed, leads_to, links_wf, nodes_wf, total_bounds, with_edges, Cursor, NodeView,
    TreeView, NO_NODE,
};
use vstd::prelude::*;

verus! {

/// What the first `count` edges that lead to `target` have in `column`.
pub open spec fn into(children: Seq<u32>, column: Seq<u32>, target: int, count: int) -> int
    decreases count,
{
    if count <= 0 {
        0
    } else {
        into(children, column, target, count - 1) + if children[count - 1] == target {
            column[count - 1] as int
        } else {
            0int
        }
    }
}

/// The visits one node has delivered to `target`.
pub open spec fn delivered_by(node: NodeView, target: int) -> int {
    into(node.children, node.n, target, node.children.len() as int)
}

/// The visits the nodes have delivered to `target`.
pub open spec fn delivered(nodes: Seq<NodeView>, target: int) -> int
    decreases nodes.len(),
{
    if nodes.len() == 0 {
        0
    } else {
        delivered(nodes.drop_last(), target) + delivered_by(nodes.last(), target)
    }
}

/// [`delivered_by`], descents in flight included.
spec fn sent_by(node: NodeView, target: int) -> int {
    delivered_by(node, target) + into(
        node.children,
        node.vl,
        target,
        node.children.len() as int,
    )
}

/// [`delivered`], descents in flight included.
spec fn sent(nodes: Seq<NodeView>, target: int) -> int
    decreases nodes.len(),
{
    if nodes.len() == 0 {
        0
    } else {
        sent(nodes.drop_last(), target) + sent_by(nodes.last(), target)
    }
}

/// The node the descent under way stands at, none of them if there is none.
spec fn standing(cursor: Cursor) -> int {
    match cursor {
        Cursor::Idle => -1,
        Cursor::Choosing { node } => node as int,
        Cursor::Applying { node, edge } => node as int,
    }
}

/// An edge has a node behind it exactly when it has been taken.
pub open spec fn taken_ok(nodes: Seq<NodeView>) -> bool {
    forall|i: int, e: int|
        0 <= i < nodes.len() && 0 <= e < nodes[i].children.len() ==> ((
        #[trigger] nodes[i].children[e]) == NO_NODE <==> nodes[i].n[e] + nodes[i].vl[e] == 0)
}

/// The node has its edges.
spec fn open(node: NodeView) -> bool {
    node.expanded || node.pending
}

/// What was sent to node `i` went on through it, but for the descent that
/// expanded it and the one that stands at node `here`.
spec fn even(nodes: Seq<NodeView>, i: int, here: int) -> bool {
    open(nodes[i]) ==> sent(nodes, i) == nodes[i].visits + nodes[i].vl_visits + 1 + (if i == here {
        1int
    } else {
        0int
    })
}

/// What holds of a search that makes one descent at a time.
spec fn balanced(v: TreeView) -> bool {
    &&& v.wf()
    &&& taken_ok(v.nodes)
    &&& v.cursor !is Idle ==> v.leaves.len() == 0
    &&& forall|i: int|
        1 <= i < v.nodes.len() ==> #[trigger] even(v.nodes, i, standing(v.cursor))
}

// ------------------------------------------------------------------- sums

proof fn into_nothing(children: Seq<u32>, column: Seq<u32>, target: int, count: int)
    requires
        0 <= count <= children.len(),
        children.len() == column.len(),
        forall|e: int|
            0 <= e < count ==> (#[trigger] children[e]) != target || column[e] == 0,
    ensures
        into(children, column, target, count) == 0,
    decreases count,
{
    if count > 0 {
        assert(children[count - 1] != target || column[count - 1] == 0);
        into_nothing(children, column, target, count - 1);
    }
}

/// One more in one place.
proof fn into_grows(children: Seq<u32>, x: Seq<u32>, y: Seq<u32>, target: int, edge: int, count: int)
    requires
        0 <= edge < children.len(),
        0 <= count <= children.len(),
        children.len() == x.len() == y.len(),
        y == x.update(edge, y[edge]),
        y[edge] == x[edge] + 1,
    ensures
        into(children, y, target, count) == into(children, x, target, count) + (if edge < count
            && children[edge] == target {
            1int
        } else {
            0int
        }),
    decreases count,
{
    if count > 0 {
        into_grows(children, x, y, target, edge, count - 1);
    }
}

proof fn into_pairs(
    children: Seq<u32>,
    x: Seq<u32>,
    y: Seq<u32>,
    sums: Seq<u32>,
    target: int,
    count: int,
)
    requires
        0 <= count <= children.len(),
        children.len() == x.len() == y.len() == sums.len(),
        forall|e: int| 0 <= e < count ==> (#[trigger] sums[e]) == x[e] + y[e],
    ensures
        into(children, sums, target, count) == into(children, x, target, count) + into(
            children,
            y,
            target,
            count,
        ),
    decreases count,
{
    if count > 0 {
        assert(sums[count - 1] == x[count - 1] + y[count - 1]);
        into_pairs(children, x, y, sums, target, count - 1);
    }
}

proof fn sent_alike(a: Seq<NodeView>, b: Seq<NodeView>, target: int)
    requires
        a.len() == b.len(),
        forall|i: int|
            #![trigger a[i]]
            #![trigger b[i]]
            0 <= i < a.len() ==> sent_by(a[i], target) == sent_by(b[i], target),
    ensures
        sent(a, target) == sent(b, target),
    decreases a.len(),
{
    if a.len() > 0 {
        let last = a.len() - 1;
        assert(sent_by(a[last], target) == sent_by(b[last], target));
        assert forall|i: int|
            #![trigger a.drop_last()[i]]
            #![trigger b.drop_last()[i]]
            0 <= i < last implies sent_by(a.drop_last()[i], target) == sent_by(
            b.drop_last()[i],
            target,
        ) by {
            assert(sent_by(a[i], target) == sent_by(b[i], target));
        }
        sent_alike(a.drop_last(), b.drop_last(), target);
    }
}

proof fn sent_by_one_node(a: Seq<NodeView>, id: int, node: NodeView, target: int)
    requires
        0 <= id < a.len(),
    ensures
        sent(a.update(id, node), target) == sent(a, target) - sent_by(a[id], target) + sent_by(
            node,
            target,
        ),
    decreases a.len(),
{
    let b = a.update(id, node);
    if id == a.len() - 1 {
        assert(b.drop_last() =~= a.drop_last());
    } else {
        assert(b.drop_last() =~= a.drop_last().update(id, node));
        sent_by_one_node(a.drop_last(), id, node, target);
    }
}

proof fn sent_nothing(nodes: Seq<NodeView>, target: int)
    requires
        forall|i: int| 0 <= i < nodes.len() ==> sent_by(#[trigger] nodes[i], target) == 0,
    ensures
        sent(nodes, target) == 0,
    decreases nodes.len(),
{
    if nodes.len() > 0 {
        assert(sent_by(nodes[nodes.len() - 1], target) == 0);
        assert forall|i: int| 0 <= i < nodes.len() - 1 implies sent_by(
            #[trigger] nodes.drop_last()[i],
            target,
        ) == 0 by {
            assert(sent_by(nodes[i], target) == 0);
        }
        sent_nothing(nodes.drop_last(), target);
    }
}

/// With nothing in flight, what was sent was delivered.
proof fn landed_is_delivered(nodes: Seq<NodeView>, target: int)
    requires
        forall|i: int|
            0 <= i < nodes.len() ==> {
                let node = #[trigger] nodes[i];
                &&& node.vl.len() == node.children.len()
                &&& forall|e: int| 0 <= e < node.vl.len() ==> (#[trigger] node.vl[e]) == 0
            },
    ensures
        sent(nodes, target) == delivered(nodes, target),
    decreases nodes.len(),
{
    if nodes.len() > 0 {
        let node = nodes[nodes.len() - 1];
        assert(node.vl.len() == node.children.len());
        assert forall|e: int| 0 <= e < node.children.len() implies (#[trigger] node.children[e])
            != target || node.vl[e] == 0 by {
            assert(node.vl[e] == 0);
        }
        into_nothing(node.children, node.vl, target, node.children.len() as int);
        assert forall|i: int| 0 <= i < nodes.len() - 1 implies {
            let node = #[trigger] nodes.drop_last()[i];
            &&& node.vl.len() == node.children.len()
            &&& forall|e: int| 0 <= e < node.vl.len() ==> (#[trigger] node.vl[e]) == 0
        } by {
            assert(nodes[i].vl.len() == nodes[i].children.len());
        }
        landed_is_delivered(nodes.drop_last(), target);
    }
}

// ------------------------------------------------------------------- steps

/// A descent has just arrived at node `id`, the first of its batch.
spec fn poised(v: TreeView, id: int) -> bool {
    &&& v.moving(id)
    &&& taken_ok(v.nodes)
    &&& v.leaves.len() == 0
    &&& forall|i: int|
        1 <= i < v.nodes.len() ==> #[trigger] even(v.nodes, i, id)
    &&& id >= 1 && !v.nodes[id].settled() ==> sent(v.nodes, id) == 1
}

/// An unused edge sends nothing anywhere.
proof fn new_edges_send_nothing(node: NodeView, target: int)
    requires
        node.wf(),
        node.actions.len() == 0,
        0 <= target < NO_NODE,
    ensures
        sent_by(node, target) == 0,
        sent_by(NodeView { pending: true, ..with_edges(node) }, target) == 0,
{
    let opened = with_edges(node);
    let count = opened.children.len() as int;
    into_nothing(opened.children, opened.n, target, count);
    into_nothing(opened.children, opened.vl, target, count);
}

/// Arriving keeps the books even.
proof fn arriving_is_balanced(v: TreeView, id: int)
    requires
        poised(v, id),
        v.path.len() <= usize::MAX,
    ensures
        balanced(v.arrived(id)),
{
    crate::mcts::tree::arriving_keeps(v, id);
    let node = v.nodes[id];
    let w = v.arrived(id);
    assert(node.wf());
    assert(!node.pending) by {
        if node.pending {
            let s = choose|s: int|
                0 <= s < v.leaves.len() && (#[trigger] v.leaves[s]).node == id && v.leaves[s].value
                    is Waiting;
            assert(false);
        }
    }
    if node.terminal || node.expanded {
        assert(w.nodes == v.nodes);
        assert forall|i: int| 1 <= i < w.nodes.len() implies #[trigger] even(
            w.nodes,
            i,
            standing(w.cursor),
        ) by {
            assert(even(v.nodes, i, id));
        }
    } else {
        let changed = w.nodes[id];
        assert(w.nodes == v.nodes.update(id, changed));
        assert(taken_ok(w.nodes)) by {
            assert forall|i: int, e: int|
                0 <= i < w.nodes.len() && 0 <= e < w.nodes[i].children.len() implies ((
            #[trigger] w.nodes[i].children[e]) == NO_NODE <==> w.nodes[i].n[e] + w.nodes[i].vl[e]
                == 0) by {
                if i != id {
                    assert(v.nodes[i].children[e] == NO_NODE <==> v.nodes[i].n[e] + v.nodes[i].vl[e]
                        == 0);
                }
            }
        }
        assert forall|i: int| 1 <= i < w.nodes.len() implies #[trigger] even(
            w.nodes,
            i,
            standing(w.cursor),
        ) by {
            assert(even(v.nodes, i, id));
            new_edges_send_nothing(node, i);
            sent_by_one_node(v.nodes, id, changed, i);
            assert(sent_by(changed, i) == 0);
            assert(node.n =~= Seq::empty());
            assert(node.vl =~= Seq::empty());
        }
    }
}

/// What one more descent in flight does to what a node sends.
proof fn one_more_is_sent(node: NodeView, edge: int, target: int)
    requires
        node.wf(),
        0 <= edge < node.children.len(),
        node.visits + node.vl_visits < u32::MAX,
    ensures
        ({
            let changed = NodeView {
                vl: node.vl.update(edge, (node.vl[edge] + 1) as u32),
                vl_visits: (node.vl_visits + 1) as u32,
                ..node
            };
            &&& node.vl[edge] + 1 <= u32::MAX
            &&& sent_by(changed, target) == sent_by(node, target) + (if node.children[edge]
                == target {
                1int
            } else {
                0int
            })
        }),
{
    total_bounds(node.vl, edge);
    crate::mcts::tree::total_nonnegative(node.n);
    let vl = node.vl.update(edge, (node.vl[edge] + 1) as u32);
    into_grows(node.children, node.vl, vl, target, edge, node.children.len() as int);
}

/// A node with a descent about to take edge `edge`: the edge has a node behind
/// it, and every other edge has one exactly when it has been taken.
spec fn about_to_take(v: TreeView, id: int, edge: int) -> bool {
    &&& 0 <= id < v.nodes.len()
    &&& v.nodes[id].expanded
    &&& 0 <= edge < v.nodes[id].children.len()
    &&& v.nodes[id].children[edge] != NO_NODE
    &&& forall|i: int, e: int|
        0 <= i < v.nodes.len() && 0 <= e < v.nodes[i].children.len() && !(i == id && e == edge)
            ==> ((#[trigger] v.nodes[i].children[e]) == NO_NODE <==> v.nodes[i].n[e]
            + v.nodes[i].vl[e] == 0)
    &&& v.leaves.len() == 0
    &&& forall|i: int| 1 <= i < v.nodes.len() ==> #[trigger] even(v.nodes, i, id)
    &&& !v.nodes[v.nodes[id].children[edge] as int].settled() ==> sent(
        v.nodes,
        v.nodes[id].children[edge] as int,
    ) == 0
}

/// Taking an edge keeps the books even.
proof fn walking_is_balanced(v: TreeView, id: int, edge: int)
    requires
        v.base(),
        about_to_take(v, id, edge),
        v.settled_but(v.nodes[id].children[edge] as int),
        leads_to(v.nodes, v.open_steps(), id),
        v.nodes[id].visits + v.nodes[id].vl_visits < u32::MAX,
    ensures
        poised(v.walked(id, edge), v.nodes[id].children[edge] as int),
{
    crate::mcts::tree::walking_keeps(v, id, edge);
    let node = v.nodes[id];
    let child = node.children[edge] as int;
    let w = v.walked(id, edge);
    let changed = w.nodes[id];
    assert(node.wf());
    assert(w.nodes == v.nodes.update(id, changed));
    one_more_is_sent(node, edge, child);
    assert(taken_ok(w.nodes)) by {
        assert forall|i: int, e: int|
            0 <= i < w.nodes.len() && 0 <= e < w.nodes[i].children.len() implies ((
        #[trigger] w.nodes[i].children[e]) == NO_NODE <==> w.nodes[i].n[e] + w.nodes[i].vl[e] == 0)
            by {
            if !(i == id && e == edge) {
                assert(v.nodes[i].children[e] == NO_NODE <==> v.nodes[i].n[e] + v.nodes[i].vl[e]
                    == 0);
            }
        }
    }
    assert forall|i: int| 1 <= i < w.nodes.len() implies #[trigger] even(w.nodes, i, child) by {
        assert(even(v.nodes, i, id));
        one_more_is_sent(node, edge, i);
        sent_by_one_node(v.nodes, id, changed, i);
    }
    sent_by_one_node(v.nodes, id, changed, child);
    assert(w.nodes[child].settled() == v.nodes[child].settled());
}

/// A link to a position not taken yet sends nothing.
proof fn linking_is_balanced(v: TreeView, id: int, edge: int, next: StateView)
    requires
        balanced(v),
        v.cursor matches Cursor::Applying { node, edge: taken } && node == id && taken == edge,
        v.room_at(id),
        next.wf(),
        v.nodes[id].state.precedes(next),
    ensures
        about_to_take(v.linked(id, edge, next), id, edge),
{
    crate::mcts::tree::linking_keeps(v, id, edge, next);
    let w = v.linked(id, edge, next);
    let child = v.link_target(next);
    let node = v.nodes[id];
    assert(node.wf());
    assert(node.children[edge] == NO_NODE);
    assert(node.n[edge] == 0 && node.vl[edge] == 0);
    assert forall|i: int, e: int|
        0 <= i < w.nodes.len() && 0 <= e < w.nodes[i].children.len() && !(i == id && e
            == edge) implies ((#[trigger] w.nodes[i].children[e]) == NO_NODE <==> w.nodes[i].n[e]
        + w.nodes[i].vl[e] == 0) by {
        if i < v.nodes.len() {
            assert(v.nodes[i].children[e] == NO_NODE <==> v.nodes[i].n[e] + v.nodes[i].vl[e] == 0);
        }
    }
    assert forall|i: int| 1 <= i <= v.nodes.len() implies #[trigger] sent(w.nodes, i) == sent(
        v.nodes,
        i,
    ) by {
        pointing_sends_nothing(v, id, edge, next, i);
    }
    assert forall|i: int| 1 <= i < w.nodes.len() implies #[trigger] even(w.nodes, i, id) by {
        if i < v.nodes.len() {
            assert(even(v.nodes, i, standing(v.cursor)));
            assert(sent(w.nodes, i) == sent(v.nodes, i));
        }
    }
    if !w.nodes[child].settled() {
        if v.merging(next) {
            assert(v.nodes[child].settled());
            assert(false);
        }
        assert(child == v.nodes.len());
        nobody_leads_beyond(v);
        assert(sent(w.nodes, child) == sent(v.nodes, child));
    }
}

/// No edge leads to a node there is not.
proof fn nobody_leads_beyond(v: TreeView)
    requires
        nodes_wf(v.nodes),
        links_wf(v.nodes),
        v.nodes.len() < NO_NODE,
    ensures
        sent(v.nodes, v.nodes.len() as int) == 0,
{
    let target = v.nodes.len() as int;
    assert forall|i: int| 0 <= i < v.nodes.len() implies sent_by(#[trigger] v.nodes[i], target)
        == 0 by {
        let node = v.nodes[i];
        assert(node.wf());
        assert forall|e: int| 0 <= e < node.children.len() implies (#[trigger] node.children[e])
            != target by {
            assert(v.nodes[i].children[e] == NO_NODE || 0 < v.nodes[i].children[e] < target);
        }
        into_nothing(node.children, node.n, target, node.children.len() as int);
        into_nothing(node.children, node.vl, target, node.children.len() as int);
    }
    sent_nothing(v.nodes, target);
}

proof fn pointing_sends_nothing(v: TreeView, id: int, edge: int, next: StateView, target: int)
    requires
        0 <= id < v.nodes.len(),
        v.nodes[id].wf(),
        0 <= edge < v.nodes[id].children.len(),
        v.nodes[id].children[edge] == NO_NODE,
        v.nodes[id].n[edge] == 0,
        v.nodes[id].vl[edge] == 0,
        v.nodes.len() < NO_NODE,
        0 <= target < NO_NODE,
    ensures
        sent(v.linked(id, edge, next).nodes, target) == sent(v.nodes, target),
{
    let w = v.linked(id, edge, next);
    let child = v.link_target(next);
    let node = v.nodes[id];
    let pointed = NodeView { children: node.children.update(edge, child as u32), ..node };
    let count = node.children.len() as int;
    assert(sent_by(pointed, target) == sent_by(node, target)) by {
        into_moves(node.children, pointed.children, node.n, target, edge, count);
        into_moves(node.children, pointed.children, node.vl, target, edge, count);
    }
    sent_by_one_node(v.nodes, id, pointed, target);
    if v.merging(next) {
        assert(w.nodes =~= v.nodes.update(id, pointed));
    } else {
        assert(w.nodes =~= v.nodes.update(id, pointed).push(fresh(next)));
        assert(w.nodes.drop_last() =~= v.nodes.update(id, pointed));
        assert(sent_by(fresh(next), target) == 0);
    }
}

/// An edge that carried nothing may point anywhere.
proof fn into_moves(
    a: Seq<u32>,
    b: Seq<u32>,
    column: Seq<u32>,
    target: int,
    edge: int,
    count: int,
)
    requires
        0 <= count <= a.len(),
        0 <= edge < a.len(),
        a.len() == column.len(),
        b == a.update(edge, b[edge]),
        column[edge] == 0,
    ensures
        into(a, column, target, count) == into(b, column, target, count),
    decreases count,
{
    if count > 0 {
        into_moves(a, b, column, target, edge, count - 1);
    }
}

/// Evaluating changes no count.
proof fn evaluating_is_balanced(v: TreeView)
    requires
        balanced(v),
        v.cursor is Idle,
    ensures
        balanced(v.evaluated()),
{
    crate::mcts::tree::evaluating_keeps(v);
    let w = v.evaluated();
    assert(taken_ok(w.nodes)) by {
        assert forall|i: int, e: int|
            0 <= i < w.nodes.len() && 0 <= e < w.nodes[i].children.len() implies ((
        #[trigger] w.nodes[i].children[e]) == NO_NODE <==> w.nodes[i].n[e] + w.nodes[i].vl[e] == 0)
            by {
            assert(v.nodes[i].children[e] == NO_NODE <==> v.nodes[i].n[e] + v.nodes[i].vl[e] == 0);
        }
    }
    assert forall|i: int| 1 <= i < w.nodes.len() implies #[trigger] even(
        w.nodes,
        i,
        standing(w.cursor),
    ) by {
        assert(even(v.nodes, i, standing(v.cursor)));
        sent_alike(v.nodes, w.nodes, i);
    }
}

/// Backing up turns descents in flight into visits, one for one.
proof fn backing_up_is_balanced(v: TreeView)
    requires
        balanced(v),
        v.cursor is Idle,
        none_waits(v.leaves),
    ensures
        balanced(v.backed_up()),
{
    crate::mcts::tree::backing_up_keeps(v);
    let w = v.backed_up();
    assert forall|i: int| 0 <= i < v.nodes.len() implies {
        let node = #[trigger] v.nodes[i];
        &&& landed(node).visits == node.visits + node.vl_visits
        &&& forall|e: int|
            0 <= e < node.n.len() ==> (#[trigger] landed(node).n[e]) == node.n[e] + node.vl[e]
        &&& forall|target: int| #[trigger] sent_by(landed(node), target) == sent_by(node, target)
    } by {
        landing_sends_the_same(v.nodes[i]);
    }
    assert(taken_ok(w.nodes)) by {
        assert forall|i: int, e: int|
            0 <= i < w.nodes.len() && 0 <= e < w.nodes[i].children.len() implies ((
        #[trigger] w.nodes[i].children[e]) == NO_NODE <==> w.nodes[i].n[e] + w.nodes[i].vl[e] == 0)
            by {
            let node = v.nodes[i];
            assert(node.wf());
            assert(node.children[e] == NO_NODE <==> node.n[e] + node.vl[e] == 0);
            assert(landed(node).n[e] == node.n[e] + node.vl[e]);
        }
    }
    assert forall|i: int| 1 <= i < w.nodes.len() implies #[trigger] even(
        w.nodes,
        i,
        standing(w.cursor),
    ) by {
        assert(even(v.nodes, i, standing(v.cursor)));
        assert forall|j: int|
            #![trigger v.nodes[j]]
            #![trigger w.nodes[j]]
            0 <= j < v.nodes.len() implies sent_by(v.nodes[j], i) == sent_by(w.nodes[j], i) by {
            assert(sent_by(landed(v.nodes[j]), i) == sent_by(v.nodes[j], i));
        }
        sent_alike(v.nodes, w.nodes, i);
        assert(landed(v.nodes[i]).visits == v.nodes[i].visits + v.nodes[i].vl_visits);
    }
}

proof fn landing_sends_the_same(node: NodeView)
    requires
        node.wf(),
    ensures
        landed(node).visits == node.visits + node.vl_visits,
        forall|e: int|
            0 <= e < node.n.len() ==> (#[trigger] landed(node).n[e]) == node.n[e] + node.vl[e],
        forall|target: int| #[trigger] sent_by(landed(node), target) == sent_by(node, target),
{
    let after = landed(node);
    let count = node.children.len() as int;
    assert forall|e: int| 0 <= e < node.n.len() implies (#[trigger] after.n[e]) == node.n[e]
        + node.vl[e] by {
        total_bounds(node.n, e);
        total_bounds(node.vl, e);
    }
    assert forall|target: int| #[trigger] sent_by(after, target) == sent_by(node, target) by {
        into_pairs(node.children, node.n, node.vl, after.n, target, count);
        into_nothing(after.children, after.vl, target, count);
    }
}

/// A move of a search that makes one descent at a time keeps the books even.
proof fn moving_is_balanced(v: TreeView, m: Move)
    requires
        balanced(v),
        can_search(v, m),
        m is Begin ==> v.resting(),
    ensures
        balanced(searcher_after(v, m)),
{
    match m {
        Move::Begin => {
            beginning_is_balanced(v);
        },
        Move::Take { edge } => {
            taking_is_balanced(v, edge);
        },
        Move::Supply { edge, next } => {
            let id = v.cursor->Applying_node as int;
            linking_is_balanced(v, id, edge, next);
            crate::mcts::tree::linking_keeps(v, id, edge, next);
            let w = v.linked(id, edge, next);
            walking_is_balanced(w, id, edge);
            arriving_is_balanced(w.walked(id, edge), v.link_target(next));
        },
        Move::Evaluate => {
            evaluating_is_balanced(v);
        },
        Move::Backup => {
            backing_up_is_balanced(v);
        },
        Move::Plan { plan } => {
            assert forall|i: int| 1 <= i < v.nodes.len() implies #[trigger] even(
                v.nodes,
                i,
                standing(v.cursor),
            ) by {}
        },
    }
}

/// Going on from a node through an edge that is there, or waiting for the
/// position behind it.
proof fn going_on_is_balanced(v: TreeView, id: int, edge: int)
    requires
        v.base(),
        v.settled_but(-1),
        taken_ok(v.nodes),
        v.leaves.len() == 0,
        forall|i: int| 1 <= i < v.nodes.len() ==> #[trigger] even(v.nodes, i, id),
        0 <= id < v.nodes.len(),
        v.nodes[id].expanded,
        0 <= edge < v.nodes[id].children.len(),
        leads_to(v.nodes, v.open_steps(), id),
        v.room_at(id),
    ensures
        balanced(v.took_edge(id, edge)),
{
    let child = v.nodes[id].children[edge];
    assert(v.nodes[id].wf());
    let w = v.took_edge(id, edge);
    if child == NO_NODE {
        assert(w.open_steps() == v.open_steps());
        assert(w.wf());
        assert forall|i: int| 1 <= i < w.nodes.len() implies #[trigger] even(
            w.nodes,
            i,
            standing(w.cursor),
        ) by {
            assert(even(v.nodes, i, id));
        }
    } else {
        assert(v.settled_but(child as int));
        walking_is_balanced(v, id, edge);
        arriving_is_balanced(v.walked(id, edge), child as int);
    }
}

proof fn beginning_is_balanced(v: TreeView)
    requires
        balanced(v),
        can_search(v, Move::Begin),
        v.resting(),
    ensures
        balanced(v.began()),
{
    assert(v.open_steps() =~= Seq::empty());
    if v.scheduled() {
        let plan = v.plan->0;
        let w = TreeView { plan: Some(plan.took()), ..v };
        assert(w.open_steps() =~= Seq::empty());
        assert(w.base());
        assert forall|i: int| 1 <= i < w.nodes.len() implies #[trigger] even(w.nodes, i, 0) by {
            assert(even(v.nodes, i, standing(v.cursor)));
        }
        going_on_is_balanced(w, 0, plan.next_edge() as int);
    } else {
        assert(poised(v, 0)) by {
            assert forall|i: int| 1 <= i < v.nodes.len() implies #[trigger] even(
                v.nodes,
                i,
                0,
            ) by {
                assert(even(v.nodes, i, standing(v.cursor)));
            }
        }
        arriving_is_balanced(v, 0);
    }
}

proof fn taking_is_balanced(v: TreeView, edge: int)
    requires
        balanced(v),
        can_search(v, Move::Take { edge }),
    ensures
        balanced(searcher_after(v, Move::Take { edge })),
{
    let id = v.cursor->Choosing_node as int;
    assert(v.nodes[id].wf());
    assert forall|i: int| 1 <= i < v.nodes.len() implies #[trigger] even(v.nodes, i, id) by {
        assert(even(v.nodes, i, standing(v.cursor)));
    }
    going_on_is_balanced(v, id, edge);
}

// ------------------------------------------------------------------- sizes

spec fn none_finished(nodes: Seq<NodeView>) -> bool {
    forall|i: int| 0 <= i < nodes.len() ==> !(#[trigger] nodes[i]).terminal
}

/// Every simulation has added one node, and `more` were added by the descent
/// under way; only one that ended at a finished position may have added none.
spec fn counted(v: TreeView, more: int) -> bool {
    let added = v.sims + v.descents.len() + more;
    &&& v.nodes.len() <= 1 + added
    &&& none_finished(v.nodes) ==> v.nodes.len() == 1 + added
}

proof fn arriving_is_counted(v: TreeView, id: int, more: int)
    requires
        v.moving(id),
        v.leaves.len() == 0,
        counted(v, more),
        more == 0 || more == 1,
        more == 1 ==> !v.nodes[id].expanded,
        more == 0 ==> v.nodes[id].settled(),
    ensures
        counted(v.arrived(id), 0),
{
    let node = v.nodes[id];
    let w = v.arrived(id);
    if node.pending {
        let s = choose|s: int|
            0 <= s < v.leaves.len() && (#[trigger] v.leaves[s]).node == id && v.leaves[s].value
                is Waiting;
        assert(false);
    }
    if none_finished(w.nodes) {
        assert forall|i: int| 0 <= i < v.nodes.len() implies !(#[trigger] v.nodes[i]).terminal by {
            assert(!w.nodes[i].terminal);
        }
        assert(!w.nodes[id].terminal);
    }
}

/// Going on keeps the count.
proof fn going_on_is_counted(v: TreeView, id: int, edge: int)
    requires
        v.base(),
        v.settled_but(-1),
        v.leaves.len() == 0,
        counted(v, 0),
        0 <= id < v.nodes.len(),
        v.nodes[id].expanded,
        0 <= edge < v.nodes[id].children.len(),
        leads_to(v.nodes, v.open_steps(), id),
        v.room_at(id),
    ensures
        counted(v.took_edge(id, edge), 0),
{
    let child = v.nodes[id].children[edge];
    if child != NO_NODE {
        assert(v.settled_but(child as int));
        crate::mcts::tree::walking_keeps(v, id, edge);
        let w = v.walked(id, edge);
        walking_is_counted(v, id, edge, 0);
        assert(v.nodes[child as int].settled());
        assert(w.nodes[child as int].settled());
        arriving_is_counted(w, child as int, 0);
    }
}

proof fn walking_is_counted(v: TreeView, id: int, edge: int, more: int)
    requires
        0 <= id < v.nodes.len(),
        counted(v, more),
    ensures
        counted(v.walked(id, edge), more),
{
    let w = v.walked(id, edge);
    if none_finished(w.nodes) {
        assert forall|i: int| 0 <= i < v.nodes.len() implies !(#[trigger] v.nodes[i]).terminal by {
            assert(!w.nodes[i].terminal);
        }
    }
}

proof fn supplying_is_counted(v: TreeView, edge: int, next: StateView)
    requires
        balanced(v),
        counted(v, 0),
        can_search(v, Move::Supply { edge, next }),
    ensures
        counted(searcher_after(v, Move::Supply { edge, next }), 0),
{
    let id = v.cursor->Applying_node as int;
    crate::mcts::tree::linking_keeps(v, id, edge, next);
    let w = v.linked(id, edge, next);
    let child = v.link_target(next);
    let more: int = if v.merging(next) {
        0
    } else {
        1
    };
    assert(counted(w, more)) by {
        if none_finished(w.nodes) {
            assert forall|i: int| 0 <= i < v.nodes.len() implies !(
            #[trigger] v.nodes[i]).terminal by {
                assert(!w.nodes[i].terminal);
            }
        }
    }
    crate::mcts::tree::walking_keeps(w, id, edge);
    walking_is_counted(w, id, edge, more);
    let x = w.walked(id, edge);
    if v.merging(next) {
        assert(v.nodes[child].settled());
        assert(x.nodes[child].settled());
    } else {
        assert(!w.nodes[child].expanded);
    }
    arriving_is_counted(x, child, more);
}

proof fn moving_is_counted(v: TreeView, m: Move)
    requires
        balanced(v),
        counted(v, 0),
        can_search(v, m),
        m is Begin ==> v.resting(),
    ensures
        counted(searcher_after(v, m), 0),
{
    let w = searcher_after(v, m);
    match m {
        Move::Begin => {
            assert(v.open_steps() =~= Seq::empty());
            if v.scheduled() {
                let plan = v.plan->0;
                let planned = TreeView { plan: Some(plan.took()), ..v };
                assert(planned.open_steps() =~= Seq::empty());
                assert(planned.base());
                going_on_is_counted(planned, 0, plan.next_edge() as int);
            } else {
                assert(v.moving(0));
                arriving_is_counted(v, 0, 0);
            }
        },
        Move::Take { edge } => {
            let id = v.cursor->Choosing_node as int;
            assert(v.nodes[id].wf());
            going_on_is_counted(v, id, edge);
        },
        Move::Supply { edge, next } => {
            supplying_is_counted(v, edge, next);
        },
        _ => {
            if none_finished(w.nodes) {
                assert forall|i: int| 0 <= i < v.nodes.len() implies !(
                #[trigger] v.nodes[i]).terminal by {
                    assert(!w.nodes[i].terminal);
                }
            }
        },
    }
}

// ------------------------------------------------------------------- laws

/// Every move of the series can be made when its turn comes, and each descent
/// starts only when the one before it has been backed up.
pub open spec fn one_at_a_time(v: TreeView, moves: Seq<Move>) -> bool
    decreases moves.len(),
{
    moves.len() > 0 ==> {
        let before = moves.drop_last();
        &&& one_at_a_time(v, before)
        &&& can_search(searcher_run(v, before), moves.last())
        &&& moves.last() is Begin ==> searcher_run(v, before).resting()
    }
}

proof fn a_search_is_balanced(state: StateView, dag: bool, moves: Seq<Move>)
    requires
        state.wf(),
        one_at_a_time(sapling(state, dag), moves),
    ensures
        balanced(searcher_run(sapling(state, dag), moves)),
    decreases moves.len(),
{
    let start = sapling(state, dag);
    if moves.len() == 0 {
        sapling_is_wf(state, dag);
        assert(balanced(start));
    } else {
        let before = moves.drop_last();
        a_search_is_balanced(state, dag, before);
        moving_is_balanced(searcher_run(start, before), moves.last());
    }
}

/// Searching one descent at a time, a node pools the visits of every parent:
/// what all of them have delivered is the node's own visits and the one that
/// expanded it, and an edge leads to a node exactly when it has carried a
/// visit.
pub proof fn a_merged_node_pools_the_visits_of_every_parent(
    state: StateView,
    dag: bool,
    moves: Seq<Move>,
    node: int,
)
    requires
        state.wf(),
        one_at_a_time(sapling(state, dag), moves),
        searcher_run(sapling(state, dag), moves).resting(),
        1 <= node < searcher_run(sapling(state, dag), moves).nodes.len(),
    ensures
        ({
            let v = searcher_run(sapling(state, dag), moves);
            &&& taken_ok(v.nodes)
            &&& v.nodes[node].terminal ==> v.nodes[node].visits == 0
            &&& !v.nodes[node].terminal ==> v.nodes[node].expanded && delivered(v.nodes, node)
                == v.nodes[node].visits + 1
        }),
{
    let v = searcher_run(sapling(state, dag), moves);
    a_search_is_balanced(state, dag, moves);
    assert(v.nodes[node].wf());
    assert(v.nodes[node].settled());
    assert(even(v.nodes, node, standing(v.cursor)));
    if v.nodes[node].pending {
        let s = choose|s: int|
            0 <= s < v.leaves.len() && (#[trigger] v.leaves[s]).node == node && v.leaves[s].value
                is Waiting;
        assert(false);
    }
    assert forall|i: int| 0 <= i < v.nodes.len() implies {
        let held = #[trigger] v.nodes[i];
        &&& held.vl.len() == held.children.len()
        &&& forall|e: int| 0 <= e < held.vl.len() ==> (#[trigger] held.vl[e]) == 0
    } by {
        crate::mcts::tree::a_round_leaves_no_virtual_loss_behind(v);
        assert(v.nodes[i].wf());
    }
    landed_is_delivered(v.nodes, node);
}

/// Searching one descent at a time, every simulation adds one node, merging or
/// not. A simulation that ends at a finished position it has met before adds
/// none.
pub proof fn every_simulation_adds_one_node(state: StateView, dag: bool, moves: Seq<Move>)
    requires
        state.wf(),
        one_at_a_time(sapling(state, dag), moves),
        searcher_run(sapling(state, dag), moves).resting(),
    ensures
        ({
            let v = searcher_run(sapling(state, dag), moves);
            &&& v.nodes.len() <= v.sims + 1
            &&& (forall|i: int| 0 <= i < v.nodes.len() ==> !(#[trigger] v.nodes[i]).terminal)
                ==> v.nodes.len() == v.sims + 1
        }),
{
    a_search_is_counted(state, dag, moves);
}

proof fn a_search_is_counted(state: StateView, dag: bool, moves: Seq<Move>)
    requires
        state.wf(),
        one_at_a_time(sapling(state, dag), moves),
    ensures
        counted(searcher_run(sapling(state, dag), moves), 0),
    decreases moves.len(),
{
    if moves.len() > 0 {
        let before = moves.drop_last();
        a_search_is_balanced(state, dag, before);
        a_search_is_counted(state, dag, before);
        moving_is_counted(searcher_run(sapling(state, dag), before), moves.last());
    }
}

} // verus!
