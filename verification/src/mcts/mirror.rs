//! A lone worker of the shared tree is the serial searcher.
//!
//! The two keep different books. The searcher gives a node its edges when it
//! collects it and finds a stuck position on arrival; the shared tree publishes
//! edges after the evaluation and finds a stuck position then. [`mirrors`] says
//! what agrees all the same, after every step: wherever an edge has to be
//! chosen, both show the same node with the same statistics, and the same
//! choice keeps them in step. Between rounds nothing differs at all.

use crate::game::StateView;
use crate::mcts::budget::{every_descent_started_is_one_simulation, searchable};
use crate::mcts::moves::{can_search, none_waits, searcher_after, searcher_run, Move};
use crate::mcts::parallel::claimed;
use crate::mcts::pool::{
    a_lone_worker_never_collides, planted, planting_is_wf, seed, slot_of, waits, Pace, PoolView, SharedView, WorkerView,
};
use crate::mcts::search::{batch_target, lists_waiting, sapling, sapling_is_wf};
use crate::mcts::tree::{
    descents_wf, fresh, outcome_value, rooted, total_of_zeros, waiting_slot_is, Credit, Cursor, Descent,
    Leaf, LeafValue, NodeView, TreeView, NO_NODE,
};
use vstd::prelude::*;

verus! {

/// The two nodes have the same edges, with the same statistics and links.
pub open spec fn same_edges(s: NodeView, p: SharedView) -> bool {
    &&& s.actions == p.actions
    &&& s.children == p.children
    &&& s.n == p.n
    &&& s.vl == p.vl
    &&& s.visits == p.visits
    &&& s.vl_visits == p.vl_visits
}

/// Edges nobody has taken.
pub open spec fn untouched(s: NodeView) -> bool {
    let count = s.actions.len();
    &&& s.children == Seq::new(count, |e: int| NO_NODE)
    &&& s.n == Seq::new(count, |e: int| 0u32)
    &&& s.vl == Seq::new(count, |e: int| 0u32)
}

/// A node of the searcher and the same node of the shared tree.
pub open spec fn twins(s: NodeView, p: SharedView) -> bool {
    &&& s.state == p.state
    &&& s.expanded <==> p.published()
    &&& s.expanded ==> same_edges(s, p)
    &&& s.pending ==> p.claimed && untouched(s)
    &&& p.claimed ==> s.pending || (s.terminal && s.state.legal_actions.len() == 0)
    &&& p.outcome matches Some(value) ==> s.terminal && s.terminal_value == value
    &&& s.terminal ==> p.outcome is Some || p.claimed
}

/// The two leaves have the same value, or the shared tree has yet to find out
/// that the position is stuck.
pub open spec fn agree(s: LeafValue, p: LeafValue) -> bool {
    s == p || (s is Terminal && p is Waiting)
}

/// Descent `d` of the batch took the same steps in both, to the same node.
pub open spec fn same_descent(v: TreeView, worker: WorkerView, d: int) -> bool {
    let s = v.descents[d];
    let p = worker.descents[d];
    &&& s.start == p.start
    &&& s.end == p.end
    &&& v.leaves[s.leaf as int].node == worker.leaves[p.leaf as int].node
    &&& agree(v.leaves[s.leaf as int].value, worker.leaves[p.leaf as int].value)
}

/// What agrees whatever the descent under way is doing.
pub open spec fn abreast(v: TreeView, p: PoolView) -> bool {
    &&& !v.dag
    &&& v.plan is None
    &&& p.workers.len() == 1
    &&& v.nodes.len() == p.nodes.len()
    &&& forall|i: int|
        #![trigger v.nodes[i]]
        #![trigger p.nodes[i]]
        0 <= i < v.nodes.len() ==> twins(v.nodes[i], p.nodes[i])
    &&& v.path == p.workers[0].path
    &&& p.workers[0].leaves.len() <= v.leaves.len()
    &&& v.descents.len() == p.workers[0].descents.len()
    &&& forall|d: int|
        0 <= d < v.descents.len() ==> #[trigger] same_descent(v, p.workers[0], d)
}

/// A searcher without merging or a schedule, and a shared tree with one
/// worker, in step.
pub open spec fn mirrors(v: TreeView, p: PoolView) -> bool {
    &&& v.wf()
    &&& p.wf()
    &&& abreast(v, p)
    &&& match v.cursor {
        Cursor::Idle => p.workers[0].cursor is None,
        Cursor::Choosing { node } => p.workers[0].cursor == Some(node),
        Cursor::Applying { node, edge } => p.workers[0].cursor == Some(node),
    }
}

/// Both can make the move.
pub open spec fn can_move(v: TreeView, p: PoolView, m: Move) -> bool {
    &&& can_search(v, m)
    &&& v.path.len() + 1 < usize::MAX
    &&& match m {
        Move::Backup => none_waits(p.workers[0].leaves),
        Move::Plan { .. } => false,
        _ => true,
    }
}

/// The edges of every node the worker holds published, one after another.
pub open spec fn opened_all(p: PoolView, slots: Seq<usize>) -> PoolView
    decreases slots.len(),
{
    if slots.len() == 0 {
        p
    } else {
        opened_all(p, slots.drop_last()).opened(0, slots.last() as int)
    }
}

/// The slots that wait, in order.
pub open spec fn waiting_slots(leaves: Seq<Leaf>, count: int) -> Seq<usize>
    decreases count,
{
    if count <= 0 {
        Seq::empty()
    } else if leaves[count - 1].value is Waiting {
        waiting_slots(leaves, count - 1).push((count - 1) as usize)
    } else {
        waiting_slots(leaves, count - 1)
    }
}

/// What the move does to the lone worker's tree.
pub open spec fn pool_after(p: PoolView, m: Move) -> PoolView {
    match m {
        Move::Begin => p.began(0).arrived(0),
        Move::Take { edge } => if p.nodes[p.at(0)].children[edge] == NO_NODE {
            p
        } else {
            p.walked(0, edge).arrived(0)
        },
        Move::Supply { edge, next } => p.linked(p.at(0), edge, next).walked(0, edge).arrived(0),
        Move::Evaluate => {
            let q = p.sorted_out(0);
            let leaves = q.workers[0].leaves;
            opened_all(q, waiting_slots(leaves, leaves.len() as int))
        },
        Move::Backup => p.backed_up(0),
        Move::Plan { .. } => p,
    }
}

// ---------------------------------------------------------------- one step

/// A node of a shared tree without edges has no statistics.
proof fn unpublished_counts_nothing(p: SharedView)
    requires
        p.wf(),
        !p.published(),
    ensures
        p.visits == 0,
        p.vl_visits == 0,
        p.actions =~= Seq::empty(),
        p.children =~= Seq::empty(),
        p.n =~= Seq::empty(),
        p.vl =~= Seq::empty(),
{
}

/// A claim of a lone worker's tree is its own.
proof fn a_claim_is_its_own(p: PoolView, id: int)
    requires
        p.wf(),
        p.workers.len() == 1,
        0 <= id < p.nodes.len(),
    ensures
        p.nodes[id].claimed <==> p.workers[0].holds(id),
        p.workers[0].holds(id) ==> waits(p.workers[0], slot_of(p.workers[0], id), id),
{
    let worker = p.workers[0];
    assert(worker.wf(p.nodes));
    if p.nodes[id].claimed {
        let (w, s) = choose|w: int, s: int|
            0 <= w < p.workers.len() && #[trigger] waits(p.workers[w], s, id);
        assert(waits(worker, s, id));
    }
    if worker.holds(id) {
        let s = choose|s: int| waits(worker, s, id);
        assert(crate::mcts::pool::leaf_ok(p.nodes, worker.leaves[s]));
    }
}

/// Descents already closed stay the same when a leaf is appended.
proof fn appending_keeps_descents(v: TreeView, p: PoolView, w: TreeView, worker: WorkerView)
    requires
        v.base(),
        p.wf(),
        abreast(v, p),
        v.descents.is_prefix_of(w.descents),
        v.leaves.is_prefix_of(w.leaves),
        p.workers[0].descents.is_prefix_of(worker.descents),
        p.workers[0].leaves.is_prefix_of(worker.leaves),
    ensures
        forall|d: int|
            0 <= d < v.descents.len() ==> #[trigger] same_descent(w, worker, d),
{
    assert(p.workers[0].wf(p.nodes));
    assert forall|d: int| 0 <= d < v.descents.len() implies #[trigger] same_descent(
        w,
        worker,
        d,
    ) by {
        assert(same_descent(v, p.workers[0], d));
        assert(w.descents[d] == v.descents[d]);
        assert(worker.descents[d] == p.workers[0].descents[d]);
        let s = v.descents[d].leaf as int;
        let r = p.workers[0].descents[d].leaf as int;
        assert(w.leaves[s] == v.leaves[s]);
        assert(worker.leaves[r] == p.workers[0].leaves[r]);
    }
}

/// What arriving at node `id` leaves of the nodes.
proof fn arriving_keeps_twins(v: TreeView, p: PoolView, id: int)
    requires
        abreast(v, p),
        p.walking(0),
        p.at(0) == id,
        0 <= id < v.nodes.len(),
        v.nodes[id].wf(),
        p.nodes[id].wf(),
        p.nodes[id].claimed <==> p.workers[0].holds(id),
    ensures
        v.arrived(id).nodes.len() == p.arrived(0).nodes.len(),
        forall|i: int|
            0 <= i < v.nodes.len() ==> #[trigger] twins(
                v.arrived(id).nodes[i],
                p.arrived(0).nodes[i],
            ),
{
    let s = v.nodes[id];
    let node = p.nodes[id];
    assert(twins(s, node));
    let w = v.arrived(id);
    let q = p.arrived(0);
    assert(q.nodes == p.nodes || q.nodes == p.nodes.update(
        id,
        SharedView { claimed: true, ..node },
    ));
    assert(twins(w.nodes[id], q.nodes[id]));
    assert forall|i: int| 0 <= i < v.nodes.len() implies #[trigger] twins(
        w.nodes[i],
        q.nodes[i],
    ) by {
        if i != id {
            assert(twins(v.nodes[i], p.nodes[i]));
            assert(w.nodes[i] == v.nodes[i]);
            assert(q.nodes[i] == p.nodes[i]);
        }
    }
}

/// A descent that ends in both, at leaves that agree.
proof fn ending_in_step(v: TreeView, p: PoolView, w: TreeView, worker: WorkerView, a: int, b: int)
    requires
        v.base(),
        p.wf(),
        abreast(v, p),
        v.leaves.is_prefix_of(w.leaves),
        p.workers[0].leaves.is_prefix_of(worker.leaves),
        v.path.len() < usize::MAX,
        w.leaves.len() <= usize::MAX,
        worker.leaves.len() <= usize::MAX,
        w.path == v.path,
        worker.path == p.workers[0].path,
        w.descents == v.closed_at(a).descents,
        worker.descents == p.workers[0].closed(b).descents,
        0 <= a < w.leaves.len(),
        0 <= b < worker.leaves.len(),
        w.leaves[a].node == worker.leaves[b].node,
        agree(w.leaves[a].value, worker.leaves[b].value),
    ensures
        w.descents.len() == worker.descents.len(),
        forall|d: int| 0 <= d < w.descents.len() ==> #[trigger] same_descent(w, worker, d),
{
    assert(v.open_start() == p.workers[0].open_start()) by {
        if v.descents.len() > 0 {
            assert(same_descent(v, p.workers[0], v.descents.len() - 1));
        }
    }
    appending_keeps_descents(v, p, w, worker);
    let last = v.descents.len() as int;
    assert(same_descent(w, worker, last));
    assert forall|d: int| 0 <= d < w.descents.len() implies #[trigger] same_descent(
        w,
        worker,
        d,
    ) by {
        if d < last {
            assert(same_descent(w, worker, d));
        }
    }
}

/// What arriving at node `id` leaves of the batch.
proof fn arriving_keeps_batch(v: TreeView, p: PoolView, id: int)
    requires
        v.moving(id),
        p.wf(),
        abreast(v, p),
        p.walking(0),
        p.at(0) == id,
        v.path.len() < usize::MAX,
        v.leaves.len() < usize::MAX,
    ensures
        ({
            let w = v.arrived(id);
            let worker = p.arrived(0).workers[0];
            &&& p.arrived(0).workers.len() == 1
            &&& w.path == worker.path
            &&& worker.leaves.len() <= w.leaves.len()
            &&& w.descents.len() == worker.descents.len()
            &&& forall|d: int| 0 <= d < w.descents.len() ==> #[trigger] same_descent(w, worker, d)
            &&& match w.cursor {
                Cursor::Idle => worker.cursor is None,
                Cursor::Choosing { node } => worker.cursor == Some(node),
                Cursor::Applying { node, edge } => false,
            }
        }),
{
    a_claim_is_its_own(p, id);
    let s = v.nodes[id];
    let node = p.nodes[id];
    assert(s.wf());
    assert(node.wf());
    assert(twins(s, node));
    let w = v.arrived(id);
    let mine = p.workers[0];
    let worker = p.arrived(0).workers[0];
    let slot = slot_of(mine, id);
    let newest = v.leaves.len() as int;
    let fresh_slot = mine.leaves.len() as int;
    if s.terminal {
        if node.outcome is Some {
            ending_in_step(v, p, w, worker, newest, fresh_slot);
        } else {
            ending_in_step(v, p, w, worker, newest, slot);
        }
    } else if s.pending {
        let r = choose|r: int|
            0 <= r < v.leaves.len() && (#[trigger] v.leaves[r]).node == id && v.leaves[r].value
                is Waiting;
        waiting_slot_is(v.nodes, v.leaves, id, r);
        ending_in_step(v, p, w, worker, r, slot);
    } else if s.expanded {
        assert(p.arrived(0) == p);
        assert forall|d: int| 0 <= d < w.descents.len() implies #[trigger] same_descent(
            w,
            worker,
            d,
        ) by {
            assert(same_descent(v, mine, d));
        }
    } else {
        ending_in_step(v, p, w, worker, newest, fresh_slot);
    }
}

/// Both arrive at the same node, and do the same there.
proof fn arriving_in_step(v: TreeView, p: PoolView, id: int)
    requires
        v.moving(id),
        p.wf(),
        abreast(v, p),
        p.walking(0),
        p.at(0) == id,
        v.path.len() < usize::MAX,
        v.leaves.len() < usize::MAX,
        v.descents.len() < usize::MAX,
    ensures
        mirrors(v.arrived(id), p.arrived(0)),
{
    assert(v.nodes[id].wf());
    assert(p.nodes[id].wf());
    a_claim_is_its_own(p, id);
    arriving_keeps_twins(v, p, id);
    arriving_keeps_batch(v, p, id);
    crate::mcts::tree::arriving_keeps(v, id);
    crate::mcts::pool::arriving_keeps(p, 0);
    let w = v.arrived(id);
    let q = p.arrived(0);
    assert(abreast(w, q)) by {
        assert forall|i: int|
            #![trigger w.nodes[i]]
            #![trigger q.nodes[i]]
            0 <= i < w.nodes.len() implies twins(w.nodes[i], q.nodes[i]) by {
            assert(twins(w.nodes[i], q.nodes[i]));
        }
    }
}

/// Both take the same edge of the same node.
proof fn walking_in_step(v: TreeView, p: PoolView, id: int, edge: int)
    requires
        p.wf(),
        abreast(v, p),
        p.walking(0),
        p.at(0) == id,
        0 <= id < v.nodes.len(),
        v.nodes[id].visits + v.nodes[id].vl_visits < u32::MAX,
        v.nodes[id].expanded,
        0 <= edge < v.nodes[id].children.len(),
        v.nodes[id].children[edge] != NO_NODE,
    ensures
        abreast(v.walked(id, edge), p.walked(0, edge)),
        p.walked(0, edge).wf(),
        p.walked(0, edge).walking(0),
        p.walked(0, edge).at(0) == v.nodes[id].children[edge],
{
    assert(twins(v.nodes[id], p.nodes[id]));
    crate::mcts::pool::walking_keeps(p, 0, edge);
    let w = v.walked(id, edge);
    let q = p.walked(0, edge);
    assert forall|i: int|
        #![trigger w.nodes[i]]
        #![trigger q.nodes[i]]
        0 <= i < w.nodes.len() implies twins(w.nodes[i], q.nodes[i]) by {
        assert(twins(v.nodes[i], p.nodes[i]));
    }
    assert forall|d: int| 0 <= d < w.descents.len() implies #[trigger] same_descent(
        w,
        q.workers[0],
        d,
    ) by {
        assert(same_descent(v, p.workers[0], d));
    }
}

/// Both put the same position behind the same edge.
proof fn linking_in_step(v: TreeView, p: PoolView, id: int, edge: int, next: StateView)
    requires
        v.base(),
        p.wf(),
        abreast(v, p),
        0 <= id < v.nodes.len(),
        v.nodes.len() < NO_NODE,
        v.nodes[id].expanded,
        0 <= edge < v.nodes[id].children.len(),
        v.nodes[id].children[edge] == NO_NODE,
        next.wf(),
    ensures
        abreast(v.linked(id, edge, next), p.linked(id, edge, next)),
        p.linked(id, edge, next).wf(),
        p.linked(id, edge, next).workers == p.workers,
        v.link_target(next) == v.nodes.len(),
{
    assert(twins(v.nodes[id], p.nodes[id]));
    crate::mcts::pool::linking_keeps(p, id, edge, next);
    let w = v.linked(id, edge, next);
    let q = p.linked(id, edge, next);
    assert(twins(fresh(next), seed(next)));
    assert forall|i: int|
        #![trigger w.nodes[i]]
        #![trigger q.nodes[i]]
        0 <= i < w.nodes.len() implies twins(w.nodes[i], q.nodes[i]) by {
        if i < v.nodes.len() {
            assert(twins(v.nodes[i], p.nodes[i]));
        }
    }
    assert forall|d: int| 0 <= d < w.descents.len() implies #[trigger] same_descent(
        w,
        q.workers[0],
        d,
    ) by {
        assert(same_descent(v, p.workers[0], d));
    }
}

/// One of the first `count` leaves waits for node `id`.
spec fn held_early(worker: WorkerView, count: int, id: int) -> bool {
    exists|s: int| s < count && #[trigger] waits(worker, s, id)
}

/// What publishing the first `count` waiting leaves does.
proof fn opening_opens(q: PoolView, count: int)
    requires
        q.wf(),
        q.workers.len() == 1,
        0 <= count <= q.workers[0].leaves.len() <= usize::MAX,
        forall|s: int|
            0 <= s < q.workers[0].leaves.len() && (#[trigger] q.workers[0].leaves[s]).value
                is Waiting ==> !q.is_stuck(q.workers[0].leaves[s].node as int),
    ensures
        ({
            let worker = q.workers[0];
            let r = opened_all(q, waiting_slots(worker.leaves, count));
            &&& r.wf()
            &&& r.collisions == q.collisions
            &&& r.nodes.len() == q.nodes.len()
            &&& forall|i: int|
                0 <= i < q.nodes.len() ==> #[trigger] r.nodes[i] == (if held_early(
                    worker,
                    count,
                    i,
                ) {
                    crate::mcts::pool::with_edges(q.nodes[i])
                } else {
                    q.nodes[i]
                })
            &&& r.workers.len() == 1
            &&& r.workers[0].path == worker.path
            &&& r.workers[0].descents == worker.descents
            &&& r.workers[0].cursor == worker.cursor
            &&& r.workers[0].leaves.len() == worker.leaves.len()
            &&& forall|s: int|
                0 <= s < worker.leaves.len() ==> #[trigger] r.workers[0].leaves[s] == (if s < count
                    && worker.leaves[s].value is Waiting {
                    Leaf { value: LeafValue::Evaluated, ..worker.leaves[s] }
                } else {
                    worker.leaves[s]
                })
        }),
    decreases count,
{
    let worker = q.workers[0];
    assert(worker.wf(q.nodes));
    if count > 0 {
        opening_opens(q, count - 1);
        let slots = waiting_slots(worker.leaves, count - 1);
        let r = opened_all(q, slots);
        let last = count - 1;
        let leaf = worker.leaves[last];
        let id = leaf.node as int;
        assert(r.workers[0].leaves[last] == leaf);
        assert(crate::mcts::pool::leaf_ok(q.nodes, leaf));
        if leaf.value is Waiting {
            let next = waiting_slots(worker.leaves, count);
            assert(next.drop_last() =~= slots);
            assert(waits(worker, last, id));
            assert(!held_early(worker, last, id)) by {
                if held_early(worker, last, id) {
                    let s = choose|s: int| s < last && #[trigger] waits(worker, s, id);
                    assert(waits(q.workers[0], s, id) && waits(q.workers[0], last, id));
                }
            }
            assert(r.nodes[id] == q.nodes[id]);
            crate::mcts::pool::publishing_keeps(r, 0, last);
            let done = opened_all(q, next);
            assert(done == r.opened(0, last));
            assert forall|i: int| 0 <= i < q.nodes.len() implies #[trigger] done.nodes[i] == (
            if held_early(worker, count, i) {
                crate::mcts::pool::with_edges(q.nodes[i])
            } else {
                q.nodes[i]
            }) by {
                assert(r.nodes[i] == (if held_early(worker, last, i) {
                    crate::mcts::pool::with_edges(q.nodes[i])
                } else {
                    q.nodes[i]
                }));
                if i == id {
                    assert(held_early(worker, count, i));
                } else if held_early(worker, count, i) {
                    let s = choose|s: int| s < count && #[trigger] waits(worker, s, i);
                    assert(s < last);
                    assert(held_early(worker, last, i));
                } else if held_early(worker, last, i) {
                    let s = choose|s: int| s < last && #[trigger] waits(worker, s, i);
                    assert(s < count && waits(worker, s, i));
                }
            }
        } else {
            assert forall|i: int| held_early(worker, count, i) == held_early(worker, last, i) by {
                if held_early(worker, count, i) {
                    let s = choose|s: int| s < count && #[trigger] waits(worker, s, i);
                    assert(s < last && waits(worker, s, i));
                }
                if held_early(worker, last, i) {
                    let s = choose|s: int| s < last && #[trigger] waits(worker, s, i);
                    assert(s < count && waits(worker, s, i));
                }
            }
        }
    } else {
        assert forall|i: int| !held_early(worker, 0, i) by {
            if held_early(worker, 0, i) {
                let s = choose|s: int| s < 0 && #[trigger] waits(worker, s, i);
            }
        }
    }
}

/// What evaluating a lone worker's batch does.
proof fn evaluating_evaluates(p: PoolView)
    requires
        p.wf(),
        p.workers.len() == 1,
        p.workers[0].leaves.len() <= usize::MAX,
    ensures
        ({
            let worker = p.workers[0];
            let r = pool_after(p, Move::Evaluate);
            &&& r.wf()
            &&& r.nodes.len() == p.nodes.len()
            &&& forall|i: int|
                0 <= i < p.nodes.len() ==> #[trigger] r.nodes[i] == (if !p.nodes[i].claimed {
                    p.nodes[i]
                } else if p.is_stuck(i) {
                    crate::mcts::pool::stuck(p.nodes[i])
                } else {
                    crate::mcts::pool::with_edges(p.nodes[i])
                })
            &&& r.workers.len() == 1
            &&& r.workers[0].path == worker.path
            &&& r.workers[0].descents == worker.descents
            &&& r.workers[0].cursor == worker.cursor
            &&& r.workers[0].leaves.len() == worker.leaves.len()
            &&& forall|s: int|
                0 <= s < worker.leaves.len() ==> #[trigger] r.workers[0].leaves[s] == (
                if worker.leaves[s].value !is Waiting {
                    worker.leaves[s]
                } else if p.is_stuck(worker.leaves[s].node as int) {
                    Leaf {
                        value: LeafValue::Terminal(
                            outcome_value(p.nodes[worker.leaves[s].node as int].state),
                        ),
                        ..worker.leaves[s]
                    }
                } else {
                    Leaf { value: LeafValue::Evaluated, ..worker.leaves[s] }
                })
        }),
{
    crate::mcts::pool::sorting_out_keeps(p, 0);
    let worker = p.workers[0];
    let q = p.sorted_out(0);
    let sorted = q.workers[0];
    assert(worker.wf(p.nodes));
    assert forall|s: int|
        0 <= s < sorted.leaves.len() && (#[trigger] sorted.leaves[s]).value is Waiting implies
        !q.is_stuck(sorted.leaves[s].node as int) by {
        assert(crate::mcts::pool::leaf_ok(p.nodes, worker.leaves[s]));
        assert(sorted.leaves[s] == worker.leaves[s]);
    }
    let count = sorted.leaves.len() as int;
    opening_opens(q, count);
    let r = pool_after(p, Move::Evaluate);
    assert forall|i: int| 0 <= i < p.nodes.len() implies #[trigger] r.nodes[i] == (
    if !p.nodes[i].claimed {
        p.nodes[i]
    } else if p.is_stuck(i) {
        crate::mcts::pool::stuck(p.nodes[i])
    } else {
        crate::mcts::pool::with_edges(p.nodes[i])
    }) by {
        a_claim_is_its_own(p, i);
        assert(r.nodes[i] == (if held_early(sorted, count, i) {
            crate::mcts::pool::with_edges(q.nodes[i])
        } else {
            q.nodes[i]
        }));
        if held_early(sorted, count, i) {
            let s = choose|s: int| s < count && #[trigger] waits(sorted, s, i);
            assert(waits(worker, s, i));
            assert(!p.is_stuck(i));
        }
        if worker.holds(i) && !p.is_stuck(i) {
            let s = slot_of(worker, i);
            assert(waits(sorted, s, i));
            assert(held_early(sorted, count, i));
        }
    }
    assert forall|s: int| 0 <= s < worker.leaves.len() implies #[trigger] r.workers[0].leaves[s]
        == (if worker.leaves[s].value !is Waiting {
        worker.leaves[s]
    } else if p.is_stuck(worker.leaves[s].node as int) {
        Leaf {
            value: LeafValue::Terminal(
                outcome_value(p.nodes[worker.leaves[s].node as int].state),
            ),
            ..worker.leaves[s]
        }
    } else {
        Leaf { value: LeafValue::Evaluated, ..worker.leaves[s] }
    }) by {
        assert(r.workers[0].leaves[s] == (if s < count && sorted.leaves[s].value is Waiting {
            Leaf { value: LeafValue::Evaluated, ..sorted.leaves[s] }
        } else {
            sorted.leaves[s]
        }));
    }
}

/// Evaluating two nodes that are twins leaves twins.
proof fn evaluated_twins(s: NodeView, p: SharedView)
    requires
        s.wf(),
        p.wf(),
        twins(s, p),
    ensures
        ({
            let a = if s.pending {
                NodeView { pending: false, expanded: true, ..s }
            } else {
                s
            };
            let b = if !p.claimed {
                p
            } else if p.state.legal_actions.len() == 0 {
                crate::mcts::pool::stuck(p)
            } else {
                crate::mcts::pool::with_edges(p)
            };
            twins(a, b) && !b.claimed
        }),
{
    if s.pending {
        total_of_zeros(s.n);
        total_of_zeros(s.vl);
        unpublished_counts_nothing(p);
        assert(same_edges(s, crate::mcts::pool::with_edges(p)));
    }
}

/// Both evaluate their batch.
proof fn evaluating_in_step(v: TreeView, p: PoolView)
    requires
        mirrors(v, p),
        v.cursor is Idle,
        v.leaves.len() <= usize::MAX,
    ensures
        mirrors(v.evaluated(), pool_after(p, Move::Evaluate)),
        none_waits(v.evaluated().leaves),
        none_waits(pool_after(p, Move::Evaluate).workers[0].leaves),
{
    crate::mcts::tree::evaluating_keeps(v);
    evaluating_evaluates(p);
    let w = v.evaluated();
    let q = pool_after(p, Move::Evaluate);
    let worker = p.workers[0];
    assert(worker.wf(p.nodes));
    assert forall|i: int|
        #![trigger w.nodes[i]]
        #![trigger q.nodes[i]]
        0 <= i < w.nodes.len() implies twins(w.nodes[i], q.nodes[i]) by {
        assert(twins(v.nodes[i], p.nodes[i]));
        assert(v.nodes[i].wf() && p.nodes[i].wf());
        evaluated_twins(v.nodes[i], p.nodes[i]);
    }
    assert forall|d: int| 0 <= d < w.descents.len() implies #[trigger] same_descent(
        w,
        q.workers[0],
        d,
    ) by {
        assert(same_descent(v, worker, d));
        let a = v.descents[d].leaf as int;
        let b = worker.descents[d].leaf as int;
        let id = v.leaves[a].node as int;
        assert(w.leaves[a].node == id);
        assert(q.workers[0].leaves[b].node == id);
        assert(v.nodes[id].wf() && p.nodes[id].wf());
        assert(twins(v.nodes[id], p.nodes[id]));
        assert(crate::mcts::pool::leaf_ok(p.nodes, worker.leaves[b]));
    }
}

/// A lone worker's virtual loss is its own path.
proof fn a_lone_flight(workers: Seq<WorkerView>, node: int, edge: int)
    requires
        workers.len() == 1,
    ensures
        crate::mcts::pool::in_flight(workers, node, edge) == crate::mcts::pool::passes(
            workers[0].path,
            node,
            edge,
        ),
{
    assert(workers.drop_last().len() == 0);
    assert(crate::mcts::pool::in_flight(workers.drop_last(), node, edge) == 0);
}

/// Both back their batch up.
proof fn backing_up_in_step(v: TreeView, p: PoolView)
    requires
        mirrors(v, p),
        v.cursor is Idle,
        none_waits(v.leaves),
        none_waits(p.workers[0].leaves),
    ensures
        mirrors(v.backed_up(), p.backed_up(0)),
        v.backed_up().resting(),
{
    crate::mcts::tree::backing_up_keeps(v);
    crate::mcts::pool::backing_up_keeps(p, 0);
    let w = v.backed_up();
    let q = p.backed_up(0);
    let path = p.workers[0].path;
    assert forall|i: int|
        #![trigger w.nodes[i]]
        #![trigger q.nodes[i]]
        0 <= i < w.nodes.len() implies twins(w.nodes[i], q.nodes[i]) by {
        let s = v.nodes[i];
        let node = p.nodes[i];
        assert(s.wf() && node.wf());
        assert(twins(s, node));
        assert(s.vl_visits == crate::mcts::tree::departures(path, i));
        if s.expanded {
            assert forall|e: int| 0 <= e < s.n.len() implies node.vl[e]
                == crate::mcts::pool::passes(path, i, e) by {
                a_lone_flight(p.workers, i, e);
                assert(node.vl[e] == crate::mcts::pool::in_flight(p.workers, i, e));
            }
            assert(w.nodes[i].n =~= q.nodes[i].n);
            assert(w.nodes[i].vl =~= q.nodes[i].vl);
            assert(same_edges(w.nodes[i], q.nodes[i]));
        }
        if s.pending {
            let r = choose|r: int|
                0 <= r < v.leaves.len() && (#[trigger] v.leaves[r]).node == i && v.leaves[r].value
                    is Waiting;
            assert(false);
        }
        if node.claimed {
            a_claim_is_its_own(p, i);
            let slot = slot_of(p.workers[0], i);
            assert(p.workers[0].leaves[slot].value is Waiting);
            assert(false);
        }
    }
}

/// Both start a descent.
proof fn beginning_in_step(v: TreeView, p: PoolView)
    requires
        mirrors(v, p),
        can_move(v, p, Move::Begin),
    ensures
        mirrors(v.began(), p.began(0).arrived(0)),
{
    assert(twins(v.nodes[0], p.nodes[0]));
    crate::mcts::pool::beginning_keeps(p, 0);
    let q = p.began(0);
    assert(abreast(v, q)) by {
        assert forall|d: int| 0 <= d < v.descents.len() implies #[trigger] same_descent(
            v,
            q.workers[0],
            d,
        ) by {
            assert(same_descent(v, p.workers[0], d));
        }
    }
    assert(v.open_steps() =~= Seq::empty());
    assert(v.moving(0));
    arriving_in_step(v, q, 0);
}

/// Both take an edge.
proof fn taking_in_step(v: TreeView, p: PoolView, edge: int)
    requires
        mirrors(v, p),
        can_move(v, p, Move::Take { edge }),
    ensures
        mirrors(
            searcher_after(v, Move::Take { edge }),
            pool_after(p, Move::Take { edge }),
        ),
{
    let id = v.cursor->Choosing_node as int;
    assert(twins(v.nodes[id], p.nodes[id]));
    assert(v.nodes[id].wf());
    let child = v.nodes[id].children[edge];
    if child == NO_NODE {
        let w = v.took_edge(id, edge);
        assert(w.open_steps() == v.open_steps());
        assert(w.wf());
        assert(abreast(w, p)) by {
            assert forall|d: int| 0 <= d < w.descents.len() implies #[trigger] same_descent(
                w,
                p.workers[0],
                d,
            ) by {
                assert(same_descent(v, p.workers[0], d));
            }
        }
    } else {
        walking_in_step(v, p, id, edge);
        assert(v.settled_but(child as int));
        crate::mcts::tree::walking_keeps(v, id, edge);
        arriving_in_step(v.walked(id, edge), p.walked(0, edge), child as int);
    }
}

/// Both are given the position behind an edge.
proof fn supplying_in_step(v: TreeView, p: PoolView, edge: int, next: StateView)
    requires
        mirrors(v, p),
        can_move(v, p, Move::Supply { edge, next }),
    ensures
        mirrors(
            searcher_after(v, Move::Supply { edge, next }),
            pool_after(p, Move::Supply { edge, next }),
        ),
{
    let id = v.cursor->Applying_node as int;
    linking_in_step(v, p, id, edge, next);
    crate::mcts::tree::linking_keeps(v, id, edge, next);
    let w = v.linked(id, edge, next);
    let q = p.linked(id, edge, next);
    let child = v.link_target(next);
    walking_in_step(w, q, id, edge);
    crate::mcts::tree::walking_keeps(w, id, edge);
    arriving_in_step(w.walked(id, edge), q.walked(0, edge), child);
}

/// Making the same move keeps the two in step.
proof fn moving_in_step(v: TreeView, p: PoolView, m: Move)
    requires
        mirrors(v, p),
        can_move(v, p, m),
        v.leaves.len() <= usize::MAX,
    ensures
        mirrors(searcher_after(v, m), pool_after(p, m)),
{
    match m {
        Move::Begin => {
            beginning_in_step(v, p);
        },
        Move::Take { edge } => {
            taking_in_step(v, p, edge);
        },
        Move::Supply { edge, next } => {
            supplying_in_step(v, p, edge, next);
        },
        Move::Evaluate => {
            evaluating_in_step(v, p);
        },
        Move::Backup => {
            backing_up_in_step(v, p);
        },
        Move::Plan { .. } => {},
    }
}

// ------------------------------------------------------------------- laws

/// The lone worker's tree after a series of moves.
pub open spec fn pool_run(p: PoolView, moves: Seq<Move>) -> PoolView
    decreases moves.len(),
{
    if moves.len() == 0 {
        p
    } else {
        pool_after(pool_run(p, moves.drop_last()), moves.last())
    }
}

/// Every move of the series can be made when its turn comes.
pub open spec fn playable(v: TreeView, p: PoolView, moves: Seq<Move>) -> bool
    decreases moves.len(),
{
    moves.len() > 0 ==> {
        let before = moves.drop_last();
        &&& playable(v, p, before)
        &&& can_move(searcher_run(v, before), pool_run(p, before), moves.last())
        &&& searcher_run(v, before).leaves.len() <= usize::MAX
    }
}

/// A shared tree with one worker, before its first descent.
pub open spec fn lone(state: StateView) -> PoolView {
    PoolView {
        nodes: seq![planted(state)],
        workers: seq![
            WorkerView {
                path: Seq::empty(),
                descents: Seq::empty(),
                leaves: Seq::empty(),
                cursor: None,
            },
        ],
        collisions: 0,
    }
}

/// The two trees hold the same nodes, with the same edges, links, statistics
/// and outcomes.
pub open spec fn same_tree(nodes: Seq<NodeView>, shared: Seq<SharedView>) -> bool {
    &&& nodes.len() == shared.len()
    &&& forall|i: int|
        0 <= i < nodes.len() ==> {
            let s = #[trigger] nodes[i];
            let p = shared[i];
            &&& s.state == p.state
            &&& s.mover == p.mover
            &&& s.expanded == p.published()
            &&& same_edges(s, p)
            &&& p.outcome == (if s.terminal {
                Some(s.terminal_value)
            } else {
                None
            })
        }
}

/// Where an edge has to be chosen, the searcher and the lone worker stand at
/// the same node, and what a choice can be based on is the same.
pub proof fn the_same_choice_is_offered(v: TreeView, p: PoolView)
    requires
        mirrors(v, p),
        v.cursor is Choosing,
    ensures
        p.pace(0) == Pace::Choose(v.cursor->Choosing_node),
        same_edges(
            v.nodes[v.cursor->Choosing_node as int],
            p.nodes[v.cursor->Choosing_node as int],
        ),
{
    let id = v.cursor->Choosing_node as int;
    assert(twins(v.nodes[id], p.nodes[id]));
    assert(p.nodes[id].wf());
}

/// The descent that took step `t` of the path.
proof fn a_step_has_its_descent(descents: Seq<Descent>, steps: int, leaves: int, t: int) -> (d: int)
    requires
        descents_wf(descents, steps, leaves),
        descents.len() > 0,
        0 <= t < descents.last().end,
    ensures
        0 <= d < descents.len(),
        descents[d].start <= t < descents[d].end,
    decreases descents.len(),
{
    let last = descents.len() - 1;
    if descents[last].start <= t {
        last
    } else {
        assert(last > 0);
        let before = descents.drop_last();
        assert(descents[last].start == descents[last - 1].end);
        assert(descents_wf(before, steps, leaves)) by {
            assert forall|c: int, d: int|
                #![trigger before[c], before[d]]
                0 <= c && d == c + 1 && d < before.len() implies before[d].start == before[c].end by {
                assert(descents[d].start == descents[c].end);
            }
            assert forall|d: int| 0 <= d < before.len() implies {
                let descent = #[trigger] before[d];
                &&& descent.start <= descent.end <= steps
                &&& descent.leaf < leaves
            } by {
                assert(descents[d].start <= descents[d].end);
            }
        }
        a_step_has_its_descent(before, steps, leaves, t)
    }
}

/// Backing up, the searcher and the lone worker credit the same edges in the
/// same order, each with a leaf that is worth the same.
pub proof fn the_same_credits_are_given(
    v: TreeView,
    p: PoolView,
    given: Seq<Credit>,
    shared: Seq<Credit>,
)
    requires
        mirrors(v, p),
        v.cursor is Idle,
        none_waits(p.workers[0].leaves),
        v.credited(given),
        p.workers[0].credits(shared),
    ensures
        given.len() == shared.len(),
        forall|t: int|
            0 <= t < given.len() ==> {
                &&& (#[trigger] given[t]).node == shared[t].node
                &&& given[t].edge == shared[t].edge
                &&& v.leaves[given[t].leaf as int] == p.workers[0].leaves[shared[t].leaf as int]
            },
{
    let worker = p.workers[0];
    assert(worker.wf(p.nodes));
    assert forall|t: int| 0 <= t < given.len() implies {
        &&& (#[trigger] given[t]).node == shared[t].node
        &&& given[t].edge == shared[t].edge
        &&& v.leaves[given[t].leaf as int] == worker.leaves[shared[t].leaf as int]
    } by {
        assert(v.descents.len() > 0);
        let d = a_step_has_its_descent(
            v.descents,
            v.path.len() as int,
            v.leaves.len() as int,
            t,
        );
        assert(same_descent(v, worker, d));
        assert(given[t] == (Credit {
            node: v.path[t].0,
            edge: v.path[t].1,
            leaf: v.descents[d].leaf,
        }));
        assert(shared[t] == (Credit {
            node: worker.path[t].0,
            edge: worker.path[t].1,
            leaf: worker.descents[d].leaf,
        }));
        assert(worker.leaves[worker.descents[d].leaf as int].value !is Waiting);
    }
}

/// The slots a batch waits for can be listed in order in one way only.
pub proof fn a_listing_is_the_only_one(leaves: Seq<Leaf>, slots: Seq<usize>)
    requires
        lists_waiting(leaves, slots),
        leaves.len() <= usize::MAX,
    ensures
        slots == waiting_slots(leaves, leaves.len() as int),
    decreases leaves.len(),
{
    let count = leaves.len() as int;
    if count == 0 {
        if slots.len() > 0 {
            assert(slots[0] < leaves.len());
        }
        assert(slots =~= Seq::empty());
    } else {
        let before = leaves.drop_last();
        waiting_slots_of_prefix(leaves, before, count - 1);
        if leaves[count - 1].value is Waiting {
            let k = choose|k: int| 0 <= k < slots.len() && #[trigger] slots[k] == count - 1;
            if k < slots.len() - 1 {
                assert(slots[k] < slots[slots.len() - 1]);
                assert(slots[slots.len() - 1] < leaves.len());
            }
            let shorter = slots.drop_last();
            assert(lists_waiting(before, shorter)) by {
                assert forall|i: int| 0 <= i < shorter.len() implies #[trigger] shorter[i]
                    < before.len() && before[shorter[i] as int].value is Waiting by {
                    assert(slots[i] < slots[k]);
                }
                assert forall|s: int|
                    0 <= s < before.len() && (#[trigger] before[s]).value is Waiting implies exists|
                    i: int,
                |
                    0 <= i < shorter.len() && #[trigger] shorter[i] == s by {
                    assert(leaves[s].value is Waiting);
                    let i = choose|i: int| 0 <= i < slots.len() && #[trigger] slots[i] == s;
                    assert(shorter[i] == s);
                }
            }
            a_listing_is_the_only_one(before, shorter);
            assert(slots =~= shorter.push((count - 1) as usize));
        } else {
            assert(lists_waiting(before, slots)) by {
                assert forall|i: int| 0 <= i < slots.len() implies #[trigger] slots[i]
                    < before.len() && before[slots[i] as int].value is Waiting by {
                    assert(slots[i] < leaves.len());
                    assert(leaves[slots[i] as int].value is Waiting);
                    assert(slots[i] != count - 1);
                }
                assert forall|s: int|
                    0 <= s < before.len() && (#[trigger] before[s]).value is Waiting implies exists|
                    i: int,
                |
                    0 <= i < slots.len() && #[trigger] slots[i] == s by {
                    assert(leaves[s].value is Waiting);
                }
            }
            a_listing_is_the_only_one(before, slots);
        }
    }
}

/// The first slots depend on the first leaves only.
proof fn waiting_slots_of_prefix(leaves: Seq<Leaf>, before: Seq<Leaf>, count: int)
    requires
        0 <= count <= before.len() <= leaves.len(),
        before.is_prefix_of(leaves),
    ensures
        waiting_slots(leaves, count) == waiting_slots(before, count),
    decreases count,
{
    if count > 0 {
        assert(leaves[count - 1] == before[count - 1]);
        waiting_slots_of_prefix(leaves, before, count - 1);
    }
}

/// Publishing edges collides with nobody.
proof fn opening_collides_with_nobody(p: PoolView, slots: Seq<usize>)
    ensures
        opened_all(p, slots).collisions == p.collisions,
    decreases slots.len(),
{
    if slots.len() > 0 {
        opening_collides_with_nobody(p, slots.drop_last());
    }
}

/// A lone worker's move collides with nobody.
proof fn moving_collides_with_nobody(v: TreeView, p: PoolView, m: Move)
    requires
        mirrors(v, p),
        can_move(v, p, m),
    ensures
        pool_after(p, m).collisions == p.collisions,
{
    match m {
        Move::Begin => {
            assert(twins(v.nodes[0], p.nodes[0]));
            crate::mcts::pool::beginning_keeps(p, 0);
            a_lone_worker_never_collides(p.began(0));
        },
        Move::Take { edge } => {
            let id = v.cursor->Choosing_node as int;
            assert(v.nodes[id].wf());
            assert(twins(v.nodes[id], p.nodes[id]));
            if p.nodes[id].children[edge] != NO_NODE {
                walking_in_step(v, p, id, edge);
                a_lone_worker_never_collides(p.walked(0, edge));
            }
        },
        Move::Supply { edge, next } => {
            let id = v.cursor->Applying_node as int;
            linking_in_step(v, p, id, edge, next);
            crate::mcts::tree::linking_keeps(v, id, edge, next);
            let q = p.linked(id, edge, next);
            walking_in_step(v.linked(id, edge, next), q, id, edge);
            a_lone_worker_never_collides(q.walked(0, edge));
        },
        Move::Evaluate => {
            let q = p.sorted_out(0);
            let leaves = q.workers[0].leaves;
            opening_collides_with_nobody(q, waiting_slots(leaves, leaves.len() as int));
        },
        Move::Backup => {},
        Move::Plan { .. } => {},
    }
}

/// What both can play, the searcher can play.
proof fn what_is_played_is_searched(v: TreeView, p: PoolView, moves: Seq<Move>)
    requires
        playable(v, p, moves),
    ensures
        searchable(v, moves),
    decreases moves.len(),
{
    if moves.len() > 0 {
        what_is_played_is_searched(v, p, moves.drop_last());
    }
}

/// Asking for a batch, a lone worker claims what the searcher aims at, so the
/// same budget is run in the same rounds.
pub proof fn the_same_rounds_are_run(batch: u16, left: u32)
    ensures
        claimed(
            if batch == 0 {
                1
            } else {
                batch as int
            },
            left as int,
        ) == batch_target(batch, left as int),
{
}

/// With one worker, the shared tree is the serial searcher: from the same
/// position, the same choices keep the two in step and collide with nobody.
/// Whenever no round is under way they hold the same tree, node for node and
/// edge for edge, so they offer the same root actions with the same visits, and
/// they have run the same number of simulations.
pub proof fn one_worker_is_the_serial_searcher(state: StateView, moves: Seq<Move>)
    requires
        state.wf(),
        playable(sapling(state, false), lone(state), moves),
    ensures
        ({
            let v = searcher_run(sapling(state, false), moves);
            let p = pool_run(lone(state), moves);
            &&& mirrors(v, p)
            &&& p.collisions == 0
            &&& v.resting() ==> {
                &&& p.resting()
                &&& same_tree(v.nodes, p.nodes)
                &&& p.nodes[0].actions == v.nodes[0].actions
                &&& p.nodes[0].n == v.nodes[0].n
                &&& rooted(state).expanded ==> p.nodes[0].visits == v.sims
            }
        }),
    decreases moves.len(),
{
    let start = sapling(state, false);
    sapling_is_wf(state, false);
    if moves.len() == 0 {
        planting_is_wf(lone(state), state);
        assert(twins(start.nodes[0], lone(state).nodes[0]));
        assert(mirrors(start, lone(state)));
    } else {
        let before = moves.drop_last();
        one_worker_is_the_serial_searcher(state, before);
        moving_in_step(
            searcher_run(start, before),
            pool_run(lone(state), before),
            moves.last(),
        );
        moving_collides_with_nobody(
            searcher_run(start, before),
            pool_run(lone(state), before),
            moves.last(),
        );
    }
    let v = searcher_run(start, moves);
    let p = pool_run(lone(state), moves);
    if v.resting() {
        at_rest_nothing_differs(v, p);
        assert(same_edges(v.nodes[0], p.nodes[0]));
        if rooted(state).expanded {
            what_is_played_is_searched(start, lone(state), moves);
            every_descent_started_is_one_simulation(start, moves);
        }
    }
}

/// Between rounds the two trees are the same.
proof fn at_rest_nothing_differs(v: TreeView, p: PoolView)
    requires
        mirrors(v, p),
        v.resting(),
    ensures
        p.resting(),
        same_tree(v.nodes, p.nodes),
{
    let worker = p.workers[0];
    assert(worker.resting());
    assert forall|i: int| 0 <= i < v.nodes.len() implies {
        let s = #[trigger] v.nodes[i];
        let node = p.nodes[i];
        &&& s.state == node.state
        &&& s.mover == node.mover
        &&& s.expanded == node.published()
        &&& same_edges(s, node)
        &&& node.outcome == (if s.terminal {
            Some(s.terminal_value)
        } else {
            None
        })
    } by {
        let s = v.nodes[i];
        let node = p.nodes[i];
        assert(twins(s, node));
        assert(s.wf() && node.wf());
        a_claim_is_its_own(p, i);
        if s.pending {
            let r = choose|r: int|
                0 <= r < v.leaves.len() && (#[trigger] v.leaves[r]).node == i && v.leaves[r].value
                    is Waiting;
            assert(false);
        }
        if !s.expanded {
            unpublished_counts_nothing(node);
            assert(s.actions =~= node.actions);
            assert(s.children =~= node.children);
            assert(s.n =~= node.n);
            assert(s.vl =~= node.vl);
        }
    }
}

} // verus!
