//! A search as a series of moves.
//!
//! The searcher stops wherever somebody else has to decide or to evaluate. A
//! series of [`Move`]s names everything it was told, so a law can speak of all
//! searches at once.

use crate::game::StateView;
use crate::mcts::gumbel::PlanView;
use crate::mcts::tree::{
    arriving_keeps, backing_up_keeps, evaluating_keeps, leads_to, linking_keeps, walking_keeps,
    Cursor, Leaf, TreeView, NO_NODE,
};
use vstd::prelude::*;

verus! {

/// No leaf of the batch is left to evaluate.
pub open spec fn none_waits(leaves: Seq<Leaf>) -> bool {
    forall|s: int| 0 <= s < leaves.len() ==> (#[trigger] leaves[s]).value !is Waiting
}

/// One step of a search, with the choice or the position it was given.
pub enum Move {
    /// Start a descent.
    Begin,
    /// Take this edge.
    Take { edge: int },
    /// This is the position behind the edge that was taken.
    Supply { edge: int, next: StateView },
    /// Evaluate the batch.
    Evaluate,
    /// Back the batch up.
    Backup,
    /// Go on under this schedule.
    Plan { plan: Option<PlanView> },
}

/// The searcher can make the move.
pub open spec fn can_search(v: TreeView, m: Move) -> bool {
    match m {
        Move::Begin => {
            &&& v.cursor is Idle
            &&& v.nodes[0].expanded
            &&& v.room_at(0)
            &&& v.plan matches Some(plan) ==> !plan.halving_due() && plan.has_room()
        },
        Move::Take { edge } => {
            &&& v.cursor matches Cursor::Choosing { node }
            &&& 0 <= edge < v.nodes[node as int].actions.len()
            &&& v.room_at(node as int)
        },
        Move::Supply { edge, next } => {
            &&& v.cursor matches Cursor::Applying { node, edge: taken }
            &&& taken == edge
            &&& v.room_at(node as int)
            &&& next.wf()
            &&& v.nodes[node as int].state.precedes(next)
        },
        Move::Evaluate => v.cursor is Idle,
        Move::Backup => {
            &&& v.cursor is Idle
            &&& none_waits(v.leaves)
            &&& v.sims + v.descents.len() <= u64::MAX
        },
        Move::Plan { plan } => v.resting() && TreeView { plan, ..v }.wf(),
    }
}

/// What the move does.
pub open spec fn searcher_after(v: TreeView, m: Move) -> TreeView {
    match m {
        Move::Begin => v.began(),
        Move::Take { edge } => v.took_edge(v.cursor->Choosing_node as int, edge),
        Move::Supply { edge, next } => v.supplied(v.cursor->Applying_node as int, edge, next),
        Move::Evaluate => v.evaluated(),
        Move::Backup => v.backed_up(),
        Move::Plan { plan } => TreeView { plan, ..v },
    }
}

/// The searcher after a series of moves.
pub open spec fn searcher_run(v: TreeView, moves: Seq<Move>) -> TreeView
    decreases moves.len(),
{
    if moves.len() == 0 {
        v
    } else {
        searcher_after(searcher_run(v, moves.drop_last()), moves.last())
    }
}

/// Every move leaves the tree well formed.
pub proof fn moving_keeps(v: TreeView, m: Move)
    requires
        v.wf(),
        can_search(v, m),
    ensures
        searcher_after(v, m).wf(),
{
    match m {
        Move::Begin => {
            assert(v.open_steps() =~= Seq::empty());
            if v.scheduled() {
                let plan = v.plan->0;
                let planned = TreeView { plan: Some(plan.took()), ..v };
                assert(planned.open_steps() =~= Seq::empty());
                assert(planned.base());
                going_on_keeps(planned, 0, plan.next_edge() as int);
            } else {
                assert(v.moving(0));
                arriving_keeps(v, 0);
            }
        },
        Move::Take { edge } => {
            let id = v.cursor->Choosing_node as int;
            assert(v.nodes[id].wf());
            going_on_keeps(v, id, edge);
        },
        Move::Supply { edge, next } => {
            let id = v.cursor->Applying_node as int;
            linking_keeps(v, id, edge, next);
            let w = v.linked(id, edge, next);
            walking_keeps(w, id, edge);
            arriving_keeps(w.walked(id, edge), v.link_target(next));
        },
        Move::Evaluate => {
            evaluating_keeps(v);
        },
        Move::Backup => {
            backing_up_keeps(v);
        },
        Move::Plan { plan } => {},
    }
}

proof fn going_on_keeps(v: TreeView, id: int, edge: int)
    requires
        v.base(),
        v.settled_but(-1),
        0 <= id < v.nodes.len(),
        v.nodes[id].expanded,
        0 <= edge < v.nodes[id].children.len(),
        leads_to(v.nodes, v.open_steps(), id),
        v.room_at(id),
    ensures
        v.took_edge(id, edge).wf(),
{
    let child = v.nodes[id].children[edge];
    assert(v.nodes[id].wf());
    if child == NO_NODE {
        let w = v.took_edge(id, edge);
        assert(w.open_steps() == v.open_steps());
    } else {
        assert(v.settled_but(child as int));
        walking_keeps(v, id, edge);
        arriving_keeps(v.walked(id, edge), child as int);
    }
}

} // verus!
