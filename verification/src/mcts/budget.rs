//! What a number of simulations asked for comes to.
//!
//! A search runs in rounds. A round aims at a batch, or at what is left of the
//! simulations asked for, and a schedule may shorten it. However the rounds fall
//! and whatever is chosen in them, they add up to exactly what was asked.

use crate::mcts::gumbel::PlanView;
use crate::mcts::moves::{can_search, moving_keeps, searcher_after, searcher_run, Move};
use crate::mcts::search::{batch_target, round_size};
use crate::mcts::tree::{every_simulation_is_one_root_visit, total, TreeView};
use vstd::prelude::*;

verus! {

/// How many descents a series of moves starts.
pub open spec fn begins(moves: Seq<Move>) -> int
    decreases moves.len(),
{
    if moves.len() == 0 {
        0
    } else {
        begins(moves.drop_last()) + if moves.last() is Begin {
            1int
        } else {
            0int
        }
    }
}

/// Every move of the series can be made when its turn comes.
pub open spec fn searchable(v: TreeView, moves: Seq<Move>) -> bool
    decreases moves.len(),
{
    moves.len() > 0 ==> {
        let before = moves.drop_last();
        &&& searchable(v, before)
        &&& can_search(searcher_run(v, before), moves.last())
    }
}

/// One round: the schedule it goes on under, and everything the searcher was
/// told in it.
pub struct Round {
    pub plan: Option<PlanView>,
    pub moves: Seq<Move>,
}

/// The tree after a round.
pub open spec fn after_round(v: TreeView, round: Round) -> TreeView {
    searcher_run(TreeView { plan: round.plan, ..v }, round.moves)
}

/// The round can be run, from one rest to the next.
pub open spec fn runs(v: TreeView, round: Round) -> bool {
    &&& can_search(v, Move::Plan { plan: round.plan })
    &&& searchable(TreeView { plan: round.plan, ..v }, round.moves)
    &&& after_round(v, round).resting()
}

/// The tree after a series of rounds.
pub open spec fn after_rounds(v: TreeView, rounds: Seq<Round>) -> TreeView
    decreases rounds.len(),
{
    if rounds.len() == 0 {
        v
    } else {
        after_round(after_rounds(v, rounds.drop_last()), rounds.last())
    }
}

/// The simulations a series of rounds runs.
pub open spec fn ran(rounds: Seq<Round>) -> int
    decreases rounds.len(),
{
    if rounds.len() == 0 {
        0
    } else {
        ran(rounds.drop_last()) + begins(rounds.last().moves)
    }
}

/// The rounds of a search asked for `count` simulations in batches of `batch`:
/// each is run while some are left, and is as long as the batch, what is left
/// and the schedule make it.
pub open spec fn spends(v: TreeView, batch: u16, count: int, rounds: Seq<Round>) -> bool
    decreases rounds.len(),
{
    rounds.len() > 0 ==> {
        let before = rounds.drop_last();
        let round = rounds.last();
        &&& spends(v, batch, count, before)
        &&& ran(before) < count
        &&& runs(after_rounds(v, before), round)
        &&& begins(round.moves) == round_size(
            round.plan,
            batch_target(batch, count - ran(before)),
        )
    }
}

/// The descents of the round, the one under way included.
spec fn started(v: TreeView) -> int {
    v.descents.len() + if v.cursor is Idle {
        0int
    } else {
        1int
    }
}

/// The root is as it was, but for its counters.
pub open spec fn same_root(v: TreeView, w: TreeView) -> bool {
    &&& w.nodes.len() > 0
    &&& w.nodes[0].state == v.nodes[0].state
    &&& w.nodes[0].actions == v.nodes[0].actions
    &&& w.nodes[0].expanded == v.nodes[0].expanded
}

/// The books of a search that has started `count` descents since it rested.
spec fn accounted(v: TreeView, w: TreeView, count: int) -> bool {
    &&& w.wf()
    &&& same_root(v, w)
    &&& w.sims + started(w) == v.sims + count
    &&& w.nodes[0].visits - v.nodes[0].visits == w.sims - v.sims
}

proof fn arriving_is_accounted(v: TreeView, id: int)
    requires
        v.base(),
        0 <= id < v.nodes.len(),
        v.nodes[0].expanded,
    ensures
        same_root(v, v.arrived(id)),
        started(v.arrived(id)) == v.descents.len() + 1,
        v.arrived(id).sims == v.sims,
        v.arrived(id).nodes[0].visits == v.nodes[0].visits,
{
    assert(v.nodes[0].wf());
}

proof fn going_on_is_accounted(v: TreeView, id: int, edge: int)
    requires
        v.base(),
        0 <= id < v.nodes.len(),
        v.nodes[0].expanded,
        v.nodes[id].expanded,
        v.settled_but(-1),
        0 <= edge < v.nodes[id].children.len(),
        crate::mcts::tree::leads_to(v.nodes, v.open_steps(), id),
        v.room_at(id),
    ensures
        same_root(v, v.took_edge(id, edge)),
        started(v.took_edge(id, edge)) == v.descents.len() + 1,
        v.took_edge(id, edge).sims == v.sims,
        v.took_edge(id, edge).nodes[0].visits == v.nodes[0].visits,
{
    let child = v.nodes[id].children[edge];
    if child != crate::mcts::tree::NO_NODE {
        assert(v.settled_but(child as int));
        crate::mcts::tree::walking_keeps(v, id, edge);
        arriving_is_accounted(v.walked(id, edge), child as int);
    }
}

/// What a move does to the books.
proof fn moving_is_accounted(v: TreeView, m: Move)
    requires
        v.wf(),
        v.nodes[0].expanded,
        can_search(v, m),
    ensures
        ({
            let w = searcher_after(v, m);
            &&& same_root(v, w)
            &&& w.sims + started(w) == v.sims + started(v) + (if m is Begin {
                1int
            } else {
                0int
            })
            &&& w.nodes[0].visits - v.nodes[0].visits == w.sims - v.sims
        }),
{
    match m {
        Move::Begin => {
            if v.scheduled() {
                let plan = v.plan->0;
                let planned = TreeView { plan: Some(plan.took()), ..v };
                assert(planned.open_steps() =~= Seq::empty());
                assert(planned.base());
                assert(v.nodes[0].wf());
                going_on_is_accounted(planned, 0, plan.next_edge() as int);
            } else {
                arriving_is_accounted(v, 0);
            }
        },
        Move::Take { edge } => {
            let id = v.cursor->Choosing_node as int;
            assert(v.nodes[id].wf());
            going_on_is_accounted(v, id, edge);
        },
        Move::Supply { edge, next } => {
            let id = v.cursor->Applying_node as int;
            crate::mcts::tree::linking_keeps(v, id, edge, next);
            let w = v.linked(id, edge, next);
            crate::mcts::tree::walking_keeps(w, id, edge);
            arriving_is_accounted(w.walked(id, edge), v.link_target(next));
        },
        Move::Evaluate => {},
        Move::Backup => {
            every_simulation_is_one_root_visit(v);
        },
        Move::Plan { plan } => {},
    }
}

proof fn a_series_is_accounted(v: TreeView, moves: Seq<Move>)
    requires
        v.wf(),
        v.resting(),
        v.nodes[0].expanded,
        searchable(v, moves),
    ensures
        accounted(v, searcher_run(v, moves), begins(moves)),
    decreases moves.len(),
{
    if moves.len() > 0 {
        let before = moves.drop_last();
        a_series_is_accounted(v, before);
        let w = searcher_run(v, before);
        moving_keeps(w, moves.last());
        moving_is_accounted(w, moves.last());
    }
}

/// A round of a search that still owes simulations runs at least one of them
/// and never more than it owes, under a schedule or not.
pub proof fn a_round_runs_some_of_what_is_owed(plan: Option<PlanView>, batch: u16, left: int)
    requires
        left >= 1,
        plan matches Some(p) ==> p.wf(),
    ensures
        1 <= round_size(plan, batch_target(batch, left)) <= left,
{
}

/// Every simulation counts once, whatever it was told: from one rest to the
/// next, the simulation count and the root's visits both grow by the number of
/// descents started, the root keeps its position and its actions, and its
/// visits are what its actions' visits add up to.
pub proof fn every_descent_started_is_one_simulation(v: TreeView, moves: Seq<Move>)
    requires
        v.wf(),
        v.resting(),
        v.nodes[0].expanded,
        searchable(v, moves),
        searcher_run(v, moves).resting(),
    ensures
        ({
            let w = searcher_run(v, moves);
            &&& w.wf()
            &&& w.sims == v.sims + begins(moves)
            &&& w.nodes[0].visits == v.nodes[0].visits + begins(moves)
            &&& total(w.nodes[0].n) == w.nodes[0].visits
            &&& same_root(v, w)
        }),
{
    a_series_is_accounted(v, moves);
    assert(searcher_run(v, moves).nodes[0].wf());
}

proof fn rounds_are_accounted(v: TreeView, batch: u16, count: int, rounds: Seq<Round>)
    requires
        v.wf(),
        v.resting(),
        v.nodes[0].expanded,
        count >= 0,
        spends(v, batch, count, rounds),
    ensures
        ({
            let w = after_rounds(v, rounds);
            &&& w.wf()
            &&& w.resting()
            &&& w.sims == v.sims + ran(rounds)
            &&& w.nodes[0].visits == v.nodes[0].visits + ran(rounds)
            &&& same_root(v, w)
        }),
        rounds.len() <= ran(rounds) <= count,
    decreases rounds.len(),
{
    if rounds.len() > 0 {
        let before = rounds.drop_last();
        let round = rounds.last();
        rounds_are_accounted(v, batch, count, before);
        let w = after_rounds(v, before);
        let planned = TreeView { plan: round.plan, ..w };
        every_descent_started_is_one_simulation(planned, round.moves);
        a_round_runs_some_of_what_is_owed(round.plan, batch, count - ran(before));
    }
}

/// A budget is spent exactly: once the rounds of a search asked for `count`
/// simulations have run at least that many, they have run exactly that many, in
/// at most as many rounds. The simulation count and the root's visits have
/// grown by `count`, and the root keeps its position and its actions.
pub proof fn a_budget_is_spent_exactly(v: TreeView, batch: u16, count: int, rounds: Seq<Round>)
    requires
        v.wf(),
        v.resting(),
        v.nodes[0].expanded,
        count >= 0,
        spends(v, batch, count, rounds),
        ran(rounds) >= count,
    ensures
        ({
            let w = after_rounds(v, rounds);
            &&& ran(rounds) == count
            &&& rounds.len() <= count
            &&& w.wf()
            &&& w.resting()
            &&& w.sims == v.sims + count
            &&& w.nodes[0].visits == v.nodes[0].visits + count
            &&& total(w.nodes[0].n) == w.nodes[0].visits
            &&& same_root(v, w)
        }),
{
    rounds_are_accounted(v, batch, count, rounds);
    assert(after_rounds(v, rounds).nodes[0].wf());
}

/// At a finished or stuck root no descent is ever started, so nothing a search
/// is asked for changes the tree.
pub proof fn nothing_runs_without_an_action(v: TreeView)
    requires
        !v.nodes[0].expanded,
    ensures
        !can_search(v, Move::Begin),
{
}

} // verus!
