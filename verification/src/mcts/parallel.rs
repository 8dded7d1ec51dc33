//! Tree-parallel search: worker threads descending one shared tree.
//!
//! Every method here is one atomic step of one worker on the shared tree.
//! Whoever runs the threads guards the tree with a lock, chooses edges and
//! evaluates leaves outside of it, and hands the answers back in. A backup adds
//! in one fixed frame with no negation on the way up, so it depends neither on
//! the path it came from nor on the order in which the workers' backups land.

use crate::game::{Action, Player, State, StateView};
use crate::mcts::action_id::BOARD;
use crate::mcts::pool::{
    arriving_keeps, backing_up_keeps, batch_room, beginning_keeps, credited, descents_fit,
    every_simulation_is_one_root_visit, leaf_ok, linking_keeps, one_more_pass, passable, planted,
    planting_is_wf, publishing_keeps, released, seed, slot_of, sorting_out_keeps, stuck, waits,
    walking_keeps, with_edges, Pace, PoolView, SharedView, WorkerView,
};
use crate::mcts::search::{
    a_draw_falls_on_a_visited_action, column, drawn, drawn_edge, lists_waiting, most_visited,
    most_visited_edge, terminal_value_abs, Config,
};
use crate::mcts::tree::{outcome_value, total, Credit, Descent, Leaf, LeafValue, NO_NODE};
use vstd::prelude::*;

verus! {

/// One node of the shared tree.
#[derive(Debug)]
pub struct SharedNode {
    pub state: State,
    pub mover: Player,
    /// Set exactly when the node is terminal, to its value in the absolute
    /// frame.
    pub outcome: Option<i8>,
    /// The edges, none until they are published.
    pub actions: Vec<Action>,
    pub children: Vec<u32>,
    pub n: Vec<u32>,
    /// Descents currently in flight through each edge.
    pub vl: Vec<u32>,
    /// Claimed by the worker that will evaluate this node in its batch.
    pub claimed: bool,
    pub visits: u32,
    pub vl_visits: u32,
}

impl View for SharedNode {
    type V = SharedView;

    open spec fn view(&self) -> SharedView {
        SharedView {
            state: self.state@,
            mover: self.mover,
            outcome: self.outcome,
            actions: self.actions@,
            children: self.children@,
            n: self.n@,
            vl: self.vl@,
            claimed: self.claimed,
            visits: self.visits,
            vl_visits: self.vl_visits,
        }
    }
}

impl SharedNode {
    /// A node nobody has arrived at.
    pub fn new(state: State) -> (r: SharedNode)
        ensures
            r@ == seed(state@),
    {
        let mover: Player = state.current_player;
        let outcome: Option<i8> = if state.game_over {
            Some(terminal_value_abs(&state))
        } else {
            None
        };
        SharedNode {
            state,
            mover,
            outcome,
            actions: Vec::new(),
            children: Vec::new(),
            n: Vec::new(),
            vl: Vec::new(),
            claimed: false,
            visits: 0,
            vl_visits: 0,
        }
    }

    /// Marks a node without a legal action as terminal, and gives its claim up.
    pub fn mark_stuck(&mut self) -> (r: i8)
        ensures
            final(self)@ == stuck(old(self)@),
            r == outcome_value(old(self)@.state),
    {
        let value: i8 = terminal_value_abs(&self.state);
        self.outcome = Some(value);
        self.claimed = false;
        assert(self@ =~= stuck(old(self)@));
        value
    }

    /// Publishes an edge for every legal action, and gives the claim up.
    pub fn publish_edges(&mut self)
        ensures
            final(self)@ == with_edges(old(self)@),
    {
        let count: usize = self.state.legal_actions.len();
        self.children = column(count, NO_NODE);
        self.n = column(count, 0);
        self.vl = column(count, 0);
        self.actions = self.state.legal_actions.clone();
        self.claimed = false;
        assert(self.actions@ =~= self.state.legal_actions@);
        assert(self@ =~= with_edges(old(self)@));
    }
}

/// One worker's batch.
#[derive(Debug)]
pub struct Worker {
    /// `(node, edge)` steps of every descent of the batch.
    pub path: Vec<(u32, u32)>,
    pub descents: Vec<Descent>,
    pub leaves: Vec<Leaf>,
    /// Where the descent under way stands.
    pub cursor: Option<u32>,
}

impl View for Worker {
    type V = WorkerView;

    open spec fn view(&self) -> WorkerView {
        WorkerView {
            path: self.path@,
            descents: self.descents@,
            leaves: self.leaves@,
            cursor: self.cursor,
        }
    }
}

impl Worker {
    /// A worker with nothing collected.
    pub fn new() -> (r: Worker)
        ensures
            r@.resting(),
    {
        Worker { path: Vec::new(), descents: Vec::new(), leaves: Vec::new(), cursor: None }
    }

    /// Where the descent under way started on the path.
    fn start(&self) -> (r: usize)
        ensures
            r == self@.open_start(),
    {
        if self.descents.len() == 0 {
            0
        } else {
            self.descents[self.descents.len() - 1].end
        }
    }

    /// This worker's own pending claim on `node`, if it made one this batch.
    fn pending_slot(&self, node: u32) -> (r: Option<usize>)
        ensures
            r is Some == self@.holds(node as int),
            r matches Some(slot) ==> waits(self@, slot as int, node as int),
    {
        let mut i: usize = 0;
        while i < self.leaves.len()
            invariant
                i <= self.leaves@.len(),
                forall|s: int| 0 <= s < i ==> !#[trigger] waits(self@, s, node as int),
            decreases self.leaves@.len() - i,
        {
            let leaf = self.leaves[i];
            if leaf.node == node && leaf.value == LeafValue::Waiting {
                assert(waits(self@, i as int, node as int));
                return Some(i);
            }
            i += 1;
        }
        None
    }

    /// Ends the descent under way at the leaf in `slot`.
    fn close(&mut self, slot: usize)
        ensures
            final(self)@ == old(self)@.closed(slot as int),
    {
        let start: usize = self.start();
        let end: usize = self.path.len();
        self.descents.push(Descent { start, end, leaf: slot });
        self.cursor = None;
        assert(self@ =~= old(self)@.closed(slot as int));
    }

    /// Ends the descent under way at a newly collected leaf.
    fn record_leaf(&mut self, node: u32, value: LeafValue) -> (r: usize)
        ensures
            r == old(self)@.leaves.len(),
            final(self)@ == old(self)@.recorded(node as int, value),
    {
        let slot: usize = self.leaves.len();
        self.leaves.push(Leaf { node, value });
        self.close(slot);
        assert(self@ =~= old(self)@.recorded(node as int, value));
        slot
    }
}

/// Why a position cannot be searched in parallel.
#[derive(Clone, Copy, Debug, PartialEq, Eq, Structural)]
pub enum ParallelRefusal {
    /// The absolute frame has two ends: two players, always.
    Players,
    /// The net knows one board size.
    Board,
    /// Gumbel root selection is not run here, and running plain selection in
    /// its place would not be what the configuration says.
    Gumbel,
}

/// Why a position cannot be searched in parallel with `config`, if it cannot.
pub open spec fn parallel_refusal(state: StateView, has_net: bool, config: Config) -> Option<
    ParallelRefusal,
> {
    if config.gumbel is Some {
        Some(ParallelRefusal::Gumbel)
    } else if state.players != 2 {
        Some(ParallelRefusal::Players)
    } else if has_net && !(state.rows == BOARD && state.cols == BOARD) {
        Some(ParallelRefusal::Board)
    } else {
        None
    }
}

/// A tree-parallel search over one position.
#[derive(Debug)]
pub struct ParallelMcts {
    pub config: Config,
    pub nodes: Vec<SharedNode>,
    pub workers: Vec<Worker>,
    pub collisions: u64,
}

impl View for ParallelMcts {
    type V = PoolView;

    open spec fn view(&self) -> PoolView {
        PoolView {
            nodes: Seq::new(self.nodes@.len(), |i: int| self.nodes@[i]@),
            workers: Seq::new(self.workers@.len(), |w: int| self.workers@[w]@),
            collisions: self.collisions,
        }
    }
}

impl ParallelMcts {
    /// Why `state` cannot be searched with `config`, if it cannot.
    pub fn refusal(state: &State, config: &Config, has_net: bool) -> (r: Option<ParallelRefusal>)
        ensures
            r == parallel_refusal(state@, has_net, *config),
    {
        if config.gumbel.is_some() {
            return Some(ParallelRefusal::Gumbel);
        }
        if state.players != 2 {
            return Some(ParallelRefusal::Players);
        }
        if has_net && !(state.rows == BOARD && state.cols == BOARD) {
            return Some(ParallelRefusal::Board);
        }
        None
    }

    /// Builds a searcher with a published root and one resting worker for each
    /// configured thread, and at least one.
    pub fn new(state: State, config: Config, has_net: bool) -> (r: ParallelMcts)
        requires
            state@.wf(),
            parallel_refusal(state@, has_net, config) is None,
        ensures
            r@.wf(),
            r@.resting(),
            r@.nodes == seq![planted(state@)],
            r@.workers.len() == (if config.threads == 0 {
                1
            } else {
                config.threads as int
            }),
            r@.collisions == 0,
            r.config == config,
    {
        let ghost position = state@;
        let mut root = SharedNode::new(state);
        if root.outcome.is_none() {
            if root.state.legal_actions.len() == 0 {
                root.mark_stuck();
            } else {
                root.publish_edges();
            }
        }
        assert(root@ =~= planted(position));
        let threads: usize = if config.threads == 0 {
            1
        } else {
            config.threads
        };
        let mut workers: Vec<Worker> = Vec::new();
        let mut w: usize = 0;
        while w < threads
            invariant
                w <= threads,
                workers@.len() == w,
                forall|x: int| 0 <= x < w ==> (#[trigger] workers@[x])@.resting(),
            decreases threads - w,
        {
            workers.push(Worker::new());
            w += 1;
        }
        let mut nodes: Vec<SharedNode> = Vec::new();
        nodes.push(root);
        let pool = ParallelMcts { config, nodes, workers, collisions: 0 };
        proof {
            assert(pool@.nodes =~= seq![planted(position)]);
            assert forall|x: int| 0 <= x < pool@.workers.len() implies (
            #[trigger] pool@.workers[x]).resting() by {
                assert(pool.workers@[x]@.resting());
            }
            planting_is_wf(pool@, position);
        }
        pool
    }

    /// Starts a descent of worker `w` at the root.
    pub fn begin(&mut self, w: usize)
        requires
            old(self)@.wf(),
            w < old(self)@.workers.len(),
            old(self)@.workers[w as int].cursor is None,
            old(self)@.nodes[0].published(),
        ensures
            final(self)@ == old(self)@.began(w as int),
            final(self)@.wf(),
            final(self).config == old(self).config,
    {
        let ghost before = self@;
        proof {
            beginning_keeps(before, w as int);
            assert(self@.workers.len() == self.workers@.len());
        }
        self.workers[w].cursor = Some(0);
        assert(self@.workers =~= before.began(w as int).workers);
        assert(self@.nodes =~= before.nodes);
    }

    /// The counters have room for worker `w`'s next step.
    pub open spec fn room(&self, w: int) -> bool {
        &&& batch_room(self@.workers[w])
        &&& self@.collisions < u64::MAX
        &&& self@.nodes.len() < NO_NODE
        &&& self@.workers[w].cursor matches Some(id) ==> self@.nodes[id as int].visits
            + self@.nodes[id as int].vl_visits < u32::MAX
    }

    /// Whether the counters have room for worker `w`'s next step.
    pub fn has_room(&self, w: usize) -> (r: bool)
        requires
            self@.wf(),
            w < self@.workers.len(),
        ensures
            r == self.room(w as int),
    {
        proof {
            assert(self@.workers.len() == self.workers@.len());
            assert(self@.workers[w as int] == self.workers@[w as int]@);
            assert(self@.workers[w as int].wf(self@.nodes));
        }
        let worker = &self.workers[w];
        if worker.path.len() == usize::MAX || worker.leaves.len() == usize::MAX
            || worker.descents.len() == usize::MAX || self.collisions == u64::MAX
            || self.nodes.len() as u64 >= NO_NODE as u64 {
            return false;
        }
        match worker.cursor {
            None => true,
            Some(id) => {
                assert(self@.nodes[id as int] == self.nodes@[id as int]@);
                assert(self@.nodes[id as int].wf());
                let node = &self.nodes[id as usize];
                (node.visits as u64) + (node.vl_visits as u64) < u32::MAX as u64
            },
        }
    }

    /// Does what there is to do where worker `w` stands: ends its descent at a
    /// leaf, abandons it on a collision, or asks for an edge.
    pub fn step(&mut self, w: usize) -> (r: Pace)
        requires
            old(self)@.wf(),
            old(self)@.walking(w as int),
            old(self).room(w as int),
        ensures
            r == old(self)@.pace(w as int),
            final(self)@ == old(self)@.arrived(w as int),
            final(self)@.wf(),
            final(self).config == old(self).config,
    {
        let ghost before = self@;
        proof {
            arriving_keeps(before, w as int);
            assert(before.workers.len() == self.workers@.len());
            assert(before.workers[w as int] == self.workers@[w as int]@);
            assert(before.workers[w as int].wf(before.nodes));
        }
        let id: u32 = match self.workers[w].cursor {
            Some(id) => id,
            None => 0,
        };
        let at: usize = id as usize;
        proof {
            assert(before.nodes.len() == self.nodes@.len());
            assert(before.nodes[at as int] == self.nodes@[at as int]@);
            assert(before.nodes[at as int].wf());
        }
        if let Some(value) = self.nodes[at].outcome {
            let slot: usize = self.workers[w].record_leaf(id, LeafValue::Terminal(value));
            assert(self@.workers =~= before.arrived(w as int).workers);
            assert(self@.nodes =~= before.nodes);
            return Pace::Leaf(slot);
        }
        if self.nodes[at].actions.len() > 0 {
            return Pace::Choose(id);
        }
        if let Some(slot) = self.workers[w].pending_slot(id) {
            proof {
                assert(waits(before.workers[w as int], slot as int, id as int));
                assert(waits(
                    before.workers[w as int],
                    slot_of(before.workers[w as int], id as int),
                    id as int,
                ));
            }
            self.workers[w].close(slot);
            assert(self@.workers =~= before.arrived(w as int).workers);
            assert(self@.nodes =~= before.nodes);
            return Pace::Leaf(slot);
        }
        if self.nodes[at].claimed {
            self.abandon(w);
            return Pace::Collision;
        }
        self.nodes[at].claimed = true;
        let slot: usize = self.workers[w].record_leaf(id, LeafValue::Waiting);
        assert(self@.nodes =~= before.arrived(w as int).nodes);
        assert(self@.workers =~= before.arrived(w as int).workers);
        Pace::Leaf(slot)
    }

    /// Takes worker `w`'s descent and its virtual loss back.
    fn abandon(&mut self, w: usize)
        requires
            old(self)@.wf(),
            old(self)@.walking(w as int),
            old(self)@.collisions < u64::MAX,
        ensures
            final(self)@ == old(self)@.abandoned(w as int),
            final(self).config == old(self).config,
    {
        let ghost before = self@;
        let ghost worker = before.workers[w as int];
        let ghost steps = worker.open_steps();
        proof {
            assert(before.workers.len() == self.workers@.len());
            assert(before.workers[w as int] == self.workers@[w as int]@);
            assert(worker.wf(before.nodes));
            descents_fit(before, w as int);
        }
        let start: usize = self.workers[w].start();
        let end: usize = self.workers[w].path.len();
        let mut t: usize = start;
        proof {
            assert(steps.take(0) =~= Seq::empty());
            assert forall|i: int| 0 <= i < before.nodes.len() implies #[trigger] released(
                before.nodes[i],
                steps.take(0),
                i,
            ) == before.nodes[i] by {
                assert(released(before.nodes[i], steps.take(0), i) =~= before.nodes[i]);
            }
            assert(self@.nodes =~= Seq::new(
                before.nodes.len(),
                |i: int| released(before.nodes[i], steps.take(0), i),
            ));
        }
        while t < end
            invariant
                before == old(self)@,
                before.wf(),
                before.walking(w as int),
                worker == before.workers[w as int],
                worker.wf(before.nodes),
                steps == worker.open_steps(),
                start == worker.open_start(),
                end == worker.path.len(),
                start <= t <= end,
                steps.len() == end - start,
                self@.workers == before.workers,
                self@.collisions == before.collisions,
                self.config == old(self).config,
                self@.nodes == Seq::new(
                    before.nodes.len(),
                    |i: int| released(before.nodes[i], steps.take(t - start), i),
                ),
            decreases end - t,
        {
            let ghost mid = self@.nodes;
            proof {
                assert(self@.workers.len() == self.workers@.len());
                assert(self@.workers[w as int] == self.workers@[w as int]@);
                assert(steps[t - start] == worker.path[t as int]);
                assert(passable(before.nodes, worker.path[t as int]));
                one_more_pass(before, w as int, steps, t - start);
                assert(steps.take(t - start + 1).drop_last() =~= steps.take(t - start));
                assert(steps.take(t - start + 1).last() == steps[t - start]);
            }
            let (id, edge): (u32, u32) = self.workers[w].path[t];
            let at: usize = id as usize;
            let slot: usize = edge as usize;
            proof {
                assert(self@.nodes.len() == self.nodes@.len());
                assert(self@.nodes[at as int] == self.nodes@[at as int]@);
            }
            let node = &mut self.nodes[at];
            node.vl[slot] -= 1;
            node.vl_visits -= 1;
            t += 1;
            proof {
                let next = Seq::new(
                    before.nodes.len(),
                    |i: int| released(before.nodes[i], steps.take(t - start), i),
                );
                assert(self@.workers =~= before.workers);
                assert forall|i: int| 0 <= i < next.len() implies self@.nodes[i]
                    == #[trigger] next[i] by {
                    if i == at {
                        assert(self@.nodes[i].vl =~= next[i].vl);
                    } else {
                        assert(self@.nodes[i] == mid[i]);
                        assert(mid[i] =~= next[i]);
                    }
                }
                assert(self@.nodes =~= next);
            }
        }
        self.workers[w].path.truncate(start);
        self.workers[w].cursor = None;
        self.collisions = self.collisions + 1;
        proof {
            assert(steps.take(end - start) =~= steps);
            assert(self@.workers =~= before.abandoned(w as int).workers);
            assert(self@.nodes =~= before.abandoned(w as int).nodes);
        }
    }

    /// Takes edge `edge` where worker `w` stands, if the node behind it is
    /// there. Returns `false`, and changes nothing, if it has to be supplied.
    pub fn take_edge(&mut self, w: usize, edge: usize) -> (r: bool)
        requires
            old(self)@.wf(),
            old(self)@.walking(w as int),
            old(self).room(w as int),
            edge < old(self)@.nodes[old(self)@.at(w as int)].actions.len(),
        ensures
            r == (old(self)@.nodes[old(self)@.at(w as int)].children[edge as int] != NO_NODE),
            r ==> final(self)@ == old(self)@.walked(w as int, edge as int),
            !r ==> final(self)@ == old(self)@,
            final(self)@.wf(),
            final(self).config == old(self).config,
    {
        let ghost before = self@;
        proof {
            assert(before.workers.len() == self.workers@.len());
            assert(before.workers[w as int] == self.workers@[w as int]@);
            assert(before.workers[w as int].wf(before.nodes));
        }
        let id: u32 = match self.workers[w].cursor {
            Some(id) => id,
            None => 0,
        };
        let at: usize = id as usize;
        proof {
            assert(before.nodes.len() == self.nodes@.len());
            assert(before.nodes[at as int] == self.nodes@[at as int]@);
            assert(before.nodes[at as int].wf());
        }
        let child: u32 = self.nodes[at].children[edge];
        if child == NO_NODE {
            return false;
        }
        self.walk(w, id, edge, child);
        true
    }

    /// Goes through an edge with a node behind it.
    fn walk(&mut self, w: usize, id: u32, edge: usize, child: u32)
        requires
            old(self)@.wf(),
            old(self)@.walking(w as int),
            id == old(self)@.at(w as int),
            edge < old(self)@.nodes[id as int].children.len(),
            child == old(self)@.nodes[id as int].children[edge as int],
            child != NO_NODE,
            old(self)@.nodes[id as int].visits + old(self)@.nodes[id as int].vl_visits < u32::MAX,
        ensures
            final(self)@ == old(self)@.walked(w as int, edge as int),
            final(self)@.wf(),
            final(self).config == old(self).config,
    {
        let ghost before = self@;
        proof {
            walking_keeps(before, w as int, edge as int);
            assert(before.workers.len() == self.workers@.len());
            assert(before.workers[w as int] == self.workers@[w as int]@);
            assert(before.workers[w as int].wf(before.nodes));
            assert(before.nodes.len() == self.nodes@.len());
            assert(before.nodes[id as int] == self.nodes@[id as int]@);
            assert(before.nodes[id as int].wf());
            crate::mcts::tree::total_bounds(before.nodes[id as int].vl, edge as int);
        }
        let node = &mut self.nodes[id as usize];
        node.vl[edge] += 1;
        node.vl_visits += 1;
        let worker = &mut self.workers[w];
        worker.path.push((id, edge as u32));
        worker.cursor = Some(child);
        assert(self@.nodes =~= before.walked(w as int, edge as int).nodes);
        assert(self@.workers =~= before.walked(w as int, edge as int).workers);
    }

    /// Takes edge `edge` where worker `w` stands, with `next` as the position
    /// behind it. If another worker supplied it first, that worker's node is
    /// used and `next` is dropped.
    pub fn supply(&mut self, w: usize, edge: usize, next: State)
        requires
            old(self)@.wf(),
            old(self)@.walking(w as int),
            old(self).room(w as int),
            edge < old(self)@.nodes[old(self)@.at(w as int)].actions.len(),
            next@.wf(),
        ensures
            final(self)@ == old(self)@.linked(
                old(self)@.at(w as int),
                edge as int,
                next@,
            ).walked(w as int, edge as int),
            final(self)@.wf(),
            final(self).config == old(self).config,
    {
        let ghost before = self@;
        let ghost id = before.at(w as int);
        let ghost position = next@;
        proof {
            assert(before.workers.len() == self.workers@.len());
            assert(before.workers[w as int] == self.workers@[w as int]@);
            assert(before.workers[w as int].wf(before.nodes));
            assert(before.nodes[id].wf());
            linking_keeps(before, id, edge as int, position);
        }
        let at: u32 = match self.workers[w].cursor {
            Some(id) => id,
            None => 0,
        };
        proof {
            assert(before.nodes.len() == self.nodes@.len());
            assert(before.nodes[id] == self.nodes@[id]@);
        }
        let mut child: u32 = self.nodes[at as usize].children[edge];
        if child == NO_NODE {
            child = self.nodes.len() as u32;
            self.nodes.push(SharedNode::new(next));
            self.nodes[at as usize].children[edge] = child;
        }
        proof {
            assert(self@.nodes =~= before.linked(id, edge as int, position).nodes);
            assert(self@.workers =~= before.workers);
            assert(self@ == before.linked(id, edge as int, position));
        }
        self.walk(w, at, edge, child);
    }
}

/// One of the first `count` leaves of the batch waits for node `id`.
spec fn held_before(worker: WorkerView, count: int, id: int) -> bool {
    exists|s: int| s < count && #[trigger] waits(worker, s, id)
}

/// The tree with the first `count` leaves of worker `w` looked at.
spec fn sorted_nodes(v: PoolView, w: int, count: int) -> Seq<SharedView> {
    Seq::new(
        v.nodes.len(),
        |i: int|
            if held_before(v.workers[w], count, i) && v.is_stuck(i) {
                stuck(v.nodes[i])
            } else {
                v.nodes[i]
            },
    )
}

impl ParallelMcts {
    /// Finds, among the nodes worker `w` has claimed, those without a legal
    /// action, which are terminal after all and drop out of the batch, and
    /// lists the leaves that have to be evaluated.
    pub fn evaluate_leaves(&mut self, w: usize) -> (r: Vec<usize>)
        requires
            old(self)@.wf(),
            w < old(self)@.workers.len(),
        ensures
            final(self)@ == old(self)@.sorted_out(w as int),
            lists_waiting(final(self)@.workers[w as int].leaves, r@),
            final(self)@.wf(),
            final(self).config == old(self).config,
    {
        let ghost before = self@;
        let ghost worker = before.workers[w as int];
        let ghost goal = before.sorted_out(w as int);
        proof {
            sorting_out_keeps(before, w as int);
            assert(before.workers.len() == self.workers@.len());
            assert(before.workers[w as int] == self.workers@[w as int]@);
            assert(worker.wf(before.nodes));
            assert(sorted_nodes(before, w as int, 0) =~= before.nodes);
        }
        let mut evaluate: Vec<usize> = Vec::new();
        let mut i: usize = 0;
        let count: usize = self.workers[w].leaves.len();
        while i < count
            invariant
                before == old(self)@,
                before.wf(),
                w < before.workers.len(),
                worker == before.workers[w as int],
                worker.wf(before.nodes),
                goal == before.sorted_out(w as int),
                i <= count,
                count == worker.leaves.len(),
                self.config == old(self).config,
                self@.collisions == before.collisions,
                self@.nodes == sorted_nodes(before, w as int, i as int),
                self@.workers.len() == before.workers.len(),
                forall|x: int|
                    0 <= x < before.workers.len() && x != w ==> #[trigger] self@.workers[x]
                        == before.workers[x],
                self@.workers[w as int] == (WorkerView {
                    leaves: Seq::new(
                        worker.leaves.len(),
                        |s: int|
                            if s < i {
                                goal.workers[w as int].leaves[s]
                            } else {
                                worker.leaves[s]
                            },
                    ),
                    ..worker
                }),
                forall|a: int, b: int|
                    0 <= a < b < evaluate@.len() ==> #[trigger] evaluate@[a]
                        < #[trigger] evaluate@[b],
                forall|a: int|
                    0 <= a < evaluate@.len() ==> #[trigger] evaluate@[a] < i
                        && goal.workers[w as int].leaves[evaluate@[a] as int].value is Waiting,
                forall|s: int|
                    0 <= s < i && (#[trigger] goal.workers[w as int].leaves[s]).value is Waiting
                        ==> exists|a: int| 0 <= a < evaluate@.len() && #[trigger] evaluate@[a] == s,
            decreases count - i,
        {
            let ghost mid = self@;
            let ghost listed = evaluate@;
            proof {
                assert(self@.workers.len() == self.workers@.len());
                assert(self@.workers[w as int] == self.workers@[w as int]@);
                assert(self@.workers[w as int].leaves[i as int] == worker.leaves[i as int]);
                assert(leaf_ok(before.nodes, worker.leaves[i as int]));
            }
            let leaf = self.workers[w].leaves[i];
            let at: usize = leaf.node as usize;
            proof {
                assert(self@.nodes.len() == self.nodes@.len());
                assert(self@.nodes[at as int] == self.nodes@[at as int]@);
                assert forall|k: int|
                    held_before(worker, i + 1, k) == (held_before(worker, i as int, k) || (
                    worker.leaves[i as int].value is Waiting && k == at)) by {
                    if held_before(worker, i as int, k) {
                        let s = choose|s: int| s < i && #[trigger] waits(worker, s, k);
                        assert(waits(worker, s, k));
                    }
                    if worker.leaves[i as int].value is Waiting && k == at {
                        assert(waits(worker, i as int, k));
                    }
                }
            }
            if leaf.value == LeafValue::Waiting {
                proof {
                    assert(waits(worker, i as int, at as int));
                    assert(!held_before(worker, i as int, at as int)) by {
                        if held_before(worker, i as int, at as int) {
                            let s = choose|s: int| s < i && #[trigger] waits(worker, s, at as int);
                            assert(waits(before.workers[w as int], s, at as int));
                            assert(waits(before.workers[w as int], i as int, at as int));
                        }
                    }
                    assert(self@.nodes[at as int] == before.nodes[at as int]);
                }
                if self.nodes[at].state.legal_actions.len() == 0 {
                    let value: i8 = self.nodes[at].mark_stuck();
                    self.workers[w].leaves[i] = Leaf {
                        node: leaf.node,
                        value: LeafValue::Terminal(value),
                    };
                } else {
                    evaluate.push(i);
                    proof {
                        assert(evaluate@[listed.len() as int] == i);
                        assert forall|s: int|
                            0 <= s < i + 1 && (
                            #[trigger] goal.workers[w as int].leaves[s]).value is Waiting implies exists|
                            a: int,
                        |
                            0 <= a < evaluate@.len() && #[trigger] evaluate@[a] == s by {
                            if s < i {
                                let a = choose|a: int|
                                    0 <= a < listed.len() && #[trigger] listed[a] == s;
                                assert(evaluate@[a] == s);
                            }
                        }
                    }
                }
            }
            i += 1;
            proof {
                assert forall|x: int| 0 <= x < before.workers.len() && x != w implies (
                #[trigger] self@.workers[x]) == before.workers[x] by {
                    assert(self@.workers[x] == mid.workers[x]);
                }
                let next = sorted_nodes(before, w as int, i as int);
                assert forall|k: int| 0 <= k < next.len() implies self@.nodes[k]
                    == #[trigger] next[k] by {
                    assert(mid.nodes[k] == sorted_nodes(before, w as int, i - 1)[k]);
                }
                assert(self@.nodes =~= next);
                assert(self@.workers[w as int].leaves =~= Seq::new(
                    worker.leaves.len(),
                    |s: int|
                        if s < i {
                            goal.workers[w as int].leaves[s]
                        } else {
                            worker.leaves[s]
                        },
                ));
                assert(self@.workers[w as int] =~= (WorkerView {
                    leaves: Seq::new(
                        worker.leaves.len(),
                        |s: int|
                            if s < i {
                                goal.workers[w as int].leaves[s]
                            } else {
                                worker.leaves[s]
                            },
                    ),
                    ..worker
                }));
            }
        }
        proof {
            assert forall|k: int| held_before(worker, count as int, k) == worker.holds(k) by {
                if worker.holds(k) {
                    let s = choose|s: int| waits(worker, s, k);
                    assert(waits(worker, s, k));
                }
            }
            assert(self@.nodes =~= goal.nodes);
            assert(self@.workers[w as int].leaves =~= goal.workers[w as int].leaves);
            assert(self@.workers[w as int] =~= goal.workers[w as int]);
            assert(self@.workers =~= goal.workers);
        }
        evaluate
    }

    /// Publishes the edges of the node leaf `slot` of worker `w` waits for. The
    /// leaf's value is held by whoever evaluated it.
    pub fn publish(&mut self, w: usize, slot: usize)
        requires
            old(self)@.wf(),
            w < old(self)@.workers.len(),
            slot < old(self)@.workers[w as int].leaves.len(),
            old(self)@.workers[w as int].leaves[slot as int].value is Waiting,
            !old(self)@.is_stuck(old(self)@.workers[w as int].leaves[slot as int].node as int),
        ensures
            final(self)@ == old(self)@.opened(w as int, slot as int),
            final(self)@.wf(),
            final(self).config == old(self).config,
    {
        let ghost before = self@;
        proof {
            publishing_keeps(before, w as int, slot as int);
            assert(before.workers.len() == self.workers@.len());
            assert(before.workers[w as int] == self.workers@[w as int]@);
            assert(before.workers[w as int].wf(before.nodes));
            assert(leaf_ok(before.nodes, before.workers[w as int].leaves[slot as int]));
        }
        let leaf = self.workers[w].leaves[slot];
        let at: usize = leaf.node as usize;
        proof {
            assert(before.nodes.len() == self.nodes@.len());
            assert(before.nodes[at as int] == self.nodes@[at as int]@);
        }
        self.nodes[at].publish_edges();
        self.workers[w].leaves[slot] = Leaf { node: leaf.node, value: LeafValue::Evaluated };
        assert(self@.nodes =~= before.opened(w as int, slot as int).nodes);
        assert(self@.workers[w as int] =~= before.opened(w as int, slot as int).workers[w as int]);
        assert(self@.workers =~= before.opened(w as int, slot as int).workers);
    }
}

/// The tree with the first `count` steps of worker `w`'s path credited.
spec fn credited_nodes(v: PoolView, w: int, count: int) -> Seq<SharedView> {
    Seq::new(v.nodes.len(), |i: int| credited(v.nodes[i], v.workers[w].path.take(count), i))
}

/// An earlier descent ends before a later one starts.
proof fn descents_ascend(worker: WorkerView, c: int, d: int)
    requires
        crate::mcts::tree::descents_wf(
            worker.descents,
            worker.path.len() as int,
            worker.leaves.len() as int,
        ),
        0 <= c < d < worker.descents.len(),
    ensures
        worker.descents[c].end <= worker.descents[d].start,
    decreases d - c,
{
    if c + 1 < d {
        descents_ascend(worker, c, d - 1);
        assert(worker.descents[d - 1].end == worker.descents[d].start);
    }
}

impl ParallelMcts {
    /// Credits one edge: its descent in flight becomes a visit.
    fn credit_step(&mut self, w: usize, t: usize, Ghost(before): Ghost<PoolView>) -> (r: (u32, u32))
        requires
            before.wf(),
            w < before.workers.len(),
            t < before.workers[w as int].path.len(),
            old(self)@ == (PoolView {
                nodes: credited_nodes(before, w as int, t as int),
                ..before
            }),
        ensures
            r == before.workers[w as int].path[t as int],
            final(self)@ == (PoolView {
                nodes: credited_nodes(before, w as int, t + 1),
                ..before
            }),
            final(self).config == old(self).config,
    {
        let ghost path = before.workers[w as int].path;
        let ghost mid = self@.nodes;
        proof {
            assert(self@.workers.len() == self.workers@.len());
            assert(self@.workers[w as int] == self.workers@[w as int]@);
            one_more_pass(before, w as int, path, t as int);
            assert(path.take(t + 1).drop_last() =~= path.take(t as int));
            assert(path.take(t + 1).last() == path[t as int]);
        }
        let (id, edge): (u32, u32) = self.workers[w].path[t];
        let at: usize = id as usize;
        let slot: usize = edge as usize;
        proof {
            assert(self@.nodes.len() == self.nodes@.len());
            assert(self@.nodes[at as int] == self.nodes@[at as int]@);
            assert(before.nodes[at as int].wf());
        }
        let node = &mut self.nodes[at];
        node.visits += 1;
        node.n[slot] += 1;
        node.vl[slot] -= 1;
        node.vl_visits -= 1;
        proof {
            let next = credited_nodes(before, w as int, t + 1);
            assert forall|i: int| 0 <= i < next.len() implies self@.nodes[i]
                == #[trigger] next[i] by {
                if i == at {
                    assert(self@.nodes[i].vl =~= next[i].vl);
                    assert(self@.nodes[i].n =~= next[i].n);
                } else {
                    assert(self@.nodes[i] == mid[i]);
                    assert(mid[i].vl =~= next[i].vl);
                    assert(mid[i].n =~= next[i].n);
                    assert(mid[i] =~= next[i]);
                }
            }
            assert(self@.nodes =~= next);
            assert(self@.workers =~= before.workers);
        }
        (id, edge)
    }

    /// Credits every edge of every descent of worker `w`'s batch with its leaf,
    /// removes the virtual loss the descents applied, and clears the batch.
    ///
    /// The credits are handed out in the order they are to be added up, each
    /// with the leaf whose value it carries, as is at every level.
    pub fn backup(&mut self, w: usize) -> (r: Vec<Credit>)
        requires
            old(self)@.wf(),
            w < old(self)@.workers.len(),
            old(self)@.workers[w as int].cursor is None,
            forall|s: int|
                0 <= s < old(self)@.workers[w as int].leaves.len() ==> !((
                #[trigger] old(self)@.workers[w as int].leaves[s]).value is Waiting),
        ensures
            old(self)@.workers[w as int].credits(r@),
            final(self)@ == old(self)@.backed_up(w as int),
            final(self)@.wf(),
            final(self)@.nodes[0].visits == old(self)@.nodes[0].visits
                + old(self)@.workers[w as int].descents.len(),
            final(self).config == old(self).config,
    {
        let ghost before = self@;
        let ghost worker = before.workers[w as int];
        proof {
            backing_up_keeps(before, w as int);
            every_simulation_is_one_root_visit(before, w as int);
            descents_fit(before, w as int);
            assert(worker.wf(before.nodes));
            assert(before.workers.len() == self.workers@.len());
            assert(before.workers[w as int] == self.workers@[w as int]@);
            assert forall|i: int| 0 <= i < before.nodes.len() implies #[trigger] credited(
                before.nodes[i],
                worker.path.take(0),
                i,
            ) == before.nodes[i] by {
                assert(worker.path.take(0) =~= Seq::empty());
                assert(credited(before.nodes[i], worker.path.take(0), i) =~= before.nodes[i]);
            }
            assert(credited_nodes(before, w as int, 0) =~= before.nodes);
        }
        let mut credits: Vec<Credit> = Vec::new();
        let count: usize = self.workers[w].descents.len();
        let mut d: usize = 0;
        let mut t: usize = 0;
        while d < count
            invariant
                before == old(self)@,
                before.wf(),
                w < before.workers.len(),
                worker == before.workers[w as int],
                worker.wf(before.nodes),
                count == worker.descents.len(),
                d <= count,
                t <= worker.path.len(),
                t == (if d == 0 {
                    0
                } else {
                    worker.descents[d - 1].end as int
                }),
                self@ == (PoolView {
                    nodes: credited_nodes(before, w as int, t as int),
                    ..before
                }),
                self.config == old(self).config,
                credits@.len() == t,
                forall|c: int, u: int|
                    #![trigger worker.descents[c], credits@[u]]
                    0 <= c < d && worker.descents[c].start <= u < worker.descents[c].end
                        ==> credits@[u] == (Credit {
                        node: worker.path[u].0,
                        edge: worker.path[u].1,
                        leaf: worker.descents[c].leaf,
                    }),
            decreases count - d,
        {
            let ghost done = credits@;
            proof {
                assert(self@.workers.len() == self.workers@.len());
                assert(self@.workers[w as int] == self.workers@[w as int]@);
                if d > 0 {
                    assert(worker.descents[d - 1].end == worker.descents[d as int].start);
                }
            }
            let descent = self.workers[w].descents[d];
            while t < descent.end
                invariant
                    before == old(self)@,
                    before.wf(),
                    w < before.workers.len(),
                    worker == before.workers[w as int],
                    worker.wf(before.nodes),
                    d < worker.descents.len(),
                    descent == worker.descents[d as int],
                    descent.start <= t <= descent.end <= worker.path.len(),
                    self@ == (PoolView {
                        nodes: credited_nodes(before, w as int, t as int),
                        ..before
                    }),
                    self.config == old(self).config,
                    credits@.len() == t,
                    done.len() == descent.start,
                    forall|u: int| 0 <= u < descent.start ==> #[trigger] credits@[u] == done[u],
                    forall|u: int|
                        descent.start <= u < t ==> #[trigger] credits@[u] == (Credit {
                            node: worker.path[u].0,
                            edge: worker.path[u].1,
                            leaf: descent.leaf,
                        }),
                decreases descent.end - t,
            {
                let (node, edge): (u32, u32) = self.credit_step(w, t, Ghost(before));
                credits.push(Credit { node, edge, leaf: descent.leaf });
                t += 1;
            }
            proof {
                assert forall|c: int, u: int|
                    #![trigger worker.descents[c], credits@[u]]
                    0 <= c < d + 1 && worker.descents[c].start <= u < worker.descents[c].end implies credits@[u]
                    == (Credit {
                    node: worker.path[u].0,
                    edge: worker.path[u].1,
                    leaf: worker.descents[c].leaf,
                }) by {
                    if c < d {
                        descents_ascend(worker, c, d as int);
                        assert(credits@[u] == done[u]);
                    }
                }
            }
            d += 1;
        }
        proof {
            if worker.descents.len() > 0 {
                assert(worker.descents.last() == worker.descents[worker.descents.len() - 1]);
            }
            assert(worker.path.take(t as int) =~= worker.path);
            assert(self@.workers.len() == self.workers@.len());
        }
        let batch = &mut self.workers[w];
        batch.path.clear();
        batch.descents.clear();
        batch.leaves.clear();
        assert(self@.nodes =~= before.backed_up(w as int).nodes);
        assert(self@.workers[w as int] =~= before.backed_up(w as int).workers[w as int]);
        assert(self@.workers =~= before.backed_up(w as int).workers);
        credits
    }

    /// Simulations run so far: the root's visits.
    pub fn sims_run(&self) -> (r: u64)
        requires
            self@.wf(),
        ensures
            r == self@.nodes[0].visits,
            r == total(self@.nodes[0].n),
    {
        assert(self@.nodes[0] == self.nodes@[0]@);
        assert(self@.nodes[0].wf());
        self.nodes[0].visits as u64
    }

    /// Descents abandoned because another worker had already claimed the node
    /// they reached.
    pub fn collisions(&self) -> (r: u64)
        ensures
            r == self@.collisions,
    {
        self.collisions
    }

    /// Workers this search runs on.
    pub fn threads(&self) -> (r: usize)
        ensures
            r == self@.workers.len(),
    {
        self.workers.len()
    }

    /// There is nothing to search: the root is finished or stuck.
    pub fn is_terminal(&self) -> (r: bool)
        requires
            self@.wf(),
        ensures
            r == (self@.nodes[0].outcome is Some),
            !r ==> self@.nodes[0].published(),
    {
        assert(self@.nodes[0] == self.nodes@[0]@);
        self.nodes[0].outcome.is_some()
    }

    /// The root's legal actions, none at a terminal root.
    pub fn root_actions(&self) -> (r: &Vec<Action>)
        requires
            self@.wf(),
        ensures
            r@ == self@.nodes[0].actions,
    {
        assert(self@.nodes[0] == self.nodes@[0]@);
        &self.nodes[0].actions
    }

    /// Visits of each root action.
    pub fn root_visits(&self) -> (r: &Vec<u32>)
        requires
            self@.wf(),
        ensures
            r@ == self@.nodes[0].n,
    {
        assert(self@.nodes[0] == self.nodes@[0]@);
        &self.nodes[0].n
    }

    /// Most-visited root action, ties broken by enumeration order. `None` at a
    /// terminal or stuck root.
    pub fn best_action(&self) -> (r: Option<Action>)
        requires
            self@.wf(),
        ensures
            self@.nodes[0].published() <==> r is Some,
            r is Some ==> exists|edge: int|
                #![trigger most_visited(self@.nodes[0].n, edge)]
                most_visited(self@.nodes[0].n, edge) && r == Some(self@.nodes[0].actions[edge]),
    {
        assert(self@.nodes[0] == self.nodes@[0]@);
        assert(self@.nodes[0].wf());
        let root = &self.nodes[0];
        if root.actions.len() == 0 {
            return None;
        }
        let edge: usize = most_visited_edge(&root.n);
        assert(most_visited(self@.nodes[0].n, edge as int));
        Some(root.actions[edge])
    }

    /// How many visits [`ParallelMcts::chosen_action`] draws from, when it draws
    /// at all.
    pub fn draw_total(&self) -> (r: Option<u64>)
        requires
            self@.wf(),
        ensures
            r is Some <==> self.config.visit_sampling && self@.nodes[0].published()
                && self@.nodes[0].visits > 0,
            r matches Some(visits) ==> visits == total(self@.nodes[0].n),
    {
        assert(self@.nodes[0] == self.nodes@[0]@);
        assert(self@.nodes[0].wf());
        let root = &self.nodes[0];
        if !self.config.visit_sampling || root.actions.len() == 0 || root.visits == 0 {
            return None;
        }
        Some(root.visits as u64)
    }

    /// The action to play: the best one, or, when visit sampling is on, the one
    /// a draw of `target` below [`ParallelMcts::draw_total`] falls on.
    pub fn chosen_action(&self, target: u64) -> (r: Option<Action>)
        requires
            self@.wf(),
        ensures
            self@.nodes[0].published() <==> r is Some,
            r is Some && !self.config.visit_sampling ==> exists|edge: int|
                #![trigger most_visited(self@.nodes[0].n, edge)]
                most_visited(self@.nodes[0].n, edge) && r == Some(self@.nodes[0].actions[edge]),
            r is Some && self.config.visit_sampling && self@.nodes[0].visits == 0 ==> r == Some(
                self@.nodes[0].actions[0],
            ),
            r is Some && self.config.visit_sampling && self@.nodes[0].visits > 0 ==> exists|
                edge: int,
            |
                #![trigger drawn(self@.nodes[0].n, target as int, edge)]
                drawn(self@.nodes[0].n, target as int, edge) && r == Some(
                    self@.nodes[0].actions[edge],
                ) && (target < self@.nodes[0].visits ==> self@.nodes[0].n[edge] > 0),
    {
        if !self.config.visit_sampling {
            return self.best_action();
        }
        assert(self@.nodes[0] == self.nodes@[0]@);
        assert(self@.nodes[0].wf());
        let root = &self.nodes[0];
        if root.actions.len() == 0 {
            return None;
        }
        if root.visits == 0 {
            return Some(root.actions[0]);
        }
        let edge: usize = drawn_edge(&root.n, target);
        proof {
            assert(drawn(self@.nodes[0].n, target as int, edge as int));
            if target < self@.nodes[0].visits {
                a_draw_falls_on_a_visited_action(
                    self@.nodes[0].n,
                    target as int,
                    edge as int,
                );
            }
        }
        Some(root.actions[edge])
    }
}

/// What a worker that asks for `batch` simulations gets when `left` are left.
pub open spec fn claimed(batch: int, left: int) -> int {
    if batch <= left {
        batch
    } else {
        left
    }
}

/// The simulations still to be run, shared by the workers.
#[derive(Clone, Copy, Debug, PartialEq, Eq, Structural)]
pub struct Budget {
    pub left: u32,
}

impl Budget {
    /// A budget of `count` simulations.
    pub fn new(count: u32) -> (r: Budget)
        ensures
            r.left == count,
    {
        Budget { left: count }
    }

    /// Takes up to `batch` simulations off the budget, returning what it
    /// actually got.
    pub fn claim_from(&mut self, batch: u32) -> (r: u32)
        ensures
            r == claimed(batch as int, old(self).left as int),
            final(self).left == old(self).left - r,
    {
        let take: u32 = if batch <= self.left {
            batch
        } else {
            self.left
        };
        self.left = self.left - take;
        take
    }

    /// Hands collided descents back, so another pass can spend them.
    pub fn hand_back(&mut self, unspent: u32)
        requires
            old(self).left + unspent <= u32::MAX,
        ensures
            final(self).left == old(self).left + unspent,
    {
        self.left = self.left + unspent;
    }
}

/// A parallel search is refused for a schedule, for too many or too few
/// players, or for a board the net does not know, and for nothing else; what is
/// named is so.
pub proof fn a_refusal_has_its_reason(state: StateView, has_net: bool, config: Config)
    ensures
        parallel_refusal(state, has_net, config) is None <==> config.gumbel is None
            && state.players == 2 && (!has_net || (state.rows == 12 && state.cols == 12)),
        match parallel_refusal(state, has_net, config) {
            Some(ParallelRefusal::Gumbel) => config.gumbel is Some,
            Some(ParallelRefusal::Players) => state.players != 2,
            Some(ParallelRefusal::Board) => has_net && !(state.rows == 12 && state.cols == 12),
            None => true,
        },
{
}

/// A worker gets what it asks for while there is that much, and the rest after
/// that; what two workers get and what is left add up to what there was.
pub proof fn claims_share_the_budget(first: int, second: int, left: int)
    requires
        0 <= first,
        0 <= second,
        0 <= left,
    ensures
        0 <= claimed(first, left) <= left,
        claimed(first, left) <= first,
        claimed(first, left) == first || claimed(first, left) == left,
        claimed(first, left) + claimed(second, left - claimed(first, left)) == claimed(
            first + second,
            left,
        ),
{
}

} // verus!
