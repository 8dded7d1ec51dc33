//! The model of the shared tree: several workers descending one tree, one step
//! at a time, in any order.
//!
//! Each step is atomic and keeps [`PoolView::wf`], so what follows from it
//! holds however the workers' steps are interleaved. A worker that is the first
//! to reach a node *claims* it and evaluates it with the rest of its batch. A
//! worker that runs into somebody else's claim has no value to back up and no
//! way to wait for one, so it abandons that descent: it takes back its virtual
//! loss and gets no credit.

use crate::game::{Action, Player, StateView};
use crate::mcts::tree::{
    departures, descents_wf, outcome_value, total, total_bounds, total_nonnegative, total_of_zeros,
    total_update, Credit, Descent, Leaf, LeafValue, NO_NODE,
};
use vstd::prelude::*;

verus! {

/// One node of the shared tree as mathematical values.
#[verifier::ext_equal]
pub struct SharedView {
    pub state: StateView,
    pub mover: Player,
    /// Set exactly when the node is terminal, to its value in the absolute
    /// frame: at once for a finished position, on discovery for one without a
    /// legal action.
    pub outcome: Option<i8>,
    /// The edges, none until they are published.
    pub actions: Seq<Action>,
    pub children: Seq<u32>,
    pub n: Seq<u32>,
    pub vl: Seq<u32>,
    /// A worker will evaluate this node in its batch.
    pub claimed: bool,
    pub visits: u32,
    pub vl_visits: u32,
}

/// One worker's batch as mathematical values.
#[verifier::ext_equal]
pub struct WorkerView {
    pub path: Seq<(u32, u32)>,
    pub descents: Seq<Descent>,
    pub leaves: Seq<Leaf>,
    /// Where the descent under way stands.
    pub cursor: Option<u32>,
}

/// The shared tree and its workers as mathematical values.
#[verifier::ext_equal]
pub struct PoolView {
    pub nodes: Seq<SharedView>,
    pub workers: Seq<WorkerView>,
    pub collisions: u64,
}

/// A node nobody has arrived at.
pub open spec fn seed(state: StateView) -> SharedView {
    SharedView {
        state,
        mover: state.current_player,
        outcome: if state.game_over {
            Some(outcome_value(state))
        } else {
            None
        },
        actions: Seq::empty(),
        children: Seq::empty(),
        n: Seq::empty(),
        vl: Seq::empty(),
        claimed: false,
        visits: 0,
        vl_visits: 0,
    }
}

/// The node with an edge, without statistics, for every legal action, and its
/// claim given up.
pub open spec fn with_edges(node: SharedView) -> SharedView {
    let count = node.state.legal_actions.len();
    SharedView {
        actions: node.state.legal_actions,
        children: Seq::new(count, |e: int| NO_NODE),
        n: Seq::new(count, |e: int| 0u32),
        vl: Seq::new(count, |e: int| 0u32),
        claimed: false,
        ..node
    }
}

/// A node without a legal action, worth its outcome, and its claim given up.
pub open spec fn stuck(node: SharedView) -> SharedView {
    SharedView { outcome: Some(outcome_value(node.state)), claimed: false, ..node }
}

/// The root before any worker exists: published, unless it is finished or
/// stuck.
pub open spec fn planted(state: StateView) -> SharedView {
    let node = seed(state);
    if node.outcome is Some {
        node
    } else if state.legal_actions.len() == 0 {
        stuck(node)
    } else {
        with_edges(node)
    }
}

/// How often `path` takes edge `edge` of node `node`.
pub open spec fn passes(path: Seq<(u32, u32)>, node: int, edge: int) -> int
    decreases path.len(),
{
    if path.len() == 0 {
        0
    } else {
        passes(path.drop_last(), node, edge) + if path.last().0 == node && path.last().1 == edge {
            1int
        } else {
            0int
        }
    }
}

/// How often all the workers together take that edge in their batches.
pub open spec fn in_flight(workers: Seq<WorkerView>, node: int, edge: int) -> int
    decreases workers.len(),
{
    if workers.len() == 0 {
        0
    } else {
        in_flight(workers.drop_last(), node, edge) + passes(workers.last().path, node, edge)
    }
}

/// A column of counters with every pass of `path` taken off it.
pub open spec fn lowered(column: Seq<u32>, path: Seq<(u32, u32)>, node: int) -> Seq<u32> {
    Seq::new(column.len(), |e: int| (column[e] - passes(path, node, e)) as u32)
}

/// A column of counters with every pass of `path` added to it.
pub open spec fn raised(column: Seq<u32>, path: Seq<(u32, u32)>, node: int) -> Seq<u32> {
    Seq::new(column.len(), |e: int| (column[e] + passes(path, node, e)) as u32)
}

/// Node `id` with the virtual loss of `path` taken back.
pub open spec fn released(node: SharedView, path: Seq<(u32, u32)>, id: int) -> SharedView {
    SharedView {
        vl: lowered(node.vl, path, id),
        vl_visits: (node.vl_visits - departures(path, id)) as u32,
        ..node
    }
}

/// Node `id` with the virtual loss of `path` turned into visits.
pub open spec fn credited(node: SharedView, path: Seq<(u32, u32)>, id: int) -> SharedView {
    SharedView {
        n: raised(node.n, path, id),
        visits: (node.visits + departures(path, id)) as u32,
        ..released(node, path, id)
    }
}

impl SharedView {
    /// The edges are there.
    pub open spec fn published(self) -> bool {
        self.actions.len() > 0
    }

    /// Its columns are parallel, its sums are kept, and its flags agree.
    pub open spec fn wf(self) -> bool {
        &&& self.state.wf()
        &&& self.mover == self.state.current_player
        &&& self.children.len() == self.actions.len()
        &&& self.n.len() == self.actions.len()
        &&& self.vl.len() == self.actions.len()
        &&& total(self.n) == self.visits
        &&& total(self.vl) == self.vl_visits
        &&& self.visits + self.vl_visits <= u32::MAX
        &&& self.published() ==> {
            &&& self.actions == self.state.legal_actions
            &&& self.outcome is None
            &&& !self.claimed
        }
        &&& self.claimed ==> self.outcome is None
        &&& self.state.game_over ==> self.outcome is Some
        &&& self.outcome matches Some(value) ==> {
            &&& value == outcome_value(self.state)
            &&& (self.state.game_over || self.state.legal_actions.len() == 0)
        }
    }
}

/// The node behind an edge.
pub open spec fn behind(nodes: Seq<SharedView>, step: (u32, u32)) -> u32 {
    nodes[step.0 as int].children[step.1 as int]
}

/// `step` is an edge there is, and a node stands behind it.
pub open spec fn passable(nodes: Seq<SharedView>, step: (u32, u32)) -> bool {
    &&& step.0 < nodes.len()
    &&& step.1 < nodes[step.0 as int].children.len()
    &&& behind(nodes, step) != NO_NODE
}

/// `steps` leads from the root to `stop`, each step starting where the one
/// before it led.
pub open spec fn leads(nodes: Seq<SharedView>, steps: Seq<(u32, u32)>, stop: int) -> bool {
    &&& steps.len() == 0 ==> stop == 0
    &&& steps.len() > 0 ==> steps[0].0 == 0 && behind(nodes, steps.last()) == stop
    &&& forall|t: int, u: int|
        #![trigger steps[t], steps[u]]
        0 <= t && u == t + 1 && u < steps.len() ==> behind(nodes, steps[t]) == steps[u].0
}

/// What a collected leaf says of its node.
pub open spec fn leaf_ok(nodes: Seq<SharedView>, leaf: Leaf) -> bool {
    &&& 0 < leaf.node < nodes.len()
    &&& match leaf.value {
        LeafValue::Waiting => nodes[leaf.node as int].claimed,
        LeafValue::Evaluated => nodes[leaf.node as int].published(),
        LeafValue::Terminal(value) => nodes[leaf.node as int].outcome == Some(value),
    }
}

pub open spec fn leaves_ok(nodes: Seq<SharedView>, leaves: Seq<Leaf>) -> bool {
    forall|s: int| 0 <= s < leaves.len() ==> leaf_ok(nodes, #[trigger] leaves[s])
}

pub open spec fn steps_ok(nodes: Seq<SharedView>, path: Seq<(u32, u32)>) -> bool {
    forall|t: int| 0 <= t < path.len() ==> passable(nodes, #[trigger] path[t])
}

/// Leaf `s` of the batch waits for the value of node `id`.
pub open spec fn waits(worker: WorkerView, s: int, id: int) -> bool {
    &&& 0 <= s < worker.leaves.len()
    &&& worker.leaves[s].node == id
    &&& worker.leaves[s].value is Waiting
}

/// The batch slot that waits for node `id`.
pub open spec fn slot_of(worker: WorkerView, id: int) -> int {
    choose|s: int| waits(worker, s, id)
}

impl WorkerView {
    /// Where the descent under way started on the path.
    pub open spec fn open_start(self) -> int {
        if self.descents.len() == 0 {
            0
        } else {
            self.descents.last().end as int
        }
    }

    /// The steps of the descent under way.
    pub open spec fn open_steps(self) -> Seq<(u32, u32)> {
        self.path.subrange(self.open_start(), self.path.len() as int)
    }

    /// This worker has claimed node `id` in its batch.
    pub open spec fn holds(self, id: int) -> bool {
        exists|s: int| waits(self, s, id)
    }

    /// Nothing collected.
    pub open spec fn resting(self) -> bool {
        &&& self.cursor is None
        &&& self.path.len() == 0
        &&& self.descents.len() == 0
        &&& self.leaves.len() == 0
    }

    /// The descent under way ends at the leaf in `slot`.
    pub open spec fn closed(self, slot: int) -> WorkerView {
        WorkerView {
            descents: self.descents.push(
                Descent {
                    start: self.open_start() as usize,
                    end: self.path.len() as usize,
                    leaf: slot as usize,
                },
            ),
            cursor: None,
            ..self
        }
    }

    /// The descent under way ends at a newly collected leaf.
    pub open spec fn recorded(self, id: int, value: LeafValue) -> WorkerView {
        let slot = self.leaves.len() as int;
        WorkerView { leaves: self.leaves.push(Leaf { node: id as u32, value }), ..self }.closed(
            slot,
        )
    }

    /// The routes of the closed descents.
    pub open spec fn routes_ok(self, nodes: Seq<SharedView>) -> bool {
        forall|d: int|
            0 <= d < self.descents.len() ==> {
                let descent = #[trigger] self.descents[d];
                leads(
                    nodes,
                    self.path.subrange(descent.start as int, descent.end as int),
                    self.leaves[descent.leaf as int].node as int,
                )
            }
    }

    /// The descent under way, if there is one.
    pub open spec fn open_ok(self, nodes: Seq<SharedView>) -> bool {
        match self.cursor {
            None => self.open_start() == self.path.len(),
            Some(id) => {
                &&& id < nodes.len()
                &&& nodes[0].published()
                &&& leads(nodes, self.open_steps(), id as int)
            },
        }
    }

    /// What holds of a worker's batch in the tree `nodes`.
    pub open spec fn wf(self, nodes: Seq<SharedView>) -> bool {
        &&& steps_ok(nodes, self.path)
        &&& leaves_ok(nodes, self.leaves)
        &&& descents_wf(self.descents, self.path.len() as int, self.leaves.len() as int)
        &&& self.routes_ok(nodes)
        &&& self.open_ok(nodes)
    }

    /// `credits` names, step by step, the edge that was taken and the leaf of
    /// the descent that took it.
    pub open spec fn credits(self, credits: Seq<Credit>) -> bool {
        &&& credits.len() == self.path.len()
        &&& forall|d: int, t: int|
            #![trigger self.descents[d], credits[t]]
            0 <= d < self.descents.len() && self.descents[d].start <= t < self.descents[d].end
                ==> credits[t] == (Credit {
                node: self.path[t].0,
                edge: self.path[t].1,
                leaf: self.descents[d].leaf,
            })
    }
}

pub open spec fn nodes_ok(nodes: Seq<SharedView>) -> bool {
    &&& 1 <= nodes.len() <= NO_NODE
    &&& forall|i: int| 0 <= i < nodes.len() ==> (#[trigger] nodes[i]).wf()
    &&& nodes[0].published() || nodes[0].outcome is Some
}

/// Every link leads to a node that came later.
pub open spec fn links_ok(nodes: Seq<SharedView>) -> bool {
    forall|i: int, e: int|
        0 <= i < nodes.len() && 0 <= e < nodes[i].children.len() ==> {
            let child = #[trigger] nodes[i].children[e];
            child == NO_NODE || i < child < nodes.len()
        }
}

/// The virtual loss on an edge is exactly how often the workers' batches take
/// it.
pub open spec fn flight_ok(nodes: Seq<SharedView>, workers: Seq<WorkerView>) -> bool {
    forall|i: int, e: int|
        0 <= i < nodes.len() && 0 <= e < nodes[i].vl.len() ==> #[trigger] nodes[i].vl[e]
            == in_flight(workers, i, e)
}

/// A node is claimed exactly while one leaf of one worker waits for it.
pub open spec fn claims_ok(nodes: Seq<SharedView>, workers: Seq<WorkerView>) -> bool {
    &&& forall|w: int, s: int, x: int, r: int, i: int|
        #![trigger waits(workers[w], s, i), waits(workers[x], r, i)]
        0 <= w < workers.len() && 0 <= x < workers.len() && waits(workers[w], s, i) && waits(
            workers[x],
            r,
            i,
        ) ==> w == x && s == r
    &&& forall|i: int|
        0 <= i < nodes.len() && (#[trigger] nodes[i]).claimed ==> exists|w: int, s: int|
            0 <= w < workers.len() && #[trigger] waits(workers[w], s, i)
}

pub open spec fn workers_ok(nodes: Seq<SharedView>, workers: Seq<WorkerView>) -> bool {
    forall|w: int| 0 <= w < workers.len() ==> (#[trigger] workers[w]).wf(nodes)
}

/// What a worker finds where it stands.
#[derive(Clone, Copy, Debug, PartialEq, Eq, Structural)]
pub enum Pace {
    /// The descent ended at this leaf of the batch.
    Leaf(usize),
    /// The descent ran into another worker's claim and was abandoned.
    Collision,
    /// An edge of this node has to be chosen.
    Choose(u32),
}

impl PoolView {
    /// What holds between any two steps of any workers.
    pub open spec fn wf(self) -> bool {
        &&& nodes_ok(self.nodes)
        &&& links_ok(self.nodes)
        &&& workers_ok(self.nodes, self.workers)
        &&& flight_ok(self.nodes, self.workers)
        &&& claims_ok(self.nodes, self.workers)
    }

    /// Every worker is between two batches.
    pub open spec fn resting(self) -> bool {
        forall|w: int| 0 <= w < self.workers.len() ==> (#[trigger] self.workers[w]).resting()
    }

    /// Worker `w` stands at a node.
    pub open spec fn walking(self, w: int) -> bool {
        &&& 0 <= w < self.workers.len()
        &&& self.workers[w].cursor is Some
    }

    /// The node worker `w` stands at.
    pub open spec fn at(self, w: int) -> int {
        self.workers[w].cursor->0 as int
    }

    pub open spec fn with_worker(self, w: int, worker: WorkerView) -> PoolView {
        PoolView { workers: self.workers.update(w, worker), ..self }
    }

    pub open spec fn with_node(self, id: int, node: SharedView) -> PoolView {
        PoolView { nodes: self.nodes.update(id, node), ..self }
    }

    /// Worker `w` starts a descent at the root.
    pub open spec fn began(self, w: int) -> PoolView {
        self.with_worker(w, WorkerView { cursor: Some(0), ..self.workers[w] })
    }

    /// Worker `w` gives its descent up, with its virtual loss.
    pub open spec fn abandoned(self, w: int) -> PoolView {
        let worker = self.workers[w];
        PoolView {
            nodes: Seq::new(
                self.nodes.len(),
                |i: int| released(self.nodes[i], worker.open_steps(), i),
            ),
            collisions: (self.collisions + 1) as u64,
            ..self
        }.with_worker(
            w,
            WorkerView { path: worker.path.take(worker.open_start()), cursor: None, ..worker },
        )
    }

    /// What worker `w` does where it stands. A terminal node is a leaf worth
    /// its outcome. A published node needs an edge chosen. A node this worker
    /// has claimed already is shared with the descent that claimed it. A node
    /// somebody else has claimed ends the descent without credit. Any other is
    /// claimed.
    pub open spec fn arrived(self, w: int) -> PoolView {
        let worker = self.workers[w];
        let id = self.at(w);
        let node = self.nodes[id];
        if node.outcome is Some {
            self.with_worker(w, worker.recorded(id, LeafValue::Terminal(node.outcome->0)))
        } else if node.published() {
            self
        } else if worker.holds(id) {
            self.with_worker(w, worker.closed(slot_of(worker, id)))
        } else if node.claimed {
            self.abandoned(w)
        } else {
            self.with_node(id, SharedView { claimed: true, ..node }).with_worker(
                w,
                worker.recorded(id, LeafValue::Waiting),
            )
        }
    }

    /// What worker `w` is told where it stands.
    pub open spec fn pace(self, w: int) -> Pace {
        let worker = self.workers[w];
        let id = self.at(w);
        let node = self.nodes[id];
        if node.outcome is Some {
            Pace::Leaf(worker.leaves.len() as usize)
        } else if node.published() {
            Pace::Choose(id as u32)
        } else if worker.holds(id) {
            Pace::Leaf(slot_of(worker, id) as usize)
        } else if node.claimed {
            Pace::Collision
        } else {
            Pace::Leaf(worker.leaves.len() as usize)
        }
    }

    /// Worker `w` goes through edge `edge` to the node behind it.
    pub open spec fn walked(self, w: int, edge: int) -> PoolView {
        let worker = self.workers[w];
        let id = self.at(w);
        let node = self.nodes[id];
        self.with_node(
            id,
            SharedView {
                vl: node.vl.update(edge, (node.vl[edge] + 1) as u32),
                vl_visits: (node.vl_visits + 1) as u32,
                ..node
            },
        ).with_worker(
            w,
            WorkerView {
                path: worker.path.push((id as u32, edge as u32)),
                cursor: Some(node.children[edge]),
                ..worker
            },
        )
    }

    /// A node for `next` behind edge `edge` of node `id`, unless one is there.
    pub open spec fn linked(self, id: int, edge: int, next: StateView) -> PoolView {
        let node = self.nodes[id];
        if node.children[edge] != NO_NODE {
            self
        } else {
            PoolView { nodes: self.nodes.push(seed(next)), ..self }.with_node(
                id,
                SharedView {
                    children: node.children.update(edge, self.nodes.len() as u32),
                    ..node
                },
            )
        }
    }

    /// Node `id` turned out to have no legal action.
    pub open spec fn is_stuck(self, id: int) -> bool {
        self.nodes[id].state.legal_actions.len() == 0
    }

    /// The nodes worker `w` has claimed that have no legal action are terminal
    /// after all.
    pub open spec fn sorted_out(self, w: int) -> PoolView {
        let worker = self.workers[w];
        PoolView {
            nodes: Seq::new(
                self.nodes.len(),
                |i: int|
                    if worker.holds(i) && self.is_stuck(i) {
                        stuck(self.nodes[i])
                    } else {
                        self.nodes[i]
                    },
            ),
            ..self
        }.with_worker(
            w,
            WorkerView {
                leaves: Seq::new(
                    worker.leaves.len(),
                    |s: int|
                        if worker.leaves[s].value is Waiting && self.is_stuck(
                            worker.leaves[s].node as int,
                        ) {
                            Leaf {
                                value: LeafValue::Terminal(
                                    outcome_value(
                                        self.nodes[worker.leaves[s].node as int].state,
                                    ),
                                ),
                                ..worker.leaves[s]
                            }
                        } else {
                            worker.leaves[s]
                        },
                ),
                ..worker
            },
        )
    }

    /// The edges of the node leaf `slot` of worker `w` waits for are published.
    pub open spec fn opened(self, w: int, slot: int) -> PoolView {
        let worker = self.workers[w];
        let leaf = worker.leaves[slot];
        let id = leaf.node as int;
        self.with_node(id, with_edges(self.nodes[id])).with_worker(
            w,
            WorkerView {
                leaves: worker.leaves.update(slot, Leaf { value: LeafValue::Evaluated, ..leaf }),
                ..worker
            },
        )
    }

    /// Worker `w`'s descents credited and its batch cleared.
    pub open spec fn backed_up(self, w: int) -> PoolView {
        let worker = self.workers[w];
        PoolView {
            nodes: Seq::new(self.nodes.len(), |i: int| credited(self.nodes[i], worker.path, i)),
            ..self
        }.with_worker(
            w,
            WorkerView {
                path: Seq::empty(),
                descents: Seq::empty(),
                leaves: Seq::empty(),
                cursor: None,
            },
        )
    }
}

// ------------------------------------------------------------------ counting

proof fn passes_bounds(path: Seq<(u32, u32)>, node: int, edge: int)
    ensures
        0 <= passes(path, node, edge) <= departures(path, node),
    decreases path.len(),
{
    if path.len() > 0 {
        passes_bounds(path.drop_last(), node, edge);
    }
}

proof fn passes_joined(a: Seq<(u32, u32)>, b: Seq<(u32, u32)>, node: int, edge: int)
    ensures
        passes(a + b, node, edge) == passes(a, node, edge) + passes(b, node, edge),
    decreases b.len(),
{
    if b.len() == 0 {
        assert(a + b =~= a);
    } else {
        assert((a + b).drop_last() =~= a + b.drop_last());
        passes_joined(a, b.drop_last(), node, edge);
    }
}

proof fn nobody_passes(path: Seq<(u32, u32)>, node: int, edge: int)
    requires
        forall|t: int| 0 <= t < path.len() ==> (#[trigger] path[t]).0 != node,
    ensures
        passes(path, node, edge) == 0,
        departures(path, node) == 0,
    decreases path.len(),
{
    if path.len() > 0 {
        let rest = path.drop_last();
        assert forall|t: int| 0 <= t < rest.len() implies (#[trigger] rest[t]).0 != node by {
            assert(rest[t] == path[t]);
        }
        nobody_passes(rest, node, edge);
        assert(path.last() == path[path.len() - 1]);
    }
}

/// Replacing one worker's path moves the sum by the difference.
proof fn flight_moves(
    before: Seq<WorkerView>,
    w: int,
    worker: WorkerView,
    node: int,
    edge: int,
)
    requires
        0 <= w < before.len(),
    ensures
        in_flight(before.update(w, worker), node, edge) == in_flight(before, node, edge) - passes(
            before[w].path,
            node,
            edge,
        ) + passes(worker.path, node, edge),
    decreases before.len(),
{
    let after = before.update(w, worker);
    if w == before.len() - 1 {
        assert(after.drop_last() =~= before.drop_last());
    } else {
        assert(after.drop_last() =~= before.drop_last().update(w, worker));
        flight_moves(before.drop_last(), w, worker, node, edge);
    }
}

proof fn flight_bounds(workers: Seq<WorkerView>, w: int, node: int, edge: int)
    requires
        0 <= w < workers.len(),
    ensures
        0 <= passes(workers[w].path, node, edge) <= in_flight(workers, node, edge),
    decreases workers.len(),
{
    flight_nonnegative(workers.drop_last(), node, edge);
    passes_bounds(workers.last().path, node, edge);
    passes_bounds(workers[w].path, node, edge);
    if w < workers.len() - 1 {
        flight_bounds(workers.drop_last(), w, node, edge);
    }
}

proof fn flight_nonnegative(workers: Seq<WorkerView>, node: int, edge: int)
    ensures
        0 <= in_flight(workers, node, edge),
    decreases workers.len(),
{
    if workers.len() > 0 {
        flight_nonnegative(workers.drop_last(), node, edge);
        passes_bounds(workers.last().path, node, edge);
    }
}

proof fn nothing_flies(workers: Seq<WorkerView>, node: int, edge: int)
    requires
        forall|w: int|
            0 <= w < workers.len() ==> passes((#[trigger] workers[w]).path, node, edge) == 0,
    ensures
        in_flight(workers, node, edge) == 0,
    decreases workers.len(),
{
    if workers.len() > 0 {
        let rest = workers.drop_last();
        assert forall|w: int| 0 <= w < rest.len() implies passes(
            (#[trigger] rest[w]).path,
            node,
            edge,
        ) == 0 by {
            assert(rest[w] == workers[w]);
        }
        nothing_flies(rest, node, edge);
        assert(workers.last() == workers[workers.len() - 1]);
    }
}

proof fn lowered_total(column: Seq<u32>, path: Seq<(u32, u32)>, node: int)
    requires
        forall|t: int|
            0 <= t < path.len() && (#[trigger] path[t]).0 == node ==> path[t].1 < column.len(),
        forall|e: int|
            0 <= e < column.len() ==> passes(path, node, e) <= #[trigger] column[e],
    ensures
        total(lowered(column, path, node)) == total(column) - departures(path, node),
    decreases path.len(),
{
    let after = lowered(column, path, node);
    if path.len() == 0 {
        assert(after =~= column);
    } else {
        let rest = path.drop_last();
        let last = path.last();
        assert(last == path[path.len() - 1]);
        assert forall|t: int| 0 <= t < rest.len() && (#[trigger] rest[t]).0 == node implies rest[t].1
            < column.len() by {
            assert(rest[t] == path[t]);
        }
        assert forall|e: int| 0 <= e < column.len() implies passes(rest, node, e)
            <= #[trigger] column[e] by {
            assert(passes(path, node, e) <= column[e]);
        }
        lowered_total(column, rest, node);
        let before = lowered(column, rest, node);
        if last.0 == node {
            let edge = last.1 as int;
            passes_bounds(rest, node, edge);
            assert(passes(path, node, edge) <= column[edge]);
            assert(after =~= before.update(edge, (before[edge] - 1) as u32)) by {
                assert forall|e: int| 0 <= e < column.len() implies after[e] == before.update(
                    edge,
                    (before[edge] - 1) as u32,
                )[e] by {
                    passes_bounds(rest, node, e);
                }
            }
            total_update(before, edge, (before[edge] - 1) as u32);
        } else {
            assert(after =~= before);
        }
    }
}

proof fn raised_total(column: Seq<u32>, path: Seq<(u32, u32)>, node: int)
    requires
        forall|t: int|
            0 <= t < path.len() && (#[trigger] path[t]).0 == node ==> path[t].1 < column.len(),
        forall|e: int|
            0 <= e < column.len() ==> #[trigger] column[e] + passes(path, node, e) <= u32::MAX,
    ensures
        total(raised(column, path, node)) == total(column) + departures(path, node),
    decreases path.len(),
{
    let after = raised(column, path, node);
    if path.len() == 0 {
        assert(after =~= column);
    } else {
        let rest = path.drop_last();
        let last = path.last();
        assert(last == path[path.len() - 1]);
        assert forall|t: int| 0 <= t < rest.len() && (#[trigger] rest[t]).0 == node implies rest[t].1
            < column.len() by {
            assert(rest[t] == path[t]);
        }
        assert forall|e: int| 0 <= e < column.len() implies #[trigger] column[e] + passes(
            rest,
            node,
            e,
        ) <= u32::MAX by {
            assert(column[e] + passes(path, node, e) <= u32::MAX);
        }
        raised_total(column, rest, node);
        let before = raised(column, rest, node);
        if last.0 == node {
            let edge = last.1 as int;
            passes_bounds(rest, node, edge);
            assert(column[edge] + passes(path, node, edge) <= u32::MAX);
            assert(after =~= before.update(edge, (before[edge] + 1) as u32)) by {
                assert forall|e: int| 0 <= e < column.len() implies after[e] == before.update(
                    edge,
                    (before[edge] + 1) as u32,
                )[e] by {
                    passes_bounds(rest, node, e);
                }
            }
            total_update(before, edge, (before[edge] + 1) as u32);
        } else {
            assert(after =~= before);
        }
    }
}

// -------------------------------------------------------------- preservation

/// Nothing that is there in `a` is missing in `b`.
pub open spec fn grows(a: Seq<SharedView>, b: Seq<SharedView>) -> bool {
    &&& a.len() <= b.len()
    &&& forall|i: int| 0 <= i < a.len() && (#[trigger] a[i]).published() ==> b[i].published()
    &&& forall|i: int, e: int|
        0 <= i < a.len() && 0 <= e < a[i].children.len() && #[trigger] a[i].children[e] != NO_NODE
            ==> e < b[i].children.len() && b[i].children[e] == a[i].children[e]
}

proof fn step_keeps(a: Seq<SharedView>, b: Seq<SharedView>, step: (u32, u32))
    requires
        grows(a, b),
        passable(a, step),
    ensures
        passable(b, step),
        behind(b, step) == behind(a, step),
{
    assert(a[step.0 as int].children[step.1 as int] != NO_NODE);
}

proof fn route_keeps(a: Seq<SharedView>, b: Seq<SharedView>, steps: Seq<(u32, u32)>, stop: int)
    requires
        grows(a, b),
        steps_ok(a, steps),
        leads(a, steps, stop),
    ensures
        leads(b, steps, stop),
{
    if steps.len() > 0 {
        step_keeps(a, b, steps[steps.len() - 1]);
    }
    assert forall|t: int, u: int|
        #![trigger steps[t], steps[u]]
        0 <= t && u == t + 1 && u < steps.len() implies behind(b, steps[t]) == steps[u].0 by {
        step_keeps(a, b, steps[t]);
    }
}

proof fn slice_ok(nodes: Seq<SharedView>, path: Seq<(u32, u32)>, start: int, end: int)
    requires
        steps_ok(nodes, path),
        0 <= start <= end <= path.len(),
    ensures
        steps_ok(nodes, path.subrange(start, end)),
{
    let slice = path.subrange(start, end);
    assert forall|t: int| 0 <= t < slice.len() implies passable(nodes, #[trigger] slice[t]) by {
        assert(slice[t] == path[start + t]);
    }
}

proof fn start_fits(worker: WorkerView, nodes: Seq<SharedView>)
    requires
        worker.wf(nodes),
    ensures
        0 <= worker.open_start() <= worker.path.len(),
{
    if worker.descents.len() > 0 {
        assert(worker.descents.last() == worker.descents[worker.descents.len() - 1]);
    }
}

/// A batch survives any growth of the tree under which its leaves still say the
/// truth.
proof fn worker_keeps(a: Seq<SharedView>, b: Seq<SharedView>, worker: WorkerView)
    requires
        worker.wf(a),
        a.len() > 0,
        grows(a, b),
        leaves_ok(b, worker.leaves),
    ensures
        worker.wf(b),
{
    start_fits(worker, a);
    assert forall|t: int| 0 <= t < worker.path.len() implies passable(
        b,
        #[trigger] worker.path[t],
    ) by {
        step_keeps(a, b, worker.path[t]);
    }
    assert forall|d: int| 0 <= d < worker.descents.len() implies ({
        let descent = #[trigger] worker.descents[d];
        leads(
            b,
            worker.path.subrange(descent.start as int, descent.end as int),
            worker.leaves[descent.leaf as int].node as int,
        )
    }) by {
        let descent = worker.descents[d];
        slice_ok(a, worker.path, descent.start as int, descent.end as int);
        route_keeps(
            a,
            b,
            worker.path.subrange(descent.start as int, descent.end as int),
            worker.leaves[descent.leaf as int].node as int,
        );
    }
    if worker.cursor is Some {
        slice_ok(a, worker.path, worker.open_start(), worker.path.len() as int);
        route_keeps(a, b, worker.open_steps(), worker.cursor->0 as int);
        assert(a[0].published());
    }
}

/// The flags of every node but `id` are the same.
pub open spec fn flags_same_but(a: Seq<SharedView>, b: Seq<SharedView>, id: int) -> bool {
    &&& a.len() <= b.len()
    &&& forall|i: int|
        #![trigger a[i]]
        #![trigger b[i]]
        0 <= i < a.len() && i != id ==> {
            &&& b[i].outcome == a[i].outcome
            &&& b[i].claimed == a[i].claimed
            &&& b[i].published() == a[i].published()
        }
}

proof fn leaves_keep(a: Seq<SharedView>, b: Seq<SharedView>, leaves: Seq<Leaf>, id: int)
    requires
        leaves_ok(a, leaves),
        flags_same_but(a, b, id),
        forall|s: int| 0 <= s < leaves.len() ==> (#[trigger] leaves[s]).node != id,
    ensures
        leaves_ok(b, leaves),
{
    assert forall|s: int| 0 <= s < leaves.len() implies leaf_ok(b, #[trigger] leaves[s]) by {
        assert(leaf_ok(a, leaves[s]));
        assert(a[leaves[s].node as int].claimed == b[leaves[s].node as int].claimed);
    }
}

/// A worker starting a descent changes nothing but its cursor.
pub proof fn beginning_keeps(v: PoolView, w: int)
    requires
        v.wf(),
        0 <= w < v.workers.len(),
        v.workers[w].cursor is None,
        v.nodes[0].published(),
    ensures
        v.began(w).wf(),
{
    let after = v.began(w);
    let worker = after.workers[w];
    assert(v.workers[w].wf(v.nodes));
    assert(worker.wf(after.nodes)) by {
        assert(worker.open_steps() =~= Seq::<(u32, u32)>::empty());
        assert forall|d: int| 0 <= d < worker.descents.len() implies ({
            let descent = #[trigger] worker.descents[d];
            leads(
                after.nodes,
                worker.path.subrange(descent.start as int, descent.end as int),
                worker.leaves[descent.leaf as int].node as int,
            )
        }) by {
            assert(v.workers[w].descents[d] == worker.descents[d]);
        }
    }
    same_paths_same_flight(v, after);
    same_leaves_same_claims(v, after);
}

proof fn same_flight(before: Seq<WorkerView>, after: Seq<WorkerView>, node: int, edge: int)
    requires
        before.len() == after.len(),
        forall|w: int| 0 <= w < before.len() ==> (#[trigger] before[w]).path == after[w].path,
    ensures
        in_flight(before, node, edge) == in_flight(after, node, edge),
    decreases before.len(),
{
    if before.len() > 0 {
        let a = before.drop_last();
        let b = after.drop_last();
        assert forall|w: int| 0 <= w < a.len() implies (#[trigger] a[w]).path == b[w].path by {
            assert(a[w] == before[w]);
            assert(b[w] == after[w]);
        }
        same_flight(a, b, node, edge);
        assert(before.last() == before[before.len() - 1]);
    }
}

proof fn same_paths_same_flight(v: PoolView, after: PoolView)
    requires
        flight_ok(v.nodes, v.workers),
        after.nodes.len() == v.nodes.len(),
        forall|i: int| 0 <= i < v.nodes.len() ==> (#[trigger] after.nodes[i]).vl == v.nodes[i].vl,
        v.workers.len() == after.workers.len(),
        forall|w: int|
            0 <= w < v.workers.len() ==> (#[trigger] v.workers[w]).path == after.workers[w].path,
    ensures
        flight_ok(after.nodes, after.workers),
{
    assert forall|i: int, e: int|
        0 <= i < after.nodes.len() && 0 <= e < after.nodes[i].vl.len() implies (
    #[trigger] after.nodes[i].vl[e]) == in_flight(after.workers, i, e) by {
        assert(after.nodes[i].vl == v.nodes[i].vl);
        assert(v.nodes[i].vl[e] == in_flight(v.workers, i, e));
        same_flight(v.workers, after.workers, i, e);
    }
}

proof fn same_leaves_same_claims(v: PoolView, after: PoolView)
    requires
        claims_ok(v.nodes, v.workers),
        after.nodes.len() == v.nodes.len(),
        forall|i: int|
            0 <= i < v.nodes.len() ==> (#[trigger] after.nodes[i]).claimed == v.nodes[i].claimed,
        v.workers.len() == after.workers.len(),
        forall|w: int|
            0 <= w < v.workers.len() ==> (#[trigger] v.workers[w]).leaves
                == after.workers[w].leaves,
    ensures
        claims_ok(after.nodes, after.workers),
{
    assert forall|w: int, s: int, x: int, r: int, i: int|
        #![trigger waits(after.workers[w], s, i), waits(after.workers[x], r, i)]
        0 <= w < after.workers.len() && 0 <= x < after.workers.len() && waits(
            after.workers[w],
            s,
            i,
        ) && waits(after.workers[x], r, i) implies w == x && s == r by {
        assert(v.workers[w].leaves == after.workers[w].leaves);
        assert(v.workers[x].leaves == after.workers[x].leaves);
        assert(waits(v.workers[w], s, i) && waits(v.workers[x], r, i));
    }
    assert forall|i: int| 0 <= i < after.nodes.len() && (#[trigger] after.nodes[i]).claimed implies (
    exists|w: int, s: int|
        0 <= w < after.workers.len() && #[trigger] waits(after.workers[w], s, i)) by {
        assert(v.nodes[i].claimed);
        let (w, s) = choose|w: int, s: int|
            0 <= w < v.workers.len() && #[trigger] waits(v.workers[w], s, i);
        assert(v.workers[w].leaves == after.workers[w].leaves);
        assert(waits(after.workers[w], s, i));
    }
}

/// Closing the descent under way at a leaf of its own node keeps the batch.
proof fn closing_keeps(nodes: Seq<SharedView>, worker: WorkerView, slot: int)
    requires
        worker.wf(nodes),
        worker.cursor is Some,
        0 <= slot < worker.leaves.len(),
        worker.leaves[slot].node == worker.cursor->0,
        worker.path.len() <= usize::MAX,
        worker.leaves.len() <= usize::MAX,
    ensures
        worker.closed(slot).wf(nodes),
{
    let after = worker.closed(slot);
    start_fits(worker, nodes);
    assert(after.descents.last() == after.descents[after.descents.len() - 1]);
    assert forall|c: int, d: int|
        #![trigger after.descents[c], after.descents[d]]
        0 <= c && d == c + 1 && d < after.descents.len() implies after.descents[d].start
        == after.descents[c].end by {
        assert(after.descents[c] == worker.descents[c]);
        if d < worker.descents.len() {
            assert(after.descents[d] == worker.descents[d]);
        } else {
            assert(worker.descents.last() == worker.descents[c]);
        }
    }
    assert forall|d: int| 0 <= d < after.descents.len() implies ({
        let descent = #[trigger] after.descents[d];
        &&& descent.start <= descent.end <= after.path.len()
        &&& descent.leaf < after.leaves.len()
        &&& leads(
            nodes,
            after.path.subrange(descent.start as int, descent.end as int),
            after.leaves[descent.leaf as int].node as int,
        )
    }) by {
        if d < worker.descents.len() {
            assert(after.descents[d] == worker.descents[d]);
        } else {
            assert(after.path.subrange(
                worker.open_start(),
                worker.path.len() as int,
            ) =~= worker.open_steps());
        }
    }
    if worker.descents.len() > 0 {
        assert(after.descents[0] == worker.descents[0]);
    }
}

/// One more leaf in the batch, before any descent ends at it.
proof fn collecting_keeps(nodes: Seq<SharedView>, worker: WorkerView, leaf: Leaf)
    requires
        worker.wf(nodes),
        leaf_ok(nodes, leaf),
    ensures
        (WorkerView { leaves: worker.leaves.push(leaf), ..worker }).wf(nodes),
{
    let after = WorkerView { leaves: worker.leaves.push(leaf), ..worker };
    assert forall|s: int| 0 <= s < after.leaves.len() implies leaf_ok(
        nodes,
        #[trigger] after.leaves[s],
    ) by {
        if s < worker.leaves.len() {
            assert(after.leaves[s] == worker.leaves[s]);
        }
    }
    assert forall|d: int| 0 <= d < after.descents.len() implies ({
        let descent = #[trigger] after.descents[d];
        leads(
            nodes,
            after.path.subrange(descent.start as int, descent.end as int),
            after.leaves[descent.leaf as int].node as int,
        )
    }) by {
        assert(worker.descents[d] == after.descents[d]);
        assert(after.leaves[after.descents[d].leaf as int]
            == worker.leaves[worker.descents[d].leaf as int]);
    }
    assert(after.open_steps() == worker.open_steps());
}

/// The batch has room for one more of everything.
pub open spec fn batch_room(worker: WorkerView) -> bool {
    &&& worker.path.len() < usize::MAX
    &&& worker.leaves.len() < usize::MAX
    &&& worker.descents.len() < usize::MAX
}

/// A worker's cursor is at the root only before its first step.
proof fn away_from_the_root(v: PoolView, w: int)
    requires
        v.wf(),
        v.walking(w),
        !v.nodes[v.at(w)].published(),
    ensures
        v.at(w) > 0,
{
    assert(v.workers[w].wf(v.nodes));
}

proof fn ending_keeps(v: PoolView, w: int, value: LeafValue)
    requires
        v.wf(),
        v.walking(w),
        v.at(w) > 0,
        batch_room(v.workers[w]),
        leaf_ok(v.nodes, Leaf { node: v.at(w) as u32, value }),
        !(value is Waiting),
    ensures
        v.with_worker(w, v.workers[w].recorded(v.at(w), value)).wf(),
{
    let worker = v.workers[w];
    let leaf = Leaf { node: v.at(w) as u32, value };
    let after = v.with_worker(w, worker.recorded(v.at(w), value));
    assert(worker.wf(v.nodes));
    collecting_keeps(v.nodes, worker, leaf);
    let grown = WorkerView { leaves: worker.leaves.push(leaf), ..worker };
    closing_keeps(v.nodes, grown, worker.leaves.len() as int);
    assert(grown.closed(worker.leaves.len() as int) == worker.recorded(v.at(w), value));
    same_paths_same_flight(v, after);
    assert forall|x: int, s: int, i: int|
        0 <= x < v.workers.len() implies #[trigger] waits(after.workers[x], s, i) == waits(
        v.workers[x],
        s,
        i,
    ) by {}
    claims_move(v, after);
}

/// The same waiting leaves and the same claims.
proof fn claims_move(v: PoolView, after: PoolView)
    requires
        claims_ok(v.nodes, v.workers),
        after.nodes.len() >= v.nodes.len(),
        forall|i: int|
            0 <= i < v.nodes.len() ==> (#[trigger] after.nodes[i]).claimed == v.nodes[i].claimed,
        forall|i: int| v.nodes.len() <= i < after.nodes.len() ==> !(#[trigger] after.nodes[i]).claimed,
        v.workers.len() == after.workers.len(),
        forall|x: int, s: int, i: int|
            0 <= x < v.workers.len() ==> #[trigger] waits(after.workers[x], s, i) == waits(
                v.workers[x],
                s,
                i,
            ),
    ensures
        claims_ok(after.nodes, after.workers),
{
    assert forall|w: int, s: int, x: int, r: int, i: int|
        #![trigger waits(after.workers[w], s, i), waits(after.workers[x], r, i)]
        0 <= w < after.workers.len() && 0 <= x < after.workers.len() && waits(
            after.workers[w],
            s,
            i,
        ) && waits(after.workers[x], r, i) implies w == x && s == r by {
        assert(waits(v.workers[w], s, i) && waits(v.workers[x], r, i));
    }
    assert forall|i: int| 0 <= i < after.nodes.len() && (#[trigger] after.nodes[i]).claimed implies (
    exists|w: int, s: int|
        0 <= w < after.workers.len() && #[trigger] waits(after.workers[w], s, i)) by {
        assert(v.nodes[i].claimed);
        let (w, s) = choose|w: int, s: int|
            0 <= w < v.workers.len() && #[trigger] waits(v.workers[w], s, i);
        assert(waits(after.workers[w], s, i));
    }
}

/// A leaf of any kind says that its node is claimed, published or terminal.
proof fn nobody_collected(v: PoolView, id: int, w: int, s: int)
    requires
        v.wf(),
        0 <= id < v.nodes.len(),
        !v.nodes[id].claimed,
        !v.nodes[id].published(),
        v.nodes[id].outcome is None,
        0 <= w < v.workers.len(),
        0 <= s < v.workers[w].leaves.len(),
    ensures
        v.workers[w].leaves[s].node != id,
{
    assert(v.workers[w].wf(v.nodes));
    assert(leaf_ok(v.nodes, v.workers[w].leaves[s]));
}

proof fn claiming_keeps(v: PoolView, w: int)
    requires
        v.wf(),
        v.walking(w),
        batch_room(v.workers[w]),
        v.nodes[v.at(w)].outcome is None,
        !v.nodes[v.at(w)].published(),
        !v.nodes[v.at(w)].claimed,
    ensures
        ({
            let id = v.at(w);
            v.with_node(id, SharedView { claimed: true, ..v.nodes[id] }).with_worker(
                w,
                v.workers[w].recorded(id, LeafValue::Waiting),
            )
        }).wf(),
{
    let worker = v.workers[w];
    let id = v.at(w);
    let node = SharedView { claimed: true, ..v.nodes[id] };
    let after = v.with_node(id, node).with_worker(w, worker.recorded(id, LeafValue::Waiting));
    let leaf = Leaf { node: id as u32, value: LeafValue::Waiting };
    away_from_the_root(v, w);
    assert(worker.wf(v.nodes));
    assert(v.nodes[id].wf());
    assert(grows(v.nodes, after.nodes));
    assert(flags_same_but(v.nodes, after.nodes, id));
    assert forall|x: int| 0 <= x < v.workers.len() implies (#[trigger] v.workers[x]).wf(
        after.nodes,
    ) by {
        let other = v.workers[x];
        assert forall|s: int| 0 <= s < other.leaves.len() implies (
        #[trigger] other.leaves[s]).node != id by {
            nobody_collected(v, id, x, s);
        }
        leaves_keep(v.nodes, after.nodes, other.leaves, id);
        worker_keeps(v.nodes, after.nodes, other);
    }
    assert(v.workers[w].wf(after.nodes));
    collecting_keeps(after.nodes, worker, leaf);
    let grown = WorkerView { leaves: worker.leaves.push(leaf), ..worker };
    closing_keeps(after.nodes, grown, worker.leaves.len() as int);
    assert(grown.closed(worker.leaves.len() as int) == worker.recorded(id, LeafValue::Waiting));
    assert forall|x: int| 0 <= x < after.workers.len() implies (#[trigger] after.workers[x]).wf(
        after.nodes,
    ) by {
        if x != w {
            assert(after.workers[x] == v.workers[x]);
        }
    }
    assert forall|i: int| 0 <= i < after.nodes.len() implies (#[trigger] after.nodes[i]).wf() by {
        assert(v.nodes[i].wf());
    }
    assert forall|i: int, e: int|
        0 <= i < after.nodes.len() && 0 <= e < after.nodes[i].children.len() implies ({
        let child = #[trigger] after.nodes[i].children[e];
        child == NO_NODE || i < child < after.nodes.len()
    }) by {
        assert(v.nodes[i].children[e] == after.nodes[i].children[e]);
    }
    assert forall|i: int| 0 <= i < v.nodes.len() implies (#[trigger] after.nodes[i]).vl
        == v.nodes[i].vl by {}
    same_paths_same_flight(v, after);
    let slot = worker.leaves.len() as int;
    assert(waits(after.workers[w], slot, id));
    assert forall|x: int, s: int, i: int|
        0 <= x < v.workers.len() && #[trigger] waits(after.workers[x], s, i) implies (x == w && s
        == slot && i == id) || (waits(v.workers[x], s, i) && i != id) by {
        if x == w && s == slot {
        } else {
            if x == w {
                assert(after.workers[x].leaves[s] == worker.leaves[s]);
            }
            assert(waits(v.workers[x], s, i));
            nobody_collected(v, id, x, s);
        }
    }
    assert forall|x: int, s: int, y: int, r: int, i: int|
        #![trigger waits(after.workers[x], s, i), waits(after.workers[y], r, i)]
        0 <= x < after.workers.len() && 0 <= y < after.workers.len() && waits(
            after.workers[x],
            s,
            i,
        ) && waits(after.workers[y], r, i) implies x == y && s == r by {}
    assert forall|i: int| 0 <= i < after.nodes.len() && (#[trigger] after.nodes[i]).claimed implies (
    exists|x: int, s: int|
        0 <= x < after.workers.len() && #[trigger] waits(after.workers[x], s, i)) by {
        if i == id {
            assert(waits(after.workers[w], slot, id));
        } else {
            assert(v.nodes[i].claimed);
            let (x, s) = choose|x: int, s: int|
                0 <= x < v.workers.len() && #[trigger] waits(v.workers[x], s, i);
            if x == w {
                assert(after.workers[x].leaves[s] == worker.leaves[s]);
            }
            assert(waits(after.workers[x], s, i));
        }
    }
}

/// Taking a slice of a worker's path off the virtual loss keeps every node.
proof fn releasing_keeps_nodes(v: PoolView, w: int, steps: Seq<(u32, u32)>)
    requires
        v.wf(),
        0 <= w < v.workers.len(),
        steps_ok(v.nodes, steps),
        forall|i: int, e: int|
            passes(steps, i, e) <= #[trigger] passes(v.workers[w].path, i, e),
    ensures
        forall|i: int|
            0 <= i < v.nodes.len() ==> (#[trigger] released(v.nodes[i], steps, i)).wf(),
        forall|i: int|
            0 <= i < v.nodes.len() ==> departures(steps, i) <= (#[trigger] v.nodes[i]).vl_visits,
{
    assert forall|i: int| 0 <= i < v.nodes.len() implies (
    #[trigger] released(v.nodes[i], steps, i)).wf() && departures(steps, i)
        <= v.nodes[i].vl_visits by {
        let node = v.nodes[i];
        assert(node.wf());
        assert forall|e: int| 0 <= e < node.vl.len() implies passes(steps, i, e)
            <= #[trigger] node.vl[e] by {
            assert(node.vl[e] == in_flight(v.workers, i, e));
            flight_bounds(v.workers, w, i, e);
            assert(passes(steps, i, e) <= passes(v.workers[w].path, i, e));
        }
        assert forall|t: int| 0 <= t < steps.len() && (#[trigger] steps[t]).0 == i implies steps[t].1
            < node.vl.len() by {
            assert(passable(v.nodes, steps[t]));
        }
        lowered_total(node.vl, steps, i);
        total_nonnegative(lowered(node.vl, steps, i));
        passes_bounds(steps, i, 0);
    }
    assert forall|i: int| 0 <= i < v.nodes.len() implies departures(steps, i) <= (
    #[trigger] v.nodes[i]).vl_visits by {
        assert(released(v.nodes[i], steps, i).wf());
    }
}

proof fn abandoning_keeps(v: PoolView, w: int)
    requires
        v.wf(),
        v.walking(w),
    ensures
        v.abandoned(w).wf(),
{
    let worker = v.workers[w];
    let after = v.abandoned(w);
    let left = after.workers[w];
    let steps = worker.open_steps();
    assert(worker.wf(v.nodes));
    start_fits(worker, v.nodes);
    slice_ok(v.nodes, worker.path, worker.open_start(), worker.path.len() as int);
    assert(worker.path =~= left.path + steps);
    assert forall|i: int, e: int| passes(steps, i, e) <= #[trigger] passes(
        worker.path,
        i,
        e,
    ) by {
        passes_joined(left.path, steps, i, e);
        passes_bounds(left.path, i, e);
    }
    releasing_keeps_nodes(v, w, steps);
    assert forall|i: int| 0 <= i < after.nodes.len() implies (#[trigger] after.nodes[i]).wf() by {
        assert(released(v.nodes[i], steps, i).wf());
    }
    assert(grows(v.nodes, after.nodes));
    assert(flags_same_but(v.nodes, after.nodes, -1));
    assert forall|x: int| 0 <= x < v.workers.len() implies (#[trigger] v.workers[x]).wf(
        after.nodes,
    ) by {
        leaves_keep(v.nodes, after.nodes, v.workers[x].leaves, -1);
        worker_keeps(v.nodes, after.nodes, v.workers[x]);
    }
    assert(left.wf(after.nodes)) by {
        assert(worker.wf(after.nodes));
        assert forall|t: int| 0 <= t < left.path.len() implies passable(
            after.nodes,
            #[trigger] left.path[t],
        ) by {
            assert(left.path[t] == worker.path[t]);
        }
        ends_fit(worker, after.nodes);
        assert forall|d: int| 0 <= d < left.descents.len() implies ({
            let descent = #[trigger] left.descents[d];
            &&& descent.end <= left.path.len()
            &&& leads(
                after.nodes,
                left.path.subrange(descent.start as int, descent.end as int),
                left.leaves[descent.leaf as int].node as int,
            )
        }) by {
            let descent = worker.descents[d];
            assert(left.path.subrange(descent.start as int, descent.end as int)
                =~= worker.path.subrange(descent.start as int, descent.end as int));
        }
    }
    assert forall|x: int| 0 <= x < after.workers.len() implies (#[trigger] after.workers[x]).wf(
        after.nodes,
    ) by {
        if x != w {
            assert(after.workers[x] == v.workers[x]);
        }
    }
    assert forall|i: int, e: int|
        0 <= i < after.nodes.len() && 0 <= e < after.nodes[i].children.len() implies ({
        let child = #[trigger] after.nodes[i].children[e];
        child == NO_NODE || i < child < after.nodes.len()
    }) by {
        assert(v.nodes[i].children[e] == after.nodes[i].children[e]);
    }
    assert forall|i: int, e: int|
        0 <= i < after.nodes.len() && 0 <= e < after.nodes[i].vl.len() implies (
    #[trigger] after.nodes[i].vl[e]) == in_flight(after.workers, i, e) by {
        assert(v.nodes[i].vl[e] == in_flight(v.workers, i, e));
        flight_moves(v.workers, w, left, i, e);
        flight_bounds(v.workers, w, i, e);
        passes_joined(left.path, steps, i, e);
        passes_bounds(left.path, i, e);
        passes_bounds(steps, i, e);
    }
    assert forall|i: int| 0 <= i < v.nodes.len() implies (#[trigger] after.nodes[i]).claimed
        == v.nodes[i].claimed by {}
    same_leaves_same_claims(v, after);
}

/// Every closed descent ends where the descent under way starts, or before.
proof fn ends_fit(worker: WorkerView, nodes: Seq<SharedView>)
    requires
        worker.wf(nodes),
    ensures
        forall|d: int|
            0 <= d < worker.descents.len() ==> (#[trigger] worker.descents[d]).end
                <= worker.open_start(),
{
    assert forall|d: int| 0 <= d < worker.descents.len() implies (
    #[trigger] worker.descents[d]).end <= worker.open_start() by {
        end_fits(worker, nodes, d);
    }
}

proof fn end_fits(worker: WorkerView, nodes: Seq<SharedView>, d: int)
    requires
        worker.wf(nodes),
        0 <= d < worker.descents.len(),
    ensures
        worker.descents[d].end <= worker.open_start(),
    decreases worker.descents.len() - d,
{
    if d < worker.descents.len() - 1 {
        end_fits(worker, nodes, d + 1);
        assert(worker.descents[d + 1].start == worker.descents[d].end);
        assert(worker.descents[d + 1].start <= worker.descents[d + 1].end);
    } else {
        assert(worker.descents.last() == worker.descents[d]);
    }
}

/// Whatever a worker finds where it stands, the pool stays well formed.
pub proof fn arriving_keeps(v: PoolView, w: int)
    requires
        v.wf(),
        v.walking(w),
        batch_room(v.workers[w]),
    ensures
        v.arrived(w).wf(),
{
    let worker = v.workers[w];
    let id = v.at(w);
    let node = v.nodes[id];
    assert(worker.wf(v.nodes));
    assert(node.wf());
    if node.outcome is Some {
        assert(!node.published());
        away_from_the_root(v, w);
        ending_keeps(v, w, LeafValue::Terminal(node.outcome->0));
    } else if node.published() {
    } else if worker.holds(id) {
        let slot = slot_of(worker, id);
        assert(waits(worker, slot, id));
        closing_keeps(v.nodes, worker, slot);
        let after = v.arrived(w);
        same_paths_same_flight(v, after);
        same_leaves_same_claims(v, after);
    } else if node.claimed {
        abandoning_keeps(v, w);
    } else {
        claiming_keeps(v, w);
    }
}

/// Going through an edge with a node behind it keeps the pool well formed.
pub proof fn walking_keeps(v: PoolView, w: int, edge: int)
    requires
        v.wf(),
        v.walking(w),
        0 <= edge < v.nodes[v.at(w)].children.len(),
        v.nodes[v.at(w)].children[edge] != NO_NODE,
        v.nodes[v.at(w)].visits + v.nodes[v.at(w)].vl_visits < u32::MAX,
    ensures
        v.walked(w, edge).wf(),
{
    let worker = v.workers[w];
    let id = v.at(w);
    let node = v.nodes[id];
    let after = v.walked(w, edge);
    let moved = after.workers[w];
    let step = (id as u32, edge as u32);
    assert(worker.wf(v.nodes));
    assert(node.wf());
    assert(v.nodes[id].children[edge] == NO_NODE || id < v.nodes[id].children[edge]
        < v.nodes.len());
    total_bounds(node.vl, edge);
    total_update(node.vl, edge, (node.vl[edge] + 1) as u32);
    assert(after.nodes[id].wf());
    assert forall|i: int| 0 <= i < after.nodes.len() implies (#[trigger] after.nodes[i]).wf() by {
        assert(v.nodes[i].wf());
    }
    assert(grows(v.nodes, after.nodes));
    assert(flags_same_but(v.nodes, after.nodes, -1));
    assert forall|x: int| 0 <= x < v.workers.len() implies (#[trigger] v.workers[x]).wf(
        after.nodes,
    ) by {
        leaves_keep(v.nodes, after.nodes, v.workers[x].leaves, -1);
        worker_keeps(v.nodes, after.nodes, v.workers[x]);
    }
    assert(moved.wf(after.nodes)) by {
        assert(worker.wf(after.nodes));
        start_fits(worker, after.nodes);
        ends_fit(worker, after.nodes);
        assert(edge <= u32::MAX);
        assert forall|t: int| 0 <= t < moved.path.len() implies passable(
            after.nodes,
            #[trigger] moved.path[t],
        ) by {
            if t < worker.path.len() {
                assert(moved.path[t] == worker.path[t]);
            }
        }
        assert forall|d: int| 0 <= d < moved.descents.len() implies ({
            let descent = #[trigger] moved.descents[d];
            leads(
                after.nodes,
                moved.path.subrange(descent.start as int, descent.end as int),
                moved.leaves[descent.leaf as int].node as int,
            )
        }) by {
            let descent = worker.descents[d];
            assert(moved.path.subrange(descent.start as int, descent.end as int)
                =~= worker.path.subrange(descent.start as int, descent.end as int));
        }
        assert(moved.open_steps() =~= worker.open_steps().push(step));
        route_extends(after.nodes, worker.open_steps(), step, id);
    }
    assert forall|x: int| 0 <= x < after.workers.len() implies (#[trigger] after.workers[x]).wf(
        after.nodes,
    ) by {
        if x != w {
            assert(after.workers[x] == v.workers[x]);
        }
    }
    assert forall|i: int, e: int|
        0 <= i < after.nodes.len() && 0 <= e < after.nodes[i].children.len() implies ({
        let child = #[trigger] after.nodes[i].children[e];
        child == NO_NODE || i < child < after.nodes.len()
    }) by {
        assert(v.nodes[i].children[e] == after.nodes[i].children[e]);
    }
    assert forall|i: int, e: int|
        0 <= i < after.nodes.len() && 0 <= e < after.nodes[i].vl.len() implies (
    #[trigger] after.nodes[i].vl[e]) == in_flight(after.workers, i, e) by {
        assert(v.nodes[i].wf());
        assert(v.nodes[i].vl[e] == in_flight(v.workers, i, e));
        flight_moves(v.workers, w, moved, i, e);
        assert(moved.path.drop_last() =~= worker.path);
    }
    assert forall|i: int| 0 <= i < v.nodes.len() implies (#[trigger] after.nodes[i]).claimed
        == v.nodes[i].claimed by {}
    same_leaves_same_claims(v, after);
}

/// A route to where a step starts, with the step, is a route to where it leads.
proof fn route_extends(nodes: Seq<SharedView>, steps: Seq<(u32, u32)>, step: (u32, u32), at: int)
    requires
        leads(nodes, steps, at),
        step.0 == at,
    ensures
        leads(nodes, steps.push(step), behind(nodes, step) as int),
{
    let after = steps.push(step);
    assert forall|t: int, u: int|
        #![trigger after[t], after[u]]
        0 <= t && u == t + 1 && u < after.len() implies behind(nodes, after[t]) == after[u].0 by {
        assert(after[t] == steps[t]);
        if u < steps.len() {
            assert(after[u] == steps[u]);
        } else {
            assert(steps.last() == steps[t]);
        }
    }
    if steps.len() > 0 {
        assert(after[0] == steps[0]);
    }
}

/// Creating the node behind an edge keeps the pool well formed.
pub proof fn linking_keeps(v: PoolView, id: int, edge: int, next: StateView)
    requires
        v.wf(),
        0 <= id < v.nodes.len(),
        0 <= edge < v.nodes[id].children.len(),
        next.wf(),
        v.nodes.len() < NO_NODE,
    ensures
        v.linked(id, edge, next).wf(),
        v.linked(id, edge, next).nodes[id].children[edge] != NO_NODE,
{
    let node = v.nodes[id];
    if node.children[edge] == NO_NODE {
        let after = v.linked(id, edge, next);
        assert(node.wf());
        assert(seed(next).wf());
        assert forall|i: int| 0 <= i < after.nodes.len() implies (#[trigger] after.nodes[i]).wf() by {
            if i < v.nodes.len() {
                assert(v.nodes[i].wf());
            }
        }
        assert(v.nodes[0].wf());
        assert(after.nodes[0].published() || after.nodes[0].outcome is Some);
        assert(grows(v.nodes, after.nodes));
        assert(flags_same_but(v.nodes, after.nodes, -1));
        assert forall|x: int| 0 <= x < after.workers.len() implies (
        #[trigger] after.workers[x]).wf(after.nodes) by {
            assert(v.workers[x].wf(v.nodes));
            leaves_keep(v.nodes, after.nodes, v.workers[x].leaves, -1);
            worker_keeps(v.nodes, after.nodes, v.workers[x]);
        }
        assert forall|i: int, e: int|
            0 <= i < after.nodes.len() && 0 <= e < after.nodes[i].children.len() implies ({
            let child = #[trigger] after.nodes[i].children[e];
            child == NO_NODE || i < child < after.nodes.len()
        }) by {
            if i < v.nodes.len() && !(i == id && e == edge) {
                assert(v.nodes[i].children[e] == after.nodes[i].children[e]);
            }
        }
        assert forall|i: int, e: int|
            0 <= i < after.nodes.len() && 0 <= e < after.nodes[i].vl.len() implies (
        #[trigger] after.nodes[i].vl[e]) == in_flight(after.workers, i, e) by {
            assert(v.nodes[i].vl[e] == in_flight(v.workers, i, e));
        }
        claims_move(v, after);
    }
}

/// Nobody steps off a node without edges.
proof fn nobody_departs(v: PoolView, id: int, edge: int)
    requires
        v.wf(),
        0 <= id < v.nodes.len(),
        !v.nodes[id].published(),
    ensures
        in_flight(v.workers, id, edge) == 0,
{
    assert(v.nodes[id].wf());
    assert forall|w: int| 0 <= w < v.workers.len() implies passes(
        (#[trigger] v.workers[w]).path,
        id,
        edge,
    ) == 0 by {
        let path = v.workers[w].path;
        assert(v.workers[w].wf(v.nodes));
        assert forall|t: int| 0 <= t < path.len() implies (#[trigger] path[t]).0 != id by {
            assert(passable(v.nodes, path[t]));
        }
        nobody_passes(path, id, edge);
    }
    nothing_flies(v.workers, id, edge);
}

/// Publishing the edges of a claimed node keeps the pool well formed.
pub proof fn publishing_keeps(v: PoolView, w: int, slot: int)
    requires
        v.wf(),
        0 <= w < v.workers.len(),
        0 <= slot < v.workers[w].leaves.len(),
        v.workers[w].leaves[slot].value is Waiting,
        !v.is_stuck(v.workers[w].leaves[slot].node as int),
    ensures
        v.opened(w, slot).wf(),
{
    let worker = v.workers[w];
    let id = worker.leaves[slot].node as int;
    let after = v.opened(w, slot);
    let opened = after.workers[w];
    assert(worker.wf(v.nodes));
    assert(leaf_ok(v.nodes, worker.leaves[slot]));
    assert(v.nodes[id].wf());
    assert(waits(worker, slot, id));
    let node = with_edges(v.nodes[id]);
    total_of_zeros(node.n);
    total_of_zeros(node.vl);
    assert(v.nodes[id].visits == 0 && v.nodes[id].vl_visits == 0);
    assert(node.wf());
    assert forall|i: int| 0 <= i < after.nodes.len() implies (#[trigger] after.nodes[i]).wf() by {
        assert(v.nodes[i].wf());
    }
    assert(grows(v.nodes, after.nodes));
    assert(flags_same_but(v.nodes, after.nodes, id));
    assert forall|x: int, s: int|
        0 <= x < v.workers.len() && 0 <= s < v.workers[x].leaves.len() && !(x == w && s
            == slot) implies (#[trigger] v.workers[x].leaves[s]).node != id by {
        assert(v.workers[x].wf(v.nodes));
        assert(leaf_ok(v.nodes, v.workers[x].leaves[s]));
        if v.workers[x].leaves[s].node == id {
            assert(waits(v.workers[x], s, id));
            assert(waits(v.workers[w], slot, id));
        }
    }
    assert(leaves_ok(after.nodes, opened.leaves)) by {
        assert forall|s: int| 0 <= s < opened.leaves.len() implies leaf_ok(
            after.nodes,
            #[trigger] opened.leaves[s],
        ) by {
            if s != slot {
                assert(opened.leaves[s] == v.workers[w].leaves[s]);
                assert(leaf_ok(v.nodes, worker.leaves[s]));
            }
        }
    }
    assert forall|x: int| 0 <= x < after.workers.len() implies (#[trigger] after.workers[x]).wf(
        after.nodes,
    ) by {
        let other = v.workers[x];
        assert(other.wf(v.nodes));
        if x != w {
            assert forall|s: int| 0 <= s < other.leaves.len() implies (
            #[trigger] other.leaves[s]).node != id by {
                assert(v.workers[x].leaves[s].node != id);
            }
            leaves_keep(v.nodes, after.nodes, other.leaves, id);
            worker_keeps(v.nodes, after.nodes, other);
        } else {
            relabelling_keeps(v.nodes, after.nodes, worker, opened);
        }
    }
    assert forall|i: int, e: int|
        0 <= i < after.nodes.len() && 0 <= e < after.nodes[i].children.len() implies ({
        let child = #[trigger] after.nodes[i].children[e];
        child == NO_NODE || i < child < after.nodes.len()
    }) by {
        if i != id {
            assert(v.nodes[i].children[e] == after.nodes[i].children[e]);
        }
    }
    assert forall|i: int, e: int|
        0 <= i < after.nodes.len() && 0 <= e < after.nodes[i].vl.len() implies (
    #[trigger] after.nodes[i].vl[e]) == in_flight(after.workers, i, e) by {
        same_flight(v.workers, after.workers, i, e);
        if i == id {
            nobody_departs(v, id, e);
        } else {
            assert(v.nodes[i].vl[e] == in_flight(v.workers, i, e));
        }
    }
    assert forall|x: int, s: int, i: int|
        0 <= x < v.workers.len() implies #[trigger] waits(after.workers[x], s, i) == (waits(
        v.workers[x],
        s,
        i,
    ) && i != id) by {
        if waits(v.workers[x], s, i) && i == id {
            assert(waits(v.workers[w], slot, id));
        }
        if x == w && 0 <= s < worker.leaves.len() && s != slot {
            assert(after.workers[x].leaves[s] == worker.leaves[s]);
        }
        if x == w && s == slot {
            assert(!waits(after.workers[x], s, i));
            assert(waits(v.workers[x], s, i) ==> i == id);
        }
    }
    claims_dropped(v, after, set![id]);
}

/// The same batch with some leaves' values changed.
proof fn relabelling_keeps(
    a: Seq<SharedView>,
    b: Seq<SharedView>,
    before: WorkerView,
    after: WorkerView,
)
    requires
        before.wf(a),
        a.len() > 0,
        grows(a, b),
        leaves_ok(b, after.leaves),
        after.leaves.len() == before.leaves.len(),
        forall|s: int|
            0 <= s < before.leaves.len() ==> (#[trigger] after.leaves[s]).node
                == before.leaves[s].node,
        after.path == before.path,
        after.descents == before.descents,
        after.cursor == before.cursor,
    ensures
        after.wf(b),
{
    start_fits(before, a);
    assert forall|t: int| 0 <= t < after.path.len() implies passable(
        b,
        #[trigger] after.path[t],
    ) by {
        assert(passable(a, before.path[t]));
        step_keeps(a, b, before.path[t]);
    }
    assert forall|d: int| 0 <= d < after.descents.len() implies ({
        let descent = #[trigger] after.descents[d];
        leads(
            b,
            after.path.subrange(descent.start as int, descent.end as int),
            after.leaves[descent.leaf as int].node as int,
        )
    }) by {
        let descent = before.descents[d];
        slice_ok(a, before.path, descent.start as int, descent.end as int);
        route_keeps(
            a,
            b,
            before.path.subrange(descent.start as int, descent.end as int),
            before.leaves[descent.leaf as int].node as int,
        );
        assert(after.leaves[descent.leaf as int].node == before.leaves[descent.leaf as int].node);
    }
    if before.cursor is Some {
        slice_ok(a, before.path, before.open_start(), before.path.len() as int);
        route_keeps(a, b, before.open_steps(), before.cursor->0 as int);
        assert(a[0].published());
    }
}

/// The claims on the nodes of `given` are given up, and all others are kept.
proof fn claims_dropped(v: PoolView, after: PoolView, given: Set<int>)
    requires
        claims_ok(v.nodes, v.workers),
        after.nodes.len() == v.nodes.len(),
        forall|i: int|
            0 <= i < v.nodes.len() ==> (#[trigger] after.nodes[i]).claimed == (v.nodes[i].claimed
                && !given.contains(i)),
        v.workers.len() == after.workers.len(),
        forall|x: int, s: int, i: int|
            0 <= x < v.workers.len() ==> #[trigger] waits(after.workers[x], s, i) == (waits(
                v.workers[x],
                s,
                i,
            ) && !given.contains(i)),
    ensures
        claims_ok(after.nodes, after.workers),
{
    assert forall|w: int, s: int, x: int, r: int, i: int|
        #![trigger waits(after.workers[w], s, i), waits(after.workers[x], r, i)]
        0 <= w < after.workers.len() && 0 <= x < after.workers.len() && waits(
            after.workers[w],
            s,
            i,
        ) && waits(after.workers[x], r, i) implies w == x && s == r by {
        assert(waits(v.workers[w], s, i) && waits(v.workers[x], r, i));
    }
    assert forall|i: int| 0 <= i < after.nodes.len() && (#[trigger] after.nodes[i]).claimed implies (
    exists|w: int, s: int|
        0 <= w < after.workers.len() && #[trigger] waits(after.workers[w], s, i)) by {
        assert(v.nodes[i].claimed);
        let (w, s) = choose|w: int, s: int|
            0 <= w < v.workers.len() && #[trigger] waits(v.workers[w], s, i);
        assert(waits(after.workers[w], s, i));
    }
}

/// Finding claimed nodes without a legal action keeps the pool well formed.
pub proof fn sorting_out_keeps(v: PoolView, w: int)
    requires
        v.wf(),
        0 <= w < v.workers.len(),
    ensures
        v.sorted_out(w).wf(),
{
    let worker = v.workers[w];
    let after = v.sorted_out(w);
    let sorted = after.workers[w];
    let given = Set::new(|i: int| worker.holds(i) && v.is_stuck(i));
    assert(worker.wf(v.nodes));
    assert forall|i: int| worker.holds(i) implies 0 < i < v.nodes.len() && v.nodes[i].claimed by {
        let s = choose|s: int| waits(worker, s, i);
        assert(leaf_ok(v.nodes, worker.leaves[s]));
    }
    assert forall|i: int| 0 <= i < after.nodes.len() implies (#[trigger] after.nodes[i]).wf() by {
        assert(v.nodes[i].wf());
    }
    assert(after.nodes[0] == v.nodes[0]);
    assert(grows(v.nodes, after.nodes)) by {
        assert forall|i: int| 0 <= i < v.nodes.len() && (
        #[trigger] v.nodes[i]).published() implies after.nodes[i].published() by {
            assert(v.nodes[i].wf());
        }
    }
    assert forall|x: int, s: int|
        0 <= x < v.workers.len() && x != w && 0 <= s < v.workers[x].leaves.len() implies leaf_ok(
        after.nodes,
        #[trigger] v.workers[x].leaves[s],
    ) by {
        let leaf = v.workers[x].leaves[s];
        let i = leaf.node as int;
        assert(v.workers[x].wf(v.nodes));
        assert(leaf_ok(v.nodes, leaf));
        assert(v.nodes[i].wf());
        if given.contains(i) {
            let r = choose|r: int| waits(worker, r, i);
            assert(waits(v.workers[x], s, i));
            assert(waits(v.workers[w], r, i));
        }
    }
    assert(leaves_ok(after.nodes, sorted.leaves)) by {
        assert forall|s: int| 0 <= s < sorted.leaves.len() implies leaf_ok(
            after.nodes,
            #[trigger] sorted.leaves[s],
        ) by {
            let leaf = worker.leaves[s];
            let i = leaf.node as int;
            assert(leaf_ok(v.nodes, leaf));
            assert(v.nodes[i].wf());
            if leaf.value is Waiting {
                assert(waits(worker, s, i));
            } else if given.contains(i) {
                let r = choose|r: int| waits(worker, r, i);
                assert(leaf_ok(v.nodes, worker.leaves[r]));
            }
        }
    }
    assert forall|x: int| 0 <= x < after.workers.len() implies (#[trigger] after.workers[x]).wf(
        after.nodes,
    ) by {
        let other = v.workers[x];
        assert(other.wf(v.nodes));
        if x != w {
            assert(leaves_ok(after.nodes, other.leaves)) by {
                assert forall|s: int| 0 <= s < other.leaves.len() implies leaf_ok(
                    after.nodes,
                    #[trigger] other.leaves[s],
                ) by {
                    assert(leaf_ok(after.nodes, v.workers[x].leaves[s]));
                }
            }
            worker_keeps(v.nodes, after.nodes, other);
        } else {
            relabelling_keeps(v.nodes, after.nodes, worker, sorted);
        }
    }
    assert forall|i: int, e: int|
        0 <= i < after.nodes.len() && 0 <= e < after.nodes[i].children.len() implies ({
        let child = #[trigger] after.nodes[i].children[e];
        child == NO_NODE || i < child < after.nodes.len()
    }) by {
        assert(v.nodes[i].children[e] == after.nodes[i].children[e]);
    }
    same_paths_same_flight(v, after);
    assert forall|x: int, s: int, i: int|
        0 <= x < v.workers.len() implies #[trigger] waits(after.workers[x], s, i) == (waits(
        v.workers[x],
        s,
        i,
    ) && !given.contains(i)) by {
        if waits(v.workers[x], s, i) && given.contains(i) {
            let r = choose|r: int| waits(worker, r, i);
            assert(waits(v.workers[w], r, i));
        }
        if x == w && 0 <= s < worker.leaves.len() {
            if worker.leaves[s].value is Waiting {
                assert(waits(worker, s, worker.leaves[s].node as int));
            }
        }
    }
    assert forall|i: int| 0 <= i < v.nodes.len() implies (#[trigger] after.nodes[i]).claimed == (
    v.nodes[i].claimed && !given.contains(i)) by {}
    claims_dropped(v, after, given);
}

/// Crediting a worker's descents keeps the pool well formed.
pub proof fn backing_up_keeps(v: PoolView, w: int)
    requires
        v.wf(),
        0 <= w < v.workers.len(),
        forall|s: int|
            0 <= s < v.workers[w].leaves.len() ==> !((
            #[trigger] v.workers[w].leaves[s]).value is Waiting),
    ensures
        v.backed_up(w).wf(),
        v.backed_up(w).workers[w].resting(),
{
    let worker = v.workers[w];
    let after = v.backed_up(w);
    let cleared = after.workers[w];
    assert(worker.wf(v.nodes));
    releasing_keeps_nodes(v, w, worker.path);
    assert forall|i: int| 0 <= i < after.nodes.len() implies (#[trigger] after.nodes[i]).wf() by {
        let node = v.nodes[i];
        assert(node.wf());
        assert(released(node, worker.path, i).wf());
        assert forall|e: int| 0 <= e < node.n.len() implies #[trigger] node.n[e] + passes(
            worker.path,
            i,
            e,
        ) <= u32::MAX by {
            total_bounds(node.n, e);
            passes_bounds(worker.path, i, e);
        }
        assert forall|t: int| 0 <= t < worker.path.len() && (
        #[trigger] worker.path[t]).0 == i implies worker.path[t].1 < node.n.len() by {
            assert(passable(v.nodes, worker.path[t]));
        }
        raised_total(node.n, worker.path, i);
        passes_bounds(worker.path, i, 0);
    }
    assert(grows(v.nodes, after.nodes));
    assert(flags_same_but(v.nodes, after.nodes, -1));
    assert forall|x: int| 0 <= x < after.workers.len() implies (#[trigger] after.workers[x]).wf(
        after.nodes,
    ) by {
        if x != w {
            assert(v.workers[x].wf(v.nodes));
            leaves_keep(v.nodes, after.nodes, v.workers[x].leaves, -1);
            worker_keeps(v.nodes, after.nodes, v.workers[x]);
        }
    }
    assert forall|i: int, e: int|
        0 <= i < after.nodes.len() && 0 <= e < after.nodes[i].children.len() implies ({
        let child = #[trigger] after.nodes[i].children[e];
        child == NO_NODE || i < child < after.nodes.len()
    }) by {
        assert(v.nodes[i].children[e] == after.nodes[i].children[e]);
    }
    assert forall|i: int, e: int|
        0 <= i < after.nodes.len() && 0 <= e < after.nodes[i].vl.len() implies (
    #[trigger] after.nodes[i].vl[e]) == in_flight(after.workers, i, e) by {
        assert(v.nodes[i].vl[e] == in_flight(v.workers, i, e));
        flight_moves(v.workers, w, cleared, i, e);
        flight_bounds(v.workers, w, i, e);
    }
    assert forall|x: int, s: int, i: int|
        0 <= x < v.workers.len() implies #[trigger] waits(after.workers[x], s, i) == waits(
        v.workers[x],
        s,
        i,
    ) by {
        if x == w {
            assert(!waits(after.workers[x], s, i));
            if waits(v.workers[x], s, i) {
                assert(!(v.workers[w].leaves[s].value is Waiting));
            }
        }
    }
    assert forall|i: int| 0 <= i < v.nodes.len() implies (#[trigger] after.nodes[i]).claimed
        == v.nodes[i].claimed by {}
    claims_move(v, after);
}

/// A freshly planted root with `count` resting workers is well formed.
pub proof fn planting_is_wf(v: PoolView, state: StateView)
    requires
        state.wf(),
        v.nodes == seq![planted(state)],
        v.resting(),
    ensures
        v.wf(),
{
    let node = planted(state);
    total_of_zeros(node.n);
    total_of_zeros(node.vl);
    assert(node.wf());
    assert forall|w: int| 0 <= w < v.workers.len() implies (#[trigger] v.workers[w]).wf(
        v.nodes,
    ) by {
        assert(v.workers[w].resting());
    }
    assert forall|i: int, e: int|
        0 <= i < v.nodes.len() && 0 <= e < v.nodes[i].vl.len() implies (
    #[trigger] v.nodes[i].vl[e]) == in_flight(v.workers, i, e) by {
        resting_flies_nothing(v, i, e);
    }
    assert forall|w: int, s: int, i: int| 0 <= w < v.workers.len() implies !(#[trigger] waits(
        v.workers[w],
        s,
        i,
    )) by {
        assert(v.workers[w].resting());
    }
}

proof fn resting_flies_nothing(v: PoolView, node: int, edge: int)
    requires
        v.resting(),
    ensures
        in_flight(v.workers, node, edge) == 0,
{
    assert forall|w: int| 0 <= w < v.workers.len() implies passes(
        (#[trigger] v.workers[w]).path,
        node,
        edge,
    ) == 0 by {
        assert(v.workers[w].resting());
    }
    nothing_flies(v.workers, node, edge);
}

/// The closed descents of a worker lie before the one under way.
pub proof fn descents_fit(v: PoolView, w: int)
    requires
        v.wf(),
        0 <= w < v.workers.len(),
    ensures
        0 <= v.workers[w].open_start() <= v.workers[w].path.len(),
        v.workers[w].open_steps().len() == v.workers[w].path.len() - v.workers[w].open_start(),
        v.workers[w].cursor is None ==> v.workers[w].open_start() == v.workers[w].path.len(),
        v.workers[w].open_start() == 0 ==> v.workers[w].open_steps() == v.workers[w].path,
{
    assert(v.workers[w].wf(v.nodes));
    start_fits(v.workers[w], v.nodes);
    if v.workers[w].open_start() == 0 {
        assert(v.workers[w].open_steps() =~= v.workers[w].path);
    }
}

proof fn departures_joined(a: Seq<(u32, u32)>, b: Seq<(u32, u32)>, node: int)
    ensures
        departures(a + b, node) == departures(a, node) + departures(b, node),
    decreases b.len(),
{
    if b.len() == 0 {
        assert(a + b =~= a);
    } else {
        assert((a + b).drop_last() =~= a + b.drop_last());
        departures_joined(a, b.drop_last(), node);
    }
}

/// Of a slice `steps` at the end of a worker's path, the first `t` passes fit
/// the counters with one more to come.
pub proof fn one_more_pass(v: PoolView, w: int, steps: Seq<(u32, u32)>, t: int)
    requires
        v.wf(),
        0 <= w < v.workers.len(),
        steps == v.workers[w].open_steps() || steps == v.workers[w].path,
        0 <= t < steps.len(),
    ensures
        passable(v.nodes, steps[t]),
        ({
            let node = v.nodes[steps[t].0 as int];
            let id = steps[t].0 as int;
            let edge = steps[t].1 as int;
            let done = steps.take(t);
            &&& edge < node.vl.len()
            &&& edge < node.n.len()
            &&& 0 <= passes(done, id, edge) < node.vl[edge]
            &&& 0 <= departures(done, id) < node.vl_visits
            &&& node.n[edge] + passes(done, id, edge) < u32::MAX
            &&& node.visits + departures(done, id) < u32::MAX
        }),
{
    let worker = v.workers[w];
    assert(worker.wf(v.nodes));
    start_fits(worker, v.nodes);
    let before = worker.path.take(worker.path.len() - steps.len());
    assert(worker.path =~= before + steps);
    assert(steps[t] == worker.path[before.len() + t]);
    assert(passable(v.nodes, worker.path[before.len() + t]));
    let id = steps[t].0 as int;
    let edge = steps[t].1 as int;
    let node = v.nodes[id];
    let done = steps.take(t);
    let rest = steps.skip(t + 1);
    assert(node.wf());
    assert(steps =~= done.push(steps[t]) + rest);
    assert(done.push(steps[t]).drop_last() =~= done);
    passes_joined(done.push(steps[t]), rest, id, edge);
    departures_joined(done.push(steps[t]), rest, id);
    passes_joined(before, steps, id, edge);
    departures_joined(before, steps, id);
    passes_bounds(done, id, edge);
    passes_bounds(rest, id, edge);
    passes_bounds(before, id, edge);
    assert(node.vl[edge] == in_flight(v.workers, id, edge));
    flight_bounds(v.workers, w, id, edge);
    releasing_keeps_nodes(v, w, worker.path);
    assert(departures(worker.path, id) <= node.vl_visits);
    total_bounds(node.n, edge);
}

// ---------------------------------------------------------------------- laws

/// Whatever the workers did and in whatever order, once they rest there is no
/// virtual loss left anywhere and no node is claimed.
pub proof fn a_resting_pool_holds_nothing_back(v: PoolView, id: int)
    requires
        v.wf(),
        v.resting(),
        0 <= id < v.nodes.len(),
    ensures
        !v.nodes[id].claimed,
        v.nodes[id].vl_visits == 0,
        forall|e: int| 0 <= e < v.nodes[id].vl.len() ==> #[trigger] v.nodes[id].vl[e] == 0,
{
    assert(v.nodes[id].wf());
    assert forall|e: int| 0 <= e < v.nodes[id].vl.len() implies #[trigger] v.nodes[id].vl[e]
        == 0 by {
        resting_flies_nothing(v, id, e);
    }
    total_of_zeros(v.nodes[id].vl);
    if v.nodes[id].claimed {
        let (w, s) = choose|w: int, s: int|
            0 <= w < v.workers.len() && #[trigger] waits(v.workers[w], s, id);
        assert(v.workers[w].resting());
    }
}

/// No node is evaluated twice at the same time: two leaves that wait for one
/// node are the same leaf of the same worker.
pub proof fn a_claim_is_exclusive(v: PoolView, w: int, s: int, x: int, r: int, id: int)
    requires
        v.wf(),
        0 <= w < v.workers.len(),
        0 <= x < v.workers.len(),
        waits(v.workers[w], s, id),
        waits(v.workers[x], r, id),
    ensures
        w == x,
        s == r,
{
}

/// A single worker never collides: every claim it meets is its own.
pub proof fn a_lone_worker_never_collides(v: PoolView)
    requires
        v.wf(),
        v.workers.len() == 1,
        v.walking(0),
    ensures
        v.pace(0) != Pace::Collision,
        v.arrived(0).collisions == v.collisions,
{
    let worker = v.workers[0];
    let id = v.at(0);
    assert(worker.wf(v.nodes));
    if v.nodes[id].claimed {
        let (w, s) = choose|w: int, s: int|
            0 <= w < v.workers.len() && #[trigger] waits(v.workers[w], s, id);
        assert(waits(worker, s, id));
        assert(worker.holds(id));
    }
}

/// A collision costs nothing but the descent: no visit is taken or given, no
/// edge, claim or outcome changes, every other worker is as it was, and the
/// descents the worker had closed before stay closed.
pub proof fn a_collision_takes_no_credit(v: PoolView, w: int, id: int)
    requires
        v.wf(),
        v.walking(w),
        v.collisions < u64::MAX,
        v.pace(w) == Pace::Collision,
        0 <= id < v.nodes.len(),
    ensures
        v.arrived(w).collisions == v.collisions + 1,
        v.arrived(w).workers[w].descents == v.workers[w].descents,
        v.arrived(w).workers[w].leaves == v.workers[w].leaves,
        v.arrived(w).workers[w].cursor is None,
        forall|x: int|
            0 <= x < v.workers.len() && x != w ==> #[trigger] v.arrived(w).workers[x]
                == v.workers[x],
        v.arrived(w).nodes[id].n == v.nodes[id].n,
        v.arrived(w).nodes[id].visits == v.nodes[id].visits,
        v.arrived(w).nodes[id].children == v.nodes[id].children,
        v.arrived(w).nodes[id].claimed == v.nodes[id].claimed,
        v.arrived(w).nodes[id].outcome == v.nodes[id].outcome,
{
}

/// Two workers back up in either order and leave the same tree.
pub proof fn backups_commute(v: PoolView, w: int, x: int)
    requires
        v.wf(),
        0 <= w < v.workers.len(),
        0 <= x < v.workers.len(),
        w != x,
    ensures
        v.backed_up(w).backed_up(x) == v.backed_up(x).backed_up(w),
{
    let a = v.backed_up(w).backed_up(x);
    let b = v.backed_up(x).backed_up(w);
    let p = v.workers[w].path;
    let q = v.workers[x].path;
    assert forall|i: int| 0 <= i < v.nodes.len() implies #[trigger] a.nodes[i] == b.nodes[i] by {
        let node = v.nodes[i];
        assert(node.wf());
        passes_bounds(p, i, 0);
        passes_bounds(q, i, 0);
        assert(departures(p, i) + departures(q, i) <= node.vl_visits) by {
            two_paths_fit(v, w, x, i);
        }
        assert forall|e: int| 0 <= e < node.vl.len() implies a.nodes[i].vl[e] == b.nodes[i].vl[e]
            && a.nodes[i].n[e] == b.nodes[i].n[e] by {
            passes_bounds(p, i, e);
            passes_bounds(q, i, e);
            total_bounds(node.n, e);
            assert(node.vl[e] == in_flight(v.workers, i, e));
            two_workers_fly(v.workers, w, x, i, e);
        }
        assert(a.nodes[i].vl =~= b.nodes[i].vl);
        assert(a.nodes[i].n =~= b.nodes[i].n);
    }
    assert(a.nodes =~= b.nodes);
    assert(a.workers =~= b.workers);
}

proof fn two_workers_fly(workers: Seq<WorkerView>, w: int, x: int, node: int, edge: int)
    requires
        0 <= w < workers.len(),
        0 <= x < workers.len(),
        w != x,
    ensures
        passes(workers[w].path, node, edge) + passes(workers[x].path, node, edge) <= in_flight(
            workers,
            node,
            edge,
        ),
{
    let cleared = WorkerView { path: Seq::empty(), ..workers[w] };
    let rest = workers.update(w, cleared);
    flight_moves(workers, w, cleared, node, edge);
    flight_bounds(rest, x, node, edge);
    assert(rest[x] == workers[x]);
}

proof fn two_paths_fit(v: PoolView, w: int, x: int, i: int)
    requires
        v.wf(),
        0 <= w < v.workers.len(),
        0 <= x < v.workers.len(),
        w != x,
        0 <= i < v.nodes.len(),
    ensures
        departures(v.workers[w].path, i) + departures(v.workers[x].path, i)
            <= v.nodes[i].vl_visits,
{
    let p = v.workers[w].path;
    let q = v.workers[x].path;
    let node = v.nodes[i];
    assert(node.wf());
    assert(v.workers[w].wf(v.nodes));
    assert(v.workers[x].wf(v.nodes));
    assert forall|t: int| 0 <= t < p.len() && (#[trigger] p[t]).0 == i implies p[t].1
        < node.vl.len() by {
        assert(passable(v.nodes, p[t]));
    }
    assert forall|t: int| 0 <= t < q.len() && (#[trigger] q[t]).0 == i implies q[t].1
        < node.vl.len() by {
        assert(passable(v.nodes, q[t]));
    }
    let once = lowered(node.vl, p, i);
    assert forall|e: int| 0 <= e < node.vl.len() implies passes(p, i, e) <= #[trigger] node.vl[e]
        && passes(q, i, e) <= once[e] by {
        assert(node.vl[e] == in_flight(v.workers, i, e));
        two_workers_fly(v.workers, w, x, i, e);
        passes_bounds(p, i, e);
        passes_bounds(q, i, e);
    }
    lowered_total(node.vl, p, i);
    assert forall|e: int| 0 <= e < once.len() implies passes(q, i, e) <= #[trigger] once[e] by {
        assert(passes(p, i, e) <= node.vl[e]);
    }
    lowered_total(once, q, i);
    total_nonnegative(lowered(once, q, i));
}

/// How often a path leaves the root is how many descents it holds.
proof fn descents_leave_the_root_once(nodes: Seq<SharedView>, worker: WorkerView, count: int)
    requires
        worker.wf(nodes),
        links_ok(nodes),
        0 <= count <= worker.descents.len(),
    ensures
        departures(
            worker.path.take(
                if count == 0 {
                    0
                } else {
                    worker.descents[count - 1].end as int
                },
            ),
            0,
        ) == count,
    decreases count,
{
    if count == 0 {
        assert(worker.path.take(0) =~= Seq::empty());
    } else {
        let d = count - 1;
        let descent = worker.descents[d];
        descents_leave_the_root_once(nodes, worker, d);
        let start = descent.start as int;
        if d > 0 {
            assert(worker.descents[d - 1].end == descent.start);
        }
        let steps = worker.path.subrange(start, descent.end as int);
        let stop = worker.leaves[descent.leaf as int].node as int;
        assert(leads(nodes, steps, stop));
        assert(leaf_ok(nodes, worker.leaves[descent.leaf as int]));
        a_descent_leaves_the_root_once(nodes, worker, d, descent.end as int);
    }
}

proof fn a_descent_leaves_the_root_once(
    nodes: Seq<SharedView>,
    worker: WorkerView,
    d: int,
    end: int,
)
    requires
        worker.wf(nodes),
        links_ok(nodes),
        0 <= d < worker.descents.len(),
        worker.descents[d].start < end <= worker.descents[d].end,
    ensures
        departures(worker.path.take(end), 0) == departures(
            worker.path.take(worker.descents[d].start as int),
            0,
        ) + 1,
    decreases end,
{
    let descent = worker.descents[d];
    let start = descent.start as int;
    let steps = worker.path.subrange(start, descent.end as int);
    let stop = worker.leaves[descent.leaf as int].node as int;
    assert(leads(nodes, steps, stop));
    assert(worker.path.take(end).drop_last() =~= worker.path.take(end - 1));
    assert(worker.path.take(end).last() == worker.path[end - 1]);
    assert(steps[end - 1 - start] == worker.path[end - 1]);
    if end - 1 > start {
        a_descent_leaves_the_root_once(nodes, worker, d, end - 1);
        let before = steps[end - 2 - start];
        assert(before == worker.path[end - 2]);
        assert(behind(nodes, before) == steps[end - 1 - start].0);
        assert(passable(nodes, worker.path[end - 2]));
        assert(nodes[before.0 as int].children[before.1 as int] != NO_NODE);
    } else {
        assert(steps[0].0 == 0);
    }
}

/// Every simulation is exactly one visit of the root: backing a batch up adds
/// to the root's visits the number of descents in it.
pub proof fn every_simulation_is_one_root_visit(v: PoolView, w: int)
    requires
        v.wf(),
        0 <= w < v.workers.len(),
        v.workers[w].cursor is None,
    ensures
        v.backed_up(w).nodes[0].visits == v.nodes[0].visits + v.workers[w].descents.len(),
{
    let worker = v.workers[w];
    assert(worker.wf(v.nodes));
    descents_leave_the_root_once(v.nodes, worker, worker.descents.len() as int);
    assert(worker.path.take(worker.path.len() as int) =~= worker.path);
    if worker.descents.len() > 0 {
        assert(worker.descents.last() == worker.descents[worker.descents.len() - 1]);
    }
    releasing_keeps_nodes(v, w, worker.path);
    assert(v.nodes[0].wf());
    assert(departures(worker.path, 0) <= v.nodes[0].vl_visits);
}

/// A worker's descent that ends in a finished position carries back what the
/// winner there says: one for player 1, minus one for player 2, whoever was to
/// move.
pub proof fn a_finished_leaf_is_worth_its_winner(v: PoolView, w: int, s: int)
    requires
        v.wf(),
        0 <= w < v.workers.len(),
        0 <= s < v.workers[w].leaves.len(),
        v.workers[w].leaves[s].value is Terminal,
    ensures
        ({
            let leaf = v.workers[w].leaves[s];
            let state = v.nodes[leaf.node as int].state;
            let value = leaf.value->Terminal_0;
            &&& state.game_over || state.legal_actions.len() == 0
            &&& state.outcome_winner == 1 ==> value == 1
            &&& state.outcome_winner == 2 ==> value == -1
            &&& state.outcome_winner != 1 && state.outcome_winner != 2 ==> value == 0
        }),
{
    assert(v.workers[w].wf(v.nodes));
    assert(leaf_ok(v.nodes, v.workers[w].leaves[s]));
    assert(v.nodes[v.workers[w].leaves[s].node as int].wf());
}

/// How often a path takes an edge is how often the edge occurs in it.
proof fn passes_are_occurrences(path: Seq<(u32, u32)>, node: int, edge: int)
    requires
        0 <= node <= u32::MAX,
        0 <= edge <= u32::MAX,
    ensures
        passes(path, node, edge) == path.to_multiset().count((node as u32, edge as u32)),
    decreases path.len(),
{
    if path.len() == 0 {
        vstd::seq_lib::to_multiset_contains(path, (node as u32, edge as u32));
    } else {
        let rest = path.drop_last();
        passes_are_occurrences(rest, node, edge);
        vstd::seq_lib::to_multiset_build(rest, path.last());
        assert(path =~= rest.push(path.last()));
    }
}

/// Backing a worker's batch up adds to an edge one visit for every time the
/// batch takes it, takes as much virtual loss off it, and changes nothing else
/// about the node; the other workers' virtual loss stays.
pub proof fn a_backup_adds_each_step_to_its_own_edge(v: PoolView, w: int, i: int, e: int)
    requires
        v.wf(),
        0 <= w < v.workers.len(),
        0 <= i < v.nodes.len(),
        0 <= e < v.nodes[i].n.len(),
    ensures
        ({
            let before = v.nodes[i];
            let after = v.backed_up(w).nodes[i];
            let taken = v.workers[w].path.to_multiset().count((i as u32, e as u32));
            &&& after.n.len() == before.n.len()
            &&& after.n[e] == before.n[e] + taken
            &&& after.vl[e] == before.vl[e] - taken
            &&& after.state == before.state
            &&& after.actions == before.actions
            &&& after.children == before.children
            &&& after.outcome == before.outcome
            &&& after.claimed == before.claimed
        }),
        v.backed_up(w).workers[w].resting(),
        forall|x: int|
            0 <= x < v.workers.len() && x != w ==> #[trigger] v.backed_up(w).workers[x]
                == v.workers[x],
{
    let worker = v.workers[w];
    let before = v.nodes[i];
    assert(before.wf());
    total_bounds(before.n, e);
    total_bounds(before.vl, e);
    assert(before.n.len() <= u32::MAX) by {
        assert(before.state.wf());
    }
    passes_are_occurrences(worker.path, i, e);
    passes_bounds(worker.path, i, e);
    assert(before.vl[e] == in_flight(v.workers, i, e));
    one_is_in_flight(v.workers, w, i, e);
}

proof fn one_is_in_flight(workers: Seq<WorkerView>, w: int, node: int, edge: int)
    requires
        0 <= w < workers.len(),
    ensures
        passes(workers[w].path, node, edge) <= in_flight(workers, node, edge),
        0 <= in_flight(workers, node, edge),
    decreases workers.len(),
{
    let rest = workers.drop_last();
    passes_bounds(workers.last().path, node, edge);
    passes_bounds(workers[w].path, node, edge);
    if w < rest.len() {
        assert(rest[w] == workers[w]);
        one_is_in_flight(rest, w, node, edge);
    } else {
        assert(workers.last() == workers[w]);
        if rest.len() > 0 {
            one_is_in_flight(rest, 0, node, edge);
        }
    }
}

/// Every edge on the way to a leaf is credited with that leaf, in the order of
/// the way, and the way starts at the root, takes each edge to the node the
/// next one leaves from, and ends at the leaf's node.
pub proof fn a_leaf_is_credited_to_every_edge_on_its_way(
    v: PoolView,
    w: int,
    credits: Seq<Credit>,
    d: int,
    t: int,
)
    requires
        v.wf(),
        0 <= w < v.workers.len(),
        v.workers[w].credits(credits),
        0 <= d < v.workers[w].descents.len(),
        v.workers[w].descents[d].start <= t < v.workers[w].descents[d].end,
    ensures
        ({
            let worker = v.workers[w];
            let way = worker.descents[d];
            let leaf = worker.leaves[way.leaf as int];
            let next = v.nodes[credits[t].node as int].children[credits[t].edge as int];
            &&& credits[t].leaf == way.leaf
            &&& (credits[t].node, credits[t].edge) == worker.path[t]
            &&& t == way.start ==> credits[t].node == 0
            &&& t + 1 < way.end ==> next == credits[t + 1].node
            &&& t + 1 == way.end ==> next == leaf.node
        }),
{
    let worker = v.workers[w];
    assert(worker.wf(v.nodes));
    let way = worker.descents[d];
    let steps = worker.path.subrange(way.start as int, way.end as int);
    let leaf = worker.leaves[way.leaf as int];
    assert(leads(v.nodes, steps, leaf.node as int));
    let at = t - way.start;
    assert(steps[at] == worker.path[t]);
    assert(credits[t].leaf == way.leaf);
    if t + 1 < way.end {
        assert(steps[at + 1] == worker.path[t + 1]);
        assert(credits[t + 1].node == worker.path[t + 1].0);
        assert(behind(v.nodes, steps[at]) == steps[at + 1].0);
    } else {
        assert(steps.last() == worker.path[t]);
    }
    if t == way.start {
        assert(steps[0] == worker.path[t]);
    }
}

/// What a worker finds decides what it does. At a finished node its descent
/// ends, worth the outcome. At a published one an edge has to be chosen. At one
/// it has claimed it ends with the descent that claimed it, at one somebody
/// else has claimed it is given up, and any other it claims.
pub proof fn what_a_worker_finds_decides_what_it_does(v: PoolView, w: int)
    requires
        v.wf(),
        v.walking(w),
        v.workers[w].leaves.len() < usize::MAX,
    ensures
        ({
            let worker = v.workers[w];
            let id = worker.cursor->0 as int;
            let node = v.nodes[id];
            let after = v.arrived(w);
            let ended = after.workers[w];
            let leaf = ended.leaves[ended.descents.last().leaf as int];
            let mine = exists|s: int|
                0 <= s < worker.leaves.len() && (#[trigger] worker.leaves[s]).node == id
                    && worker.leaves[s].value is Waiting;
            &&& node.actions.len() > 0 ==> after == v && v.pace(w) == Pace::Choose(id as u32)
            &&& node.outcome matches Some(value) ==> {
                &&& v.pace(w) is Leaf
                &&& ended.descents.len() == worker.descents.len() + 1
                &&& leaf == (Leaf { node: id as u32, value: LeafValue::Terminal(value) })
                &&& after.nodes == v.nodes
            }
            &&& node.actions.len() == 0 && node.outcome is None && mine ==> {
                &&& v.pace(w) is Leaf
                &&& ended.descents.len() == worker.descents.len() + 1
                &&& ended.leaves == worker.leaves
                &&& leaf == (Leaf { node: id as u32, value: LeafValue::Waiting })
                &&& after.nodes == v.nodes
            }
            &&& node.actions.len() == 0 && node.outcome is None && !mine ==> {
                &&& node.claimed <==> v.pace(w) == Pace::Collision
                &&& node.claimed ==> ended.descents == worker.descents
                &&& !node.claimed ==> {
                    &&& v.pace(w) is Leaf
                    &&& after.nodes[id].claimed
                    &&& ended.descents.len() == worker.descents.len() + 1
                    &&& leaf == (Leaf { node: id as u32, value: LeafValue::Waiting })
                }
            }
        }),
{
    let worker = v.workers[w];
    let id = worker.cursor->0 as int;
    assert(worker.wf(v.nodes));
    assert(v.nodes[id].wf());
    if exists|s: int|
        0 <= s < worker.leaves.len() && (#[trigger] worker.leaves[s]).node == id
            && worker.leaves[s].value is Waiting {
        let s = choose|s: int|
            0 <= s < worker.leaves.len() && (#[trigger] worker.leaves[s]).node == id
                && worker.leaves[s].value is Waiting;
        assert(waits(worker, s, id));
    }
    if worker.holds(id) {
        let slot = slot_of(worker, id);
        assert(waits(worker, slot, id));
        assert(worker.leaves[slot].node == id);
    }
}

/// Publishing a node gives it an untouched edge for every legal action and ends
/// its claim; the leaf that waited for it waits no more, and nothing else
/// changes.
pub proof fn a_published_node_has_every_legal_action(v: PoolView, w: int, slot: int)
    requires
        v.wf(),
        0 <= w < v.workers.len(),
        0 <= slot < v.workers[w].leaves.len(),
    ensures
        ({
            let after = v.opened(w, slot);
            let id = v.workers[w].leaves[slot].node as int;
            let node = after.nodes[id];
            &&& node.actions == v.nodes[id].state.legal_actions
            &&& node.state == v.nodes[id].state
            &&& !node.claimed
            &&& node.outcome == v.nodes[id].outcome
            &&& node.visits == v.nodes[id].visits
            &&& node.n.len() == node.actions.len()
            &&& forall|e: int|
                0 <= e < node.actions.len() ==> #[trigger] node.children[e] == NO_NODE && node.n[e]
                    == 0 && node.vl[e] == 0
            &&& after.workers[w].leaves[slot].value is Evaluated
            &&& after.workers[w].leaves[slot].node == id
            &&& after.workers[w].path == v.workers[w].path
            &&& after.workers[w].descents == v.workers[w].descents
            &&& forall|i: int|
                0 <= i < v.nodes.len() && i != id ==> #[trigger] after.nodes[i] == v.nodes[i]
        }),
{
    assert(v.workers[w].wf(v.nodes));
    assert(leaf_ok(v.nodes, v.workers[w].leaves[slot]));
}

/// A claimed position without a legal action turns out to be finished: the leaf
/// that waited for it is worth what the winner there says. A leaf with a legal
/// action goes on waiting.
pub proof fn a_stuck_leaf_is_worth_its_winner(v: PoolView, w: int, s: int)
    requires
        v.wf(),
        0 <= w < v.workers.len(),
        0 <= s < v.workers[w].leaves.len(),
        v.workers[w].leaves[s].value is Waiting,
    ensures
        ({
            let id = v.workers[w].leaves[s].node as int;
            let state = v.nodes[id].state;
            let leaf = v.sorted_out(w).workers[w].leaves[s];
            &&& leaf.node == id
            &&& state.legal_actions.len() > 0 ==> leaf.value is Waiting && v.sorted_out(
                w,
            ).nodes[id] == v.nodes[id]
            &&& state.legal_actions.len() == 0 ==> {
                &&& leaf.value matches LeafValue::Terminal(value) && {
                    &&& state.outcome_winner == 1 ==> value == 1
                    &&& state.outcome_winner == 2 ==> value == -1
                    &&& state.outcome_winner != 1 && state.outcome_winner != 2 ==> value == 0
                }
                &&& v.sorted_out(w).nodes[id].outcome is Some
                &&& !v.sorted_out(w).nodes[id].claimed
            }
        }),
{
    let worker = v.workers[w];
    let id = worker.leaves[s].node as int;
    assert(worker.wf(v.nodes));
    assert(leaf_ok(v.nodes, worker.leaves[s]));
    assert(waits(worker, s, id));
    assert(worker.holds(id));
}

/// Linking gives an edge without a node one of its own, holding that very
/// position, and leaves an edge that has one alone.
pub proof fn a_link_is_made_once(v: PoolView, id: int, edge: int, next: StateView)
    requires
        v.wf(),
        0 <= id < v.nodes.len(),
        0 <= edge < v.nodes[id].children.len(),
        v.nodes.len() < NO_NODE,
    ensures
        ({
            let after = v.linked(id, edge, next);
            &&& v.nodes[id].children[edge] != NO_NODE ==> after == v
            &&& v.nodes[id].children[edge] == NO_NODE ==> {
                let child = after.nodes[id].children[edge] as int;
                &&& after.nodes.len() == v.nodes.len() + 1
                &&& child == v.nodes.len()
                &&& after.nodes[child].state == next
                &&& after.nodes[child].actions.len() == 0
                &&& after.nodes[child].visits == 0
                &&& after.nodes[child].outcome is Some <==> next.game_over
                &&& !after.nodes[child].claimed
                &&& after.nodes[id].n == v.nodes[id].n
                &&& forall|e: int|
                    0 <= e < v.nodes[id].children.len() && e != edge
                        ==> #[trigger] after.nodes[id].children[e] == v.nodes[id].children[e]
                &&& forall|i: int|
                    0 <= i < v.nodes.len() && i != id ==> #[trigger] after.nodes[i] == v.nodes[i]
            }
            &&& after.workers == v.workers
        }),
{
}

/// Going through an edge records the step, puts one more descent in flight on
/// that edge and no other, and leads to the node behind it.
pub proof fn a_step_is_in_flight_on_its_own_edge(v: PoolView, w: int, edge: int)
    requires
        v.wf(),
        v.walking(w),
        0 <= edge < v.nodes[v.at(w)].vl.len(),
        v.nodes[v.at(w)].visits + v.nodes[v.at(w)].vl_visits < u32::MAX,
    ensures
        ({
            let id = v.workers[w].cursor->0 as int;
            let after = v.walked(w, edge);
            &&& after.workers[w].path == v.workers[w].path.push((id as u32, edge as u32))
            &&& after.workers[w].cursor == Some(v.nodes[id].children[edge])
            &&& after.workers[w].descents == v.workers[w].descents
            &&& after.nodes[id].vl[edge] == v.nodes[id].vl[edge] + 1
            &&& after.nodes[id].vl_visits == v.nodes[id].vl_visits + 1
            &&& after.nodes[id].n == v.nodes[id].n
            &&& after.nodes[id].visits == v.nodes[id].visits
            &&& forall|e: int|
                0 <= e < v.nodes[id].vl.len() && e != edge ==> #[trigger] after.nodes[id].vl[e]
                    == v.nodes[id].vl[e]
            &&& forall|i: int|
                0 <= i < v.nodes.len() && i != id ==> #[trigger] after.nodes[i] == v.nodes[i]
        }),
{
    let id = v.at(w);
    assert(v.workers[w].wf(v.nodes));
    assert(v.nodes[id].wf());
    total_bounds(v.nodes[id].vl, edge);
    total_nonnegative(v.nodes[id].n);
}

/// A shared search starts from its position alone: nothing visited, nothing
/// claimed, finished where the game is over or nothing is legal, and an edge for
/// every legal action otherwise.
pub proof fn a_search_starts_from_its_position(state: StateView)
    ensures
        ({
            let root = planted(state);
            &&& root.state == state
            &&& root.mover == state.current_player
            &&& root.visits == 0
            &&& root.vl_visits == 0
            &&& !root.claimed
            &&& root.outcome is Some <==> state.game_over || state.legal_actions.len() == 0
            &&& root.outcome is None ==> root.actions == state.legal_actions
            &&& root.outcome is Some ==> root.actions.len() == 0
        }),
{
}

} // verus!
