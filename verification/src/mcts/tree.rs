//! The model of the search tree: what it holds, how a descent changes it, and
//! what is true of it at every point.
//!
//! A node is a whole position and an edge is a **single** action. Two action
//! orders that reach one position may share a node, so the tree is a graph.
//! Statistics are counters: `n` counts the visits an edge has been credited
//! with, `vl` the descents walking through it right now.
//!
//! The values that travel back up the tree are real numbers and are added up
//! elsewhere. What is fixed here is which edge is credited with which leaf.

use crate::game::{Action, Player, StateView};
use crate::mcts::gumbel::PlanView;
use vstd::prelude::*;
use vstd::seq_lib::*;

verus! {

/// Sentinel for "this edge has no child node yet".
pub const NO_NODE: u32 = 0xFFFF_FFFF;

/// What a collected leaf is worth.
#[derive(Clone, Copy, Debug, PartialEq, Eq, Structural)]
pub enum LeafValue {
    /// A finished position, worth its outcome in the absolute frame.
    Terminal(i8),
    /// Collected, and not evaluated yet.
    Waiting,
    /// Evaluated; the value is held by whoever evaluated it.
    Evaluated,
}

/// One collected leaf of the current round.
#[derive(Clone, Copy, Debug, PartialEq, Eq, Structural)]
pub struct Leaf {
    pub node: u32,
    pub value: LeafValue,
}

/// One collected descent, as a slice of the shared path plus the leaf it ended
/// at. Several descents may share a leaf.
#[derive(Clone, Copy, Debug, PartialEq, Eq, Structural)]
pub struct Descent {
    pub start: usize,
    pub end: usize,
    pub leaf: usize,
}

/// One edge to credit with one leaf's value.
#[derive(Clone, Copy, Debug, PartialEq, Eq, Structural)]
pub struct Credit {
    pub node: u32,
    pub edge: u32,
    pub leaf: usize,
}

/// Where the descent under way stands.
#[derive(Clone, Copy, Debug, PartialEq, Eq, Structural)]
pub enum Cursor {
    /// No descent is under way.
    Idle,
    /// An edge of this node has to be chosen.
    Choosing { node: u32 },
    /// The position behind this edge has to be supplied.
    Applying { node: u32, edge: u32 },
}

/// One tree node as mathematical values.
#[verifier::ext_equal]
pub struct NodeView {
    pub state: StateView,
    pub mover: Player,
    pub terminal: bool,
    pub terminal_value: i8,
    pub expanded: bool,
    pub pending: bool,
    pub actions: Seq<Action>,
    pub children: Seq<u32>,
    pub n: Seq<u32>,
    pub vl: Seq<u32>,
    pub visits: u32,
    pub vl_visits: u32,
}

/// The whole tree as mathematical values.
#[verifier::ext_equal]
pub struct TreeView {
    pub nodes: Seq<NodeView>,
    /// Merging of transpositions is on.
    pub dag: bool,
    /// Position key to node, for the nodes that may be merged into.
    pub index: Map<u64, u32>,
    pub merges: u64,
    pub key_collisions: u64,
    pub plan: Option<PlanView>,
    pub sims: u64,
    pub path: Seq<(u32, u32)>,
    pub descents: Seq<Descent>,
    pub leaves: Seq<Leaf>,
    pub cursor: Cursor,
}

/// A finished position in the absolute frame: positive is good for player 1.
pub open spec fn outcome_value(state: StateView) -> i8 {
    if state.outcome_winner == 1 {
        1
    } else if state.outcome_winner == 2 {
        -1i8
    } else {
        0
    }
}

/// The sum of a column of counters.
pub open spec fn total(column: Seq<u32>) -> int
    decreases column.len(),
{
    if column.len() == 0 {
        0
    } else {
        total(column.drop_last()) + column.last()
    }
}

/// A node nobody has arrived at.
pub open spec fn fresh(state: StateView) -> NodeView {
    NodeView {
        state,
        mover: state.current_player,
        terminal: state.game_over,
        terminal_value: if state.game_over {
            outcome_value(state)
        } else {
            0
        },
        expanded: false,
        pending: false,
        actions: Seq::empty(),
        children: Seq::empty(),
        n: Seq::empty(),
        vl: Seq::empty(),
        visits: 0,
        vl_visits: 0,
    }
}

/// The node with an edge, without statistics, for every legal action.
pub open spec fn with_edges(node: NodeView) -> NodeView {
    let count = node.state.legal_actions.len();
    NodeView {
        actions: node.state.legal_actions,
        children: Seq::new(count, |e: int| NO_NODE),
        n: Seq::new(count, |e: int| 0u32),
        vl: Seq::new(count, |e: int| 0u32),
        ..node
    }
}

/// A position without a legal action, scored by its outcome.
pub open spec fn stuck(node: NodeView) -> NodeView {
    NodeView { terminal: true, terminal_value: outcome_value(node.state), ..node }
}

/// The root before the first descent: expanded, unless it is finished or stuck.
pub open spec fn rooted(state: StateView) -> NodeView {
    let node = fresh(state);
    if node.terminal {
        node
    } else if state.legal_actions.len() == 0 {
        stuck(node)
    } else {
        NodeView { expanded: true, ..with_edges(node) }
    }
}

/// The node with every descent in flight turned into a visit.
pub open spec fn landed(node: NodeView) -> NodeView {
    NodeView {
        n: Seq::new(node.n.len(), |e: int| (node.n[e] + node.vl[e]) as u32),
        vl: Seq::new(node.vl.len(), |e: int| 0u32),
        visits: (node.visits + node.vl_visits) as u32,
        vl_visits: 0,
        ..node
    }
}

/// How often the path takes edge `edge` of node `node`.
pub open spec fn walks(path: Seq<(u32, u32)>, node: int, edge: int) -> nat {
    path.to_multiset().count((node as u32, edge as u32))
}

/// How many steps of the path start at node `node`.
pub open spec fn departures(path: Seq<(u32, u32)>, node: int) -> int
    decreases path.len(),
{
    if path.len() == 0 {
        0
    } else {
        departures(path.drop_last(), node) + if path.last().0 == node {
            1int
        } else {
            0int
        }
    }
}

/// The batch slot holding `node`'s pending evaluation.
pub open spec fn waiting_slot(leaves: Seq<Leaf>, node: int) -> int {
    choose|s: int|
        0 <= s < leaves.len() && #[trigger] leaves[s].node == node && leaves[s].value
            is Waiting
}

impl NodeView {
    /// Its columns are parallel, its sums are kept, and its flags agree.
    pub open spec fn wf(self) -> bool {
        &&& self.state.wf()
        &&& self.children.len() == self.actions.len()
        &&& self.n.len() == self.actions.len()
        &&& self.vl.len() == self.actions.len()
        &&& total(self.n) == self.visits
        &&& total(self.vl) == self.vl_visits
        &&& self.visits + self.vl_visits <= u32::MAX
        &&& self.mover == self.state.current_player
        &&& self.terminal ==> {
            &&& self.actions.len() == 0
            &&& !self.expanded
            &&& !self.pending
            &&& self.terminal_value == outcome_value(self.state)
            &&& (self.state.game_over || self.state.legal_actions.len() == 0)
        }
        &&& !self.terminal ==> !self.state.game_over
        &&& self.expanded ==> self.actions.len() > 0 && !self.pending
        &&& self.pending ==> self.actions.len() > 0
        &&& !self.expanded && !self.pending ==> self.actions.len() == 0
        &&& self.actions.len() > 0 ==> self.actions == self.state.legal_actions
    }

    /// Finished, expanded, or collected for evaluation.
    pub open spec fn settled(self) -> bool {
        self.terminal || self.expanded || self.pending
    }
}

/// The node behind an edge.
pub open spec fn child_of(nodes: Seq<NodeView>, step: (u32, u32)) -> u32 {
    nodes[step.0 as int].children[step.1 as int]
}

/// `step` is an edge there is, and a node stands behind it.
pub open spec fn walkable(nodes: Seq<NodeView>, step: (u32, u32)) -> bool {
    &&& step.0 < nodes.len()
    &&& step.1 < nodes[step.0 as int].children.len()
    &&& child_of(nodes, step) != NO_NODE
}

/// `steps` leads from the root to `stop`, each step starting where the one
/// before it led.
pub open spec fn leads_to(nodes: Seq<NodeView>, steps: Seq<(u32, u32)>, stop: int) -> bool {
    &&& steps.len() == 0 ==> stop == 0
    &&& steps.len() > 0 ==> steps[0].0 == 0 && child_of(nodes, steps.last()) == stop
    &&& forall|t: int, u: int|
        #![trigger steps[t], steps[u]]
        0 <= t && u == t + 1 && u < steps.len() ==> child_of(nodes, steps[t]) == steps[u].0
}

pub open spec fn nodes_wf(nodes: Seq<NodeView>) -> bool {
    &&& 1 <= nodes.len() <= NO_NODE
    &&& forall|i: int| 0 <= i < nodes.len() ==> (#[trigger] nodes[i]).wf()
}

/// Every link leads to a node, and none leads to the root.
pub open spec fn links_wf(nodes: Seq<NodeView>) -> bool {
    forall|i: int, e: int|
        0 <= i < nodes.len() && 0 <= e < nodes[i].children.len() ==> {
            let child = #[trigger] nodes[i].children[e];
            child == NO_NODE || 0 < child < nodes.len()
        }
}

/// Every link leads further into the game, so no descent comes back to a node
/// it has been at.
pub open spec fn progress_wf(nodes: Seq<NodeView>) -> bool {
    forall|i: int, e: int|
        0 <= i < nodes.len() && 0 <= e < nodes[i].children.len() ==> {
            let child = #[trigger] nodes[i].children[e];
            child == NO_NODE || nodes[i].state.precedes(nodes[child as int].state)
        }
}

/// An edge that has carried a visit has a node behind it.
pub open spec fn carried_wf(nodes: Seq<NodeView>) -> bool {
    forall|i: int, e: int|
        0 <= i < nodes.len() && 0 <= e < nodes[i].children.len() && nodes[i].n[e] > 0
            ==> #[trigger] nodes[i].children[e] != NO_NODE
}

/// Every other position lies further into the game than the root's.
pub open spec fn below_wf(nodes: Seq<NodeView>) -> bool {
    forall|i: int| 1 <= i < nodes.len() ==> nodes[0].state.precedes((#[trigger] nodes[i]).state)
}

/// The path takes only edges with a node behind them, and the virtual loss on
/// an edge is exactly how often the path takes it.
pub open spec fn flight_wf(nodes: Seq<NodeView>, path: Seq<(u32, u32)>) -> bool {
    &&& forall|t: int| 0 <= t < path.len() ==> walkable(nodes, #[trigger] path[t])
    &&& forall|i: int, e: int|
        0 <= i < nodes.len() && 0 <= e < nodes[i].vl.len() ==> #[trigger] nodes[i].vl[e] == walks(
            path,
            i,
            e,
        )
    &&& forall|i: int|
        0 <= i < nodes.len() ==> (#[trigger] nodes[i]).vl_visits == departures(path, i)
}

/// The root is finished or expanded, and no descent ends at it unless it is
/// finished.
pub open spec fn root_wf(nodes: Seq<NodeView>, leaves: Seq<Leaf>) -> bool {
    &&& nodes[0].settled()
    &&& !nodes[0].pending
    &&& forall|s: int|
        0 <= s < leaves.len() && (#[trigger] leaves[s]).node == 0 ==> leaves[s].value is Terminal
}

/// A node is pending exactly while one leaf waits for its value.
pub open spec fn leaves_wf(nodes: Seq<NodeView>, leaves: Seq<Leaf>) -> bool {
    &&& forall|s: int|
        0 <= s < leaves.len() ==> {
            let leaf = #[trigger] leaves[s];
            &&& leaf.node < nodes.len()
            &&& leaf.value is Waiting ==> nodes[leaf.node as int].pending
            &&& leaf.value is Evaluated ==> nodes[leaf.node as int].expanded
            &&& leaf.value matches LeafValue::Terminal(value) ==> {
                &&& nodes[leaf.node as int].terminal
                &&& nodes[leaf.node as int].terminal_value == value
            }
        }
    &&& forall|s: int, r: int|
        0 <= s < r < leaves.len() && (#[trigger] leaves[s]).value is Waiting && (
        #[trigger] leaves[r]).value is Waiting ==> leaves[s].node != leaves[r].node
    &&& forall|i: int|
        0 <= i < nodes.len() && (#[trigger] nodes[i]).pending ==> exists|s: int|
            0 <= s < leaves.len() && (#[trigger] leaves[s]).node == i && leaves[s].value
                is Waiting
}

/// The descents cut the path, from its start, into slices without gaps.
pub open spec fn descents_wf(descents: Seq<Descent>, steps: int, leaves: int) -> bool {
    &&& descents.len() > 0 ==> descents[0].start == 0
    &&& forall|d: int|
        0 <= d < descents.len() ==> {
            let descent = #[trigger] descents[d];
            &&& descent.start <= descent.end <= steps
            &&& descent.leaf < leaves
        }
    &&& forall|c: int, d: int|
        #![trigger descents[c], descents[d]]
        0 <= c && d == c + 1 && d < descents.len() ==> descents[d].start == descents[c].end
}

/// Each closed descent leads from the root to its leaf.
pub open spec fn routes_wf(
    nodes: Seq<NodeView>,
    path: Seq<(u32, u32)>,
    descents: Seq<Descent>,
    leaves: Seq<Leaf>,
) -> bool {
    forall|d: int|
        0 <= d < descents.len() ==> {
            let descent = #[trigger] descents[d];
            leads_to(
                nodes,
                path.subrange(descent.start as int, descent.end as int),
                leaves[descent.leaf as int].node as int,
            )
        }
}

/// The index names, for the key of every node but the root, a node with that
/// key; the root is never in it.
pub open spec fn index_wf(nodes: Seq<NodeView>, dag: bool, index: Map<u64, u32>) -> bool {
    &&& !dag ==> index == Map::<u64, u32>::empty()
    &&& forall|k: u64| #[trigger]
        index.contains_key(k) ==> 0 < index[k] < nodes.len() && nodes[index[k] as int].state.hash
            == k
    &&& dag ==> forall|i: int|
        1 <= i < nodes.len() ==> index.contains_key((#[trigger] nodes[i]).state.hash)
}

/// Without a key collision, no two nodes below the root hold one position.
pub open spec fn distinct_wf(nodes: Seq<NodeView>, dag: bool, key_collisions: u64) -> bool {
    dag && key_collisions == 0 ==> forall|i: int, j: int|
        1 <= i < j < nodes.len() ==> (#[trigger] nodes[i]).state.hash != (
        #[trigger] nodes[j]).state.hash
}

impl TreeView {
    /// Where the descent under way started on the path.
    pub open spec fn open_start(self) -> int {
        if self.descents.len() == 0 {
            0
        } else {
            self.descents.last().end as int
        }
    }

    /// The steps of the descent under way.
    pub open spec fn open_steps(self) -> Seq<(u32, u32)> {
        self.path.subrange(self.open_start(), self.path.len() as int)
    }

    /// What holds of the tree whatever the descent under way is doing.
    pub open spec fn base(self) -> bool {
        &&& nodes_wf(self.nodes)
        &&& root_wf(self.nodes, self.leaves)
        &&& links_wf(self.nodes)
        &&& progress_wf(self.nodes)
        &&& below_wf(self.nodes)
        &&& carried_wf(self.nodes)
        &&& flight_wf(self.nodes, self.path)
        &&& leaves_wf(self.nodes, self.leaves)
        &&& descents_wf(self.descents, self.path.len() as int, self.leaves.len() as int)
        &&& routes_wf(self.nodes, self.path, self.descents, self.leaves)
        &&& index_wf(self.nodes, self.dag, self.index)
        &&& distinct_wf(self.nodes, self.dag, self.key_collisions)
        &&& self.plan matches Some(plan) ==> {
            &&& plan.wf()
            &&& plan.edges == self.nodes[0].actions.len()
            &&& plan.phase + plan.alive.len() <= 65_536
            &&& self.nodes[0].expanded
        }
    }

    /// Every node but `id` is settled.
    pub open spec fn settled_but(self, id: int) -> bool {
        forall|i: int| 0 <= i < self.nodes.len() && i != id ==> (#[trigger] self.nodes[i]).settled()
    }

    /// A descent has just arrived at node `id`.
    pub open spec fn moving(self, id: int) -> bool {
        &&& self.base()
        &&& 0 <= id < self.nodes.len()
        &&& self.settled_but(id)
        &&& leads_to(self.nodes, self.open_steps(), id)
    }

    /// A leaf of `value` at node `id` may end the descent under way.
    pub open spec fn ready_to_record(self, id: int, value: LeafValue) -> bool {
        &&& TreeView { leaves: self.leaves.push(Leaf { node: id as u32, value }), ..self }.base()
        &&& descents_wf(self.descents, self.path.len() as int, self.leaves.len() as int)
        &&& routes_wf(self.nodes, self.path, self.descents, self.leaves)
        &&& 0 <= id < self.nodes.len()
        &&& self.settled_but(-1)
        &&& leads_to(self.nodes, self.open_steps(), id)
    }

    /// What holds of the tree between any two calls.
    pub open spec fn wf(self) -> bool {
        &&& self.base()
        &&& self.settled_but(-1)
        &&& match self.cursor {
            Cursor::Idle => self.open_start() == self.path.len(),
            Cursor::Choosing { node } => {
                &&& node < self.nodes.len()
                &&& self.nodes[node as int].expanded
                &&& leads_to(self.nodes, self.open_steps(), node as int)
            },
            Cursor::Applying { node, edge } => {
                &&& node < self.nodes.len()
                &&& self.nodes[node as int].expanded
                &&& edge < self.nodes[node as int].children.len()
                &&& self.nodes[node as int].children[edge as int] == NO_NODE
                &&& leads_to(self.nodes, self.open_steps(), node as int)
            },
        }
    }

    /// No round is under way.
    pub open spec fn resting(self) -> bool {
        &&& self.cursor is Idle
        &&& self.path.len() == 0
        &&& self.descents.len() == 0
        &&& self.leaves.len() == 0
    }

    /// The counters have room for one more step through node `id`.
    pub open spec fn room_at(self, id: int) -> bool {
        &&& self.nodes[id].visits + self.nodes[id].vl_visits < u32::MAX
        &&& self.nodes.len() < NO_NODE
        &&& self.merges < u64::MAX
        &&& self.key_collisions < u64::MAX
        &&& self.path.len() < usize::MAX
        &&& self.leaves.len() < usize::MAX
        &&& self.descents.len() < usize::MAX
    }

    /// The descent under way ends at the leaf in `slot`.
    pub open spec fn closed_at(self, slot: int) -> TreeView {
        TreeView {
            descents: self.descents.push(
                Descent {
                    start: self.open_start() as usize,
                    end: self.path.len() as usize,
                    leaf: slot as usize,
                },
            ),
            cursor: Cursor::Idle,
            ..self
        }
    }

    /// The descent under way ends at a newly collected leaf.
    pub open spec fn recorded(self, id: int, value: LeafValue) -> TreeView {
        let slot = self.leaves.len() as int;
        TreeView {
            leaves: self.leaves.push(Leaf { node: id as u32, value }),
            ..self
        }.closed_at(slot)
    }

    /// The tree with one node replaced.
    pub open spec fn with_node(self, id: int, node: NodeView) -> TreeView {
        TreeView { nodes: self.nodes.update(id, node), ..self }
    }

    /// What arriving at node `id` does. A finished node is a leaf worth its
    /// outcome. A node already collected in this round is shared with the
    /// descent that collected it. A new node gets its edges and is collected,
    /// or is stuck. Anything else needs an edge chosen.
    pub open spec fn arrived(self, id: int) -> TreeView {
        let node = self.nodes[id];
        if node.terminal {
            self.recorded(id, LeafValue::Terminal(node.terminal_value))
        } else if node.pending {
            self.closed_at(waiting_slot(self.leaves, id))
        } else if node.expanded {
            TreeView { cursor: Cursor::Choosing { node: id as u32 }, ..self }
        } else if node.state.legal_actions.len() == 0 {
            self.with_node(id, stuck(node)).recorded(
                id,
                LeafValue::Terminal(outcome_value(node.state)),
            )
        } else {
            self.with_node(id, NodeView { pending: true, ..with_edges(node) }).recorded(
                id,
                LeafValue::Waiting,
            )
        }
    }

    /// One more step on the path, and one more descent in flight on its edge.
    pub open spec fn walked(self, id: int, edge: int) -> TreeView {
        let node = self.nodes[id];
        TreeView {
            nodes: self.nodes.update(
                id,
                NodeView {
                    vl: node.vl.update(edge, (node.vl[edge] + 1) as u32),
                    vl_visits: (node.vl_visits + 1) as u32,
                    ..node
                },
            ),
            path: self.path.push((id as u32, edge as u32)),
            ..self
        }
    }

    /// Edge `edge` of node `id` leads to `child` from now on.
    pub open spec fn pointed(self, id: int, edge: int, child: int) -> TreeView {
        let node = self.nodes[id];
        self.with_node(id, NodeView { children: node.children.update(edge, child as u32), ..node })
    }

    /// The index names a node with the key of `next`.
    pub open spec fn hit(self, next: StateView) -> bool {
        self.dag && self.index.contains_key(next.hash)
    }

    /// The index names a node that holds `next` itself.
    pub open spec fn merging(self, next: StateView) -> bool {
        self.hit(next) && self.nodes[self.index[next.hash] as int].state == next
    }

    /// The node `next` is linked to: the one that already holds it, or a new
    /// one.
    pub open spec fn link_target(self, next: StateView) -> int {
        if self.merging(next) {
            self.index[next.hash] as int
        } else {
            self.nodes.len() as int
        }
    }

    /// Linking edge `edge` of node `id` to the position `next`. A key that is
    /// taken by another position is counted and costs a duplicate node, never
    /// a merge; the first node with a key keeps it.
    pub open spec fn linked(self, id: int, edge: int, next: StateView) -> TreeView {
        if self.merging(next) {
            TreeView { merges: (self.merges + 1) as u64, ..self }.pointed(
                id,
                edge,
                self.link_target(next),
            )
        } else {
            TreeView {
                nodes: self.nodes.push(fresh(next)),
                key_collisions: if self.hit(next) {
                    (self.key_collisions + 1) as u64
                } else {
                    self.key_collisions
                },
                index: if self.dag && !self.hit(next) {
                    self.index.insert(next.hash, self.nodes.len() as u32)
                } else {
                    self.index
                },
                ..self
            }.pointed(id, edge, self.link_target(next))
        }
    }

    /// Taking edge `edge` at node `id`: on to the node behind it, or, where
    /// there is none, the position behind it has to be supplied.
    pub open spec fn took_edge(self, id: int, edge: int) -> TreeView {
        let child = self.nodes[id].children[edge];
        if child == NO_NODE {
            TreeView { cursor: Cursor::Applying { node: id as u32, edge: edge as u32 }, ..self }
        } else {
            self.walked(id, edge).arrived(child as int)
        }
    }

    /// Supplying the position behind edge `edge` of node `id`.
    pub open spec fn supplied(self, id: int, edge: int, next: StateView) -> TreeView {
        self.linked(id, edge, next).walked(id, edge).arrived(self.link_target(next))
    }

    /// The root's edge is dictated by the schedule.
    pub open spec fn scheduled(self) -> bool {
        self.plan is Some && self.nodes[0].expanded
    }

    /// Starting a descent at the root.
    pub open spec fn began(self) -> TreeView {
        if self.scheduled() {
            let plan = self.plan->0;
            TreeView { plan: Some(plan.took()), ..self }.took_edge(0, plan.next_edge() as int)
        } else {
            self.arrived(0)
        }
    }

    /// Every waiting leaf evaluated, and its node expanded.
    pub open spec fn evaluated(self) -> TreeView {
        TreeView {
            nodes: Seq::new(
                self.nodes.len(),
                |i: int|
                    if self.nodes[i].pending {
                        NodeView { pending: false, expanded: true, ..self.nodes[i] }
                    } else {
                        self.nodes[i]
                    },
            ),
            leaves: Seq::new(
                self.leaves.len(),
                |s: int|
                    if self.leaves[s].value is Waiting {
                        Leaf { value: LeafValue::Evaluated, ..self.leaves[s] }
                    } else {
                        self.leaves[s]
                    },
            ),
            ..self
        }
    }

    /// Every collected descent credited and the round cleared.
    pub open spec fn backed_up(self) -> TreeView {
        TreeView {
            nodes: Seq::new(self.nodes.len(), |i: int| landed(self.nodes[i])),
            sims: (self.sims + self.descents.len()) as u64,
            path: Seq::empty(),
            descents: Seq::empty(),
            leaves: Seq::empty(),
            ..self
        }
    }

    /// `credits` names, step by step, the edge that was taken and the leaf of
    /// the descent that took it.
    pub open spec fn credited(self, credits: Seq<Credit>) -> bool {
        &&& credits.len() == self.path.len()
        &&& forall|d: int, t: int|
            #![trigger self.descents[d], credits[t]]
            0 <= d < self.descents.len() && self.descents[d].start <= t < self.descents[d].end
                ==> credits[t] == (Credit {
                node: self.path[t].0,
                edge: self.path[t].1,
                leaf: self.descents[d].leaf,
            })
    }
}

// ------------------------------------------------------------------- sums

pub proof fn total_update(column: Seq<u32>, e: int, value: u32)
    requires
        0 <= e < column.len(),
    ensures
        total(column.update(e, value)) == total(column) - column[e] + value,
    decreases column.len(),
{
    let changed = column.update(e, value);
    if e == column.len() - 1 {
        assert(changed.drop_last() =~= column.drop_last());
    } else {
        assert(changed.drop_last() =~= column.drop_last().update(e, value));
        total_update(column.drop_last(), e, value);
    }
}

pub proof fn total_bounds(column: Seq<u32>, e: int)
    requires
        0 <= e < column.len(),
    ensures
        column[e] <= total(column),
    decreases column.len(),
{
    total_nonnegative(column.drop_last());
    if e < column.len() - 1 {
        total_bounds(column.drop_last(), e);
    }
}

pub proof fn total_nonnegative(column: Seq<u32>)
    ensures
        0 <= total(column),
    decreases column.len(),
{
    if column.len() > 0 {
        total_nonnegative(column.drop_last());
    }
}

pub proof fn total_of_zeros(column: Seq<u32>)
    requires
        forall|e: int| 0 <= e < column.len() ==> #[trigger] column[e] == 0,
    ensures
        total(column) == 0,
    decreases column.len(),
{
    if column.len() > 0 {
        total_of_zeros(column.drop_last());
    }
}

pub proof fn total_of_pairs(a: Seq<u32>, b: Seq<u32>, sums: Seq<u32>)
    requires
        a.len() == b.len(),
        sums.len() == a.len(),
        forall|e: int| 0 <= e < a.len() ==> #[trigger] sums[e] == a[e] + b[e],
    ensures
        total(sums) == total(a) + total(b),
    decreases a.len(),
{
    if a.len() > 0 {
        total_of_pairs(a.drop_last(), b.drop_last(), sums.drop_last());
    }
}

// ------------------------------------------------- arriving, walking, linking

/// A leaf that waits for a node is where [`waiting_slot`] says.
pub proof fn waiting_slot_is(nodes: Seq<NodeView>, leaves: Seq<Leaf>, id: int, slot: int)
    requires
        leaves_wf(nodes, leaves),
        0 <= slot < leaves.len(),
        leaves[slot].node == id,
        leaves[slot].value is Waiting,
    ensures
        waiting_slot(leaves, id) == slot,
{
    let other = waiting_slot(leaves, id);
    if other < slot {
        assert(leaves[other].node != leaves[slot].node);
    } else if slot < other {
        assert(leaves[slot].node != leaves[other].node);
    }
}

/// Closing the descent under way at a leaf of its own node.
proof fn closing_keeps(v: TreeView, id: int, slot: int)
    requires
        v.moving(id),
        v.settled_but(-1),
        0 <= slot < v.leaves.len(),
        v.leaves[slot].node == id,
        v.path.len() <= usize::MAX,
        v.leaves.len() <= usize::MAX,
    ensures
        v.closed_at(slot).wf(),
        v.closed_at(slot).cursor is Idle,
{
    let w = v.closed_at(slot);
    let start = v.open_start();
    assert(0 <= start <= v.path.len()) by {
        if v.descents.len() > 0 {
            let last = v.descents[v.descents.len() - 1];
            assert(v.descents.last() == last);
        }
    }
    assert forall|d: int| 0 <= d < w.descents.len() implies {
        let descent = #[trigger] w.descents[d];
        &&& descent.start <= descent.end <= w.path.len()
        &&& descent.leaf < w.leaves.len()
    } by {
        if d < v.descents.len() {
            assert(w.descents[d] == v.descents[d]);
        }
    }
    assert forall|c: int, d: int|
        #![trigger w.descents[c], w.descents[d]]
        0 <= c && d == c + 1 && d < w.descents.len() implies w.descents[d].start
        == w.descents[c].end by {
        assert(w.descents[c] == v.descents[c]);
        if d < v.descents.len() {
            assert(w.descents[d] == v.descents[d]);
        }
    }
    if v.descents.len() > 0 {
        assert(w.descents[0] == v.descents[0]);
    }
    assert forall|d: int| 0 <= d < w.descents.len() implies {
        let descent = #[trigger] w.descents[d];
        leads_to(
            w.nodes,
            w.path.subrange(descent.start as int, descent.end as int),
            w.leaves[descent.leaf as int].node as int,
        )
    } by {
        if d < v.descents.len() {
            assert(w.descents[d] == v.descents[d]);
        } else {
            assert(w.path.subrange(
                w.descents[d].start as int,
                w.descents[d].end as int,
            ) =~= v.open_steps());
        }
    }
}

/// Adding a leaf keeps everything that speaks of the leaves before it.
proof fn recording_keeps(v: TreeView, id: int, value: LeafValue)
    requires
        v.ready_to_record(id, value),
        v.path.len() <= usize::MAX,
        v.leaves.len() < usize::MAX,
    ensures
        v.recorded(id, value).wf(),
        v.recorded(id, value).cursor is Idle,
{
    let slot = v.leaves.len() as int;
    let w = TreeView { leaves: v.leaves.push(Leaf { node: id as u32, value }), ..v };
    assert(w.open_steps() =~= v.open_steps());
    closing_keeps(w, id, slot);
}

/// The routes of the closed descents do not see a leaf collected later.
proof fn routes_ignore_later_leaves(v: TreeView, leaf: Leaf)
    requires
        descents_wf(v.descents, v.path.len() as int, v.leaves.len() as int),
        routes_wf(v.nodes, v.path, v.descents, v.leaves),
    ensures
        descents_wf(v.descents, v.path.len() as int, v.leaves.push(leaf).len() as int),
        routes_wf(v.nodes, v.path, v.descents, v.leaves.push(leaf)),
{
    let leaves = v.leaves.push(leaf);
    assert forall|d: int| 0 <= d < v.descents.len() implies {
        let descent = #[trigger] v.descents[d];
        leads_to(
            v.nodes,
            v.path.subrange(descent.start as int, descent.end as int),
            leaves[descent.leaf as int].node as int,
        )
    } by {
        assert(leaves[v.descents[d].leaf as int] == v.leaves[v.descents[d].leaf as int]);
    }
}

/// A route that keeps its links leads where it led.
proof fn steps_survive(
    before: Seq<NodeView>,
    after: Seq<NodeView>,
    steps: Seq<(u32, u32)>,
    stop: int,
)
    requires
        leads_to(before, steps, stop),
        forall|t: int|
            0 <= t < steps.len() ==> child_of(after, #[trigger] steps[t]) == child_of(
                before,
                steps[t],
            ),
    ensures
        leads_to(after, steps, stop),
{
    if steps.len() > 0 {
        assert(steps.last() == steps[steps.len() - 1]);
    }
    assert forall|t: int, u: int|
        #![trigger steps[t], steps[u]]
        0 <= t && u == t + 1 && u < steps.len() implies child_of(after, steps[t]) == steps[u].0 by {
        assert(child_of(before, steps[t]) == steps[u].0);
    }
}

/// Arriving anywhere leaves the tree well formed.
pub proof fn arriving_keeps(v: TreeView, id: int)
    requires
        v.moving(id),
        v.path.len() <= usize::MAX,
        v.leaves.len() < usize::MAX,
    ensures
        v.arrived(id).wf(),
        v.arrived(id).cursor !is Applying,
{
    let node = v.nodes[id];
    if node.terminal {
        let leaves = v.leaves.push(
            Leaf { node: id as u32, value: LeafValue::Terminal(node.terminal_value) },
        );
        assert(leaves_wf(v.nodes, leaves)) by {
            leaf_pushed(v.nodes, v.leaves, leaves.last());
        }
        routes_ignore_later_leaves(v, leaves.last());
        recording_keeps(v, id, LeafValue::Terminal(node.terminal_value));
    } else if node.pending {
        let slot = choose|s: int|
            0 <= s < v.leaves.len() && (#[trigger] v.leaves[s]).node == id && v.leaves[s].value
                is Waiting;
        waiting_slot_is(v.nodes, v.leaves, id, slot);
        closing_keeps(v, id, slot);
    } else if node.expanded {
    } else {
        let none = node.state.legal_actions.len() == 0;
        let changed = if none {
            stuck(node)
        } else {
            NodeView { pending: true, ..with_edges(node) }
        };
        let value = if none {
            LeafValue::Terminal(outcome_value(node.state))
        } else {
            LeafValue::Waiting
        };
        let w = v.with_node(id, changed);
        opening_keeps(v, id, changed, value);
        recording_keeps(w, id, value);
    }
}

/// Pushing a leaf that waits for nothing.
proof fn leaf_pushed(nodes: Seq<NodeView>, leaves: Seq<Leaf>, leaf: Leaf)
    requires
        leaves_wf(nodes, leaves),
        leaf.node < nodes.len(),
        leaf.value matches LeafValue::Terminal(value) && nodes[leaf.node as int].terminal
            && nodes[leaf.node as int].terminal_value == value,
    ensures
        leaves_wf(nodes, leaves.push(leaf)),
{
    let grown = leaves.push(leaf);
    assert forall|i: int| 0 <= i < nodes.len() && (#[trigger] nodes[i]).pending implies exists|
        s: int,
    | 0 <= s < grown.len() && (#[trigger] grown[s]).node == i && grown[s].value is Waiting by {
        let s = choose|s: int|
            0 <= s < leaves.len() && (#[trigger] leaves[s]).node == i && leaves[s].value
                is Waiting;
        assert(grown[s] == leaves[s]);
    }
}

/// The two arenas agree on everything but statistics and flags.
pub open spec fn same_links(a: Seq<NodeView>, b: Seq<NodeView>) -> bool {
    &&& a.len() == b.len()
    &&& forall|i: int|
        0 <= i < a.len() ==> (#[trigger] b[i]).state == a[i].state && b[i].children
            == a[i].children
}

/// The two arenas agree on every flag.
pub open spec fn same_flags(a: Seq<NodeView>, b: Seq<NodeView>) -> bool {
    &&& a.len() == b.len()
    &&& forall|i: int|
        0 <= i < a.len() ==> {
            &&& (#[trigger] b[i]).terminal == a[i].terminal
            &&& b[i].terminal_value == a[i].terminal_value
            &&& b[i].expanded == a[i].expanded
            &&& b[i].pending == a[i].pending
        }
}

/// Links that were kept, or cut, still lead to nodes.
proof fn links_keep(a: Seq<NodeView>, b: Seq<NodeView>)
    requires
        links_wf(a),
        a.len() <= b.len(),
        forall|i: int, e: int|
            0 <= i < b.len() && 0 <= e < b[i].children.len() ==> {
                let child = #[trigger] b[i].children[e];
                ||| child == NO_NODE
                ||| 0 < child < b.len()
                ||| i < a.len() && e < a[i].children.len() && child == a[i].children[e]
            },
    ensures
        links_wf(b),
{
    assert forall|i: int, e: int| 0 <= i < b.len() && 0 <= e < b[i].children.len() implies {
        let child = #[trigger] b[i].children[e];
        child == NO_NODE || 0 < child < b.len()
    } by {
        let child = b[i].children[e];
        if child != NO_NODE && !(0 < child < b.len()) {
            assert(a[i].children[e] == child);
        }
    }
}

/// Links that were kept, or cut, still lead further into the game.
proof fn below_keeps(a: Seq<NodeView>, b: Seq<NodeView>)
    requires
        below_wf(a),
        1 <= a.len() <= b.len(),
        forall|i: int| 0 <= i < a.len() ==> (#[trigger] b[i]).state == a[i].state,
        forall|i: int| a.len() <= i < b.len() ==> a[0].state.precedes((#[trigger] b[i]).state),
    ensures
        below_wf(b),
{
    assert(b[0].state == a[0].state);
    assert forall|i: int| 1 <= i < b.len() implies b[0].state.precedes((#[trigger] b[i]).state) by {
        if i < a.len() {
            assert(a[0].state.precedes(a[i].state));
        }
    }
}

proof fn progress_keeps(a: Seq<NodeView>, b: Seq<NodeView>)
    requires
        links_wf(a),
        progress_wf(a),
        a.len() <= b.len(),
        forall|i: int| 0 <= i < a.len() ==> (#[trigger] b[i]).state == a[i].state,
        forall|i: int, e: int|
            0 <= i < b.len() && 0 <= e < b[i].children.len() ==> {
                let child = #[trigger] b[i].children[e];
                ||| child == NO_NODE
                ||| i < a.len() && e < a[i].children.len() && child == a[i].children[e]
            },
    ensures
        progress_wf(b),
{
    assert forall|i: int, e: int| 0 <= i < b.len() && 0 <= e < b[i].children.len() implies {
        let child = #[trigger] b[i].children[e];
        child == NO_NODE || b[i].state.precedes(b[child as int].state)
    } by {
        let child = b[i].children[e];
        if child != NO_NODE {
            assert(a[i].children[e] == child);
            assert(b[child as int].state == a[child as int].state);
            assert(b[i].state == a[i].state);
        }
    }
}

proof fn index_keeps(a: Seq<NodeView>, b: Seq<NodeView>, dag: bool, index: Map<u64, u32>)
    requires
        index_wf(a, dag, index),
        a.len() == b.len(),
        forall|i: int| 0 <= i < a.len() ==> (#[trigger] b[i]).state == a[i].state,
    ensures
        index_wf(b, dag, index),
{
    if dag {
        assert forall|i: int| 1 <= i < b.len() implies index.contains_key(
            (#[trigger] b[i]).state.hash,
        ) by {
            assert(b[i].state == a[i].state);
        }
    }
}

proof fn distinct_keeps(a: Seq<NodeView>, b: Seq<NodeView>, dag: bool, key_collisions: u64)
    requires
        distinct_wf(a, dag, key_collisions),
        a.len() == b.len(),
        forall|i: int| 0 <= i < a.len() ==> (#[trigger] b[i]).state == a[i].state,
    ensures
        distinct_wf(b, dag, key_collisions),
{
    if dag && key_collisions == 0 {
        assert forall|i: int, j: int| 1 <= i < j < b.len() implies (
        #[trigger] b[i]).state.hash != (#[trigger] b[j]).state.hash by {
            assert(b[i].state == a[i].state && b[j].state == a[j].state);
            assert(a[i].state.hash != a[j].state.hash);
        }
    }
}

proof fn leaves_keep(a: Seq<NodeView>, b: Seq<NodeView>, leaves: Seq<Leaf>)
    requires
        leaves_wf(a, leaves),
        same_flags(a, b),
    ensures
        leaves_wf(b, leaves),
{
    assert forall|s: int| 0 <= s < leaves.len() implies {
        let leaf = #[trigger] leaves[s];
        &&& leaf.node < b.len()
        &&& leaf.value is Waiting ==> b[leaf.node as int].pending
        &&& leaf.value is Evaluated ==> b[leaf.node as int].expanded
        &&& leaf.value matches LeafValue::Terminal(value) ==> {
            &&& b[leaf.node as int].terminal
            &&& b[leaf.node as int].terminal_value == value
        }
    } by {
        let id = leaves[s].node as int;
        assert(b[id].pending == a[id].pending);
    }
    assert forall|i: int| 0 <= i < b.len() && (#[trigger] b[i]).pending implies exists|s: int|
        0 <= s < leaves.len() && (#[trigger] leaves[s]).node == i && leaves[s].value
            is Waiting by {
        assert(a[i].pending);
    }
}

proof fn open_start_fits(v: TreeView)
    requires
        descents_wf(v.descents, v.path.len() as int, v.leaves.len() as int),
    ensures
        0 <= v.open_start() <= v.path.len(),
{
    if v.descents.len() > 0 {
        assert(v.descents.last() == v.descents[v.descents.len() - 1]);
    }
}

/// The routes of the closed descents outlive a longer path and new links.
proof fn routes_keep(v: TreeView, w: TreeView)
    requires
        routes_wf(v.nodes, v.path, v.descents, v.leaves),
        descents_wf(v.descents, v.path.len() as int, v.leaves.len() as int),
        w.descents == v.descents,
        w.leaves == v.leaves,
        v.path.len() <= w.path.len(),
        forall|t: int| 0 <= t < v.path.len() ==> (#[trigger] w.path[t]) == v.path[t],
        forall|t: int|
            0 <= t < v.path.len() ==> child_of(w.nodes, #[trigger] v.path[t]) == child_of(
                v.nodes,
                v.path[t],
            ),
    ensures
        routes_wf(w.nodes, w.path, w.descents, w.leaves),
        descents_wf(w.descents, w.path.len() as int, w.leaves.len() as int),
{
    assert forall|d: int| 0 <= d < w.descents.len() implies {
        let descent = #[trigger] w.descents[d];
        leads_to(
            w.nodes,
            w.path.subrange(descent.start as int, descent.end as int),
            w.leaves[descent.leaf as int].node as int,
        )
    } by {
        let descent = v.descents[d];
        let steps = v.path.subrange(descent.start as int, descent.end as int);
        assert(w.path.subrange(descent.start as int, descent.end as int) =~= steps);
        assert forall|t: int| 0 <= t < steps.len() implies child_of(w.nodes, #[trigger] steps[t])
            == child_of(v.nodes, steps[t]) by {
            assert(steps[t] == v.path[descent.start + t]);
        }
        steps_survive(v.nodes, w.nodes, steps, v.leaves[descent.leaf as int].node as int);
    }
}

/// So does the route of the descent under way.
proof fn open_route_keeps(v: TreeView, nodes: Seq<NodeView>, stop: int)
    requires
        descents_wf(v.descents, v.path.len() as int, v.leaves.len() as int),
        leads_to(v.nodes, v.open_steps(), stop),
        forall|t: int|
            0 <= t < v.path.len() ==> child_of(nodes, #[trigger] v.path[t]) == child_of(
                v.nodes,
                v.path[t],
            ),
    ensures
        leads_to(nodes, v.open_steps(), stop),
{
    open_start_fits(v);
    let steps = v.open_steps();
    assert forall|t: int| 0 <= t < steps.len() implies child_of(nodes, #[trigger] steps[t])
        == child_of(v.nodes, steps[t]) by {
        assert(steps[t] == v.path[v.open_start() + t]);
    }
    steps_survive(v.nodes, nodes, steps, stop);
}

/// Giving a new node its edges, or finding it stuck, disturbs no descent: no
/// path leads through a node without edges.
proof fn opening_keeps_flight(v: TreeView, id: int, changed: NodeView)
    requires
        nodes_wf(v.nodes),
        flight_wf(v.nodes, v.path),
        0 <= id < v.nodes.len(),
        v.nodes[id].actions.len() == 0,
        changed.vl.len() <= u32::MAX,
        changed.vl_visits == 0,
        forall|e: int| 0 <= e < changed.vl.len() ==> #[trigger] changed.vl[e] == 0,
    ensures
        flight_wf(v.nodes.update(id, changed), v.path),
        forall|t: int|
            0 <= t < v.path.len() ==> child_of(
                v.nodes.update(id, changed),
                #[trigger] v.path[t],
            ) == child_of(v.nodes, v.path[t]),
{
    let nodes = v.nodes.update(id, changed);
    assert(v.nodes[id].wf());
    assert forall|t: int| 0 <= t < v.path.len() implies (#[trigger] v.path[t]).0 != id by {
        assert(walkable(v.nodes, v.path[t]));
    }
    assert forall|t: int| 0 <= t < v.path.len() implies walkable(nodes, #[trigger] v.path[t])
        && child_of(nodes, v.path[t]) == child_of(v.nodes, v.path[t]) by {
        assert(walkable(v.nodes, v.path[t]));
    }
    assert forall|i: int, e: int| 0 <= i < nodes.len() && 0 <= e < nodes[i].vl.len() implies (
    #[trigger] nodes[i].vl[e]) == walks(v.path, i, e) by {
        if i == id {
            let step = (id as u32, e as u32);
            to_multiset_contains(v.path, step);
            if v.path.contains(step) {
                let t = choose|t: int| 0 <= t < v.path.len() && v.path[t] == step;
                assert(v.path[t].0 != id);
            }
        } else {
            assert(v.nodes[i].vl[e] == walks(v.path, i, e));
        }
    }
    no_departures(v.path, id);
    assert forall|i: int| 0 <= i < nodes.len() implies (#[trigger] nodes[i]).vl_visits
        == departures(v.path, i) by {
        if i != id {
            assert(nodes[i] == v.nodes[i]);
        }
    }
}

proof fn no_departures(path: Seq<(u32, u32)>, node: int)
    requires
        forall|t: int| 0 <= t < path.len() ==> (#[trigger] path[t]).0 != node,
    ensures
        departures(path, node) == 0,
    decreases path.len(),
{
    if path.len() > 0 {
        let rest = path.drop_last();
        assert forall|t: int| 0 <= t < rest.len() implies (#[trigger] rest[t]).0 != node by {
            assert(rest[t] == path[t]);
        }
        no_departures(rest, node);
        assert(path.last() == path[path.len() - 1]);
    }
}

proof fn opening_keeps_leaves(
    nodes: Seq<NodeView>,
    leaves: Seq<Leaf>,
    id: int,
    changed: NodeView,
    value: LeafValue,
)
    requires
        leaves_wf(nodes, leaves),
        0 <= id < nodes.len() <= NO_NODE,
        !nodes[id].settled(),
        value is Waiting ==> changed.pending && !changed.terminal,
        value !is Waiting ==> changed.terminal && !changed.pending && value
            == LeafValue::Terminal(changed.terminal_value),
    ensures
        leaves_wf(nodes.update(id, changed), leaves.push(Leaf { node: id as u32, value })),
{
    let after = nodes.update(id, changed);
    let grown = leaves.push(Leaf { node: id as u32, value });
    assert forall|s: int| 0 <= s < leaves.len() implies (#[trigger] leaves[s]).node != id by {
        if leaves[s].node == id {
            assert(nodes[id].pending || nodes[id].expanded || nodes[id].terminal);
        }
    }
    assert forall|s: int| 0 <= s < grown.len() implies {
        let leaf = #[trigger] grown[s];
        &&& leaf.node < after.len()
        &&& leaf.value is Waiting ==> after[leaf.node as int].pending
        &&& leaf.value is Evaluated ==> after[leaf.node as int].expanded
        &&& leaf.value matches LeafValue::Terminal(value) ==> {
            &&& after[leaf.node as int].terminal
            &&& after[leaf.node as int].terminal_value == value
        }
    } by {
        if s < leaves.len() {
            assert(grown[s] == leaves[s]);
        }
    }
    assert forall|s: int, r: int|
        0 <= s < r < grown.len() && (#[trigger] grown[s]).value is Waiting && (
        #[trigger] grown[r]).value is Waiting implies grown[s].node != grown[r].node by {
        assert(grown[s] == leaves[s]);
        if r < leaves.len() {
            assert(grown[r] == leaves[r]);
        }
    }
    assert forall|i: int| 0 <= i < after.len() && (#[trigger] after[i]).pending implies exists|
        s: int,
    | 0 <= s < grown.len() && (#[trigger] grown[s]).node == i && grown[s].value is Waiting by {
        if i == id {
            assert(grown[leaves.len() as int].node == i);
        } else {
            assert(nodes[i].pending);
            let s = choose|s: int|
                0 <= s < leaves.len() && (#[trigger] leaves[s]).node == i && leaves[s].value
                    is Waiting;
            assert(grown[s] == leaves[s]);
        }
    }
}

/// Giving a new node its edges, or finding it stuck.
proof fn opening_keeps(v: TreeView, id: int, changed: NodeView, value: LeafValue)
    requires
        v.moving(id),
        !v.nodes[id].settled(),
        v.nodes[id].state.legal_actions.len() == 0 ==> {
            &&& changed == stuck(v.nodes[id])
            &&& value == LeafValue::Terminal(outcome_value(v.nodes[id].state))
        },
        v.nodes[id].state.legal_actions.len() > 0 ==> {
            &&& changed == (NodeView { pending: true, ..with_edges(v.nodes[id]) })
            &&& value is Waiting
        },
    ensures
        v.with_node(id, changed).ready_to_record(id, value),
{
    let node = v.nodes[id];
    let w = v.with_node(id, changed);
    assert(node.wf());
    assert(changed.wf()) by {
        total_of_zeros(changed.n);
        total_of_zeros(changed.vl);
        assert(node.n =~= Seq::empty() && node.vl =~= Seq::empty());
    }
    opening_keeps_flight(v, id, changed);
    opening_keeps_leaves(v.nodes, v.leaves, id, changed, value);
    links_keep(v.nodes, w.nodes);
    progress_keeps(v.nodes, w.nodes);
    below_keeps(v.nodes, w.nodes);
    index_keeps(v.nodes, w.nodes, v.dag, v.index);
    distinct_keeps(v.nodes, w.nodes, v.dag, v.key_collisions);
    routes_keep(v, w);
    open_route_keeps(v, w.nodes, id);
    routes_ignore_later_leaves(w, Leaf { node: id as u32, value });
    assert(w.open_steps() =~= v.open_steps());
}

/// Walking an edge adds it to the path and to its own counter only.
proof fn walking_keeps_flight(v: TreeView, id: int, edge: int)
    requires
        nodes_wf(v.nodes),
        flight_wf(v.nodes, v.path),
        0 <= id < v.nodes.len(),
        0 <= edge < v.nodes[id].children.len(),
        v.nodes[id].children[edge] != NO_NODE,
        v.nodes[id].visits + v.nodes[id].vl_visits < u32::MAX,
    ensures
        flight_wf(v.walked(id, edge).nodes, v.walked(id, edge).path),
        nodes_wf(v.walked(id, edge).nodes),
{
    let w = v.walked(id, edge);
    let node = v.nodes[id];
    let step = (id as u32, edge as u32);
    assert(node.wf());
    total_update(node.vl, edge, (node.vl[edge] + 1) as u32);
    total_bounds(node.vl, edge);
    total_nonnegative(node.n);
    assert(w.nodes[id].wf());
    assert forall|i: int| 0 <= i < w.nodes.len() implies (#[trigger] w.nodes[i]).wf() by {
        assert(v.nodes[i].wf());
    }
    assert forall|t: int| 0 <= t < w.path.len() implies walkable(w.nodes, #[trigger] w.path[t]) by {
        if t < v.path.len() {
            assert(w.path[t] == v.path[t]);
            assert(walkable(v.nodes, v.path[t]));
        }
    }
    assert forall|i: int, e: int| 0 <= i < w.nodes.len() && 0 <= e < w.nodes[i].vl.len() implies (
    #[trigger] w.nodes[i].vl[e]) == walks(w.path, i, e) by {
        to_multiset_build(v.path, step);
        assert(v.nodes[i].wf());
        assert(v.nodes[i].vl[e] == walks(v.path, i, e));
        assert((i as u32, e as u32) == step <==> (i == id && e == edge));
    }
    assert(w.path.drop_last() =~= v.path);
    assert forall|i: int| 0 <= i < w.nodes.len() implies (#[trigger] w.nodes[i]).vl_visits
        == departures(w.path, i) by {
        assert(v.nodes[i].vl_visits == departures(v.path, i));
    }
}

/// Walking an edge with a node behind it arrives at that node.
pub proof fn walking_keeps(v: TreeView, id: int, edge: int)
    requires
        v.base(),
        0 <= id < v.nodes.len(),
        v.nodes[id].expanded,
        0 <= edge < v.nodes[id].children.len(),
        v.nodes[id].children[edge] != NO_NODE,
        v.settled_but(v.nodes[id].children[edge] as int),
        leads_to(v.nodes, v.open_steps(), id),
        v.nodes[id].visits + v.nodes[id].vl_visits < u32::MAX,
    ensures
        v.walked(id, edge).moving(v.nodes[id].children[edge] as int),
{
    let w = v.walked(id, edge);
    let child = v.nodes[id].children[edge] as int;
    let step = (id as u32, edge as u32);
    assert(v.nodes[id].children[edge] == NO_NODE || 0 < child < v.nodes.len());
    walking_keeps_flight(v, id, edge);
    assert(same_links(v.nodes, w.nodes));
    assert(same_flags(v.nodes, w.nodes));
    links_keep(v.nodes, w.nodes);
    progress_keeps(v.nodes, w.nodes);
    below_keeps(v.nodes, w.nodes);
    index_keeps(v.nodes, w.nodes, v.dag, v.index);
    distinct_keeps(v.nodes, w.nodes, v.dag, v.key_collisions);
    leaves_keep(v.nodes, w.nodes, v.leaves);
    assert forall|t: int| 0 <= t < v.path.len() implies child_of(w.nodes, #[trigger] v.path[t])
        == child_of(v.nodes, v.path[t]) by {
        assert(walkable(v.nodes, v.path[t]));
    }
    routes_keep(v, w);
    open_route_keeps(v, w.nodes, id);
    assert(w.settled_but(child)) by {
        assert forall|i: int| 0 <= i < w.nodes.len() && i != child implies (
        #[trigger] w.nodes[i]).settled() by {
            assert(v.nodes[i].settled());
        }
    }
    assert(leads_to(w.nodes, w.open_steps(), child)) by {
        open_start_fits(v);
        let before = v.open_steps();
        let after = w.open_steps();
        assert(after =~= before.push(step));
        route_extends(w.nodes, before, step, id);
    }
}

/// A route to where a step starts, with the step, is a route to where it leads.
proof fn route_extends(nodes: Seq<NodeView>, steps: Seq<(u32, u32)>, step: (u32, u32), at: int)
    requires
        leads_to(nodes, steps, at),
        step.0 == at,
    ensures
        leads_to(nodes, steps.push(step), child_of(nodes, step) as int),
{
    let after = steps.push(step);
    assert forall|t: int, u: int|
        #![trigger after[t], after[u]]
        0 <= t && u == t + 1 && u < after.len() implies child_of(nodes, after[t])
        == after[u].0 by {
        assert(after[t] == steps[t]);
        if u < steps.len() {
            assert(after[u] == steps[u]);
        } else {
            assert(steps.last() == steps[t]);
        }
    }
    if steps.len() > 0 {
        assert(after[0] == steps[0]);
    }
}

/// The tree after a new node for `next` was added, before anything leads to it.
pub open spec fn with_fresh(v: TreeView, next: StateView) -> TreeView {
    TreeView {
        nodes: v.nodes.push(fresh(next)),
        key_collisions: if v.hit(next) {
            (v.key_collisions + 1) as u64
        } else {
            v.key_collisions
        },
        index: if v.dag && !v.hit(next) {
            v.index.insert(next.hash, v.nodes.len() as u32)
        } else {
            v.index
        },
        ..v
    }
}

proof fn adding_keeps_index(v: TreeView, next: StateView)
    requires
        index_wf(v.nodes, v.dag, v.index),
        distinct_wf(v.nodes, v.dag, v.key_collisions),
        1 <= v.nodes.len() < NO_NODE,
        v.key_collisions < u64::MAX,
    ensures
        ({
            let w = with_fresh(v, next);
            &&& index_wf(w.nodes, w.dag, w.index)
            &&& distinct_wf(w.nodes, w.dag, w.key_collisions)
        }),
{
    let w = with_fresh(v, next);
    let last = v.nodes.len() as int;
    assert(w.nodes[last] == fresh(next));
    assert forall|i: int| 0 <= i < last implies w.nodes[i] == v.nodes[i] by {}
    assert forall|k: u64| #[trigger] w.index.contains_key(k) implies 0 < w.index[k] < w.nodes.len()
        && w.nodes[w.index[k] as int].state.hash == k by {
        if w.index != v.index && k == next.hash {
            assert(w.index[k] == last);
        } else {
            assert(v.index.contains_key(k));
            assert(w.index[k] == v.index[k]);
            assert(v.index[k] < last);
        }
    }
    if w.dag {
        assert forall|i: int| 1 <= i < w.nodes.len() implies w.index.contains_key(
            (#[trigger] w.nodes[i]).state.hash,
        ) by {
            if i < last {
                assert(v.index.contains_key(v.nodes[i].state.hash));
            }
        }
        if w.key_collisions == 0 {
            assert(!v.hit(next));
            assert forall|i: int, j: int| 1 <= i < j < w.nodes.len() implies (
            #[trigger] w.nodes[i]).state.hash != (#[trigger] w.nodes[j]).state.hash by {
                assert(w.nodes[i] == v.nodes[i]);
                if j < last {
                    assert(w.nodes[j] == v.nodes[j]);
                } else {
                    assert(v.index.contains_key(v.nodes[i].state.hash));
                }
            }
        }
    }
}

proof fn adding_keeps_flight(v: TreeView, node: NodeView)
    requires
        nodes_wf(v.nodes),
        flight_wf(v.nodes, v.path),
        v.nodes.len() < NO_NODE,
        node.vl.len() == 0,
        node.vl_visits == 0,
    ensures
        flight_wf(v.nodes.push(node), v.path),
        forall|t: int|
            0 <= t < v.path.len() ==> child_of(v.nodes.push(node), #[trigger] v.path[t])
                == child_of(v.nodes, v.path[t]),
{
    let nodes = v.nodes.push(node);
    let last = v.nodes.len() as int;
    assert forall|t: int| 0 <= t < v.path.len() implies walkable(nodes, #[trigger] v.path[t]) && (
    v.path[t]).0 != last && child_of(nodes, v.path[t]) == child_of(v.nodes, v.path[t]) by {
        assert(walkable(v.nodes, v.path[t]));
    }
    assert forall|i: int, e: int| 0 <= i < nodes.len() && 0 <= e < nodes[i].vl.len() implies (
    #[trigger] nodes[i].vl[e]) == walks(v.path, i, e) by {
        assert(v.nodes[i].vl[e] == walks(v.path, i, e));
    }
    no_departures(v.path, last);
    assert forall|i: int| 0 <= i < nodes.len() implies (#[trigger] nodes[i]).vl_visits
        == departures(v.path, i) by {
        if i < last {
            assert(v.nodes[i].vl_visits == departures(v.path, i));
        }
    }
}

proof fn adding_keeps_leaves(nodes: Seq<NodeView>, leaves: Seq<Leaf>, node: NodeView)
    requires
        leaves_wf(nodes, leaves),
        root_wf(nodes, leaves),
        nodes.len() >= 1,
        !node.pending,
    ensures
        leaves_wf(nodes.push(node), leaves),
        root_wf(nodes.push(node), leaves),
{
    let grown = nodes.push(node);
    assert forall|i: int| 0 <= i < grown.len() && (#[trigger] grown[i]).pending implies exists|
        s: int,
    | 0 <= s < leaves.len() && (#[trigger] leaves[s]).node == i && leaves[s].value is Waiting by {
        assert(nodes[i].pending);
    }
    assert forall|s: int| 0 <= s < leaves.len() implies {
        let leaf = #[trigger] leaves[s];
        &&& leaf.node < grown.len()
        &&& grown[leaf.node as int] == nodes[leaf.node as int]
    } by {}
}

proof fn adding_keeps(v: TreeView, next: StateView, id: int)
    requires
        v.base(),
        v.settled_but(-1),
        v.nodes.len() < NO_NODE,
        v.key_collisions < u64::MAX,
        next.wf(),
        v.nodes[0].state.precedes(next),
        leads_to(v.nodes, v.open_steps(), id),
    ensures
        with_fresh(v, next).base(),
        with_fresh(v, next).settled_but(v.nodes.len() as int),
        leads_to(with_fresh(v, next).nodes, with_fresh(v, next).open_steps(), id),
{
    let w = with_fresh(v, next);
    let last = v.nodes.len() as int;
    adding_keeps_index(v, next);
    assert(fresh(next).wf());
    assert(nodes_wf(w.nodes)) by {
        assert forall|i: int| 0 <= i < w.nodes.len() implies (#[trigger] w.nodes[i]).wf() by {
            if i < last {
                assert(v.nodes[i].wf());
            }
        }
    }
    assert forall|i: int, e: int|
        0 <= i < w.nodes.len() && 0 <= e < w.nodes[i].children.len() implies i < last && e
        < v.nodes[i].children.len() && #[trigger] w.nodes[i].children[e]
        == v.nodes[i].children[e] by {
        assert(w.nodes[last] == fresh(next));
    }
    links_keep(v.nodes, w.nodes);
    progress_keeps(v.nodes, w.nodes);
    below_keeps(v.nodes, w.nodes);
    adding_keeps_flight(v, fresh(next));
    adding_keeps_leaves(v.nodes, v.leaves, fresh(next));
    routes_keep(v, w);
    open_route_keeps(v, w.nodes, id);
    assert(w.open_steps() =~= v.open_steps());
    assert forall|i: int| 0 <= i < w.nodes.len() && i != last implies (
    #[trigger] w.nodes[i]).settled() by {
        assert(v.nodes[i].settled());
    }
}

/// Pointing an unlinked edge at a node disturbs nothing that is in flight.
proof fn pointing_keeps(v: TreeView, id: int, edge: int, child: int)
    requires
        v.base(),
        0 <= id < v.nodes.len(),
        0 <= edge < v.nodes[id].children.len(),
        v.nodes[id].children[edge] == NO_NODE,
        0 < child < v.nodes.len(),
        v.nodes[id].state.precedes(v.nodes[child].state),
        leads_to(v.nodes, v.open_steps(), id),
    ensures
        v.pointed(id, edge, child).base(),
        forall|but: int| v.settled_but(but) ==> #[trigger] v.pointed(id, edge, child).settled_but(but),
        leads_to(v.pointed(id, edge, child).nodes, v.pointed(id, edge, child).open_steps(), id),
{
    let w = v.pointed(id, edge, child);
    assert(v.nodes[id].wf());
    assert forall|i: int| 0 <= i < w.nodes.len() implies (#[trigger] w.nodes[i]).wf() by {
        assert(v.nodes[i].wf());
    }
    assert(same_flags(v.nodes, w.nodes));
    links_keep(v.nodes, w.nodes);
    below_keeps(v.nodes, w.nodes);
    assert(progress_wf(w.nodes)) by {
        assert forall|i: int, e: int|
            0 <= i < w.nodes.len() && 0 <= e < w.nodes[i].children.len() implies {
            let child = #[trigger] w.nodes[i].children[e];
            child == NO_NODE || w.nodes[i].state.precedes(w.nodes[child as int].state)
        } by {
            if !(i == id && e == edge) {
                assert(v.nodes[i].children[e] == w.nodes[i].children[e]);
            }
        }
    }
    assert forall|t: int| 0 <= t < v.path.len() implies walkable(w.nodes, #[trigger] v.path[t])
        && child_of(w.nodes, v.path[t]) == child_of(v.nodes, v.path[t]) by {
        assert(walkable(v.nodes, v.path[t]));
    }
    assert(flight_wf(w.nodes, w.path)) by {
        assert forall|i: int, e: int| 0 <= i < w.nodes.len() && 0 <= e < w.nodes[i].vl.len() implies (
        #[trigger] w.nodes[i].vl[e]) == walks(w.path, i, e) by {
            assert(v.nodes[i].vl[e] == walks(v.path, i, e));
        }
        assert forall|i: int| 0 <= i < w.nodes.len() implies (#[trigger] w.nodes[i]).vl_visits
            == departures(w.path, i) by {
            assert(v.nodes[i].vl_visits == departures(v.path, i));
        }
    }
    leaves_keep(v.nodes, w.nodes, v.leaves);
    index_keeps(v.nodes, w.nodes, v.dag, v.index);
    distinct_keeps(v.nodes, w.nodes, v.dag, v.key_collisions);
    routes_keep(v, w);
    open_route_keeps(v, w.nodes, id);
    assert(w.open_steps() =~= v.open_steps());
    assert forall|but: int| v.settled_but(but) implies #[trigger] w.settled_but(but) by {
        assert forall|i: int| 0 <= i < w.nodes.len() && i != but implies (
        #[trigger] w.nodes[i]).settled() by {
            assert(v.nodes[i].settled());
        }
    }
}

/// Linking leaves the tree fit to walk the new link.
pub proof fn linking_keeps(v: TreeView, id: int, edge: int, next: StateView)
    requires
        v.base(),
        v.settled_but(-1),
        0 <= id < v.nodes.len(),
        v.nodes[id].expanded,
        0 <= edge < v.nodes[id].children.len(),
        v.nodes[id].children[edge] == NO_NODE,
        leads_to(v.nodes, v.open_steps(), id),
        next.wf(),
        v.nodes[id].state.precedes(next),
        v.nodes.len() < NO_NODE,
        v.merges < u64::MAX,
        v.key_collisions < u64::MAX,
    ensures
        ({
            let w = v.linked(id, edge, next);
            let child = v.link_target(next);
            &&& w.base()
            &&& w.settled_but(child)
            &&& 0 < child < w.nodes.len()
            &&& w.nodes[child].state == next
            &&& w.nodes[id].children[edge] == child
            &&& w.nodes[id].children.len() == v.nodes[id].children.len()
            &&& w.nodes[id].expanded
            &&& w.nodes[id].visits == v.nodes[id].visits
            &&& w.nodes[id].vl_visits == v.nodes[id].vl_visits
            &&& leads_to(w.nodes, w.open_steps(), id)
        }),
{
    let child = v.link_target(next);
    if v.merging(next) {
        assert(v.index.contains_key(next.hash));
        let counted = TreeView { merges: (v.merges + 1) as u64, ..v };
        assert(counted.open_steps() =~= v.open_steps());
        assert(counted.settled_but(child)) by {
            assert forall|i: int| 0 <= i < v.nodes.len() && i != child implies (
            #[trigger] counted.nodes[i]).settled() by {
                assert(v.nodes[i].settled());
            }
        }
        pointing_keeps(counted, id, edge, child);
        assert(counted.pointed(id, edge, child) == v.linked(id, edge, next));
    } else {
        assert(v.nodes[0].state.precedes(next)) by {
            if id > 0 {
                assert(v.nodes[0].state.precedes(v.nodes[id].state));
            }
        }
        adding_keeps(v, next, id);
        let grown = with_fresh(v, next);
        assert(grown.nodes[id] == v.nodes[id]);
        assert(grown.nodes[child] == fresh(next));
        pointing_keeps(grown, id, edge, child);
        assert(grown.pointed(id, edge, child) == v.linked(id, edge, next));
    }
}

/// Two positions are never welded together: whatever edge a position is linked
/// through, the node behind the edge holds that very position, whether it was
/// already there or is new, and a key that another position has taken is
/// counted instead of merged. The root is never what an edge leads to.
pub proof fn a_link_leads_to_its_own_position(v: TreeView, next: StateView)
    requires
        v.wf(),
        v.cursor matches Cursor::Applying { node, edge },
        next.wf(),
        v.nodes[v.cursor->Applying_node as int].state.precedes(next),
        v.nodes.len() < NO_NODE,
        v.merges < u64::MAX,
        v.key_collisions < u64::MAX,
    ensures
        ({
            let id = v.cursor->Applying_node as int;
            let edge = v.cursor->Applying_edge as int;
            let w = v.linked(id, edge, next);
            let child = w.nodes[id].children[edge] as int;
            &&& 0 < child < w.nodes.len()
            &&& w.nodes[child].state == next
            &&& w.merges + w.key_collisions <= v.merges + v.key_collisions + 1
            &&& w.nodes.len() + w.merges == v.nodes.len() + v.merges + 1
        }),
{
    linking_keeps(v, v.cursor->Applying_node as int, v.cursor->Applying_edge as int, next);
}

// ------------------------------------------------------------ ending a round

/// The counters of an arena that keeps its counters and its links.
proof fn flight_keeps(a: Seq<NodeView>, b: Seq<NodeView>, path: Seq<(u32, u32)>)
    requires
        flight_wf(a, path),
        same_links(a, b),
        forall|i: int|
            0 <= i < a.len() ==> (#[trigger] b[i]).vl == a[i].vl && b[i].vl_visits
                == a[i].vl_visits,
    ensures
        flight_wf(b, path),
{
    assert forall|t: int| 0 <= t < path.len() implies walkable(b, #[trigger] path[t]) by {
        assert(walkable(a, path[t]));
        assert(b[path[t].0 as int].children == a[path[t].0 as int].children);
    }
    assert forall|i: int, e: int| 0 <= i < b.len() && 0 <= e < b[i].vl.len() implies (
    #[trigger] b[i].vl[e]) == walks(path, i, e) by {
        assert(b[i].vl == a[i].vl);
        assert(a[i].vl[e] == walks(path, i, e));
    }
    assert forall|i: int| 0 <= i < b.len() implies (#[trigger] b[i]).vl_visits == departures(
        path,
        i,
    ) by {
        assert(b[i].vl_visits == a[i].vl_visits);
        assert(a[i].vl_visits == departures(path, i));
    }
}

proof fn evaluating_keeps_leaves(v: TreeView)
    requires
        nodes_wf(v.nodes),
        leaves_wf(v.nodes, v.leaves),
        root_wf(v.nodes, v.leaves),
    ensures
        leaves_wf(v.evaluated().nodes, v.evaluated().leaves),
        root_wf(v.evaluated().nodes, v.evaluated().leaves),
{
    let w = v.evaluated();
    assert forall|s: int| 0 <= s < w.leaves.len() implies {
        let leaf = #[trigger] w.leaves[s];
        &&& leaf.node < w.nodes.len()
        &&& leaf.value !is Waiting
        &&& leaf.value is Evaluated ==> w.nodes[leaf.node as int].expanded
        &&& leaf.value matches LeafValue::Terminal(value) ==> {
            &&& w.nodes[leaf.node as int].terminal
            &&& w.nodes[leaf.node as int].terminal_value == value
        }
        &&& leaf.node == 0 ==> leaf.value is Terminal
    } by {
        let leaf = v.leaves[s];
        assert(v.nodes[leaf.node as int].wf());
    }
}

/// Evaluating the waiting leaves leaves no node pending.
pub proof fn evaluating_keeps(v: TreeView)
    requires
        v.wf(),
        v.cursor is Idle,
    ensures
        v.evaluated().wf(),
        v.evaluated().cursor is Idle,
        forall|i: int| 0 <= i < v.nodes.len() ==> !(#[trigger] v.evaluated().nodes[i]).pending,
        forall|s: int|
            0 <= s < v.leaves.len() ==> (#[trigger] v.evaluated().leaves[s]).value !is Waiting,
{
    let w = v.evaluated();
    assert(nodes_wf(w.nodes)) by {
        assert forall|i: int| 0 <= i < w.nodes.len() implies (#[trigger] w.nodes[i]).wf() by {
            assert(v.nodes[i].wf());
        }
    }
    assert(same_links(v.nodes, w.nodes));
    links_keep(v.nodes, w.nodes);
    progress_keeps(v.nodes, w.nodes);
    below_keeps(v.nodes, w.nodes);
    index_keeps(v.nodes, w.nodes, v.dag, v.index);
    distinct_keeps(v.nodes, w.nodes, v.dag, v.key_collisions);
    flight_keeps(v.nodes, w.nodes, v.path);
    evaluating_keeps_leaves(v);
    evaluating_keeps_routes(v);
    assert(w.settled_but(-1)) by {
        assert forall|i: int| 0 <= i < w.nodes.len() && i != -1 implies (
        #[trigger] w.nodes[i]).settled() by {
            assert(v.nodes[i].settled());
        }
    }
    assert(v.nodes[0].wf());
}

proof fn evaluating_keeps_routes(v: TreeView)
    requires
        flight_wf(v.nodes, v.path),
        descents_wf(v.descents, v.path.len() as int, v.leaves.len() as int),
        routes_wf(v.nodes, v.path, v.descents, v.leaves),
    ensures
        routes_wf(v.evaluated().nodes, v.path, v.descents, v.evaluated().leaves),
{
    let w = v.evaluated();
    assert forall|d: int| 0 <= d < w.descents.len() implies {
        let descent = #[trigger] w.descents[d];
        leads_to(
            w.nodes,
            w.path.subrange(descent.start as int, descent.end as int),
            w.leaves[descent.leaf as int].node as int,
        )
    } by {
        let descent = v.descents[d];
        let steps = v.path.subrange(descent.start as int, descent.end as int);
        assert(w.leaves[descent.leaf as int].node == v.leaves[descent.leaf as int].node);
        assert forall|t: int| 0 <= t < steps.len() implies child_of(w.nodes, #[trigger] steps[t])
            == child_of(v.nodes, steps[t]) by {
            assert(steps[t] == v.path[descent.start + t]);
            assert(walkable(v.nodes, v.path[descent.start + t]));
        }
        steps_survive(v.nodes, w.nodes, steps, v.leaves[descent.leaf as int].node as int);
    }
}

/// Backing up leaves nothing in flight, and the tree at rest.
pub proof fn backing_up_keeps(v: TreeView)
    requires
        v.wf(),
        v.cursor is Idle,
        forall|s: int| 0 <= s < v.leaves.len() ==> (#[trigger] v.leaves[s]).value !is Waiting,
    ensures
        v.backed_up().wf(),
        v.backed_up().resting(),
{
    let w = v.backed_up();
    assert forall|i: int| 0 <= i < w.nodes.len() implies (#[trigger] w.nodes[i]).wf()
        && w.nodes[i].state == v.nodes[i].state && w.nodes[i].children == v.nodes[i].children
        && !w.nodes[i].pending by {
        let node = v.nodes[i];
        assert(node.wf());
        assert forall|e: int| 0 <= e < node.n.len() implies #[trigger] w.nodes[i].n[e] == node.n[e]
            + node.vl[e] by {
            total_bounds(node.n, e);
            total_bounds(node.vl, e);
        }
        total_of_pairs(node.n, node.vl, w.nodes[i].n);
        total_of_zeros(w.nodes[i].vl);
        total_nonnegative(node.n);
        total_nonnegative(node.vl);
        if node.pending {
            let s = choose|s: int|
                0 <= s < v.leaves.len() && (#[trigger] v.leaves[s]).node == i && v.leaves[s].value
                    is Waiting;
            assert(v.leaves[s].value !is Waiting);
        }
    }
    links_keep(v.nodes, w.nodes);
    progress_keeps(v.nodes, w.nodes);
    below_keeps(v.nodes, w.nodes);
    index_keeps(v.nodes, w.nodes, v.dag, v.index);
    distinct_keeps(v.nodes, w.nodes, v.dag, v.key_collisions);
    assert(flight_wf(w.nodes, w.path)) by {
        assert forall|i: int, e: int| 0 <= i < w.nodes.len() && 0 <= e < w.nodes[i].vl.len() implies (
        #[trigger] w.nodes[i].vl[e]) == walks(w.path, i, e) by {
            to_multiset_len(w.path);
            let step = (i as u32, e as u32);
            to_multiset_contains(w.path, step);
        }
    }
    assert(carried_wf(w.nodes)) by {
        assert forall|i: int, e: int|
            0 <= i < w.nodes.len() && 0 <= e < w.nodes[i].children.len() && w.nodes[i].n[e]
                > 0 implies #[trigger] w.nodes[i].children[e] != NO_NODE by {
            let node = v.nodes[i];
            assert(node.wf());
            assert(w.nodes[i].children[e] == node.children[e]);
            total_bounds(node.n, e);
            total_bounds(node.vl, e);
            if node.n[e] == 0 {
                let step = (i as u32, e as u32);
                assert(node.vl[e] == walks(v.path, i, e));
                to_multiset_contains(v.path, step);
                let t = choose|t: int| 0 <= t < v.path.len() && v.path[t] == step;
                assert(walkable(v.nodes, v.path[t]));
            }
        }
    }
    assert(w.settled_but(-1)) by {
        assert forall|i: int| 0 <= i < w.nodes.len() && i != -1 implies (
        #[trigger] w.nodes[i]).settled() by {
            assert(v.nodes[i].settled());
        }
    }
}

// ------------------------------------------------------------------- laws

/// A round is all or nothing: at rest no edge carries virtual loss, no node
/// waits for an evaluation, and every node is finished or expanded.
pub proof fn a_round_leaves_no_virtual_loss_behind(v: TreeView)
    requires
        v.wf(),
        v.resting(),
    ensures
        forall|i: int, e: int|
            0 <= i < v.nodes.len() && 0 <= e < v.nodes[i].vl.len() ==> #[trigger] v.nodes[i].vl[e]
                == 0,
        forall|i: int|
            0 <= i < v.nodes.len() ==> {
                &&& (#[trigger] v.nodes[i]).vl_visits == 0
                &&& !v.nodes[i].pending
                &&& (v.nodes[i].terminal || v.nodes[i].expanded)
            },
{
    assert forall|i: int, e: int|
        0 <= i < v.nodes.len() && 0 <= e < v.nodes[i].vl.len() implies #[trigger] v.nodes[i].vl[e]
        == 0 by {
        assert(v.nodes[i].vl[e] == walks(v.path, i, e));
        to_multiset_len(v.path);
        to_multiset_contains(v.path, (i as u32, e as u32));
    }
    assert forall|i: int| 0 <= i < v.nodes.len() implies {
        &&& (#[trigger] v.nodes[i]).vl_visits == 0
        &&& !v.nodes[i].pending
        &&& (v.nodes[i].terminal || v.nodes[i].expanded)
    } by {
        assert(v.nodes[i].vl_visits == departures(v.path, i));
        assert(v.nodes[i].settled());
    }
}

/// How many steps of the path lead to node `node`.
pub open spec fn arrivals(nodes: Seq<NodeView>, path: Seq<(u32, u32)>, node: int) -> int
    decreases path.len(),
{
    if path.len() == 0 {
        0
    } else {
        arrivals(nodes, path.drop_last(), node) + if child_of(nodes, path.last()) == node {
            1int
        } else {
            0int
        }
    }
}

/// How many descents ended at node `node`.
pub open spec fn stops(descents: Seq<Descent>, leaves: Seq<Leaf>, node: int) -> int
    decreases descents.len(),
{
    if descents.len() == 0 {
        0
    } else {
        stops(descents.drop_last(), leaves, node) + if leaves[descents.last().leaf as int].node
            == node {
            1int
        } else {
            0int
        }
    }
}

/// Where a route stands after its first `m` steps.
spec fn standing(nodes: Seq<NodeView>, path: Seq<(u32, u32)>, start: int, m: int) -> int {
    if m == start {
        0
    } else {
        child_of(nodes, path[m - 1]) as int
    }
}

proof fn route_balances(v: TreeView, d: int, m: int, node: int)
    requires
        descents_wf(v.descents, v.path.len() as int, v.leaves.len() as int),
        routes_wf(v.nodes, v.path, v.descents, v.leaves),
        0 <= d < v.descents.len(),
        v.descents[d].start <= m <= v.descents[d].end,
    ensures
        arrivals(v.nodes, v.path.take(m), node) - arrivals(
            v.nodes,
            v.path.take(v.descents[d].start as int),
            node,
        ) + (if node == 0 {
            1int
        } else {
            0int
        }) == departures(v.path.take(m), node) - departures(
            v.path.take(v.descents[d].start as int),
            node,
        ) + (if standing(v.nodes, v.path, v.descents[d].start as int, m) == node {
            1int
        } else {
            0int
        }),
    decreases m - v.descents[d].start,
{
    let descent = v.descents[d];
    let start = descent.start as int;
    if m > start {
        route_balances(v, d, m - 1, node);
        let before = v.path.take(m - 1);
        let after = v.path.take(m);
        assert(after.drop_last() =~= before);
        assert(after.last() == v.path[m - 1]);
        let steps = v.path.subrange(start, descent.end as int);
        assert(leads_to(
            v.nodes,
            steps,
            v.leaves[descent.leaf as int].node as int,
        ));
        assert(steps[m - 1 - start] == v.path[m - 1]);
        if m - 1 > start {
            assert(steps[m - 2 - start] == v.path[m - 2]);
            assert(child_of(v.nodes, steps[m - 2 - start]) == steps[m - 1 - start].0);
        }
    }
}

proof fn rounds_balance(v: TreeView, count: int, node: int)
    requires
        descents_wf(v.descents, v.path.len() as int, v.leaves.len() as int),
        routes_wf(v.nodes, v.path, v.descents, v.leaves),
        0 <= count <= v.descents.len(),
    ensures
        ({
            let end = if count == 0 {
                0
            } else {
                v.descents[count - 1].end as int
            };
            let descents = v.descents.take(count);
            arrivals(v.nodes, v.path.take(end), node) + (if node == 0 {
                count
            } else {
                0int
            }) == departures(v.path.take(end), node) + stops(descents, v.leaves, node)
        }),
    decreases count,
{
    if count > 0 {
        rounds_balance(v, count - 1, node);
        let d = count - 1;
        let descent = v.descents[d];
        route_balances(v, d, descent.end as int, node);
        assert(v.descents.take(count).drop_last() =~= v.descents.take(d));
        assert(v.descents.take(count).last() == descent);
        if d > 0 {
            assert(v.descents[d - 1].end == descent.start);
        }
        let steps = v.path.subrange(descent.start as int, descent.end as int);
        if steps.len() > 0 {
            assert(steps.last() == v.path[descent.end - 1]);
        }
    }
}

/// What arrives at a node in a round either goes on from it or stops at it; at
/// the root it is every descent of the round that goes on or stops.
pub proof fn every_arrival_goes_on_or_stops(v: TreeView, node: int)
    requires
        v.wf(),
        v.cursor is Idle,
        0 <= node < v.nodes.len(),
    ensures
        node > 0 ==> arrivals(v.nodes, v.path, node) == v.nodes[node].vl_visits + stops(
            v.descents,
            v.leaves,
            node,
        ),
        node == 0 ==> v.descents.len() == v.nodes[0].vl_visits + stops(
            v.descents,
            v.leaves,
            0,
        ),
{
    rounds_balance(v, v.descents.len() as int, node);
    assert(v.descents.take(v.descents.len() as int) =~= v.descents);
    assert(v.path.take(v.path.len() as int) =~= v.path);
    if v.descents.len() > 0 {
        assert(v.descents.last() == v.descents[v.descents.len() - 1]);
    }
    assert(v.nodes[node].vl_visits == departures(v.path, node));
    if node == 0 {
        never_back_at_the_root(v.nodes, v.path);
    }
}

proof fn never_back_at_the_root(nodes: Seq<NodeView>, path: Seq<(u32, u32)>)
    requires
        links_wf(nodes),
        forall|t: int| 0 <= t < path.len() ==> walkable(nodes, #[trigger] path[t]),
    ensures
        arrivals(nodes, path, 0) == 0,
    decreases path.len(),
{
    if path.len() > 0 {
        let rest = path.drop_last();
        assert forall|t: int| 0 <= t < rest.len() implies walkable(nodes, #[trigger] rest[t]) by {
            assert(rest[t] == path[t]);
        }
        never_back_at_the_root(nodes, rest);
        let step = path[path.len() - 1];
        assert(walkable(nodes, step));
        assert(nodes[step.0 as int].children[step.1 as int] != 0);
    }
}

proof fn nobody_stops(descents: Seq<Descent>, leaves: Seq<Leaf>, node: int)
    requires
        forall|d: int|
            0 <= d < descents.len() ==> leaves[(#[trigger] descents[d]).leaf as int].node != node,
    ensures
        stops(descents, leaves, node) == 0,
    decreases descents.len(),
{
    if descents.len() > 0 {
        let rest = descents.drop_last();
        assert forall|d: int| 0 <= d < rest.len() implies leaves[(
        #[trigger] rest[d]).leaf as int].node != node by {
            assert(rest[d] == descents[d]);
        }
        nobody_stops(rest, leaves, node);
        assert(descents.last() == descents[descents.len() - 1]);
    }
}

/// Every simulation is exactly one visit of one root edge: backing a round up
/// adds to the root's visits what it adds to the simulation count.
pub proof fn every_simulation_is_one_root_visit(v: TreeView)
    requires
        v.wf(),
        v.cursor is Idle,
        v.nodes[0].expanded,
        v.sims + v.descents.len() <= u64::MAX,
    ensures
        v.backed_up().nodes[0].visits - v.nodes[0].visits == v.backed_up().sims - v.sims,
{
    every_arrival_goes_on_or_stops(v, 0);
    assert(v.nodes[0].wf());
    assert forall|d: int| 0 <= d < v.descents.len() implies v.leaves[(
    #[trigger] v.descents[d]).leaf as int].node != 0 by {
        let leaf = v.leaves[v.descents[d].leaf as int];
        if leaf.node == 0 {
            assert(leaf.value is Terminal);
            assert(v.nodes[0].terminal);
        }
    }
    nobody_stops(v.descents, v.leaves, 0);
}

/// Without a key collision the arena holds no position twice, the root's
/// included: every expansion bought a position that was not there yet.
pub proof fn no_position_is_stored_twice(v: TreeView, i: int, j: int)
    requires
        v.wf(),
        v.dag,
        v.key_collisions == 0,
        0 <= i < j < v.nodes.len(),
    ensures
        v.nodes[i].state != v.nodes[j].state,
        1 <= i ==> v.nodes[i].state.hash != v.nodes[j].state.hash,
{
    if i == 0 {
        assert(v.nodes[0].state.precedes(v.nodes[j].state));
    } else {
        assert(v.nodes[i].state.hash != v.nodes[j].state.hash);
    }
}

/// A new node is where its descent ends, so a descent adds at most one node.
pub proof fn a_new_node_ends_its_descent(v: TreeView, next: StateView)
    requires
        v.wf(),
        v.cursor is Applying,
        !v.merging(next),
    ensures
        ({
            let id = v.cursor->Applying_node as int;
            let edge = v.cursor->Applying_edge as int;
            let w = v.supplied(id, edge, next);
            &&& w.cursor is Idle
            &&& w.nodes.len() == v.nodes.len() + 1
            &&& w.descents.len() == v.descents.len() + 1
        }),
{
}

/// With merging off no link is ever shared: every position supplied gets a node
/// of its own.
pub proof fn a_plain_tree_never_merges(v: TreeView, next: StateView)
    requires
        v.wf(),
        !v.dag,
    ensures
        !v.merging(next),
        !v.hit(next),
        v.link_target(next) == v.nodes.len(),
{
}

proof fn steps_progress(nodes: Seq<NodeView>, steps: Seq<(u32, u32)>, stop: int, t: int, u: int)
    requires
        links_wf(nodes),
        progress_wf(nodes),
        forall|k: int| 0 <= k < steps.len() ==> walkable(nodes, #[trigger] steps[k]),
        leads_to(nodes, steps, stop),
        0 <= t < u < steps.len(),
    ensures
        nodes[steps[t].0 as int].state.precedes(nodes[steps[u].0 as int].state),
    decreases u - t,
{
    let before = steps[u - 1];
    assert(walkable(nodes, before));
    assert(child_of(nodes, before) == steps[u].0);
    assert(nodes[before.0 as int].children[before.1 as int] == steps[u].0);
    if t < u - 1 {
        steps_progress(nodes, steps, stop, t, u - 1);
    }
}

/// A descent never comes back to a node it has walked through, however the
/// transpositions were merged: each of its steps leads further into the game.
pub proof fn a_descent_never_returns(v: TreeView, d: int, t: int, u: int)
    requires
        v.wf(),
        0 <= d < v.descents.len(),
        v.descents[d].start <= t < u < v.descents[d].end,
    ensures
        v.path[t].0 != v.path[u].0,
        v.nodes[v.path[t].0 as int].state.precedes(v.nodes[v.path[u].0 as int].state),
{
    let descent = v.descents[d];
    let start = descent.start as int;
    let steps = v.path.subrange(start, descent.end as int);
    assert forall|k: int| 0 <= k < steps.len() implies walkable(v.nodes, #[trigger] steps[k]) by {
        assert(steps[k] == v.path[start + k]);
    }
    assert(steps[t - start] == v.path[t] && steps[u - start] == v.path[u]);
    steps_progress(
        v.nodes,
        steps,
        v.leaves[descent.leaf as int].node as int,
        t - start,
        u - start,
    );
}

/// While the first descent of a round is under way, nothing is in flight where
/// it has to choose: a round of one descent selects on plain statistics.
pub proof fn the_first_descent_sees_no_virtual_loss(v: TreeView)
    requires
        v.wf(),
        v.descents.len() == 0,
        v.cursor is Choosing,
    ensures
        ({
            let node = v.nodes[v.cursor->Choosing_node as int];
            &&& node.vl_visits == 0
            &&& forall|e: int| 0 <= e < node.vl.len() ==> (#[trigger] node.vl[e]) == 0
        }),
{
    let id = v.cursor->Choosing_node as int;
    let steps = v.open_steps();
    assert(steps =~= v.path);
    assert(v.nodes[id].wf());
    assert forall|t: int| 0 <= t < v.path.len() implies (#[trigger] v.path[t]).0 != id by {
        let last = v.path.len() - 1;
        let step = v.path[last];
        assert(walkable(v.nodes, step));
        assert(v.nodes[step.0 as int].children[step.1 as int] == id);
        if t < last {
            steps_progress(v.nodes, steps, id, t, last);
        }
    }
    no_departures(v.path, id);
    let node = v.nodes[id];
    assert forall|e: int| 0 <= e < node.vl.len() implies (#[trigger] node.vl[e]) == 0 by {
        total_bounds(node.vl, e);
    }
}

/// A finished position is worth what its winner says and nothing else: one for
/// player 1, minus one for player 2, nothing for nobody.
pub proof fn a_finished_position_is_worth_its_winner(state: StateView)
    ensures
        state.outcome_winner == 1 ==> outcome_value(state) == 1,
        state.outcome_winner == 2 ==> outcome_value(state) == -1,
        state.outcome_winner != 1 && state.outcome_winner != 2 ==> outcome_value(state) == 0,
{
}

/// Who is to move, how much of the turn is left and what stands on the board
/// have no say in what a finished position is worth.
pub proof fn an_outcome_is_the_winners_alone(first: StateView, second: StateView)
    ensures
        first.outcome_winner == second.outcome_winner ==> outcome_value(first) == outcome_value(
            second,
        ),
        first.outcome_winner == 1 && second.outcome_winner == 2 ==> outcome_value(first)
            == -outcome_value(second) && outcome_value(first) != outcome_value(second),
{
}

/// A descent that ends in a finished position carries back what the winner
/// there says: one for player 1, minus one for player 2, whoever was to move.
pub proof fn a_finished_leaf_is_worth_its_winner(v: TreeView, s: int)
    requires
        v.wf(),
        0 <= s < v.leaves.len(),
        v.leaves[s].value is Terminal,
    ensures
        ({
            let state = v.nodes[v.leaves[s].node as int].state;
            let value = v.leaves[s].value->Terminal_0;
            &&& state.game_over || state.legal_actions.len() == 0
            &&& state.outcome_winner == 1 ==> value == 1
            &&& state.outcome_winner == 2 ==> value == -1
            &&& state.outcome_winner != 1 && state.outcome_winner != 2 ==> value == 0
        }),
{
    assert(v.leaves[s].node < v.nodes.len());
    assert(v.nodes[v.leaves[s].node as int].wf());
}

/// Backing a round up adds to an edge one visit for every time the round's path
/// takes it, takes all virtual loss off it, and changes nothing else about the
/// node.
pub proof fn a_backup_adds_each_step_to_its_own_edge(v: TreeView, i: int, e: int)
    requires
        v.wf(),
        0 <= i < v.nodes.len(),
        0 <= e < v.nodes[i].n.len(),
    ensures
        ({
            let before = v.nodes[i];
            let after = v.backed_up().nodes[i];
            &&& after.n.len() == before.n.len()
            &&& after.n[e] == before.n[e] + v.path.to_multiset().count((i as u32, e as u32))
            &&& after.vl[e] == 0
            &&& after.visits == before.visits + before.vl_visits
            &&& after.vl_visits == 0
            &&& after.state == before.state
            &&& after.actions == before.actions
            &&& after.children == before.children
            &&& after.expanded == before.expanded
            &&& after.terminal == before.terminal
            &&& after.terminal_value == before.terminal_value
        }),
{
    assert(v.nodes[i].wf());
    assert(v.nodes[i].vl[e] == walks(v.path, i, e));
    total_bounds(v.nodes[i].n, e);
    total_bounds(v.nodes[i].vl, e);
}

/// Every edge on the way to a leaf is credited with that leaf, in the order of
/// the way, and the way starts at the root, takes each edge to the node the
/// next one leaves from, and ends at the leaf's node.
pub proof fn a_leaf_is_credited_to_every_edge_on_its_way(
    v: TreeView,
    credits: Seq<Credit>,
    d: int,
    t: int,
)
    requires
        v.wf(),
        v.credited(credits),
        0 <= d < v.descents.len(),
        v.descents[d].start <= t < v.descents[d].end,
    ensures
        ({
            let way = v.descents[d];
            let leaf = v.leaves[way.leaf as int];
            let behind = v.nodes[credits[t].node as int].children[credits[t].edge as int];
            &&& credits[t].leaf == way.leaf
            &&& (credits[t].node, credits[t].edge) == v.path[t]
            &&& t == way.start ==> credits[t].node == 0
            &&& t + 1 < way.end ==> behind == credits[t + 1].node
            &&& t + 1 == way.end ==> behind == leaf.node
        }),
{
    let way = v.descents[d];
    let steps = v.path.subrange(way.start as int, way.end as int);
    let leaf = v.leaves[way.leaf as int];
    assert(leads_to(v.nodes, steps, leaf.node as int));
    let at = t - way.start;
    assert(steps[at] == v.path[t]);
    assert(credits[t].leaf == way.leaf);
    if t + 1 < way.end {
        assert(steps[at + 1] == v.path[t + 1]);
        assert(credits[t + 1].node == v.path[t + 1].0);
        assert(child_of(v.nodes, steps[at]) == steps[at + 1].0);
    } else {
        assert(steps.last() == v.path[t]);
    }
    if t == way.start {
        assert(steps[0] == v.path[t]);
    }
}

/// What linking a position costs: nothing but a merge count where a node holds
/// it already; a node of its own otherwise, counted as a collision where
/// another position has taken its key, and findable by its key where none has.
pub proof fn a_link_merges_collides_or_grows(v: TreeView, id: int, edge: int, next: StateView)
    requires
        v.wf(),
        0 <= id < v.nodes.len(),
        0 <= edge < v.nodes[id].children.len(),
        v.nodes.len() < NO_NODE,
        v.merges < u64::MAX,
        v.key_collisions < u64::MAX,
    ensures
        ({
            let w = v.linked(id, edge, next);
            let child = w.nodes[id].children[edge] as int;
            let taken = v.dag && v.index.contains_key(next.hash);
            let same = v.nodes[v.index[next.hash] as int].state == next;
            &&& taken && same ==> {
                &&& w.nodes.len() == v.nodes.len()
                &&& child == v.index[next.hash]
                &&& w.merges == v.merges + 1
                &&& w.key_collisions == v.key_collisions
                &&& w.index == v.index
            }
            &&& !(taken && same) ==> {
                &&& w.nodes.len() == v.nodes.len() + 1
                &&& child == v.nodes.len()
                &&& w.nodes[child].state == next
                &&& w.nodes[child].visits == 0
                &&& !w.nodes[child].expanded
                &&& w.nodes[child].terminal == next.game_over
                &&& w.merges == v.merges
            }
            &&& taken && !same ==> w.key_collisions == v.key_collisions + 1 && w.index == v.index
            &&& !taken ==> w.key_collisions == v.key_collisions
            &&& !taken && v.dag ==> w.index == v.index.insert(next.hash, child as u32)
            &&& forall|i: int, e: int|
                0 <= i < v.nodes.len() && 0 <= e < v.nodes[i].children.len() && !(i == id && e
                    == edge) ==> #[trigger] w.nodes[i].children[e] == v.nodes[i].children[e]
        }),
{
    let w = v.linked(id, edge, next);
    assert forall|i: int, e: int|
        0 <= i < v.nodes.len() && 0 <= e < v.nodes[i].children.len() && !(i == id && e
            == edge) implies #[trigger] w.nodes[i].children[e] == v.nodes[i].children[e] by {
        if i != id {
            assert(w.nodes[i] == v.nodes[i]);
        }
    }
}

/// Taking an edge records the step and puts one more descent in flight on that
/// edge; every other edge, and every visit count, stays as it was.
pub proof fn a_step_is_in_flight_on_its_own_edge(v: TreeView, id: int, edge: int)
    requires
        v.wf(),
        0 <= id < v.nodes.len(),
        0 <= edge < v.nodes[id].vl.len(),
        v.nodes[id].visits + v.nodes[id].vl_visits < u32::MAX,
    ensures
        ({
            let w = v.walked(id, edge);
            &&& w.path == v.path.push((id as u32, edge as u32))
            &&& w.nodes[id].vl[edge] == v.nodes[id].vl[edge] + 1
            &&& w.nodes[id].vl_visits == v.nodes[id].vl_visits + 1
            &&& w.nodes[id].n == v.nodes[id].n
            &&& w.nodes[id].visits == v.nodes[id].visits
            &&& forall|e: int|
                0 <= e < v.nodes[id].vl.len() && e != edge ==> #[trigger] w.nodes[id].vl[e]
                    == v.nodes[id].vl[e]
            &&& forall|i: int|
                0 <= i < v.nodes.len() && i != id ==> #[trigger] w.nodes[i] == v.nodes[i]
        }),
{
    assert(v.nodes[id].wf());
    total_bounds(v.nodes[id].vl, edge);
    total_nonnegative(v.nodes[id].n);
}

/// What a descent finds decides what it does. At a finished position it ends,
/// worth the outcome. At an expanded one an edge has to be chosen. At one that
/// waits it ends with whoever waits for it. At a new one it ends: worth the
/// outcome where there is no legal action, and waiting for a value, with an
/// untouched edge for every legal action, where there is.
pub proof fn what_a_descent_finds_decides_what_it_does(v: TreeView, id: int)
    requires
        v.moving(id),
        v.leaves.len() < usize::MAX,
        v.path.len() <= usize::MAX,
    ensures
        ({
            let node = v.nodes[id];
            let w = v.arrived(id);
            let leaf = w.leaves[w.descents.last().leaf as int];
            let after = w.nodes[id];
            &&& node.expanded <==> w.cursor is Choosing
            &&& node.expanded ==> w.cursor == (Cursor::Choosing { node: id as u32 }) && w.nodes
                == v.nodes && w.descents == v.descents
            &&& !node.expanded ==> {
                &&& w.cursor is Idle
                &&& w.descents.len() == v.descents.len() + 1
                &&& w.descents.last().end == v.path.len()
                &&& w.descents.last().start == v.open_start()
                &&& leaf.node == id
            }
            &&& !node.expanded && node.pending ==> w.leaves == v.leaves && leaf.value is Waiting
                && w.nodes == v.nodes
            &&& !node.expanded && !node.pending ==> w.leaves.len() == v.leaves.len() + 1
            &&& !node.expanded && (node.state.game_over || node.state.legal_actions.len() == 0)
                ==> {
                &&& leaf.value is Terminal
                &&& after.terminal
                &&& after.actions.len() == 0
            }
            &&& !node.expanded && !node.pending && !node.state.game_over
                && node.state.legal_actions.len() > 0 ==> {
                &&& leaf.value is Waiting
                &&& after.pending
                &&& after.actions == node.state.legal_actions
                &&& after.visits == 0
                &&& forall|e: int|
                    0 <= e < after.actions.len() ==> #[trigger] after.children[e] == NO_NODE
                        && after.n[e] == 0 && after.vl[e] == 0
            }
        }),
{
    let node = v.nodes[id];
    assert(node.wf());
    if node.pending {
        let s = choose|s: int|
            0 <= s < v.leaves.len() && (#[trigger] v.leaves[s]).node == id && v.leaves[s].value
                is Waiting;
        waiting_slot_is(v.nodes, v.leaves, id, s);
    }
    if node.terminal {
        assert(node.actions.len() == 0);
    }
    assert(total(node.n) == node.visits);
    if node.n.len() == 0 {
        assert(node.visits == 0);
    }
}

/// Evaluating a round opens the nodes that waited for it and touches no other,
/// and no statistic of any.
pub proof fn evaluating_opens_what_waited(v: TreeView, i: int)
    requires
        v.wf(),
        0 <= i < v.nodes.len(),
    ensures
        ({
            let before = v.nodes[i];
            let after = v.evaluated().nodes[i];
            &&& after.expanded <==> before.expanded || before.pending
            &&& !after.pending
            &&& !before.pending ==> after == before
            &&& after.n == before.n
            &&& after.vl == before.vl
            &&& after.visits == before.visits
            &&& after.children == before.children
            &&& after.actions == before.actions
            &&& after.terminal == before.terminal
            &&& after.state == before.state
        }),
        v.evaluated().path == v.path,
        v.evaluated().descents == v.descents,
        v.evaluated().sims == v.sims,
        forall|s: int|
            0 <= s < v.leaves.len() ==> {
                &&& (#[trigger] v.evaluated().leaves[s]).node == v.leaves[s].node
                &&& v.leaves[s].value is Terminal ==> v.evaluated().leaves[s] == v.leaves[s]
                &&& v.leaves[s].value !is Terminal ==> v.evaluated().leaves[s].value is Evaluated
            },
{
    assert(v.nodes[i].wf());
}

} // verus!
