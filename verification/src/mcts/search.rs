//! The searcher: a tree of positions, grown one descent at a time.
//!
//! A round collects up to [`Config::batch_size`] descents, has their leaves
//! evaluated together, and only then credits every edge the descents took.
//! What a descent cannot decide by itself it asks for: an edge to take where
//! the scores decide, and the position behind an edge nobody has taken yet.
//!
//! Everything is kept in the absolute frame, in which positive is good for
//! player 1. A leaf's value is credited to every edge of its descent as it is;
//! the mover enters only where an edge is chosen.

use crate::game::{Action, Player, Pos, State};
use crate::mcts::action_id::BOARD;
use crate::mcts::gumbel::{
    first_best, ordered, GumbelConfig, GumbelPlan, PlanView, Ranking, DEFAULT_GUMBEL_C_SCALE,
    DEFAULT_GUMBEL_C_VISIT,
};
use crate::mcts::tree::{
    arriving_keeps, backing_up_keeps, evaluating_keeps, fresh, linking_keeps, outcome_value,
    rooted, stuck, total, waiting_slot_is, walking_keeps, with_edges, Credit, Cursor, Descent, Leaf, LeafValue,
    NodeView, TreeView, NO_NODE,
};
use crate::score::{Score, NEG_INFINITY};
use std::collections::{HashMap, HashSet};
use vstd::prelude::*;

verus! {

/// Default exploration constant: the bits of 1.5.
pub const DEFAULT_CPUCT: u64 = 0x3FF8_0000_0000_0000;

/// Default divisor in the hand-tuned leaf's squash: the bits of 12000.
pub const DEFAULT_VALUE_SCALE: u64 = 0x40C7_7000_0000_0000;

/// Plies of temperature-1 visit sampling at the start of a self-play game:
/// 21 plies = 7 turns.
pub const TEMPERATURE_PLIES: u32 = 21;

/// Default leaves per batched evaluation.
pub const DEFAULT_BATCH_SIZE: u16 = 8;

/// Default virtual-loss weight: the bits of 1.
pub const DEFAULT_VIRTUAL_LOSS: u64 = 0x3FF0_0000_0000_0000;

/// Whether transpositions are merged by default.
pub const DEFAULT_DAG: bool = true;

/// Default Dirichlet concentration: the bits of 0.3.
pub const DEFAULT_NOISE_ALPHA: u64 = 0x3FD3_3333_3333_3333;

/// Default weight of the noise: the bits of 0.25.
pub const DEFAULT_NOISE_EPSILON: u64 = 0x3FD0_0000_0000_0000;

/// Where a leaf's value comes from.
#[derive(Clone, Copy, Debug, PartialEq, Eq, Structural)]
pub enum ValueSource {
    /// The squashed hand-tuned evaluation.
    HandTuned,
    /// The net's value head, or the hand-tuned value when the net has none.
    Net,
}

impl Default for ValueSource {
    fn default() -> (r: ValueSource)
        ensures
            r == ValueSource::HandTuned,
    {
        ValueSource::HandTuned
    }
}

/// Searcher tuning. [`Config::default`] is the play-mode configuration.
#[derive(Clone, Copy, Debug, PartialEq, Eq, Structural)]
pub struct Config {
    /// PUCT exploration constant.
    pub cpuct: Score,
    /// Seed for every stochastic decision in this search.
    pub seed: u64,
    /// Divisor in the hand-tuned leaf's squash.
    pub value_scale: Score,
    /// Which leaf value to use.
    pub value_source: ValueSource,
    /// Dirichlet root noise. **Self-play only.**
    pub root_noise: bool,
    /// Dirichlet concentration.
    pub noise_alpha: Score,
    /// Weight of the noise in the mixed prior.
    pub noise_epsilon: Score,
    /// Sample the root action from the visit counts instead of taking the
    /// most visited one. **Self-play only.**
    pub visit_sampling: bool,
    /// Leaves collected per batched evaluation. `0` and `1` both mean one at a
    /// time.
    pub batch_size: u16,
    /// Virtual-loss weight of a descent in flight.
    pub virtual_loss: Score,
    /// Worker threads of the shared-tree engine.
    pub threads: usize,
    /// Merge transpositions: two action orders reaching one position share one
    /// node.
    pub dag: bool,
    /// Gumbel root selection. **Self-play only**, and never together with
    /// root noise.
    pub gumbel: Option<GumbelConfig>,
}

/// The configuration nothing was asked of.
pub open spec fn default_config() -> Config {
    Config {
        cpuct: Score { bits: DEFAULT_CPUCT },
        seed: 1,
        value_scale: Score { bits: DEFAULT_VALUE_SCALE },
        value_source: ValueSource::HandTuned,
        root_noise: false,
        noise_alpha: Score { bits: DEFAULT_NOISE_ALPHA },
        noise_epsilon: Score { bits: DEFAULT_NOISE_EPSILON },
        visit_sampling: false,
        batch_size: DEFAULT_BATCH_SIZE,
        virtual_loss: Score { bits: DEFAULT_VIRTUAL_LOSS },
        threads: 1,
        dag: DEFAULT_DAG,
        gumbel: None,
    }
}

impl Default for Config {
    fn default() -> (r: Config)
        ensures
            r == default_config(),
            r.cpuct.bits == 0x3FF8_0000_0000_0000,
            r.seed == 1,
            r.value_scale.bits == 0x40C7_7000_0000_0000,
            r.value_source == ValueSource::HandTuned,
            !r.root_noise,
            r.noise_alpha.bits == 0x3FD3_3333_3333_3333,
            r.noise_epsilon.bits == 0x3FD0_0000_0000_0000,
            !r.visit_sampling,
            r.batch_size == 8,
            r.virtual_loss.bits == 0x3FF0_0000_0000_0000,
            r.threads == 1,
            r.dag,
            r.gumbel is None,
    {
        Config {
            cpuct: Score { bits: DEFAULT_CPUCT },
            seed: 1,
            value_scale: Score { bits: DEFAULT_VALUE_SCALE },
            value_source: ValueSource::HandTuned,
            root_noise: false,
            noise_alpha: Score { bits: DEFAULT_NOISE_ALPHA },
            noise_epsilon: Score { bits: DEFAULT_NOISE_EPSILON },
            visit_sampling: false,
            batch_size: DEFAULT_BATCH_SIZE,
            virtual_loss: Score { bits: DEFAULT_VIRTUAL_LOSS },
            threads: 1,
            dag: DEFAULT_DAG,
            gumbel: None,
        }
    }
}

impl Config {
    /// The search explores: it may play something other than the strongest
    /// action it knows.
    pub open spec fn explores(self) -> bool {
        self.root_noise || self.visit_sampling || self.gumbel is Some
    }

    /// The play-mode configuration: no noise, no Gumbel, no sampling.
    pub fn play() -> (r: Config)
        ensures
            r == default_config(),
            !r.explores(),
    {
        let base = Config::default();
        Config { root_noise: false, visit_sampling: false, gumbel: None, ..base }
    }

    /// The self-play configuration for `ply`: root noise always, and visit
    /// sampling for the first [`TEMPERATURE_PLIES`] plies.
    pub fn self_play(seed: u64, ply: u32) -> (r: Config)
        ensures
            r == (Config {
                seed,
                value_source: ValueSource::Net,
                root_noise: true,
                visit_sampling: ply < TEMPERATURE_PLIES,
                ..default_config()
            }),
            r.root_noise,
            r.gumbel is None,
            r.visit_sampling <==> ply < 21,
    {
        let base = Config::default();
        Config {
            seed,
            value_source: ValueSource::Net,
            root_noise: true,
            visit_sampling: ply < TEMPERATURE_PLIES,
            ..base
        }
    }

    /// The Gumbel self-play configuration: top-`m` with sequential halving over
    /// a `sims` budget, and neither root noise nor visit sampling.
    pub fn self_play_gumbel(seed: u64, sims: u32, m: u16) -> (r: Config)
        ensures
            r == (Config {
                seed,
                value_source: ValueSource::Net,
                root_noise: false,
                visit_sampling: false,
                gumbel: Some(
                    GumbelConfig {
                        m,
                        sims,
                        c_visit: Score { bits: DEFAULT_GUMBEL_C_VISIT },
                        c_scale: Score { bits: DEFAULT_GUMBEL_C_SCALE },
                    },
                ),
                ..default_config()
            }),
    {
        let base = Config::default();
        let schedule = GumbelConfig::default();
        Config {
            seed,
            value_source: ValueSource::Net,
            root_noise: false,
            visit_sampling: false,
            gumbel: Some(GumbelConfig { m, sims, ..schedule }),
            ..base
        }
    }
}

/// Why a position is outside the searcher's domain.
#[derive(Clone, Copy, Debug, PartialEq, Eq, Structural)]
pub enum Refusal {
    /// The absolute frame has two ends: two players, always.
    Players,
    /// The net knows one board size.
    Board,
    /// Root noise and Gumbel selection are alternatives, not layers.
    NoiseAndGumbel,
}

/// The first reason to refuse a search, if there is one.
pub open spec fn refusal_of(
    players: int,
    rows: int,
    cols: int,
    has_net: bool,
    config: Config,
) -> Option<Refusal> {
    if players != 2 {
        Some(Refusal::Players)
    } else if has_net && !(rows == BOARD && cols == BOARD) {
        Some(Refusal::Board)
    } else if config.root_noise && config.gumbel is Some {
        Some(Refusal::NoiseAndGumbel)
    } else {
        None
    }
}

/// What a descent needs next.
#[derive(Clone, Copy, Debug)]
pub enum Step {
    /// The edge to take at this node.
    Choose { node: u32 },
    /// The position `action` leads to from this node.
    Apply { node: u32, edge: u32, action: Action },
    /// Nothing: it ended at this leaf.
    Leaf { slot: usize },
}

/// What the descent under way needs next.
pub open spec fn next_step(v: TreeView) -> Step {
    match v.cursor {
        Cursor::Idle => Step::Leaf { slot: v.descents.last().leaf },
        Cursor::Choosing { node } => Step::Choose { node },
        Cursor::Applying { node, edge } => Step::Apply {
            node,
            edge,
            action: v.nodes[node as int].actions[edge as int],
        },
    }
}

/// One tree node: a position, its legal actions, and the per-edge counters.
#[derive(Debug)]
pub struct Node {
    pub state: State,
    /// The seat to move, kept at hand because selection reads it every visit.
    pub mover: Player,
    pub terminal: bool,
    /// Absolute-frame outcome; meaningful only when `terminal`.
    pub terminal_value: i8,
    pub expanded: bool,
    /// Set while this node is a collected leaf that waits for its evaluation.
    pub pending: bool,
    pub actions: Vec<Action>,
    pub children: Vec<u32>,
    pub n: Vec<u32>,
    /// Descents currently in flight through each edge: the virtual loss.
    pub vl: Vec<u32>,
    /// Sum of `n`.
    pub visits: u32,
    /// Sum of `vl`.
    pub vl_visits: u32,
}

impl View for Node {
    type V = NodeView;

    open spec fn view(&self) -> NodeView {
        NodeView {
            state: self.state@,
            mover: self.mover,
            terminal: self.terminal,
            terminal_value: self.terminal_value,
            expanded: self.expanded,
            pending: self.pending,
            actions: self.actions@,
            children: self.children@,
            n: self.n@,
            vl: self.vl@,
            visits: self.visits,
            vl_visits: self.vl_visits,
        }
    }
}

/// An arena as mathematical values.
pub open spec fn arena(nodes: Seq<Node>) -> Seq<NodeView> {
    Seq::new(nodes.len(), |i: int| nodes[i]@)
}

/// A finished position in the absolute frame, from the labelling rule.
pub fn terminal_value_abs(state: &State) -> (r: i8)
    ensures
        r == outcome_value(state@),
        state.outcome_winner == 1 ==> r == 1,
        state.outcome_winner == 2 ==> r == -1,
        state.outcome_winner != 1 && state.outcome_winner != 2 ==> r == 0,
{
    if state.outcome_winner == 1 {
        1
    } else if state.outcome_winner == 2 {
        -1
    } else {
        0
    }
}

/// The sign a value in the absolute frame has for `mover`.
pub open spec fn sign_for(mover: Player) -> int {
    if mover == 1 {
        1
    } else {
        -1
    }
}

/// The sign a value in the absolute frame has for `mover`. The absolute frame
/// is player 1's, and a value is turned into the mover's only here.
pub fn frame_sign(mover: Player) -> (r: i8)
    ensures
        r == sign_for(mover),
        r == (if mover == 1 {
            1i8
        } else {
            -1i8
        }),
{
    if mover == 1 {
        1
    } else {
        -1
    }
}

/// Which entries of the net's maps make up an action's logit.
#[derive(Clone, Copy, Debug, PartialEq, Eq, Structural)]
pub enum LogitSource {
    /// One entry of the move map.
    Move(usize),
    /// Two entries of the pair map, and the pair bias.
    Pair(usize, usize),
}

/// The place of a cell in a row-major map.
pub open spec fn map_index(pos: Pos, cols: int) -> int {
    pos.row * cols + pos.col
}

/// The cell lies on a board of `cols` columns whose map has `count` entries.
pub open spec fn on_map(pos: Pos, cols: int, count: int) -> bool {
    &&& 0 <= pos.row
    &&& 0 <= pos.col < cols
    &&& map_index(pos, cols) < count
}

fn map_place(pos: Pos, cols: usize, count: usize) -> (r: usize)
    requires
        on_map(pos, cols as int, count as int),
    ensures
        r == map_index(pos, cols as int),
{
    assert(0 <= pos.row * cols) by (nonlinear_arith)
        requires
            0 <= pos.row,
            0 <= cols,
    ;
    pos.row as usize * cols + pos.col as usize
}

/// `source` names the entries of the cells `action` is about, on a board of
/// `cols` columns.
pub open spec fn reads(action: Action, cols: int, source: LogitSource) -> bool {
    match action {
        Action::Move { target } => source matches LogitSource::Move(i) && i == map_index(
            target,
            cols,
        ),
        Action::PlaceNeutrals { cells } => source matches LogitSource::Pair(i, j) && i == map_index(
            cells[0],
            cols,
        ) && j == map_index(cells[1], cols),
    }
}

/// Where the net's maps, of `count` entries each, hold the logit of `action` on
/// a board of `cols` columns.
pub fn logit_source(action: Action, cols: usize, count: usize) -> (r: LogitSource)
    requires
        match action {
            Action::Move { target } => on_map(target, cols as int, count as int),
            Action::PlaceNeutrals { cells } => on_map(cells@[0], cols as int, count as int)
                && on_map(cells@[1], cols as int, count as int),
        },
    ensures
        reads(action, cols as int, r),
        match action {
            Action::Move { target } => r matches LogitSource::Move(i) && i == map_index(
                target,
                cols as int,
            ),
            Action::PlaceNeutrals { cells } => r matches LogitSource::Pair(i, j) && i == map_index(
                cells@[0],
                cols as int,
            ) && j == map_index(cells@[1], cols as int),
        },
{
    match action {
        Action::Move { target } => LogitSource::Move(map_place(target, cols, count)),
        Action::PlaceNeutrals { cells } => LogitSource::Pair(
            map_place(cells[0], cols, count),
            map_place(cells[1], cols, count),
        ),
    }
}

/// A counter for every edge, all at `value`.
pub(crate) fn column(count: usize, value: u32) -> (r: Vec<u32>)
    ensures
        r@ == Seq::new(count as nat, |e: int| value),
{
    let mut column: Vec<u32> = Vec::new();
    let mut i: usize = 0;
    while i < count
        invariant
            i <= count,
            column@ == Seq::new(i as nat, |e: int| value),
        decreases count - i,
    {
        column.push(value);
        i += 1;
        assert(column@ =~= Seq::new(i as nat, |e: int| value));
    }
    column
}

impl Node {
    /// A node nobody has arrived at.
    pub fn new(state: State) -> (r: Node)
        ensures
            r@ == fresh(state@),
    {
        let mover: Player = state.current_player;
        let terminal = state.game_over;
        let terminal_value: i8 = if terminal {
            terminal_value_abs(&state)
        } else {
            0
        };
        Node {
            state,
            mover,
            terminal,
            terminal_value,
            expanded: false,
            pending: false,
            actions: Vec::new(),
            children: Vec::new(),
            n: Vec::new(),
            vl: Vec::new(),
            visits: 0,
            vl_visits: 0,
        }
    }

    /// Gives the node an edge for every legal action. Returns `false` when
    /// there is none, and scores the node by its outcome instead.
    fn begin_expand(&mut self) -> (r: bool)
        requires
            !old(self).terminal,
        ensures
            r == (old(self)@.state.legal_actions.len() > 0),
            r ==> final(self)@ == with_edges(old(self)@),
            !r ==> final(self)@ == stuck(old(self)@),
    {
        let count: usize = self.state.legal_actions.len();
        if count == 0 {
            self.terminal = true;
            self.terminal_value = terminal_value_abs(&self.state);
            assert(self@ =~= stuck(old(self)@));
            return false;
        }
        self.children = column(count, NO_NODE);
        self.n = column(count, 0);
        self.vl = column(count, 0);
        self.actions = self.state.legal_actions.clone();
        assert(self.actions@ =~= self.state.legal_actions@);
        assert(self@ =~= with_edges(old(self)@));
        true
    }
}

/// A search over one position.
#[derive(Debug)]
pub struct MctsSearcher {
    pub config: Config,
    pub nodes: Vec<Node>,
    /// Position key to node index. The root is never in it.
    pub transpositions: HashMap<u64, u32>,
    /// Child links resolved to an existing node instead of allocating one.
    pub merges: u64,
    /// Keys that matched but whose positions did not.
    pub key_collisions: u64,
    /// The root's sequential-halving schedule.
    pub gumbel: Option<GumbelPlan>,
    pub sims: u64,
    pub path: Vec<(u32, u32)>,
    pub descents: Vec<Descent>,
    pub leaves: Vec<Leaf>,
    pub cursor: Cursor,
}

impl View for MctsSearcher {
    type V = TreeView;

    open spec fn view(&self) -> TreeView {
        TreeView {
            nodes: arena(self.nodes@),
            dag: self.config.dag,
            index: self.transpositions@,
            merges: self.merges,
            key_collisions: self.key_collisions,
            plan: match self.gumbel {
                Some(plan) => Some(plan@),
                None => None,
            },
            sims: self.sims,
            path: self.path@,
            descents: self.descents@,
            leaves: self.leaves@,
            cursor: self.cursor,
        }
    }
}

/// A tree of one node.
pub open spec fn sapling(state: crate::game::StateView, dag: bool) -> TreeView {
    TreeView {
        nodes: seq![rooted(state)],
        dag,
        index: Map::empty(),
        merges: 0,
        key_collisions: 0,
        plan: None,
        sims: 0,
        path: Seq::empty(),
        descents: Seq::empty(),
        leaves: Seq::empty(),
        cursor: Cursor::Idle,
    }
}

impl MctsSearcher {
    /// Why `state` cannot be searched with `config`, if it cannot.
    pub fn refusal(state: &State, config: &Config, has_net: bool) -> (r: Option<Refusal>)
        ensures
            r == refusal_of(
                state.players as int,
                state.rows as int,
                state.cols as int,
                has_net,
                *config,
            ),
    {
        if state.players != 2 {
            return Some(Refusal::Players);
        }
        if has_net && !(state.rows == BOARD && state.cols == BOARD) {
            return Some(Refusal::Board);
        }
        if config.root_noise && config.gumbel.is_some() {
            return Some(Refusal::NoiseAndGumbel);
        }
        None
    }

    /// Builds a searcher with an expanded root, and draws the root's schedule if
    /// one is configured. `scores`, read only for a schedule, is `g + logit` for
    /// every legal action of `state`, in enumeration order.
    pub fn new(state: State, config: Config, has_net: bool, scores: &Vec<Score>) -> (r: MctsSearcher)
        requires
            state@.wf(),
            refusal_of(
                state.players as int,
                state.rows as int,
                state.cols as int,
                has_net,
                config,
            ) is None,
            config.gumbel is Some && !state.game_over ==> scores@.len()
                == state@.legal_actions.len(),
        ensures
            r.wf(),
            r@ == (TreeView { plan: r@.plan, ..sapling(state@, config.dag) }),
            schedule_fits(r@, config, scores@),
            r.config == config,
    {
        let ghost position = state@;
        let mut root = Node::new(state);
        if !root.terminal {
            if root.begin_expand() {
                root.expanded = true;
            }
        }
        assert(root@ =~= rooted(position));
        let mut nodes: Vec<Node> = Vec::new();
        nodes.push(root);
        let mut searcher = MctsSearcher {
            config,
            nodes,
            transpositions: HashMap::new(),
            merges: 0,
            key_collisions: 0,
            gumbel: None,
            sims: 0,
            path: Vec::new(),
            descents: Vec::new(),
            leaves: Vec::new(),
            cursor: Cursor::Idle,
        };
        proof {
            assert(searcher@.nodes =~= seq![rooted(position)]);
            assert(searcher@ =~= sapling(position, config.dag));
            sapling_is_wf(position, config.dag);
        }
        searcher.plan_gumbel(scores);
        searcher
    }

    /// Arrives at node `id`.
    fn arrive(&mut self, id: u32) -> (r: Step)
        requires
            old(self)@.moving(id as int),
            old(self)@.path.len() <= usize::MAX,
            old(self)@.leaves.len() < usize::MAX,
        ensures
            final(self)@ == old(self)@.arrived(id as int),
            final(self)@.wf(),
            r == next_step(final(self)@),
            final(self).config == old(self).config,
    {
        proof {
            arriving_keeps(self@, id as int);
        }
        let at: usize = id as usize;
        let start: usize = if self.descents.len() == 0 {
            0
        } else {
            self.descents[self.descents.len() - 1].end
        };
        let end: usize = self.path.len();
        let ghost before = self@;
        assert(before.nodes[at as int] == self.nodes@[at as int]@);
        assert(before.open_start() == start);
        let leaf: usize;
        if self.nodes[at].terminal {
            leaf = self.leaves.len();
            let value: i8 = self.nodes[at].terminal_value;
            self.leaves.push(Leaf { node: id, value: LeafValue::Terminal(value) });
        } else if self.nodes[at].pending {
            leaf = self.reuse_leaf(id);
        } else if self.nodes[at].expanded {
            self.cursor = Cursor::Choosing { node: id };
            assert(self@ =~= before.arrived(id as int));
            return Step::Choose { node: id };
        } else {
            leaf = self.leaves.len();
            let opened = self.nodes[at].begin_expand();
            if opened {
                self.nodes[at].pending = true;
                self.leaves.push(Leaf { node: id, value: LeafValue::Waiting });
            } else {
                let value: i8 = self.nodes[at].terminal_value;
                self.leaves.push(Leaf { node: id, value: LeafValue::Terminal(value) });
            }
            assert(self@.nodes =~= before.arrived(id as int).nodes);
        }
        self.descents.push(Descent { start, end, leaf });
        self.cursor = Cursor::Idle;
        assert(self@ =~= before.arrived(id as int));
        Step::Leaf { slot: leaf }
    }

    /// The batch slot already holding `node`'s pending evaluation.
    fn reuse_leaf(&self, node: u32) -> (r: usize)
        requires
            self@.base(),
            node < self.nodes@.len(),
            self.nodes@[node as int].pending,
        ensures
            r < self.leaves@.len(),
            r == crate::mcts::tree::waiting_slot(self@.leaves, node as int),
    {
        let ghost slot = choose|s: int|
            0 <= s < self@.leaves.len() && (#[trigger] self@.leaves[s]).node == node
                && self@.leaves[s].value is Waiting;
        assert(self@.nodes[node as int].pending);
        let mut i: usize = 0;
        while i < self.leaves.len()
            invariant
                i <= slot < self.leaves@.len(),
                self.leaves@[slot].node == node,
                self.leaves@[slot].value is Waiting,
                crate::mcts::tree::leaves_wf(self@.nodes, self@.leaves),
            decreases self.leaves@.len() - i,
        {
            let leaf = self.leaves[i];
            if leaf.node == node && leaf.value == LeafValue::Waiting {
                proof {
                    waiting_slot_is(self@.nodes, self@.leaves, node as int, i as int);
                }
                return i;
            }
            i += 1;
        }
        i
    }
}

impl MctsSearcher {
    /// What holds of a searcher between any two calls: its tree is well formed,
    /// and its root has a schedule exactly where the configuration asks for one
    /// and there is an action to schedule.
    pub open spec fn wf(&self) -> bool {
        &&& self@.wf()
        &&& self@.plan is Some <==> self.config.gumbel is Some && !no_action(self@)
    }

    /// The node the next step of the descent counts on: the one it stands at,
    /// or the root.
    pub open spec fn at(&self) -> int {
        match self.cursor {
            Cursor::Idle => 0,
            Cursor::Choosing { node } => node as int,
            Cursor::Applying { node, edge } => node as int,
        }
    }

    /// Whether the counters have room for one more step.
    pub fn has_room(&self) -> (r: bool)
        requires
            self.wf(),
        ensures
            r == (self@.room_at(self.at()) && (self@.plan matches Some(plan) ==> plan.has_room())),
    {
        let id: usize = match self.cursor {
            Cursor::Idle => 0,
            Cursor::Choosing { node } => node as usize,
            Cursor::Applying { node, edge } => node as usize,
        };
        assert(self@.nodes[id as int] == self.nodes@[id as int]@);
        assert(self@.nodes[id as int].wf());
        let planned = match &self.gumbel {
            Some(plan) => plan.given < u32::MAX && plan.scheduled < u32::MAX,
            None => true,
        };
        let used: u64 = self.nodes[id].visits as u64 + self.nodes[id].vl_visits as u64;
        planned && used < u32::MAX as u64 && self.nodes.len() < NO_NODE as usize && self.merges
            < u64::MAX && self.key_collisions < u64::MAX && self.path.len() < usize::MAX
            && self.leaves.len() < usize::MAX && self.descents.len() < usize::MAX
    }

    /// Walks one edge of node `id`.
    fn walk(&mut self, id: u32, edge: u32)
        requires
            old(self)@.base(),
            id < old(self)@.nodes.len(),
            edge < old(self)@.nodes[id as int].vl.len(),
            old(self)@.nodes[id as int].visits + old(self)@.nodes[id as int].vl_visits < u32::MAX,
        ensures
            final(self)@ == old(self)@.walked(id as int, edge as int),
            final(self).config == old(self).config,
    {
        let ghost before = self@;
        let at: usize = id as usize;
        let slot: usize = edge as usize;
        proof {
            assert(before.nodes[at as int] == self.nodes@[at as int]@);
            assert(before.nodes[at as int].wf());
            crate::mcts::tree::total_bounds(before.nodes[at as int].vl, slot as int);
            crate::mcts::tree::total_nonnegative(before.nodes[at as int].n);
        }
        self.path.push((id, edge));
        let node = &mut self.nodes[at];
        node.vl[slot] += 1;
        node.vl_visits += 1;
        assert(self@.nodes =~= before.walked(id as int, edge as int).nodes);
        assert(self@ =~= before.walked(id as int, edge as int));
    }

    /// Takes edge `edge` at node `id`.
    fn take_from(&mut self, id: u32, edge: u32) -> (r: Step)
        requires
            old(self)@.base(),
            old(self)@.settled_but(-1),
            id < old(self)@.nodes.len(),
            old(self)@.nodes[id as int].expanded,
            edge < old(self)@.nodes[id as int].children.len(),
            crate::mcts::tree::leads_to(
                old(self)@.nodes,
                old(self)@.open_steps(),
                id as int,
            ),
            old(self)@.room_at(id as int),
        ensures
            final(self)@ == old(self)@.took_edge(id as int, edge as int),
            final(self)@.wf(),
            r == next_step(final(self)@),
            final(self).config == old(self).config,
    {
        let ghost before = self@;
        let at: usize = id as usize;
        let slot: usize = edge as usize;
        assert(before.nodes[at as int] == self.nodes@[at as int]@);
        assert(before.nodes[at as int].wf());
        let child: u32 = self.nodes[at].children[slot];
        if child == NO_NODE {
            let action = self.nodes[at].actions[slot];
            self.cursor = Cursor::Applying { node: id, edge };
            assert(self@ =~= before.took_edge(id as int, edge as int));
            return Step::Apply { node: id, edge, action };
        }
        proof {
            assert(before.nodes[id as int].children[edge as int] == child);
            assert(before.settled_but(child as int));
            walking_keeps(before, id as int, edge as int);
        }
        self.walk(id, edge);
        self.arrive(child)
    }

    /// Starts a descent at the root. Under a schedule the first edge is
    /// dictated; everywhere else it is asked for.
    pub fn descend(&mut self) -> (r: Step)
        requires
            old(self).wf(),
            old(self)@.cursor is Idle,
            old(self)@.room_at(0),
            old(self)@.scheduled() ==> !(old(self)@.plan->0).halving_due() && (old(
                self,
            )@.plan->0).has_room(),
        ensures
            final(self)@ == old(self)@.began(),
            final(self).wf(),
            r == next_step(final(self)@),
            final(self).config == old(self).config,
    {
        let ghost before = self@;
        assert(before.nodes[0] == self.nodes@[0]@);
        assert(before.open_steps() =~= Seq::empty());
        if self.nodes[0].expanded {
            if let Some(mut plan) = self.gumbel.take() {
                let edge: usize = plan.take();
                self.gumbel = Some(plan);
                let ghost planned = TreeView { plan: Some((before.plan->0).took()), ..before };
                assert(self@ =~= planned);
                assert(planned.open_steps() =~= before.open_steps());
                assert(before.nodes[0].wf());
                return self.take_from(0, edge as u32);
            }
            assert(self@ =~= before);
        }
        self.arrive(0)
    }

    /// Takes the chosen edge of the node the descent stands at.
    pub fn take_edge(&mut self, edge: usize) -> (r: Step)
        requires
            old(self).wf(),
            old(self)@.cursor is Choosing,
            edge < old(self)@.nodes[old(self)@.cursor->Choosing_node as int].actions.len(),
            old(self)@.room_at(old(self)@.cursor->Choosing_node as int),
        ensures
            final(self)@ == old(self)@.took_edge(
                old(self)@.cursor->Choosing_node as int,
                edge as int,
            ),
            final(self).wf(),
            r == next_step(final(self)@),
            final(self).config == old(self).config,
    {
        let id: u32 = match self.cursor {
            Cursor::Choosing { node } => node,
            _ => 0,
        };
        assert(self@.nodes[id as int].wf());
        self.take_from(id, edge as u32)
    }

    /// Points `parent`'s `edge` at the node for `next`, creating that node only
    /// if the index has no node for the position already.
    ///
    /// A hit in the index is confirmed against the whole position before it is
    /// used: a key two positions share costs a duplicate node, never a merge.
    fn link_child(&mut self, parent: u32, edge: u32, next: State) -> (r: u32)
        requires
            old(self)@.base(),
            parent < old(self)@.nodes.len(),
            edge < old(self)@.nodes[parent as int].children.len(),
            old(self)@.nodes.len() < NO_NODE,
            old(self)@.merges < u64::MAX,
            old(self)@.key_collisions < u64::MAX,
        ensures
            final(self)@ == old(self)@.linked(parent as int, edge as int, next@),
            r == old(self)@.link_target(next@),
            final(self).config == old(self).config,
    {
        broadcast use vstd::std_specs::hash::group_hash_axioms;

        let ghost before = self@;
        let ghost position = next@;
        let at: usize = parent as usize;
        let slot: usize = edge as usize;
        assert(before.nodes[at as int] == self.nodes@[at as int]@);
        let key: u64 = next.hash;
        let mut hit = false;
        if self.config.dag {
            if let Some(found) = self.transpositions.get(&key) {
                let existing: u32 = *found;
                assert(before.index.contains_key(key));
                assert(before.nodes[existing as int] == self.nodes@[existing as int]@);
                if self.nodes[existing as usize].state.same_position(&next) {
                    self.merges += 1;
                    self.nodes[at].children[slot] = existing;
                    assert(self@.nodes =~= before.linked(
                        parent as int,
                        edge as int,
                        position,
                    ).nodes);
                    assert(self@ =~= before.linked(parent as int, edge as int, position));
                    return existing;
                }
                hit = true;
                self.key_collisions += 1;
            }
        }
        let child: u32 = self.nodes.len() as u32;
        self.nodes.push(Node::new(next));
        self.nodes[at].children[slot] = child;
        if self.config.dag && !hit {
            self.transpositions.insert(key, child);
        }
        assert(self@.nodes =~= before.linked(parent as int, edge as int, position).nodes);
        assert(self@ =~= before.linked(parent as int, edge as int, position));
        child
    }

    /// Goes on to the position behind the edge that was asked for.
    pub fn supply(&mut self, next: State) -> (r: Step)
        requires
            old(self).wf(),
            old(self)@.cursor is Applying,
            old(self)@.room_at(old(self)@.cursor->Applying_node as int),
            next@.wf(),
            old(self)@.nodes[old(self)@.cursor->Applying_node as int].state.precedes(next@),
        ensures
            final(self)@ == old(self)@.supplied(
                old(self)@.cursor->Applying_node as int,
                old(self)@.cursor->Applying_edge as int,
                next@,
            ),
            final(self).wf(),
            r == next_step(final(self)@),
            final(self).config == old(self).config,
    {
        let (id, edge): (u32, u32) = match self.cursor {
            Cursor::Applying { node, edge } => (node, edge),
            _ => (0, 0),
        };
        let ghost before = self@;
        proof {
            assert(before.nodes[id as int].wf());
            linking_keeps(before, id as int, edge as int, next@);
            let linked = before.linked(id as int, edge as int, next@);
            assert(linked.nodes[id as int].wf());
            walking_keeps(linked, id as int, edge as int);
        }
        let child: u32 = self.link_child(id, edge, next);
        self.walk(id, edge);
        self.arrive(child)
    }
}

/// `slots` lists the leaves that wait for a value, in order.
pub open spec fn lists_waiting(leaves: Seq<Leaf>, slots: Seq<usize>) -> bool {
    &&& forall|i: int, j: int|
        0 <= i < j < slots.len() ==> #[trigger] slots[i] < #[trigger] slots[j]
    &&& forall|i: int|
        0 <= i < slots.len() ==> #[trigger] slots[i] < leaves.len() && leaves[slots[i] as int].value
            is Waiting
    &&& forall|s: int|
        0 <= s < leaves.len() && (#[trigger] leaves[s]).value is Waiting ==> exists|i: int|
            0 <= i < slots.len() && #[trigger] slots[i] == s
}

/// One of the first `count` leaves waits for node `id`.
spec fn collected(leaves: Seq<Leaf>, count: int, id: int) -> bool {
    exists|s: int|
        0 <= s < count && (#[trigger] leaves[s]).node == id && leaves[s].value is Waiting
}

/// The arena after the first `count` leaves were evaluated.
spec fn evaluated_nodes(v: TreeView, count: int) -> Seq<NodeView> {
    Seq::new(
        v.nodes.len(),
        |i: int|
            if collected(v.leaves, count, i) {
                NodeView { pending: false, expanded: true, ..v.nodes[i] }
            } else {
                v.nodes[i]
            },
    )
}

/// A node after the steps of `path` were credited.
spec fn credited_node(node: NodeView, path: Seq<(u32, u32)>, id: int) -> NodeView {
    NodeView {
        n: Seq::new(
            node.n.len(),
            |e: int| (node.n[e] + crate::mcts::tree::walks(path, id, e)) as u32,
        ),
        vl: Seq::new(
            node.vl.len(),
            |e: int| (node.vl[e] - crate::mcts::tree::walks(path, id, e)) as u32,
        ),
        visits: (node.visits + crate::mcts::tree::departures(path, id)) as u32,
        vl_visits: (node.vl_visits - crate::mcts::tree::departures(path, id)) as u32,
        ..node
    }
}

spec fn credited_nodes(v: TreeView, count: int) -> Seq<NodeView> {
    Seq::new(v.nodes.len(), |i: int| credited_node(v.nodes[i], v.path.take(count), i))
}

/// A prefix of a path takes an edge no more often than the path does.
proof fn prefix_walks_less(path: Seq<(u32, u32)>, count: int, id: int, e: int)
    requires
        0 <= count <= path.len(),
    ensures
        crate::mcts::tree::walks(path.take(count), id, e) <= crate::mcts::tree::walks(path, id, e),
        crate::mcts::tree::departures(path.take(count), id) <= crate::mcts::tree::departures(
            path,
            id,
        ),
        0 <= crate::mcts::tree::departures(path.take(count), id),
    decreases path.len() - count,
{
    departures_nonnegative(path.take(count), id);
    if count < path.len() {
        let shorter = path.take(count);
        let longer = path.take(count + 1);
        assert(longer =~= shorter.push(path[count]));
        assert(longer.drop_last() =~= shorter);
        vstd::seq_lib::to_multiset_build(shorter, path[count]);
        prefix_walks_less(path, count + 1, id, e);
    } else {
        assert(path.take(count) =~= path);
    }
}

proof fn departures_nonnegative(path: Seq<(u32, u32)>, id: int)
    ensures
        0 <= crate::mcts::tree::departures(path, id),
    decreases path.len(),
{
    if path.len() > 0 {
        departures_nonnegative(path.drop_last(), id);
    }
}

/// Crediting one more step changes one counter pair of one node.
proof fn one_more_credit(v: TreeView, count: int)
    requires
        v.base(),
        0 <= count < v.path.len(),
    ensures
        ({
            let (id, edge) = v.path[count];
            let before = credited_nodes(v, count);
            let node = before[id as int];
            &&& id < v.nodes.len()
            &&& edge < node.n.len()
            &&& edge < node.vl.len()
            &&& node.n[edge as int] < u32::MAX
            &&& node.vl[edge as int] > 0
            &&& node.visits < u32::MAX
            &&& node.vl_visits > 0
            &&& credited_nodes(v, count + 1) == before.update(
                id as int,
                NodeView {
                    n: node.n.update(edge as int, (node.n[edge as int] + 1) as u32),
                    vl: node.vl.update(edge as int, (node.vl[edge as int] - 1) as u32),
                    visits: (node.visits + 1) as u32,
                    vl_visits: (node.vl_visits - 1) as u32,
                    ..node
                },
            )
        }),
{
    let (id, edge) = v.path[count];
    let at = id as int;
    let slot = edge as int;
    let shorter = v.path.take(count);
    let longer = v.path.take(count + 1);
    let before = credited_nodes(v, count);
    let after = credited_nodes(v, count + 1);
    assert(crate::mcts::tree::walkable(v.nodes, v.path[count]));
    assert(longer =~= shorter.push(v.path[count]));
    assert(longer.drop_last() =~= shorter);
    vstd::seq_lib::to_multiset_build(shorter, v.path[count]);
    assert forall|i: int, e: int|
        0 <= i < v.nodes.len() && 0 <= e < v.nodes[i].vl.len() implies #[trigger] v.nodes[i].vl[e]
        == crate::mcts::tree::walks(v.path, i, e) && crate::mcts::tree::walks(shorter, i, e)
        <= v.nodes[i].vl[e] && crate::mcts::tree::walks(longer, i, e) <= v.nodes[i].vl[e]
        && v.nodes[i].n[e] + v.nodes[i].vl[e] <= u32::MAX && crate::mcts::tree::walks(longer, i, e)
        == crate::mcts::tree::walks(shorter, i, e) + (if i == at && e == slot {
        1int
    } else {
        0int
    }) by {
        assert(v.nodes[i].wf());
        prefix_walks_less(v.path, count, i, e);
        prefix_walks_less(v.path, count + 1, i, e);
        crate::mcts::tree::total_bounds(v.nodes[i].n, e);
        crate::mcts::tree::total_bounds(v.nodes[i].vl, e);
        assert((i as u32, e as u32) == v.path[count] <==> (i == at && e == slot));
    }
    assert forall|i: int| 0 <= i < v.nodes.len() implies (#[trigger] v.nodes[i]).vl_visits
        == crate::mcts::tree::departures(v.path, i) && 0 <= crate::mcts::tree::departures(
        shorter,
        i,
    ) <= v.nodes[i].vl_visits && crate::mcts::tree::departures(longer, i) <= v.nodes[i].vl_visits
        && v.nodes[i].visits + v.nodes[i].vl_visits <= u32::MAX && v.nodes[i].n.len()
        == v.nodes[i].vl.len() by {
        assert(v.nodes[i].wf());
        prefix_walks_less(v.path, count, i, 0);
        prefix_walks_less(v.path, count + 1, i, 0);
    }
    let node = before[at];
    assert(v.nodes[at].wf());
    assert(v.nodes[at].vl[slot] == crate::mcts::tree::walks(v.path, at, slot));
    let changed = NodeView {
        n: node.n.update(slot, (node.n[slot] + 1) as u32),
        vl: node.vl.update(slot, (node.vl[slot] - 1) as u32),
        visits: (node.visits + 1) as u32,
        vl_visits: (node.vl_visits - 1) as u32,
        ..node
    };
    assert forall|i: int| 0 <= i < v.nodes.len() implies #[trigger] after[i] == before.update(
        at,
        changed,
    )[i] by {
        assert(v.nodes[i].vl_visits == crate::mcts::tree::departures(v.path, i));
        assert forall|e: int| 0 <= e < v.nodes[i].vl.len() implies #[trigger] after[i].n[e]
            == before.update(at, changed)[i].n[e] && after[i].vl[e] == before.update(
            at,
            changed,
        )[i].vl[e] by {
            assert(v.nodes[i].vl[e] == crate::mcts::tree::walks(v.path, i, e));
        }
        assert(after[i].n =~= before.update(at, changed)[i].n);
        assert(after[i].vl =~= before.update(at, changed)[i].vl);
        assert(after[i] =~= before.update(at, changed)[i]);
    }
    assert(after =~= before.update(at, changed));
}

/// Crediting nothing changes nothing; crediting everything lands every descent.
proof fn credits_start_and_end(v: TreeView)
    requires
        v.base(),
    ensures
        credited_nodes(v, 0) == v.nodes,
        credited_nodes(v, v.path.len() as int) == v.backed_up().nodes,
{
    let none = v.path.take(0);
    let all = v.path.take(v.path.len() as int);
    assert(all =~= v.path);
    assert forall|i: int| 0 <= i < v.nodes.len() implies #[trigger] credited_nodes(v, 0)[i]
        == v.nodes[i] && credited_nodes(v, v.path.len() as int)[i] == v.backed_up().nodes[i] by {
        assert(v.nodes[i].wf());
        assert(v.nodes[i].vl_visits == crate::mcts::tree::departures(v.path, i));
        assert forall|e: int| 0 <= e < v.nodes[i].vl.len() implies {
            &&& #[trigger] credited_nodes(v, 0)[i].n[e] == v.nodes[i].n[e]
            &&& credited_nodes(v, 0)[i].vl[e] == v.nodes[i].vl[e]
            &&& credited_nodes(v, v.path.len() as int)[i].n[e] == v.backed_up().nodes[i].n[e]
            &&& credited_nodes(v, v.path.len() as int)[i].vl[e] == 0
        } by {
            assert(v.nodes[i].vl[e] == crate::mcts::tree::walks(v.path, i, e));
            vstd::seq_lib::to_multiset_len(none);
            vstd::seq_lib::to_multiset_contains(none, (i as u32, e as u32));
            assert(crate::mcts::tree::walks(none, i, e) == 0);
        }
        assert forall|e: int| 0 <= e < v.nodes[i].vl.len() implies #[trigger] credited_nodes(
            v,
            0,
        )[i].vl[e] == v.nodes[i].vl[e] by {
            assert(credited_nodes(v, 0)[i].n[e] == v.nodes[i].n[e]);
        }
        assert(credited_nodes(v, 0)[i].n =~= v.nodes[i].n);
        assert(credited_nodes(v, 0)[i].vl =~= v.nodes[i].vl);
        assert(credited_nodes(v, 0)[i] =~= v.nodes[i]);
        let landed = credited_nodes(v, v.path.len() as int)[i];
        assert forall|e: int| 0 <= e < v.nodes[i].vl.len() implies #[trigger] landed.n[e]
            == v.backed_up().nodes[i].n[e] && landed.vl[e] == v.backed_up().nodes[i].vl[e] by {
            assert(credited_nodes(v, 0)[i].n[e] == v.nodes[i].n[e]);
        }
        assert(landed.n =~= v.backed_up().nodes[i].n);
        assert(landed.vl =~= v.backed_up().nodes[i].vl);
        assert(credited_nodes(v, v.path.len() as int)[i] =~= v.backed_up().nodes[i]);
    }
    assert(credited_nodes(v, 0) =~= v.nodes);
    assert(credited_nodes(v, v.path.len() as int) =~= v.backed_up().nodes);
}

impl MctsSearcher {
    /// Hands out the leaves that wait for an evaluation, and marks them
    /// evaluated and their nodes expanded. Whoever asks evaluates them, in this
    /// order, before the round is backed up.
    pub fn evaluate_leaves(&mut self) -> (r: Vec<usize>)
        requires
            old(self).wf(),
            old(self)@.cursor is Idle,
        ensures
            lists_waiting(old(self)@.leaves, r@),
            final(self)@ == old(self)@.evaluated(),
            final(self).wf(),
            forall|s: int|
                0 <= s < final(self)@.leaves.len() ==> (#[trigger] final(self)@.leaves[s]).value
                    !is Waiting,
            final(self).config == old(self).config,
    {
        let ghost before = self@;
        proof {
            evaluating_keeps(before);
        }
        let mut index: Vec<usize> = Vec::new();
        let mut i: usize = 0;
        assert(evaluated_nodes(before, 0) =~= before.nodes);
        while i < self.leaves.len()
            invariant
                before == old(self)@,
                before.wf(),
                self@.leaves.len() == before.leaves.len(),
                i <= before.leaves.len(),
                self@ == (TreeView {
                    nodes: evaluated_nodes(before, i as int),
                    leaves: self@.leaves,
                    ..before
                }),
                self.config == old(self).config,
                forall|s: int|
                    0 <= s < i ==> #[trigger] self@.leaves[s] == before.evaluated().leaves[s],
                forall|s: int|
                    i <= s < before.leaves.len() ==> #[trigger] self@.leaves[s]
                        == before.leaves[s],
                forall|a: int, b: int|
                    0 <= a < b < index@.len() ==> #[trigger] index@[a] < #[trigger] index@[b],
                forall|a: int|
                    0 <= a < index@.len() ==> #[trigger] index@[a] < i
                        && before.leaves[index@[a] as int].value is Waiting,
                forall|s: int|
                    0 <= s < i && (#[trigger] before.leaves[s]).value is Waiting ==> exists|a: int|
                        0 <= a < index@.len() && #[trigger] index@[a] == s,
            decreases self.leaves.len() - i,
        {
            let leaf = self.leaves[i];
            assert(self@.leaves[i as int] == before.leaves[i as int]);
            let ghost listed = index@;
            if leaf.value == LeafValue::Waiting {
                let at: usize = leaf.node as usize;
                assert(before.leaves[i as int].node < before.nodes.len());
                assert(self@.nodes.len() == self.nodes@.len());
                assert(self@.nodes[at as int] == self.nodes@[at as int]@);
                let ghost mid = self@.nodes;
                index.push(i);
                self.leaves[i] = Leaf { node: leaf.node, value: LeafValue::Evaluated };
                self.nodes[at].expanded = true;
                self.nodes[at].pending = false;
                proof {
                    assert(index@[listed.len() as int] == i);
                    assert forall|s: int| 0 <= s < i + 1 && (
                    #[trigger] before.leaves[s]).value is Waiting implies exists|a: int|
                        0 <= a < index@.len() && #[trigger] index@[a] == s by {
                        if s < i {
                            let a = choose|a: int| 0 <= a < listed.len() && #[trigger] listed[a] == s;
                            assert(index@[a] == s);
                        }
                    }
                    assert forall|k: int| 0 <= k < before.nodes.len() implies collected(
                        before.leaves,
                        i as int + 1,
                        k,
                    ) == (collected(before.leaves, i as int, k) || k == at) by {
                        if k == at {
                            assert(before.leaves[i as int].node == k);
                        }
                        if collected(before.leaves, i as int, k) {
                            let s = choose|s: int|
                                0 <= s < i && (#[trigger] before.leaves[s]).node == k
                                    && before.leaves[s].value is Waiting;
                            assert(before.leaves[s].node == k);
                        }
                    }
                    let next = evaluated_nodes(before, i as int + 1);
                    assert(self@.nodes.len() == next.len());
                    assert forall|k: int| 0 <= k < next.len() implies self@.nodes[k]
                        == #[trigger] next[k] by {
                        assert(mid[k] == evaluated_nodes(before, i as int)[k]);
                        if k == at {
                            assert(self@.nodes[k] =~= NodeView {
                                pending: false,
                                expanded: true,
                                ..mid[k]
                            });
                        } else {
                            assert(self@.nodes[k] == mid[k]);
                        }
                    }
                    assert(self@.nodes =~= next);
                }
            } else {
                proof {
                    assert forall|k: int| 0 <= k < before.nodes.len() implies collected(
                        before.leaves,
                        i as int + 1,
                        k,
                    ) == collected(before.leaves, i as int, k) by {
                        if collected(before.leaves, i as int, k) {
                            let s = choose|s: int|
                                0 <= s < i && (#[trigger] before.leaves[s]).node == k
                                    && before.leaves[s].value is Waiting;
                            assert(before.leaves[s].node == k);
                        }
                    }
                    assert(evaluated_nodes(before, i as int + 1) =~= evaluated_nodes(
                        before,
                        i as int,
                    ));
                }
            }
            i += 1;
        }
        proof {
            assert forall|k: int| 0 <= k < before.nodes.len() implies collected(
                before.leaves,
                i as int,
                k,
            ) == (#[trigger] before.nodes[k]).pending by {
                if collected(before.leaves, i as int, k) {
                    let s = choose|s: int|
                        0 <= s < i && (#[trigger] before.leaves[s]).node == k
                            && before.leaves[s].value is Waiting;
                    assert(before.nodes[before.leaves[s].node as int].pending);
                }
            }
            assert(self@.nodes =~= before.evaluated().nodes);
            assert(self@.leaves =~= before.evaluated().leaves);
            assert(self@ =~= before.evaluated());
        }
        index
    }

    /// Credits every edge of every collected descent with its leaf, removes the
    /// virtual loss the descents applied, and ends the round.
    ///
    /// The credits are handed out in the order they are to be added up, each
    /// with the leaf whose value it carries, **as is** at every level.
    pub fn backup(&mut self) -> (r: Vec<Credit>)
        requires
            old(self).wf(),
            old(self)@.cursor is Idle,
            forall|s: int|
                0 <= s < old(self)@.leaves.len() ==> (#[trigger] old(self)@.leaves[s]).value
                    !is Waiting,
            old(self)@.sims + old(self)@.descents.len() <= u64::MAX,
        ensures
            old(self)@.credited(r@),
            final(self)@ == old(self)@.backed_up(),
            final(self).wf(),
            final(self)@.resting(),
            final(self).config == old(self).config,
    {
        let ghost before = self@;
        proof {
            backing_up_keeps(before);
            credits_start_and_end(before);
        }
        let mut credits: Vec<Credit> = Vec::new();
        let mut d: usize = 0;
        let mut t: usize = 0;
        while d < self.descents.len()
            invariant
                before == old(self)@,
                before.wf(),
                before.cursor is Idle,
                self@ == (TreeView { nodes: credited_nodes(before, t as int), ..before }),
                self.config == old(self).config,
                d <= before.descents.len(),
                t <= before.path.len(),
                t == (if d == 0 {
                    0
                } else {
                    before.descents[d - 1].end as int
                }),
                credits@.len() == t,
                forall|c: int, u: int|
                    #![trigger before.descents[c], credits@[u]]
                    0 <= c < d && before.descents[c].start <= u < before.descents[c].end
                        ==> credits@[u] == (Credit {
                        node: before.path[u].0,
                        edge: before.path[u].1,
                        leaf: before.descents[c].leaf,
                    }),
            decreases self.descents.len() - d,
        {
            let descent = self.descents[d];
            let ghost done = credits@;
            proof {
                assert(self.descents@[d as int] == before.descents[d as int]);
                if d > 0 {
                    assert(before.descents[d - 1].end == before.descents[d as int].start);
                }
            }
            while t < descent.end
                invariant
                    before == old(self)@,
                    before.wf(),
                    self@ == (TreeView { nodes: credited_nodes(before, t as int), ..before }),
                    self.config == old(self).config,
                    descent == before.descents[d as int],
                    d < before.descents.len(),
                    descent.start <= t <= descent.end <= before.path.len(),
                    credits@.len() == t,
                    done.len() == descent.start,
                    forall|u: int| 0 <= u < descent.start ==> #[trigger] credits@[u] == done[u],
                    forall|u: int|
                        descent.start <= u < t ==> #[trigger] credits@[u] == (Credit {
                            node: before.path[u].0,
                            edge: before.path[u].1,
                            leaf: descent.leaf,
                        }),
                decreases descent.end - t,
            {
                assert(self@.path == before.path);
                let (id, edge): (u32, u32) = self.path[t];
                let at: usize = id as usize;
                let slot: usize = edge as usize;
                proof {
                    one_more_credit(before, t as int);
                    assert(self.path@[t as int] == before.path[t as int]);
                    assert(self@.nodes.len() == self.nodes@.len());
                    assert(self@.nodes[at as int] == self.nodes@[at as int]@);
                }
                let node = &mut self.nodes[at];
                node.visits += 1;
                node.n[slot] += 1;
                node.vl[slot] -= 1;
                node.vl_visits -= 1;
                credits.push(Credit { node: id, edge, leaf: descent.leaf });
                t += 1;
                assert(self@.nodes =~= credited_nodes(before, t as int));
                assert(self@ =~= (TreeView { nodes: credited_nodes(before, t as int), ..before }));
            }
            proof {
                assert forall|c: int, u: int|
                    #![trigger before.descents[c], credits@[u]]
                    0 <= c < d + 1 && before.descents[c].start <= u < before.descents[c].end implies credits@[u]
                    == (Credit {
                    node: before.path[u].0,
                    edge: before.path[u].1,
                    leaf: before.descents[c].leaf,
                }) by {
                    if c < d {
                        descents_ascend(before.descents, c, d as int, before);
                        assert(credits@[u] == done[u]);
                    }
                }
            }
            d += 1;
        }
        proof {
            assert(before.open_start() == before.path.len());
            if before.descents.len() > 0 {
                assert(before.descents.last() == before.descents[before.descents.len() - 1]);
            }
        }
        self.sims = self.sims + self.descents.len() as u64;
        self.path.clear();
        self.descents.clear();
        self.leaves.clear();
        assert(self@ =~= before.backed_up());
        credits
    }
}

/// An earlier descent ends before a later one starts.
proof fn descents_ascend(descents: Seq<Descent>, c: int, d: int, v: TreeView)
    requires
        crate::mcts::tree::descents_wf(descents, v.path.len() as int, v.leaves.len() as int),
        0 <= c < d < descents.len(),
    ensures
        descents[c].end <= descents[d].start,
    decreases d - c,
{
    if c + 1 < d {
        descents_ascend(descents, c, d - 1, v);
        assert(descents[d - 1].end == descents[d].start);
    }
}

/// `best` is the most visited edge, the first one among equals.
pub open spec fn most_visited(n: Seq<u32>, best: int) -> bool {
    &&& 0 <= best < n.len()
    &&& forall|a: int| 0 <= a < n.len() ==> #[trigger] n[a] <= n[best]
    &&& forall|a: int| 0 <= a < best ==> #[trigger] n[a] < n[best]
}

/// `edge` is the one a draw of `target` falls on when every edge is as wide as
/// its visits: the first whose visits, with all before it, exceed `target`, or
/// the last.
pub open spec fn drawn(n: Seq<u32>, target: int, edge: int) -> bool {
    &&& 0 <= edge < n.len()
    &&& forall|a: int| 0 <= a < edge ==> total(#[trigger] n.take(a + 1)) <= target
    &&& target < total(n.take(edge + 1)) || edge == n.len() - 1
}

/// The score above which a selection starts looking.
pub open spec fn bottom() -> Score {
    Score { bits: NEG_INFINITY }
}

/// `best` is the edge a selection takes: the first of those that no other
/// beats, passing over what is not a number. Where no score is above negative
/// infinity, it is the first edge.
pub open spec fn selected(scores: Seq<Score>, best: int) -> bool {
    if exists|a: int| 0 <= a < scores.len() && (#[trigger] scores[a]).beats(bottom()) {
        &&& 0 <= best < scores.len()
        &&& scores[best].beats(bottom())
        &&& forall|a: int| 0 <= a < scores.len() ==> !(#[trigger] scores[a]).beats(scores[best])
        &&& forall|a: int|
            0 <= a < best ==> (#[trigger] scores[a]).nan() || scores[best].beats(scores[a])
    } else {
        best == 0
    }
}

/// The edge to take at a node whose edges score `scores`.
pub fn select_edge(scores: &Vec<Score>) -> (r: usize)
    ensures
        selected(scores@, r as int),
{
    let mut best: usize = 0;
    let mut top = Score { bits: NEG_INFINITY };
    let mut a: usize = 0;
    while a < scores.len()
        invariant
            a <= scores@.len(),
            !top.nan(),
            top == bottom() ==> best == 0 && forall|b: int|
                0 <= b < a ==> !(#[trigger] scores@[b]).beats(bottom()),
            top != bottom() ==> {
                &&& best < a
                &&& top == scores@[best as int]
                &&& top.beats(bottom())
                &&& forall|b: int|
                    0 <= b < best ==> (#[trigger] scores@[b]).nan() || top.beats(scores@[b])
            },
            forall|b: int| 0 <= b < a ==> !(#[trigger] scores@[b]).beats(top),
        decreases scores@.len() - a,
    {
        if scores[a].exceeds(&top) {
            top = scores[a];
            best = a;
        }
        a += 1;
    }
    proof {
        if top != bottom() {
            assert(scores@[best as int].beats(bottom()));
        }
    }
    best
}

/// A selection takes one edge only.
pub proof fn a_selection_takes_one_edge(scores: Seq<Score>, first: int, second: int)
    requires
        selected(scores, first),
        selected(scores, second),
    ensures
        first == second,
{
    if exists|a: int| 0 <= a < scores.len() && (#[trigger] scores[a]).beats(bottom()) {
        if first < second {
            assert(scores[second].beats(scores[first]));
        } else if second < first {
            assert(scores[first].beats(scores[second]));
        }
    }
}

/// The most visited edge, the first of them on a tie.
pub fn most_visited_edge(n: &Vec<u32>) -> (r: usize)
    requires
        n@.len() > 0,
    ensures
        most_visited(n@, r as int),
{
    let mut best: usize = 0;
    let mut a: usize = 1;
    while a < n.len()
        invariant
            best < a <= n@.len(),
            forall|b: int| 0 <= b < a ==> #[trigger] n@[b] <= n@[best as int],
            forall|b: int| 0 <= b < best ==> #[trigger] n@[b] < n@[best as int],
        decreases n@.len() - a,
    {
        if n[a] > n[best] {
            best = a;
        }
        a += 1;
    }
    best
}

/// The edge a draw of `target` falls on when every edge is as wide as its
/// visits.
pub fn drawn_edge(n: &Vec<u32>, target: u64) -> (r: usize)
    requires
        n@.len() > 0,
        total(n@) <= u64::MAX,
    ensures
        drawn(n@, target as int, r as int),
{
    let mut cumulative: u64 = 0;
    let mut a: usize = 0;
    let last: usize = n.len() - 1;
    assert(n@.take(0) =~= Seq::empty());
    while a < last
        invariant
            a <= last,
            last + 1 == n@.len(),
            total(n@) <= u64::MAX,
            cumulative == total(n@.take(a as int)),
            forall|b: int| 0 <= b < a ==> total(#[trigger] n@.take(b + 1)) <= target,
        decreases last - a,
    {
        proof {
            assert(n@.take(a + 1).drop_last() =~= n@.take(a as int));
            prefix_total(n@, a + 1);
        }
        cumulative = cumulative + n[a] as u64;
        if target < cumulative {
            return a;
        }
        a += 1;
    }
    last
}

/// The root has no action to play.
pub open spec fn no_action(v: TreeView) -> bool {
    v.nodes[0].terminal || v.nodes[0].actions.len() == 0
}

/// `answer` is the root's best action: the schedule's own answer under a
/// schedule, the most visited one otherwise.
pub open spec fn best_answer(v: TreeView, scores: Seq<Score>, answer: Option<Action>) -> bool {
    if no_action(v) {
        answer is None
    } else if v.plan is Some {
        exists|edge: usize|
            #![trigger first_best((v.plan->0).alive, scores, edge)]
            first_best((v.plan->0).alive, scores, edge) && answer == Some(
                v.nodes[0].actions[edge as int],
            )
    } else {
        exists|edge: int|
            #![trigger most_visited(v.nodes[0].n, edge)]
            most_visited(v.nodes[0].n, edge) && answer == Some(v.nodes[0].actions[edge])
    }
}

/// `answer` is the action to play: the best one, or, where visits are sampled
/// and there is something to sample, the one a draw of `target` falls on; where
/// nothing was visited yet, the first.
pub open spec fn chosen_answer(
    v: TreeView,
    config: Config,
    scores: Seq<Score>,
    target: int,
    answer: Option<Action>,
) -> bool {
    if !config.visit_sampling || config.gumbel is Some {
        best_answer(v, scores, answer)
    } else if no_action(v) {
        answer is None
    } else if v.nodes[0].visits == 0 {
        answer == Some(v.nodes[0].actions[0])
    } else {
        exists|edge: int|
            #![trigger drawn(v.nodes[0].n, target, edge)]
            drawn(v.nodes[0].n, target, edge) && answer == Some(v.nodes[0].actions[edge])
    }
}

impl MctsSearcher {
    /// Draws this root's schedule, if the configuration asks for one. `scores`
    /// is `g + logit` for every root edge, in edge order.
    pub(crate) fn plan_gumbel(&mut self, scores: &Vec<Score>)
        requires
            old(self)@.wf(),
            old(self)@.resting(),
            old(self)@.plan is None,
            old(self).config.gumbel is Some && !no_action(old(self)@) ==> scores@.len() == old(
                self,
            )@.nodes[0].actions.len(),
        ensures
            final(self).wf(),
            final(self)@ == (TreeView { plan: final(self)@.plan, ..old(self)@ }),
            schedule_fits(final(self)@, final(self).config, scores@),
            final(self).config == old(self).config,
    {
        let ghost before = self@;
        assert(before.nodes[0] == self.nodes@[0]@);
        assert(before.nodes[0].wf());
        if let Some(config) = self.config.gumbel {
            if self.nodes[0].terminal || self.nodes[0].actions.len() == 0 {
                return ;
            }
            let plan = GumbelPlan::new(scores, &config);
            let ghost drawn_plan = plan@;
            self.gumbel = Some(plan);
            assert(self@ =~= (TreeView { plan: Some(drawn_plan), ..before }));
            assert(self@.open_steps() =~= before.open_steps());
        }
    }

    /// Whether the schedule waits for scores to cut its candidates by.
    pub fn halving_due(&self) -> (r: bool)
        requires
            self.wf(),
        ensures
            r == (self@.plan matches Some(plan) && plan.halving_due()),
    {
        match &self.gumbel {
            Some(plan) => plan.needs_halving(),
            None => false,
        }
    }

    /// Whether `scores` put the schedule's candidates in an order to cut them by.
    /// Without a schedule there is nothing to cut.
    pub fn can_halve(&self, scores: &Vec<Score>) -> (r: bool)
        requires
            self.wf(),
            self@.plan is Some ==> scores@.len() == self@.nodes[0].actions.len(),
        ensures
            r == (self@.plan matches Some(plan) ==> ordered(
                scores@,
                Ranking::Numeric,
                plan.alive,
            )),
    {
        match &self.gumbel {
            Some(plan) => plan.can_halve(scores),
            None => true,
        }
    }

    /// Settles any due halving and shortens the coming round so that it does
    /// not straddle a phase boundary. `scores` is read only when a halving is
    /// due.
    pub fn gumbel_prepare(&mut self, target: u32, scores: &Vec<Score>) -> (r: u32)
        requires
            old(self).wf(),
            old(self)@.resting(),
            (old(self)@.plan matches Some(plan) && plan.halving_due()) ==> scores@.len()
                == old(self)@.nodes[0].actions.len() && ordered(
                scores@,
                Ranking::Numeric,
                (old(self)@.plan->0).alive,
            ),
        ensures
            final(self).wf(),
            final(self)@ == (TreeView { plan: final(self)@.plan, ..old(self)@ }),
            match old(self)@.plan {
                None => final(self)@.plan is None && r == target,
                Some(plan) => {
                    &&& final(self)@.plan is Some
                    &&& if plan.halving_due() {
                        plan.halves_to(scores@, final(self)@.plan->0)
                    } else {
                        final(self)@.plan->0 == plan
                    }
                    &&& r == round_length(final(self)@.plan->0, target as int)
                },
            },
            final(self).config == old(self).config,
    {
        let ghost before = self@;
        let mut taken = self.gumbel.take();
        match taken {
            None => {
                assert(self@ =~= before);
                target
            },
            Some(mut plan) => {
                assert(plan@ == before.plan->0);
                if plan.needs_halving() {
                    plan.halve(scores);
                }
                let remaining: u32 = plan.phase_remaining();
                let ghost settled = plan@;
                self.gumbel = Some(plan);
                assert(self@ =~= (TreeView { plan: Some(settled), ..before }));
                assert(self@.open_steps() =~= before.open_steps());
                let shorter: u32 = if target <= remaining {
                    target
                } else {
                    remaining
                };
                if shorter >= 1 {
                    shorter
                } else {
                    1
                }
            },
        }
    }

    /// How many descents the next round may collect when `left` simulations are
    /// still to be run.
    pub fn round_target(&self, left: u32) -> (r: u32)
        ensures
            r == batch_target(self.config.batch_size, left as int),
    {
        let batch: u32 = if self.config.batch_size == 0 {
            1
        } else {
            self.config.batch_size as u32
        };
        if batch <= left {
            batch
        } else {
            left
        }
    }

    /// Simulations run so far.
    pub fn sims_run(&self) -> (r: u64)
        ensures
            r == self@.sims,
    {
        self.sims
    }

    /// The configuration this searcher was built with.
    pub fn config(&self) -> (r: &Config)
        ensures
            *r == self.config,
    {
        &self.config
    }

    /// Nodes currently in the arena, root included.
    pub fn node_count(&self) -> (r: usize)
        ensures
            r == self@.nodes.len(),
    {
        self.nodes.len()
    }

    /// Distinct position keys in the arena.
    pub fn distinct_positions(&self) -> (r: usize)
        ensures
            r == keys_of(self@.nodes).len(),
    {
        broadcast use vstd::std_specs::hash::group_hash_axioms;

        let mut seen: HashSet<u64> = HashSet::new();
        let mut i: usize = 0;
        while i < self.nodes.len()
            invariant
                i <= self.nodes@.len(),
                seen@ == keys_of(self@.nodes.take(i as int)),
            decreases self.nodes.len() - i,
        {
            broadcast use vstd::std_specs::hash::group_hash_axioms;

            let key: u64 = self.nodes[i].state.hash;
            seen.insert(key);
            proof {
                let shorter = self@.nodes.take(i as int);
                let longer = self@.nodes.take(i as int + 1);
                assert(longer =~= shorter.push(self@.nodes[i as int]));
                assert(self@.nodes[i as int] == self.nodes@[i as int]@);
                assert forall|k: u64| keys_of(longer).contains(k) == (keys_of(shorter).contains(k)
                    || k == key) by {
                    if keys_of(shorter).contains(k) {
                        let j = choose|j: int|
                            0 <= j < shorter.len() && (#[trigger] shorter[j]).state.hash == k;
                        assert(longer[j].state.hash == k);
                    }
                    if k == key {
                        assert(longer[i as int].state.hash == k);
                    }
                    if keys_of(longer).contains(k) && k != key {
                        let j = choose|j: int|
                            0 <= j < longer.len() && (#[trigger] longer[j]).state.hash == k;
                        assert(shorter[j].state.hash == k);
                    }
                }
                assert(keys_of(longer) =~= keys_of(shorter).insert(key));
            }
            i += 1;
        }
        assert(self@.nodes.take(i as int) =~= self@.nodes);
        seen.len()
    }

    /// Child links that resolved to an existing node.
    pub fn merges(&self) -> (r: u64)
        ensures
            r == self@.merges,
    {
        self.merges
    }

    /// Keys that matched a node holding a *different* position.
    pub fn key_collisions(&self) -> (r: u64)
        ensures
            r == self@.key_collisions,
    {
        self.key_collisions
    }

    /// The root's legal actions, in enumeration order. Empty at a terminal root.
    pub fn root_actions(&self) -> (r: &Vec<Action>)
        requires
            self.wf(),
        ensures
            r@ == self@.nodes[0].actions,
    {
        assert(self@.nodes[0] == self.nodes@[0]@);
        &self.nodes[0].actions
    }

    /// The position the tree is currently rooted at.
    pub fn root_state(&self) -> (r: &State)
        requires
            self.wf(),
        ensures
            r@ == self@.nodes[0].state,
    {
        assert(self@.nodes[0] == self.nodes@[0]@);
        &self.nodes[0].state
    }

    /// Total visits below the root.
    pub fn root_visit_total(&self) -> (r: u64)
        requires
            self.wf(),
        ensures
            r == self@.nodes[0].visits,
            r == total(self@.nodes[0].n),
    {
        assert(self@.nodes[0] == self.nodes@[0]@);
        assert(self@.nodes[0].wf());
        self.nodes[0].visits as u64
    }

    /// Per-root-action visit counts, parallel to [`MctsSearcher::root_actions`].
    pub fn root_visits(&self) -> (r: &Vec<u32>)
        requires
            self.wf(),
        ensures
            r@ == self@.nodes[0].n,
            r@.len() == self@.nodes[0].actions.len(),
    {
        assert(self@.nodes[0] == self.nodes@[0]@);
        assert(self@.nodes[0].wf());
        &self.nodes[0].n
    }

    /// Whether this search is running a Gumbel root schedule.
    pub fn is_gumbel(&self) -> (r: bool)
        ensures
            r == (self@.plan is Some),
    {
        self.gumbel.is_some()
    }

    /// Most-visited root action, ties broken by enumeration order; under a
    /// schedule the schedule's own answer instead. `None` at a terminal or
    /// stuck root. `scores`, read only under a schedule, is the schedule's
    /// ranking of the root edges.
    pub fn best_action(&self, scores: &Vec<Score>) -> (r: Option<Action>)
        requires
            self.wf(),
            self@.plan is Some ==> scores@.len() == self@.nodes[0].actions.len(),
        ensures
            best_answer(self@, scores@, r),
    {
        assert(self@.nodes[0] == self.nodes@[0]@);
        assert(self@.nodes[0].wf());
        let root = &self.nodes[0];
        if root.terminal || root.actions.len() == 0 {
            return None;
        }
        if let Some(plan) = &self.gumbel {
            let edge: usize = plan.choice(scores);
            return Some(root.actions[edge]);
        }
        let best: usize = most_visited_edge(&root.n);
        assert(most_visited(self@.nodes[0].n, best as int));
        Some(root.actions[best])
    }

    /// The action to play is drawn from the visit counts.
    pub open spec fn sampling(&self) -> bool {
        self.config.visit_sampling && self.config.gumbel is None && !no_action(self@)
    }

    /// How many visits [`MctsSearcher::chosen_action`] draws from, when it draws
    /// at all.
    pub fn draw_total(&self) -> (r: Option<u64>)
        requires
            self.wf(),
        ensures
            r is Some <==> self.sampling() && self@.nodes[0].visits > 0,
            r matches Some(visits) ==> visits == total(self@.nodes[0].n),
    {
        assert(self@.nodes[0] == self.nodes@[0]@);
        assert(self@.nodes[0].wf());
        let root = &self.nodes[0];
        if !self.config.visit_sampling || self.gumbel.is_some() || root.terminal
            || root.actions.len() == 0 || root.visits == 0 {
            return None;
        }
        Some(root.visits as u64)
    }

    /// The action to play: the best one, or, when visit sampling is on, the one
    /// a draw of `target` below [`MctsSearcher::draw_total`] falls on.
    pub fn chosen_action(&self, scores: &Vec<Score>, target: u64) -> (r: Option<Action>)
        requires
            self.wf(),
            self@.plan is Some ==> scores@.len() == self@.nodes[0].actions.len(),
        ensures
            chosen_answer(self@, self.config, scores@, target as int, r),
            !self.config.visit_sampling || self.config.gumbel is Some ==> best_answer(
                self@,
                scores@,
                r,
            ),
            self.config.visit_sampling && self.config.gumbel is None ==> {
                &&& no_action(self@) <==> r is None
                &&& !no_action(self@) && self@.nodes[0].visits == 0 ==> r == Some(
                    self@.nodes[0].actions[0],
                )
                &&& !no_action(self@) && self@.nodes[0].visits > 0 ==> exists|edge: int|
                    #![trigger drawn(self@.nodes[0].n, target as int, edge)]
                    drawn(self@.nodes[0].n, target as int, edge) && r == Some(
                        self@.nodes[0].actions[edge],
                    ) && (target < self@.nodes[0].visits ==> self@.nodes[0].n[edge] > 0)
            },
    {
        assert(self@.nodes[0] == self.nodes@[0]@);
        assert(self@.nodes[0].wf());
        if !self.config.visit_sampling || self.gumbel.is_some() {
            return self.best_action(scores);
        }
        let root = &self.nodes[0];
        if root.terminal || root.actions.len() == 0 {
            return None;
        }
        if root.visits == 0 {
            return Some(root.actions[0]);
        }
        let edge: usize = drawn_edge(&root.n, target);
        proof {
            assert(drawn(self@.nodes[0].n, target as int, edge as int));
            if target < self@.nodes[0].visits {
                a_draw_falls_on_a_visited_action(
                    self@.nodes[0].n,
                    target as int,
                    edge as int,
                );
            }
        }
        Some(root.actions[edge])
    }
}

/// A draw below the visit total never falls on an action without a visit.
pub proof fn a_draw_falls_on_a_visited_action(n: Seq<u32>, target: int, edge: int)
    requires
        drawn(n, target, edge),
        0 <= target < total(n),
    ensures
        n[edge] > 0,
{
    let upto = n.take(edge + 1);
    assert(upto.drop_last() =~= n.take(edge));
    assert(upto.last() == n[edge]);
    assert(total(upto) == total(n.take(edge)) + n[edge]);
    if edge == n.len() - 1 {
        assert(upto =~= n);
    }
    if edge > 0 {
        let before = edge - 1;
        assert(total(n.take(before + 1)) <= target);
        assert(n.take(before + 1) =~= n.take(edge));
    } else {
        assert(n.take(edge).len() == 0);
    }
}

/// A draw falls on one action: the same draw from the same visits is the same
/// action.
pub proof fn a_draw_falls_on_one_action(n: Seq<u32>, target: int, first: int, second: int)
    requires
        drawn(n, target, first),
        drawn(n, target, second),
    ensures
        first == second,
{
    if first < second {
        assert(total(n.take(first + 1)) <= target);
    } else if second < first {
        assert(total(n.take(second + 1)) <= target);
    }
}

/// A prefix of a column adds up to no more than the column.
proof fn prefix_total(column: Seq<u32>, count: int)
    requires
        0 <= count <= column.len(),
    ensures
        0 <= total(column.take(count)) <= total(column),
    decreases column.len() - count,
{
    crate::mcts::tree::total_nonnegative(column.take(count));
    if count < column.len() {
        assert(column.take(count + 1).drop_last() =~= column.take(count));
        prefix_total(column, count + 1);
    } else {
        assert(column.take(count) =~= column);
    }
}

/// The keys of an arena.
pub open spec fn keys_of(nodes: Seq<NodeView>) -> Set<u64> {
    Set::new(|k: u64| exists|i: int| 0 <= i < nodes.len() && (#[trigger] nodes[i]).state.hash == k)
}

/// `plan` is the schedule that `scores` and `config` call for.
pub open spec fn new_plan(plan: PlanView, scores: Seq<Score>, config: GumbelConfig) -> bool {
    let count = crate::mcts::gumbel::candidates(config.m as int, scores.len() as int);
    &&& plan.wf()
    &&& plan.edges == scores.len()
    &&& crate::mcts::gumbel::top_of(
        scores,
        Ranking::Total,
        Set::new(|e: int| 0 <= e < scores.len()),
        count,
        plan.alive,
    )
    &&& plan.rounds == crate::mcts::gumbel::rounds_of(count)
    &&& plan.budget == (if config.sims >= 1 {
        config.sims
    } else {
        1
    })
    &&& plan.phase == 0
    &&& plan.given == 0
    &&& plan.scheduled == 0
    &&& plan.per_action == plan.due_share()
}

/// The tree's schedule is the one `config` and the drawn `scores` call for.
pub open spec fn schedule_fits(v: TreeView, config: Config, scores: Seq<Score>) -> bool {
    match config.gumbel {
        None => v.plan is None,
        Some(schedule) => if no_action(v) {
            v.plan is None
        } else {
            v.plan is Some && new_plan(v.plan->0, scores, schedule)
        },
    }
}

/// How many descents a round may collect under a schedule: no more than are
/// left of the phase, and at least one.
pub open spec fn round_length(plan: PlanView, target: int) -> int {
    let remaining = if plan.alive.len() == 1 {
        u32::MAX as int
    } else {
        plan.per_action * plan.alive.len() - plan.given
    };
    let shorter = if target <= remaining {
        target
    } else {
        remaining
    };
    if shorter >= 1 {
        shorter
    } else {
        1
    }
}

/// A tree of one node is well formed.
pub proof fn sapling_is_wf(state: crate::game::StateView, dag: bool)
    requires
        state.wf(),
    ensures
        sapling(state, dag).wf(),
        sapling(state, dag).resting(),
{
    let v = sapling(state, dag);
    let root = rooted(state);
    crate::mcts::tree::total_of_zeros(root.n);
    crate::mcts::tree::total_of_zeros(root.vl);
    assert(root.wf());
    assert forall|i: int, e: int| 0 <= i < v.nodes.len() && 0 <= e < v.nodes[i].vl.len() implies (
    #[trigger] v.nodes[i].vl[e]) == crate::mcts::tree::walks(v.path, i, e) by {
        vstd::seq_lib::to_multiset_contains(v.path, (i as u32, e as u32));
    }
}

/// How many descents a round aims at when `left` simulations are still to be
/// run: a batch, and no more than are left.
pub open spec fn batch_target(batch: u16, left: int) -> int {
    let size = if batch == 0 {
        1
    } else {
        batch as int
    };
    if size <= left {
        size
    } else {
        left
    }
}

/// How many descents a round aiming at `target` collects.
pub open spec fn round_size(plan: Option<PlanView>, target: int) -> int {
    match plan {
        None => target,
        Some(p) => round_length(p, target),
    }
}

/// With merging on and no key collision, an arena whose root's key is its own
/// holds as many distinct keys as nodes.
pub proof fn a_merged_arena_counts_every_node(v: TreeView)
    requires
        v.wf(),
        v.dag,
        v.key_collisions == 0,
        forall|i: int|
            1 <= i < v.nodes.len() ==> (#[trigger] v.nodes[i]).state.hash != v.nodes[0].state.hash,
    ensures
        keys_of(v.nodes).len() == v.nodes.len(),
{
    let keys = v.nodes.map_values(|node: NodeView| node.state.hash);
    assert(keys.no_duplicates()) by {
        assert forall|i: int, j: int|
            0 <= i < keys.len() && 0 <= j < keys.len() && i != j implies keys[i] != keys[j] by {
            let (low, high) = if i < j {
                (i, j)
            } else {
                (j, i)
            };
            assert(v.nodes[high].state.hash != v.nodes[low].state.hash) by {
                if low > 0 {
                    crate::mcts::tree::no_position_is_stored_twice(v, low, high);
                }
            }
        }
    }
    keys.unique_seq_to_set();
    assert(keys.to_set() =~= keys_of(v.nodes)) by {
        assert forall|k: u64| keys.to_set().contains(k) == keys_of(v.nodes).contains(k) by {
            if keys_of(v.nodes).contains(k) {
                let i = choose|i: int|
                    0 <= i < v.nodes.len() && (#[trigger] v.nodes[i]).state.hash == k;
                assert(keys[i] == k);
            }
            if keys.to_set().contains(k) {
                let i = choose|i: int| 0 <= i < keys.len() && keys[i] == k;
                assert(v.nodes[i].state.hash == k);
            }
        }
    }
}

// -------------------------------------------------------------------- laws

/// To the seat that won, a finished position is worth one, to the other minus
/// one, and to both nothing where nobody won: the frame and the sign agree.
pub proof fn a_win_is_worth_one_to_its_winner(state: crate::game::StateView, mover: Player)
    requires
        mover == 1 || mover == 2,
    ensures
        state.outcome_winner == mover ==> outcome_value(state) * sign_for(mover) == 1,
        state.outcome_winner == 3 - mover ==> outcome_value(state) * sign_for(mover) == -1,
        state.outcome_winner == 0 ==> outcome_value(state) * sign_for(mover) == 0,
{
}

/// What is good for one seat is as bad for the other.
pub proof fn the_seats_see_opposite_signs()
    ensures
        sign_for(1) == 1,
        sign_for(2) == -1,
{
}

/// A cell's place in the net's maps is its place in the position's own grid.
pub proof fn a_map_and_the_grid_agree(state: crate::game::StateView, pos: Pos)
    requires
        state.wf(),
        0 <= pos.row < state.rows,
        0 <= pos.col < state.cols,
    ensures
        on_map(pos, state.cols, state.cells.len() as int),
        state.cell(pos) == Some(state.cells[map_index(pos, state.cols)]),
{
    assert(pos.row * state.cols + pos.col < state.rows * state.cols) by (nonlinear_arith)
        requires
            pos.row < state.rows,
            0 <= pos.col < state.cols,
    ;
}

/// A step to the right is the next entry of a map, a step down is a row of
/// entries further, and the corner is the first; so no two cells share one.
pub proof fn a_map_is_read_row_by_row(a: Pos, b: Pos, cols: int)
    requires
        0 <= a.row,
        0 <= b.row,
        0 <= a.col < cols,
        0 <= b.col < cols,
    ensures
        a.row == 0 && a.col == 0 ==> map_index(a, cols) == 0,
        a.row == b.row ==> map_index(b, cols) - map_index(a, cols) == b.col - a.col,
        a.col == b.col && b.row == a.row + 1 ==> map_index(b, cols) - map_index(a, cols) == cols,
        map_index(a, cols) == map_index(b, cols) ==> a == b,
        cols == BOARD && a.row < BOARD ==> map_index(a, cols)
            == crate::mcts::action_id::number_of(Action::Move { target: a }),
{
    if a.row == 0 {
        assert(a.row * cols == 0) by (nonlinear_arith)
            requires
                a.row == 0,
        ;
    }
    if b.row == a.row + 1 {
        assert(b.row * cols == a.row * cols + cols) by (nonlinear_arith)
            requires
                b.row == a.row + 1,
        ;
    }
    if a.row < b.row {
        assert(a.row * cols + cols <= b.row * cols) by (nonlinear_arith)
            requires
                a.row + 1 <= b.row,
                0 < cols,
        ;
    } else if b.row < a.row {
        assert(b.row * cols + cols <= a.row * cols) by (nonlinear_arith)
            requires
                b.row + 1 <= a.row,
                0 < cols,
        ;
    }
}

/// A round aims at a whole batch while there is that much left to run, and at
/// the rest after that; a batch of none is a batch of one.
pub proof fn a_round_is_a_batch_or_the_rest(batch: u16, left: int)
    requires
        left >= 0,
    ensures
        batch_target(batch, left) <= left,
        batch >= 1 ==> batch_target(batch, left) <= batch,
        batch >= 1 && left >= batch ==> batch_target(batch, left) == batch,
        batch >= 1 && left < batch ==> batch_target(batch, left) == left,
        batch_target(0, left) == batch_target(1, left),
{
}

/// Under a schedule a round stays within its phase: as long as the phase has
/// simulations left it takes what it aims at or all that are left, never more,
/// and a lone survivor never holds it up.
pub proof fn a_round_stays_within_its_phase(plan: PlanView, target: int)
    requires
        plan.wf(),
        1 <= target <= u32::MAX,
    ensures
        1 <= round_length(plan, target) <= target,
        plan.alive.len() == 1 ==> round_length(plan, target) == target,
        plan.alive.len() > 1 && !plan.halving_due() ==> {
            let left = plan.per_action * plan.alive.len() - plan.given;
            &&& round_length(plan, target) <= left
            &&& round_length(plan, target) == target || round_length(plan, target) == left
        },
        plan.halving_due() ==> round_length(plan, target) == 1,
{
}

/// A search is refused for too many or too few players, for a board the net
/// does not know, or for noise on top of a schedule, and for nothing else; what
/// is named is so.
pub proof fn a_refusal_has_its_reason(
    players: int,
    rows: int,
    cols: int,
    has_net: bool,
    config: Config,
)
    ensures
        refusal_of(players, rows, cols, has_net, config) is None <==> players == 2 && (!has_net
            || (rows == 12 && cols == 12)) && !(config.root_noise && config.gumbel is Some),
        match refusal_of(players, rows, cols, has_net, config) {
            Some(Refusal::Players) => players != 2,
            Some(Refusal::Board) => players == 2 && has_net && !(rows == 12 && cols == 12),
            Some(Refusal::NoiseAndGumbel) => config.root_noise && config.gumbel is Some,
            None => true,
        },
{
}

/// A search has no answer exactly where its position has none: the game is over
/// or nothing is legal. Any answer is a legal action of the position.
pub proof fn an_answer_is_a_legal_action(v: TreeView, scores: Seq<Score>, answer: Option<Action>)
    requires
        v.wf(),
        best_answer(v, scores, answer),
    ensures
        answer is None <==> v.nodes[0].state.game_over || v.nodes[0].state.legal_actions.len()
            == 0,
        answer matches Some(action) ==> v.nodes[0].state.legal_actions.contains(action),
{
    let root = v.nodes[0];
    assert(root.wf());
    assert(root.settled());
    if !no_action(v) {
        if v.plan is Some {
            let plan = v.plan->0;
            let edge = choose|edge: usize|
                #![trigger first_best(plan.alive, scores, edge)]
                first_best(plan.alive, scores, edge) && answer == Some(
                    root.actions[edge as int],
                );
            let at = choose|at: int| 0 <= at < plan.alive.len() && plan.alive[at] == edge;
            assert(plan.alive[at] < plan.edges);
        }
    }
}

/// Without a schedule the answer is an action nothing was visited more often
/// than, and everything before it less often.
pub proof fn the_answer_is_the_most_visited(v: TreeView, scores: Seq<Score>, answer: Option<Action>)
    requires
        v.wf(),
        v.plan is None,
        best_answer(v, scores, answer),
        answer is Some,
    ensures
        exists|edge: int|
            {
                &&& 0 <= edge < v.nodes[0].n.len()
                &&& Some(#[trigger] v.nodes[0].actions[edge]) == answer
                &&& forall|a: int|
                    0 <= a < v.nodes[0].n.len() ==> #[trigger] v.nodes[0].n[a]
                        <= v.nodes[0].n[edge]
                &&& forall|a: int|
                    0 <= a < edge ==> #[trigger] v.nodes[0].n[a] < v.nodes[0].n[edge]
            },
{
    let root = v.nodes[0];
    let edge = choose|edge: int|
        #![trigger most_visited(root.n, edge)]
        most_visited(root.n, edge) && answer == Some(root.actions[edge]);
    assert(most_visited(root.n, edge));
    assert(Some(v.nodes[0].actions[edge]) == answer);
}

/// The position a descent asks for is the one its edge's own legal action leads
/// to, and nobody has supplied it yet.
pub proof fn a_descent_asks_for_what_is_missing(v: TreeView)
    requires
        v.wf(),
        v.cursor is Applying,
    ensures
        next_step(v) matches Step::Apply { node, edge, action } && {
            &&& action == v.nodes[node as int].state.legal_actions[edge as int]
            &&& v.nodes[node as int].children[edge as int] == NO_NODE
        },
{
    assert(v.nodes[v.cursor->Applying_node as int].wf());
}

/// A new search starts from its position alone: one node, nothing visited,
/// nothing merged, and an edge for every legal action unless the game is over.
pub proof fn a_search_starts_from_its_position(state: crate::game::StateView, dag: bool)
    ensures
        ({
            let v = sapling(state, dag);
            let root = v.nodes[0];
            &&& v.nodes.len() == 1
            &&& v.sims == 0
            &&& v.merges == 0
            &&& v.key_collisions == 0
            &&& v.dag == dag
            &&& v.plan is None
            &&& root.state == state
            &&& root.mover == state.current_player
            &&& root.visits == 0
            &&& root.terminal <==> state.game_over || state.legal_actions.len() == 0
            &&& root.expanded <==> !root.terminal
            &&& root.expanded ==> root.actions == state.legal_actions
        }),
{
}

/// An edge is as wide as its visits: of the draws below the visit total, it gets
/// exactly as many as it was visited, one after another behind those of the
/// edges before it.
pub proof fn an_edge_is_as_wide_as_its_visits(n: Seq<u32>, edge: int, target: int)
    requires
        0 <= edge < n.len(),
        0 <= target < total(n),
    ensures
        drawn(n, target, edge) <==> total(n.take(edge)) <= target < total(n.take(edge)) + n[edge],
{
    let upto = n.take(edge + 1);
    assert(upto.drop_last() =~= n.take(edge));
    assert(upto.last() == n[edge]);
    if drawn(n, target, edge) {
        if edge > 0 {
            assert(total(n.take(edge - 1 + 1)) <= target);
        } else {
            assert(n.take(0).len() == 0);
        }
        if edge == n.len() - 1 {
            assert(upto =~= n);
        }
    }
    if total(n.take(edge)) <= target < total(n.take(edge)) + n[edge] {
        assert forall|a: int| 0 <= a < edge implies total(#[trigger] n.take(a + 1)) <= target by {
            prefix_total(n.take(edge), a + 1);
            assert(n.take(edge).take(a + 1) =~= n.take(a + 1));
        }
    }
}

/// The sum of a column is made of its entries, whatever order they are added
/// in: two columns behind each other add up to both sums.
pub proof fn sums_add_up(a: Seq<u32>, b: Seq<u32>)
    ensures
        total(a + b) == total(a) + total(b),
        a.len() == 1 ==> total(a) == a[0],
        a.len() == 0 ==> total(a) == 0,
    decreases b.len(),
{
    if a.len() == 1 {
        assert(total(a.drop_last()) == 0);
        assert(a.last() == a[0]);
    }
    if b.len() == 0 {
        assert(a + b =~= a);
    } else {
        assert((a + b).drop_last() =~= a + b.drop_last());
        assert((a + b).last() == b.last());
        sums_add_up(a, b.drop_last());
    }
}

/// A move's logit is the entry of its own cell, and a placement's the entries of
/// its own two, found where the position's grid has them.
pub proof fn a_logit_is_read_at_its_own_cells(
    state: crate::game::StateView,
    action: Action,
    source: LogitSource,
)
    requires
        state.wf(),
        reads(action, state.cols, source),
        match action {
            Action::Move { target } => state.cell(target) is Some,
            Action::PlaceNeutrals { cells } => state.cell(cells[0]) is Some && state.cell(
                cells[1],
            ) is Some,
        },
    ensures
        match source {
            LogitSource::Move(i) => action matches Action::Move { target } && i
                < state.cells.len() && state.cell(target) == Some(state.cells[i as int]),
            LogitSource::Pair(i, j) => action matches Action::PlaceNeutrals { cells } && i
                < state.cells.len() && j < state.cells.len() && state.cell(cells[0]) == Some(
                state.cells[i as int],
            ) && state.cell(cells[1]) == Some(state.cells[j as int]),
        },
{
    match action {
        Action::Move { target } => {
            a_map_and_the_grid_agree(state, target);
        },
        Action::PlaceNeutrals { cells } => {
            a_map_and_the_grid_agree(state, cells[0]);
            a_map_and_the_grid_agree(state, cells[1]);
        },
    }
}

/// The action to play is a legal one wherever there is one. Where visits are
/// sampled, it is the action whose share of the visits the draw falls in, the
/// shares lying behind each other in the order of the actions.
pub proof fn a_sampled_action_owns_its_draw(
    v: TreeView,
    config: Config,
    scores: Seq<Score>,
    target: int,
    answer: Option<Action>,
)
    requires
        v.wf(),
        chosen_answer(v, config, scores, target, answer),
        0 <= target,
    ensures
        answer is None <==> v.nodes[0].state.game_over || v.nodes[0].state.legal_actions.len()
            == 0,
        answer matches Some(action) ==> v.nodes[0].state.legal_actions.contains(action),
        config.visit_sampling && config.gumbel is None && target < v.nodes[0].visits ==> exists|
            edge: int,
        |
            {
                &&& 0 <= edge < v.nodes[0].n.len()
                &&& answer == Some(#[trigger] v.nodes[0].actions[edge])
                &&& total(v.nodes[0].n.take(edge)) <= target
                &&& target < total(v.nodes[0].n.take(edge)) + v.nodes[0].n[edge]
            },
{
    let root = v.nodes[0];
    assert(root.wf());
    assert(root.settled());
    if !config.visit_sampling || config.gumbel is Some {
        an_answer_is_a_legal_action(v, scores, answer);
    } else if !no_action(v) {
        if root.visits == 0 {
            assert(root.state.legal_actions[0] == root.actions[0]);
        } else {
            let edge = choose|edge: int|
                #![trigger drawn(root.n, target, edge)]
                drawn(root.n, target, edge) && answer == Some(root.actions[edge]);
            assert(root.state.legal_actions[edge] == root.actions[edge]);
            if target < root.visits {
                an_edge_is_as_wide_as_its_visits(root.n, edge, target);
                assert(answer == Some(v.nodes[0].actions[edge]));
            }
        }
    } else if target < root.visits {
        assert(total(root.n) == 0) by {
            assert(root.n.len() == 0);
        }
    }
}

/// A new schedule's candidates are edges nothing left out scores higher than,
/// best first, as many as were asked for and there are; it is planned for the
/// simulations it was given, and at least for one, and has spent none of them.
pub proof fn a_draw_keeps_the_best_edges(
    plan: PlanView,
    scores: Seq<Score>,
    config: GumbelConfig,
    i: int,
    e: int,
)
    requires
        new_plan(plan, scores, config),
        scores.len() > 0,
        0 <= i < plan.alive.len(),
        0 <= e < scores.len(),
    ensures
        plan.alive[i] < scores.len(),
        config.m >= 1 && config.m <= scores.len() ==> plan.alive.len() == config.m,
        config.m > scores.len() ==> plan.alive.len() == scores.len(),
        config.m == 0 ==> plan.alive.len() == 1,
        !crate::mcts::gumbel::holds(plan.alive, e) ==> scores[e].order()
            <= scores[plan.alive[i] as int].order(),
        i + 1 < plan.alive.len() ==> scores[plan.alive[i + 1] as int].order()
            <= scores[plan.alive[i] as int].order(),
        config.sims >= 1 ==> plan.budget == config.sims,
        config.sims == 0 ==> plan.budget == 1,
        plan.scheduled == 0,
        plan.given == 0,
        plan.phase == 0,
{
    let pool = Set::new(|x: int| 0 <= x < scores.len());
    assert(pool.contains(plan.alive[i] as int));
    assert(pool.contains(e));
    if !crate::mcts::gumbel::holds(plan.alive, e) {
        assert(crate::mcts::gumbel::ahead(scores, Ranking::Total, plan.alive[i] as int, e));
    }
    if i + 1 < plan.alive.len() {
        assert(crate::mcts::gumbel::ahead(
            scores,
            Ranking::Total,
            plan.alive[i] as int,
            plan.alive[i + 1] as int,
        ));
    }
}

/// The leaves handed out for evaluation are those that wait, each once and from
/// the first collected to the last.
pub proof fn what_waits_is_handed_out_in_order(leaves: Seq<Leaf>, slots: Seq<usize>, i: int, s: int)
    requires
        lists_waiting(leaves, slots),
        0 <= i < slots.len(),
        0 <= s < leaves.len(),
        leaves.len() <= usize::MAX,
    ensures
        slots[i] < leaves.len(),
        leaves[slots[i] as int].value is Waiting,
        i + 1 < slots.len() ==> slots[i] < slots[i + 1],
        leaves[s].value is Waiting <==> slots.contains(s as usize),
        slots.no_duplicates(),
{
    if leaves[s].value is Waiting {
        let k = choose|k: int| 0 <= k < slots.len() && #[trigger] slots[k] == s;
        assert(slots[k] == s as usize);
    }
    if slots.contains(s as usize) {
        let k = choose|k: int| 0 <= k < slots.len() && slots[k] == s as usize;
        assert(leaves[slots[k] as int].value is Waiting);
    }
    assert forall|a: int, b: int|
        0 <= a < slots.len() && 0 <= b < slots.len() && a != b implies slots[a] != slots[b] by {
        if a < b {
            assert(slots[a] < slots[b]);
        } else {
            assert(slots[b] < slots[a]);
        }
    }
}

} // verus!
