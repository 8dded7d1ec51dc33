//! The search driven end to end: a small growth game stands for the rules, and
//! the values and priors come from plain functions of the position.

use std::collections::{BTreeSet, HashSet};
use virus_bot::game::{Action, Cell, CellKind, Pos, State};
use virus_bot::mcts::action_id::{action_from_id, action_id, ACTION_ID_COUNT, CELLS};
use virus_bot::mcts::gumbel::GumbelConfig;
use virus_bot::mcts::parallel::{Budget, ParallelMcts, ParallelRefusal};
use virus_bot::mcts::pool::Pace;
use virus_bot::mcts::rng::Rng;
use virus_bot::mcts::search::{
    frame_sign, select_edge, terminal_value_abs, Config, MctsSearcher, Node, Refusal, Step,
    ValueSource,
};
use virus_bot::mcts::tree::{Credit, Descent, Leaf, LeafValue, NO_NODE};
use virus_bot::score::Score;

// ------------------------------------------------------------------- the game

const EMPTY: Cell = Cell { kind: CellKind::Empty, owner: 0 };

fn cell(kind: CellKind, owner: u8) -> Cell {
    Cell { kind, owner }
}

fn pos(index: usize) -> Pos {
    Pos { row: (index / 12) as i32, col: (index % 12) as i32 }
}

fn index(pos: Pos) -> usize {
    pos.row as usize * 12 + pos.col as usize
}

fn mv(row: i32, col: i32) -> Action {
    Action::Move { target: Pos { row, col } }
}

fn neighbours(at: usize) -> Vec<usize> {
    let (row, col) = ((at / 12) as i32, (at % 12) as i32);
    let mut out = Vec::new();
    for dr in -1..=1 {
        for dc in -1..=1 {
            let (r, c) = (row + dr, col + dc);
            if (dr, dc) != (0, 0) && (0..12).contains(&r) && (0..12).contains(&c) {
                out.push((r * 12 + c) as usize);
            }
        }
    }
    out
}

/// A position of the growth game: a player grows onto empty neighbours of its
/// own cells, takes over enemy neighbours, and may turn two of its own cells
/// neutral for a whole turn, once.
fn from_grid(cells: Vec<Cell>, mover: u8, moves_left: u8, used: [bool; 2]) -> State {
    let own = |c: &Cell| {
        c.owner == mover && c.kind != CellKind::Empty && c.kind != CellKind::Neutral
    };
    let mut targets = Vec::new();
    for at in 0..CELLS {
        let open = cells[at].kind == CellKind::Empty
            || (cells[at].kind == CellKind::Normal && cells[at].owner != mover);
        if open && neighbours(at).iter().any(|n| own(&cells[*n])) {
            targets.push(pos(at));
        }
    }
    let normals: Vec<usize> = (0..CELLS)
        .filter(|at| cells[*at].kind == CellKind::Normal && cells[*at].owner == mover)
        .collect();
    let can_place_neutrals = moves_left == 3 && !used[mover as usize - 1] && normals.len() >= 2;
    let mut legal: Vec<Action> = targets.iter().map(|t| Action::Move { target: *t }).collect();
    if can_place_neutrals {
        for (k, a) in normals.iter().enumerate() {
            for b in &normals[k + 1..] {
                legal.push(Action::PlaceNeutrals { cells: [pos(*a), pos(*b)] });
            }
        }
    }
    let held = |p: u8| cells.iter().filter(|c| c.owner == p).count();
    let outcome_winner = match held(1).cmp(&held(2)) {
        std::cmp::Ordering::Greater => 1,
        std::cmp::Ordering::Less => 2,
        std::cmp::Ordering::Equal => 0,
    };
    let mut hash = 0xcbf2_9ce4_8422_2325u64;
    let mut mix = |byte: u64| {
        hash ^= byte;
        hash = hash.wrapping_mul(0x0000_0100_0000_01b3);
    };
    for c in &cells {
        mix(c.kind as u64 * 8 + u64::from(c.owner));
    }
    mix(u64::from(mover));
    mix(u64::from(moves_left));
    mix(u64::from(used[0]) * 2 + u64::from(used[1]));
    State {
        rows: 12,
        cols: 12,
        players: 2,
        cells,
        current_player: mover,
        moves_left,
        neutral_used: used.to_vec(),
        game_over: false,
        winner: 0,
        outcome_winner,
        can_place_neutrals,
        legal_actions: legal,
        legal_targets: targets,
        hash,
    }
}

fn apply(state: &State, action: Action) -> State {
    let mover = state.current_player;
    let mut cells = state.cells.clone();
    let mut used = [state.neutral_used[0], state.neutral_used[1]];
    let mut left = state.moves_left - 1;
    match action {
        Action::Move { target } => {
            let at = index(target);
            let kind = if cells[at].kind == CellKind::Empty {
                CellKind::Normal
            } else {
                CellKind::Fortified
            };
            cells[at] = cell(kind, mover);
        }
        Action::PlaceNeutrals { cells: pair } => {
            for p in pair {
                cells[index(p)] = cell(CellKind::Neutral, 0);
            }
            used[mover as usize - 1] = true;
            left = 0;
        }
    }
    if left == 0 {
        from_grid(cells, 3 - mover, 3, used)
    } else {
        from_grid(cells, mover, left, used)
    }
}

fn state_with(mover: u8, moves_left: u8) -> State {
    let mut cells = vec![EMPTY; CELLS];
    cells[0] = cell(CellKind::Base, 1);
    cells[CELLS - 1] = cell(CellKind::Base, 2);
    cells[1] = cell(CellKind::Normal, 1);
    cells[CELLS - 2] = cell(CellKind::Normal, 2);
    from_grid(cells, mover, moves_left, [false, false])
}

fn midgame(mover: u8) -> State {
    let mut cells = vec![EMPTY; CELLS];
    cells[0] = cell(CellKind::Base, 1);
    cells[CELLS - 1] = cell(CellKind::Base, 2);
    for at in [1, 12, 13, 14, 25, 26, 27, 38] {
        cells[at] = cell(CellKind::Normal, 1);
    }
    for at in [CELLS - 2, CELLS - 13, CELLS - 14, CELLS - 15, CELLS - 26, CELLS - 27] {
        cells[at] = cell(CellKind::Normal, 2);
    }
    from_grid(cells, mover, 3, [false, false])
}

/// Both bases intact but the whole board is neutral: nobody can move.
fn stuck() -> State {
    let mut cells = vec![cell(CellKind::Neutral, 0); CELLS];
    cells[0] = cell(CellKind::Base, 1);
    cells[CELLS - 1] = cell(CellKind::Base, 2);
    from_grid(cells, 1, 3, [true, true])
}

// --------------------------------------------------------- priors and values

fn scrambled(mut z: u64) -> f64 {
    z = (z ^ (z >> 30)).wrapping_mul(0xBF58_476D_1CE4_E5B9);
    z = (z ^ (z >> 27)).wrapping_mul(0x94D0_49BB_1331_11EB);
    ((z ^ (z >> 31)) >> 11) as f64 / (1u64 << 53) as f64
}

/// A prior over the legal actions: uniform, or an uneven one.
fn prior_of(state: &State, source: ValueSource) -> Vec<f32> {
    let k = state.legal_actions.len();
    if source == ValueSource::HandTuned {
        return vec![1.0 / k as f32; k];
    }
    let raw: Vec<f64> = state
        .legal_actions
        .iter()
        .map(|a| (3.0 * scrambled(action_id(*a) as u64 ^ 0x5EED)).exp())
        .collect();
    let sum: f64 = raw.iter().sum();
    raw.iter().map(|p| (p / sum) as f32).collect()
}

/// A value of the position in the absolute frame.
fn value_of(state: &State) -> f64 {
    let held = |p: u8| state.cells.iter().filter(|c| c.owner == p).count() as f64;
    let noise = scrambled(state.hash) - 0.5;
    ((held(1) - held(2)) / 4.0 + 0.2 * noise).tanh()
}

// ------------------------------------------------------------------ the driver

struct Stats {
    prior: Vec<f32>,
    w: Vec<f64>,
    leaf: f64,
}

fn stats_of(state: &State, source: ValueSource) -> Stats {
    Stats {
        prior: prior_of(state, source),
        w: vec![0.0; state.legal_actions.len()],
        leaf: value_of(state),
    }
}

fn empty_stats() -> Stats {
    Stats { prior: vec![], w: vec![], leaf: 0.0 }
}

fn score(value: f64) -> Score {
    Score { bits: value.to_bits() }
}

struct Columns<'a> {
    mover: u8,
    n: &'a [u32],
    vl: &'a [u32],
    visits: u32,
    vl_visits: u32,
}

fn select(columns: Columns<'_>, stats: &Stats, config: &Config) -> usize {
    let sign = f64::from(frame_sign(columns.mover));
    let cpuct = f64::from_bits(config.cpuct.bits);
    let virtual_loss = f64::from_bits(config.virtual_loss.bits);
    let sqrt_n = f64::from(columns.visits + columns.vl_visits + 1).sqrt();
    let scores = (0..columns.n.len())
        .map(|a| {
            let n = columns.n[a] + columns.vl[a];
            let q = if n > 0 {
                (sign * stats.w[a] - virtual_loss * f64::from(columns.vl[a])) / f64::from(n)
            } else {
                0.0
            };
            let u = cpuct * f64::from(stats.prior[a]) * sqrt_n / f64::from(1 + n);
            score(q + u)
        })
        .collect();
    select_edge(&scores)
}

fn leaf_value(leaf: &Leaf, stats: &[Stats]) -> f64 {
    match leaf.value {
        LeafValue::Terminal(v) => f64::from(v),
        LeafValue::Evaluated => stats[leaf.node as usize].leaf,
        LeafValue::Waiting => panic!("every leaf is valued before it is backed up"),
    }
}

struct Search {
    tree: MctsSearcher,
    stats: Vec<Stats>,
    gumbel: Vec<f64>,
    rng: Rng,
}

fn uniform(rng: &mut Rng) -> f64 {
    rng.next_mantissa() as f64 * (1.0 / (1u64 << 53) as f64)
}

fn noised(prior: &[f32], seed: u64) -> Vec<f32> {
    let mut rng = Rng::new(seed);
    let g: Vec<f64> = prior.iter().map(|_| uniform(&mut rng)).collect();
    let sum: f64 = g.iter().sum();
    prior.iter().zip(&g).map(|(p, v)| (0.75 * f64::from(*p) + 0.25 * (v / sum)) as f32).collect()
}

fn bits(values: &[f64]) -> Vec<Score> {
    values.iter().map(|v| Score { bits: v.to_bits() }).collect()
}

fn drawn_scores(rng: &mut Rng, prior: &[f32], config: &Config) -> Vec<f64> {
    if config.gumbel.is_none() {
        return vec![];
    }
    prior
        .iter()
        .map(|p| {
            let u = uniform(rng).max(1e-300);
            -(-u.ln()).ln() + f64::from(*p).max(1e-30).ln()
        })
        .collect()
}

impl Search {
    fn new(state: State, config: Config) -> Search {
        assert!(state.is_wf());
        assert_eq!(MctsSearcher::refusal(&state, &config, false), None);
        let mut root = stats_of(&state, config.value_source);
        if config.root_noise {
            root.prior = noised(&root.prior, config.seed);
        }
        let mut rng = Rng::new(config.seed);
        let gumbel = drawn_scores(&mut rng, &root.prior, &config);
        let tree = MctsSearcher::new(state, config, false, &bits(&gumbel));
        Search { tree, stats: vec![root], gumbel, rng }
    }

    fn completed(&self) -> Vec<f64> {
        let root = &self.tree.nodes[0];
        let sign = f64::from(frame_sign(root.mover));
        let q = |a: usize| sign * self.stats[0].w[a] / f64::from(root.n[a]);
        let edges = root.actions.len();
        let mut weight = 0.0;
        let mut sum = 0.0;
        for a in 0..edges {
            if root.n[a] > 0 {
                weight += f64::from(self.stats[0].prior[a]);
                sum += f64::from(self.stats[0].prior[a]) * q(a);
            }
        }
        let own = sign * self.stats[0].leaf;
        let visits = f64::from(root.visits);
        let mix = if root.visits == 0 || weight <= 0.0 {
            own
        } else {
            (own + visits * (sum / weight)) / (1.0 + visits)
        };
        let mut out: Vec<f64> = (0..edges).map(|a| if root.n[a] > 0 { q(a) } else { mix }).collect();
        let min = out.iter().copied().fold(f64::INFINITY, f64::min);
        let max = out.iter().copied().fold(f64::NEG_INFINITY, f64::max);
        let span = (max - min).max(1e-8);
        let most = f64::from(root.n.iter().copied().max().unwrap_or(0));
        for v in out.iter_mut() {
            *v = (*v - min) / span * (50.0 + most) * 0.1;
        }
        out
    }

    fn scores(&self) -> Vec<Score> {
        if self.gumbel.is_empty() {
            return vec![];
        }
        self.completed()
            .iter()
            .zip(&self.gumbel)
            .map(|(s, g)| Score { bits: (s + g).to_bits() })
            .collect()
    }

    fn simulate_round(&mut self, target: u32) -> u32 {
        let scores = self.scores();
        let target = self.tree.gumbel_prepare(target, &scores);
        for _ in 0..target {
            assert!(self.tree.has_room());
            let mut step = self.tree.descend();
            loop {
                match step {
                    Step::Leaf { .. } => break,
                    Step::Choose { node } => {
                        let n = &self.tree.nodes[node as usize];
                        let columns = Columns {
                            mover: n.mover,
                            n: &n.n,
                            vl: &n.vl,
                            visits: n.visits,
                            vl_visits: n.vl_visits,
                        };
                        let edge = select(columns, &self.stats[node as usize], self.tree.config());
                        step = self.tree.take_edge(edge);
                    }
                    Step::Apply { node, action, .. } => {
                        let n = &self.tree.nodes[node as usize];
                        let next = apply(&n.state, action);
                        assert!(n.state.precedes(&next));
                        step = self.tree.supply(next);
                    }
                }
            }
        }
        self.stats.resize_with(self.tree.nodes.len(), empty_stats);
        for slot in self.tree.evaluate_leaves() {
            let id = self.tree.leaves[slot].node as usize;
            let source = self.tree.config().value_source;
            self.stats[id] = stats_of(&self.tree.nodes[id].state, source);
        }
        let leaves = self.tree.leaves.clone();
        for Credit { node, edge, leaf } in self.tree.backup() {
            self.stats[node as usize].w[edge as usize] += leaf_value(&leaves[leaf], &self.stats);
        }
        target
    }

    fn run_sims(&mut self, count: u32) {
        if self.tree.nodes[0].terminal {
            return;
        }
        let mut done = 0;
        while done < count {
            done += self.simulate_round(self.tree.round_target(count - done));
        }
    }

    fn best_action(&self) -> Option<Action> {
        self.tree.best_action(&self.scores())
    }

    fn chosen_action(&mut self) -> Option<Action> {
        let target = match self.tree.draw_total() {
            Some(total) => (uniform(&mut self.rng) * total as f64) as u64,
            None => 0,
        };
        self.tree.chosen_action(&self.scores(), target)
    }

    fn rebase(&mut self, action: Action) -> bool {
        let Some(heir) = self.tree.heir(action) else {
            assert!(self.tree.rebase(action, &vec![]).is_none());
            return false;
        };
        let config = *self.tree.config();
        self.gumbel = drawn_scores(&mut self.rng, &self.stats[heir as usize].prior, &config);
        match self.tree.rebase(action, &bits(&self.gumbel)) {
            None => false,
            Some(order) => {
                assert_eq!(order[0], heir);
                let mut old: Vec<Option<Stats>> =
                    std::mem::take(&mut self.stats).into_iter().map(Some).collect();
                self.stats = order.iter().map(|id| old[*id as usize].take().unwrap()).collect();
                true
            }
        }
    }

    fn root_value_abs(&self) -> f64 {
        let root = &self.tree.nodes[0];
        if root.terminal {
            return f64::from(root.terminal_value);
        }
        if root.visits == 0 {
            return 0.0;
        }
        self.stats[0].w.iter().sum::<f64>() / f64::from(root.visits)
    }

    fn visits(&self) -> Vec<u32> {
        self.tree.root_visits().clone()
    }
}

fn run(state: State, config: Config, sims: u32) -> Search {
    let mut search = Search::new(state, config);
    search.run_sims(sims);
    search
}

fn net_config() -> Config {
    Config { value_source: ValueSource::Net, ..Config::play() }
}

fn gumbel(seed: u64, sims: u32, m: u16) -> Config {
    Config { value_source: ValueSource::Net, ..Config::self_play_gumbel(seed, sims, m) }
}

fn nonzero(counts: &[u32]) -> usize {
    counts.iter().filter(|n| **n > 0).count()
}

// ---------------------------------------------------------------- determinism

#[test]
fn run_sims_is_byte_stable_for_a_fixed_seed() {
    let a = run(midgame(1), net_config(), 150);
    let b = run(midgame(1), net_config(), 150);
    assert_eq!(a.best_action(), b.best_action(), "same seed, same move");
    assert_eq!(a.visits(), b.visits(), "same seed, same tree");
    assert_eq!(a.tree.root_actions(), b.tree.root_actions());
    assert_eq!(a.root_value_abs().to_bits(), b.root_value_abs().to_bits());
}

#[test]
fn play_mode_ignores_the_seed_entirely() {
    let a = run(midgame(1), Config { seed: 1, ..net_config() }, 120);
    let b = run(midgame(1), Config { seed: 0xDEAD_BEEF_CAFE_F00D, ..net_config() }, 120);
    assert_eq!(a.visits(), b.visits(), "no randomness in the play path");
    assert_eq!(a.best_action(), b.best_action());
}

#[test]
fn simulations_are_resumable_at_batch_boundaries() {
    let config = net_config();
    let batch = u32::from(config.batch_size);
    let one_shot = run(midgame(1), config, 8 * batch);
    let mut split = Search::new(midgame(1), config);
    split.run_sims(3 * batch);
    split.run_sims(5 * batch);
    assert_eq!(one_shot.visits(), split.visits());
    assert_eq!(one_shot.tree.sims_run(), split.tree.sims_run());
}

#[test]
fn the_serial_searcher_is_resumable_at_any_split() {
    let config = Config { batch_size: 1, ..net_config() };
    let one_shot = run(midgame(1), config, 120);
    let mut split = Search::new(midgame(1), config);
    split.run_sims(50);
    split.run_sims(70);
    assert_eq!(one_shot.visits(), split.visits());
    assert_eq!(one_shot.tree.sims_run(), split.tree.sims_run());
}

#[test]
fn a_batched_budget_is_spent_exactly() {
    for batch in [1u16, 3, 8, 16, 32] {
        let search = run(midgame(1), Config { batch_size: batch, ..net_config() }, 100);
        assert_eq!(search.tree.sims_run(), 100, "batch {batch}");
        assert_eq!(search.visits().iter().sum::<u32>(), 100, "batch {batch}");
    }
}

#[test]
fn batched_search_is_deterministic() {
    for batch in [2u16, 8, 16, 32] {
        let config = Config { batch_size: batch, ..net_config() };
        let a = run(midgame(1), config, 96);
        let b = run(midgame(1), config, 96);
        assert_eq!(a.visits(), b.visits(), "batch {batch}");
        assert_eq!(a.root_value_abs().to_bits(), b.root_value_abs().to_bits());
        assert_eq!(a.best_action(), b.best_action(), "batch {batch}");
    }
}

#[test]
fn virtual_loss_spreads_a_batch_over_several_edges() {
    let config = Config { batch_size: 32, ..net_config() };
    let search = run(midgame(1), config, 32);
    let visited = nonzero(&search.visits());
    assert!(visited >= 4, "one batch of 32 landed on {visited} root edges");
    let flat = run(
        midgame(1),
        Config { virtual_loss: Score { bits: 0.0f64.to_bits() }, ..config },
        32,
    );
    let flat_visited = nonzero(&flat.visits());
    assert!(visited > flat_visited, "{visited} edges against {flat_visited}");
}

#[test]
fn the_hand_tuned_fallback_is_deterministic_too() {
    let a = run(midgame(1), Config::play(), 200);
    let b = run(midgame(1), Config::play(), 200);
    assert_eq!(a.visits(), b.visits());
    assert_eq!(a.best_action(), b.best_action());
}

// ---------------------------------------------------------------- correctness

#[test]
fn the_search_always_picks_a_legal_action() {
    for state in [state_with(1, 3), midgame(1)] {
        for value_source in [ValueSource::HandTuned, ValueSource::Net] {
            let legal = state.legal_actions.clone();
            let search = run(state.clone(), Config { value_source, ..Config::play() }, 60);
            let action = search.best_action().expect("a non-terminal root has a move");
            assert!(legal.contains(&action), "played an illegal action {action:?}");
        }
    }
}

#[test]
fn the_root_value_stays_in_the_tanh_range() {
    let value = run(midgame(1), net_config(), 100).root_value_abs();
    assert!((-1.0..=1.0).contains(&value), "root value {value} escaped [-1, 1]");
}

#[test]
fn every_simulation_lands_somewhere() {
    let search = run(midgame(1), Config::play(), 137);
    assert_eq!(search.tree.sims_run(), 137);
    let total: u32 = search.visits().iter().sum();
    assert!(total == 137 || total == 136, "root edge visits {total}");
    // The root is expanded before the first simulation, so none stops at it.
    assert_eq!(total, 137);
}

#[test]
fn search_a_terminal_root_yields_no_action() {
    let state = stuck();
    assert!(state.legal_actions.is_empty(), "the position is stuck");
    let mut search = Search::new(state, Config::play());
    search.run_sims(50);
    assert_eq!(search.best_action(), None);
    assert_eq!(search.chosen_action(), None);
    assert!((-1.0..=1.0).contains(&search.root_value_abs()));
    assert_eq!(search.tree.sims_run(), 0);
}

#[test]
fn a_finished_position_is_worth_its_outcome() {
    let mut state = midgame(1);
    assert_eq!(terminal_value_abs(&state), 1);
    state.outcome_winner = 2;
    assert_eq!(terminal_value_abs(&state), -1);
    state.outcome_winner = 0;
    assert_eq!(terminal_value_abs(&state), 0);
    state.game_over = true;
    state.outcome_winner = 2;
    let search = Search::new(state, Config::play());
    assert!(search.tree.nodes[0].terminal);
    assert_eq!(search.root_value_abs(), -1.0);
}

#[test]
fn positions_outside_the_domain_are_refused() {
    let state = midgame(1);
    let mut four = midgame(1);
    four.players = 4;
    four.neutral_used = vec![false; 4];
    assert_eq!(MctsSearcher::refusal(&four, &Config::play(), false), Some(Refusal::Players));
    assert_eq!(MctsSearcher::refusal(&four, &Config::play(), true), Some(Refusal::Players));
    let mut small = midgame(1);
    small.rows = 9;
    assert_eq!(MctsSearcher::refusal(&small, &Config::play(), false), None);
    assert_eq!(MctsSearcher::refusal(&small, &Config::play(), true), Some(Refusal::Board));
    let both = Config {
        root_noise: true,
        gumbel: Some(GumbelConfig::default()),
        ..Config::default()
    };
    assert_eq!(MctsSearcher::refusal(&state, &both, false), Some(Refusal::NoiseAndGumbel));
    assert_eq!(MctsSearcher::refusal(&state, &Config::play(), true), None);

    let schedule = Config::self_play_gumbel(1, 64, 8);
    assert_eq!(ParallelMcts::refusal(&state, &schedule, false), Some(ParallelRefusal::Gumbel));
    assert_eq!(
        ParallelMcts::refusal(&four, &Config::play(), false),
        Some(ParallelRefusal::Players)
    );
    assert_eq!(ParallelMcts::refusal(&small, &Config::play(), true), Some(ParallelRefusal::Board));
    assert_eq!(ParallelMcts::refusal(&state, &Config::play(), true), None);
}

#[test]
fn generated_actions_map_to_distinct_ids() {
    let state = midgame(1);
    assert!(state.legal_actions.iter().any(|a| matches!(a, Action::PlaceNeutrals { .. })));
    let mut ids = BTreeSet::new();
    for action in &state.legal_actions {
        let id = action_id(*action);
        assert!(id < ACTION_ID_COUNT);
        assert_eq!(action_from_id(id), Some(*action), "{action:?} round-trips");
        assert!(ids.insert(id), "{action:?} collided on id {id}");
    }
    assert!(!ids.is_empty());
}

// ------------------------------------------------------------- configuration

#[test]
fn play_mode_takes_no_exploration_knob() {
    for config in [Config::play(), Config::default()] {
        assert!(config.gumbel.is_none(), "play mode must not run Gumbel");
        assert!(!config.root_noise);
        assert!(!config.visit_sampling);
    }
    let bin_shaped = Config {
        seed: 42,
        value_source: ValueSource::Net,
        root_noise: false,
        visit_sampling: false,
        ..Config::play()
    };
    assert!(bin_shaped.gumbel.is_none());
}

#[test]
fn the_dirichlet_self_play_config_is_unchanged() {
    let config = Config::self_play(7, 0);
    assert!(config.gumbel.is_none());
    assert!(config.root_noise);
    assert!(config.visit_sampling);
}

#[test]
fn the_gumbel_self_play_config_replaces_dirichlet_rather_than_stacking() {
    let config = Config::self_play_gumbel(7, 192, 16);
    let asked = config.gumbel.expect("gumbel is on");
    assert_eq!(asked.m, 16);
    assert_eq!(asked.sims, 192);
    assert!(!config.root_noise, "Gumbel replaces Dirichlet");
    assert!(!config.visit_sampling);
    assert_eq!(config.value_source, ValueSource::Net);
}

#[test]
fn temperature_sampling_is_on_only_for_the_opening_plies() {
    assert!(Config::self_play(1, 0).visit_sampling);
    assert!(Config::self_play(1, 20).visit_sampling);
    assert!(!Config::self_play(1, 21).visit_sampling, "tau drops at ply 21");
    assert!(!Config::play().visit_sampling);
    assert!(!Config::play().root_noise, "play mode never takes noise");
}

#[test]
fn visit_sampling_picks_legal_actions_and_follows_the_seed() {
    let state = midgame(1);
    let sample = |seed: u64| {
        let mut search = Search::new(state.clone(), Config::self_play(seed, 0));
        search.run_sims(40);
        search.chosen_action().expect("a move")
    };
    let mut seen = BTreeSet::new();
    for seed in 0..8u64 {
        let action = sample(seed);
        assert!(state.legal_actions.contains(&action), "sampled an illegal {action:?}");
        seen.insert(action_id(action));
    }
    assert!(seen.len() > 1, "sampling collapsed onto a single move");
    assert_eq!(sample(3), sample(3), "sampling is reproducible per seed");
}

#[test]
fn a_draw_falls_on_the_edge_it_lands_in() {
    let mut search = Search::new(midgame(1), Config { visit_sampling: true, ..net_config() });
    assert_eq!(search.tree.draw_total(), None, "nothing to draw from yet");
    assert_eq!(search.tree.chosen_action(&vec![], 0), Some(search.tree.root_actions()[0]));
    search.run_sims(64);
    assert_eq!(search.tree.draw_total(), Some(64));
    let mut passed = 0u64;
    for (edge, n) in search.visits().iter().enumerate() {
        for target in passed..passed + u64::from(*n) {
            assert_eq!(
                search.tree.chosen_action(&vec![], target),
                Some(search.tree.root_actions()[edge])
            );
        }
        passed += u64::from(*n);
    }
}

// ------------------------------------------------------------------ the backup

/// A node with `edges` unvisited edges at a position `depth` cells into the
/// game, built by hand so that a test can pick any sequence of movers.
fn node_with(mover: u8, moves_left: u8, edges: usize, depth: usize) -> Node {
    let mut cells = state_with(mover, moves_left).cells;
    for at in 0..depth {
        cells[24 + at] = cell(CellKind::Normal, 1);
    }
    let mut state = from_grid(cells, mover, moves_left, [false, false]);
    state.legal_actions = (0..edges).map(|i| mv(0, i as i32)).collect();
    Node {
        mover,
        terminal: false,
        terminal_value: 0,
        expanded: true,
        pending: false,
        actions: state.legal_actions.clone(),
        children: vec![NO_NODE; edges],
        n: vec![0; edges],
        vl: vec![0; edges],
        visits: 0,
        vl_visits: 0,
        state,
    }
}

/// A searcher over a tree built by hand, and the statistics of its nodes.
fn harness(nodes: Vec<Node>) -> (MctsSearcher, Vec<Stats>) {
    let config = Config { dag: false, ..Config::play() };
    let mut tree = MctsSearcher::new(nodes[0].state.clone(), config, false, &vec![]);
    let stats = nodes
        .iter()
        .map(|node| {
            let edges = node.actions.len();
            Stats { prior: vec![1.0 / edges as f32; edges], w: vec![0.0; edges], leaf: 0.0 }
        })
        .collect();
    tree.nodes = nodes;
    (tree, stats)
}

/// Backs `value` up along `path` to `leaf`, the way one descent would have left
/// the buffers.
fn backup_path(
    tree: &mut MctsSearcher,
    stats: &mut [Stats],
    path: &[(u32, u32)],
    leaf: u32,
    value: f64,
) {
    tree.path = path.to_vec();
    for (node, edge) in path {
        let node = &mut tree.nodes[*node as usize];
        node.vl[*edge as usize] += 1;
        node.vl_visits += 1;
    }
    tree.leaves = vec![Leaf { node: leaf, value: LeafValue::Evaluated }];
    tree.descents = vec![Descent { start: 0, end: path.len(), leaf: 0 }];
    for credit in tree.backup() {
        assert_eq!(credit.leaf, 0, "one leaf, credited as is at every level");
        stats[credit.node as usize].w[credit.edge as usize] += value;
    }
}

/// The edge selection takes at the root, read by `mover`.
fn select_at_root(tree: &MctsSearcher, stats: &[Stats], mover: u8) -> usize {
    let root = &tree.nodes[0];
    let columns = Columns {
        mover,
        n: &root.n,
        vl: &root.vl,
        visits: root.visits,
        vl_visits: root.vl_visits,
    };
    select(columns, &stats[0], tree.config())
}

/// The same value is credited on every edge of the path, whoever moves there.
#[test]
fn absolute_frame_backup_never_negates_on_a_non_alternating_path() {
    // root(mover 1, 3 left) -e0-> mid(mover 1, 2 left) -e1-> leaf(mover 2, 3 left)
    let (mut tree, mut stats) = harness(vec![
        node_with(1, 3, 2, 0),
        node_with(1, 2, 2, 1),
        node_with(2, 3, 2, 2),
    ]);
    tree.nodes[0].children[0] = 1;
    tree.nodes[1].children[1] = 2;

    // The leaf is a win for player 1.
    let v_abs = 1.0;
    backup_path(&mut tree, &mut stats, &[(0, 0), (1, 1)], 2, v_abs);

    assert_eq!(stats[0].w[0], v_abs, "root edge keeps the sign");
    assert_eq!(
        stats[1].w[1], v_abs,
        "the mover-preserving edge is credited with the SAME value, not its negation"
    );
    assert_eq!(tree.nodes[0].n[0], 1);
    assert_eq!(tree.nodes[1].n[1], 1);
    assert_eq!(tree.nodes[0].visits, 1);
    assert_eq!(tree.nodes[1].visits, 1);
    // Virtual loss is gone again, exactly.
    assert_eq!(tree.nodes[0].vl, vec![0, 0]);
    assert_eq!(tree.nodes[1].vl, vec![0, 0]);
    assert_eq!(tree.nodes[0].vl_visits, 0);
    assert_eq!(tree.nodes[1].vl_visits, 0);
    // Untouched edges stay clean.
    assert_eq!(stats[0].w[1], 0.0);
    assert_eq!(stats[1].w[0], 0.0);
    assert_eq!(tree.nodes[0].n[1], 0);
    assert_eq!(tree.nodes[1].n[0], 0);

    // The mover enters only here.
    assert_eq!(select_at_root(&tree, &stats, 1), 0, "player 1 prefers the +1 edge");
    assert_eq!(
        select_at_root(&tree, &stats, 2),
        1,
        "the same tree, read by player 2, prefers the other edge"
    );
}

/// A negating backup leaves the mirrored sum on a mover-preserving edge, and
/// that tree selects differently.
#[test]
fn a_negamax_backup_would_pick_the_other_move() {
    let (mut tree, mut stats) = harness(vec![node_with(1, 2, 2, 0), node_with(1, 1, 2, 1)]);
    tree.nodes[0].children[0] = 1;

    // The leaf is +1 for player 1, and the child's mover is player 1 too.
    backup_path(&mut tree, &mut stats, &[(0, 0)], 1, 1.0);
    // A modest positive value on the sibling makes the choice a real one.
    tree.nodes[0].n[1] = 1;
    stats[0].w[1] = 0.5;
    tree.nodes[0].visits = 2;
    assert_eq!(select_at_root(&tree, &stats, 1), 0, "absolute frame: +1 beats +0.5");

    // What a negating backup would have stored on that edge instead.
    stats[0].w[0] = -1.0;
    assert_eq!(
        select_at_root(&tree, &stats, 1),
        1,
        "a negated backup flips the decision"
    );
}

#[test]
fn a_selection_takes_the_first_best_number() {
    let pick = |values: &[f64]| select_edge(&values.iter().map(|v| score(*v)).collect());
    assert_eq!(pick(&[0.25, 1.5, 1.5, -2.0]), 1, "the first of a tie");
    assert_eq!(pick(&[0.0, -0.0]), 0, "the zeros tie");
    assert_eq!(pick(&[-0.0, 0.0]), 0, "the zeros tie");
    assert_eq!(pick(&[f64::NAN, -3.0, f64::NAN, -1.0]), 3, "NaN is passed over");
    assert_eq!(pick(&[f64::NEG_INFINITY, f64::NAN, f64::MIN]), 2);
    assert_eq!(pick(&[1.0, f64::INFINITY, f64::INFINITY]), 1);
    assert_eq!(pick(&[f64::NAN, f64::NEG_INFINITY]), 0, "nothing above the floor");
    assert_eq!(pick(&[]), 0);
}

/// Selection's sign is the node's mover, never the path's parity.
#[test]
fn selection_sign_follows_the_node_mover() {
    let stats = Stats { prior: vec![0.5, 0.5], w: vec![0.9, -0.9], leaf: 0.0 };
    let pick = |mover: u8| {
        let columns = Columns { mover, n: &[1, 1], vl: &[0, 0], visits: 2, vl_visits: 0 };
        select(columns, &stats, &Config::play())
    };
    assert_eq!(pick(2), 1, "player 2 maximises the negated value");
    assert_eq!(pick(1), 0);
}

// ------------------------------------------------------------- re-rooting

/// What is kept is numbered breadth first, edge by edge, and what only the old
/// root led to is dropped.
#[test]
fn rebasing_numbers_the_kept_nodes_breadth_first() {
    let (mut tree, _) = harness(vec![
        node_with(1, 3, 2, 0),
        node_with(1, 2, 2, 1),
        node_with(1, 1, 2, 2),
        node_with(2, 3, 2, 3),
        node_with(1, 1, 2, 2),
        node_with(1, 2, 2, 1),
    ]);
    tree.nodes[0].children = vec![5, 1];
    tree.nodes[1].children = vec![4, 2];
    tree.nodes[2].children = vec![NO_NODE, 3];
    tree.nodes[4].children = vec![3, NO_NODE];

    assert_eq!(tree.rebase(mv(5, 5), &vec![]), None, "not a root action");
    assert_eq!(tree.rebase(mv(0, 1), &vec![]), Some(vec![1, 4, 2, 3]));
    let links: Vec<Vec<u32>> = tree.nodes.iter().map(|node| node.children.clone()).collect();
    assert_eq!(
        links,
        vec![vec![1, 2], vec![3, NO_NODE], vec![NO_NODE, 3], vec![NO_NODE, NO_NODE]]
    );
}

#[test]
fn every_visited_action_can_be_re_rooted_at() {
    let search = run(state_with(1, 3), Config::play(), 60);
    for (edge, n) in search.visits().iter().enumerate() {
        let heir = search.tree.heir(search.tree.root_actions()[edge]);
        assert!(*n == 0 || heir.is_some(), "edge {edge} was visited {n} times");
    }
}

#[test]
fn rebasing_keeps_the_subtree_and_its_statistics() {
    let mut search = run(state_with(1, 3), Config::play(), 400);
    let before = search.tree.nodes.len();
    let action = search.best_action().expect("a searched root has a best action");
    let edge = search.tree.nodes[0].actions.iter().position(|a| *a == action).unwrap();
    let child = search.tree.nodes[0].children[edge] as usize;
    let expected_state = search.tree.nodes[child].state.clone();
    let expected_visits = search.tree.nodes[child].visits;
    let expected_n = search.tree.nodes[child].n.clone();
    let expected_w = search.stats[child].w.clone();
    assert!(expected_visits > 0, "the leader must have been searched");

    assert!(search.rebase(action));
    assert!(search.tree.nodes[0].state.same_position(&expected_state));
    assert_eq!(search.tree.nodes[0].visits, expected_visits);
    assert_eq!(search.tree.nodes[0].n, expected_n);
    assert_eq!(search.stats[0].w, expected_w);
    assert!(search.tree.nodes.len() < before, "the discarded siblings must be freed");
}

#[test]
fn rebasing_rewrites_every_child_index() {
    let mut search = run(state_with(1, 3), Config::play(), 600);
    let action = search.best_action().expect("a best action");
    assert!(search.rebase(action));
    let count = search.tree.nodes.len() as u32;
    for (id, node) in search.tree.nodes.iter().enumerate() {
        for child in &node.children {
            if *child != NO_NODE {
                assert!(*child < count && *child as usize != id);
            }
        }
    }
    let before = search.tree.sims_run();
    search.run_sims(200);
    assert_eq!(search.tree.sims_run(), before + 200);
    assert!(search.best_action().is_some());
}

#[test]
fn rebasing_reaches_the_same_position_as_applying_the_action() {
    let root = state_with(1, 3);
    let mut search = run(root.clone(), Config::play(), 300);
    let action = search.best_action().expect("a best action");
    let applied = apply(&root, action);
    assert!(search.rebase(action));
    assert!(search.tree.nodes[0].state.same_position(&applied));
    assert_eq!(search.tree.nodes[0].mover, applied.current_player);
}

fn assert_clean(search: &Search, batch: u16, when: &str) {
    for (id, node) in search.tree.nodes.iter().enumerate() {
        assert!(node.vl.iter().all(|v| *v == 0), "batch {batch}: node {id} {when}");
        assert_eq!(node.vl_visits, 0, "batch {batch}: node {id} {when}");
        assert!(!node.pending, "batch {batch}: node {id} {when}");
        assert_eq!(node.visits, node.n.iter().sum::<u32>(), "batch {batch}: node {id} {when}");
        if node.expanded {
            assert_eq!(search.stats[id].prior.len(), node.actions.len());
        }
    }
}

#[test]
fn a_batched_search_leaves_no_virtual_loss_behind_for_a_re_root_to_inherit() {
    for batch_size in [1, 2, 8, 16] {
        let config = Config { batch_size, ..Config::play() };
        // Deliberately not a multiple of the batch size.
        let mut search = run(state_with(1, 3), config, 453);
        assert_clean(&search, batch_size, "after simulating");
        let action = search.best_action().expect("a best action");
        assert!(search.rebase(action));
        assert_clean(&search, batch_size, "after re-rooting");
        search.run_sims(211);
        assert_clean(&search, batch_size, "after simulating a re-rooted tree");
    }
}

#[test]
fn the_root_state_and_visit_total_describe_the_tree_that_survived_a_re_root() {
    let root = state_with(1, 3);
    let mut search = Search::new(root.clone(), Config::play());
    assert!(search.tree.root_state().same_position(&root));
    assert_eq!(search.tree.root_visit_total(), 0, "an unsearched root is empty");
    search.run_sims(400);
    assert!(search.tree.root_state().same_position(&root), "searching does not move the root");
    assert_eq!(search.tree.root_visit_total(), 400);

    let action = search.best_action().expect("a best action");
    let applied = apply(&root, action);
    let edge = search.tree.nodes[0].actions.iter().position(|a| *a == action).unwrap();
    let child = search.tree.nodes[0].children[edge] as usize;
    let inherited = u64::from(search.tree.nodes[child].visits);
    assert!(search.rebase(action));
    assert!(search.tree.root_state().same_position(&applied));
    assert_eq!(search.tree.root_visit_total(), inherited);
    assert!(search.tree.sims_run() > search.tree.root_visit_total());
}

#[test]
fn rebasing_refuses_an_unreachable_action_without_touching_the_tree() {
    let mut search = run(state_with(1, 3), Config::play(), 50);
    let before = search.tree.nodes.len();
    // Not a root action at all.
    assert!(!search.rebase(mv(11, 5)));
    assert_eq!(search.tree.nodes.len(), before);
    // A root action that was never expanded into a node.
    let fresh = Search::new(state_with(1, 3), Config::play());
    let unvisited = fresh.tree.nodes[0].actions[0];
    let mut fresh = fresh;
    assert!(!fresh.rebase(unvisited));
    assert_eq!(fresh.tree.nodes.len(), 1);
}

// ------------------------------------------------------ transpositions

fn searched(dag: bool, batch_size: u16, sims: u32) -> Search {
    run(state_with(1, 3), Config { dag, batch_size, ..Config::play() }, sims)
}

fn child_by(search: &Search, node: usize, action: Action) -> Option<u32> {
    let node = &search.tree.nodes[node];
    node.actions
        .iter()
        .position(|x| *x == action)
        .map(|e| node.children[e])
        .filter(|c| *c != NO_NODE)
}

#[test]
fn a_within_turn_permutation_reaches_exactly_one_node() {
    let search = searched(true, 1, 4_000);
    let root = &search.tree.nodes[0];
    let mut diamonds = 0;
    for (ea, ca) in root.children.iter().enumerate() {
        for (eb, cb) in root.children.iter().enumerate() {
            if ea >= eb || *ca == NO_NODE || *cb == NO_NODE {
                continue;
            }
            let (a, b) = (root.actions[ea], root.actions[eb]);
            let (ab, ba) = match (
                child_by(&search, *ca as usize, b),
                child_by(&search, *cb as usize, a),
            ) {
                (Some(ab), Some(ba)) => (ab, ba),
                _ => continue,
            };
            // Independent derivation, straight from the rules.
            let via_ab = apply(&apply(&root.state, a), b);
            let via_ba = apply(&apply(&root.state, b), a);
            assert!(via_ab.same_position(&via_ba));
            assert_eq!(ab, ba, "both orders reach one position and so one node");
            assert!(search.tree.nodes[ab as usize].state.same_position(&via_ab));
            assert_eq!(search.tree.nodes[ab as usize].state.hash, via_ab.hash);
            diamonds += 1;
        }
    }
    assert!(diamonds > 0, "no permutation pair was explored");
}

#[test]
fn without_the_dag_the_same_permutation_is_two_nodes() {
    let search = searched(false, 1, 4_000);
    let root = &search.tree.nodes[0];
    let mut split = 0;
    for (ea, ca) in root.children.iter().enumerate() {
        for (eb, cb) in root.children.iter().enumerate() {
            if ea >= eb || *ca == NO_NODE || *cb == NO_NODE {
                continue;
            }
            let (a, b) = (root.actions[ea], root.actions[eb]);
            if let (Some(ab), Some(ba)) = (
                child_by(&search, *ca as usize, b),
                child_by(&search, *cb as usize, a),
            ) {
                let (x, y) = (&search.tree.nodes[ab as usize], &search.tree.nodes[ba as usize]);
                if x.state.same_position(&y.state) {
                    assert_ne!(ab, ba, "a plain tree must not share nodes");
                    split += 1;
                }
            }
        }
    }
    assert!(split > 0, "the comparison arm explored no permutation pair");
    assert_eq!(search.tree.merges(), 0, "the flag is off");
    assert!(search.tree.transpositions.is_empty(), "the index is not built");
}

#[test]
fn a_merged_node_pools_the_visits_of_every_parent() {
    let search = searched(true, 1, 4_000);
    let nodes = &search.tree.nodes;
    let mut parents: Vec<Vec<(usize, usize)>> = vec![Vec::new(); nodes.len()];
    for (id, node) in nodes.iter().enumerate() {
        for (edge, child) in node.children.iter().enumerate() {
            if *child != NO_NODE {
                parents[*child as usize].push((id, edge));
            }
        }
    }
    let mut shared = 0;
    for (id, node) in nodes.iter().enumerate().skip(1) {
        let arrivals: u32 = parents[id].iter().map(|(p, e)| nodes[*p].n[*e]).sum();
        if node.terminal {
            assert_eq!(node.visits, 0, "node {id} is terminal but was walked past");
            continue;
        }
        if !node.expanded {
            assert_eq!(arrivals, 0, "node {id} was visited without being expanded");
            continue;
        }
        assert_eq!(arrivals, node.visits + 1, "node {id}");
        if parents[id].len() > 1 {
            shared += 1;
            assert!(parents[id].iter().all(|(p, e)| nodes[*p].n[*e] > 0));
        }
    }
    assert!(shared > 0, "nothing was merged");
}

#[test]
fn the_dag_spends_every_expansion_on_a_position_it_has_not_seen() {
    let distinct = |search: &Search| {
        search.tree.nodes.iter().map(|n| n.state.hash).collect::<HashSet<_>>().len()
    };
    let with = searched(true, 1, 4_000);
    let without = searched(false, 1, 4_000);
    assert_eq!(with.tree.sims_run(), without.tree.sims_run());
    assert_eq!(distinct(&with), with.tree.node_count());
    assert_eq!(with.tree.distinct_positions(), with.tree.node_count());
    let duplicates = without.tree.node_count() - distinct(&without);
    assert!(duplicates > 0, "the plain tree expanded no duplicate");
    assert_eq!(without.tree.distinct_positions(), distinct(&without));
    assert!(with.tree.merges() > 0);
    assert_eq!(with.tree.key_collisions(), 0);

    let with = searched(true, 8, 4_000);
    let without = searched(false, 8, 4_000);
    assert!(with.tree.node_count() < without.tree.node_count());
}

#[test]
fn the_root_is_never_a_merge_target_so_its_noised_prior_cannot_leak() {
    let config = Config { dag: true, root_noise: true, seed: 0xD1CE, ..Config::play() };
    let mut search = Search::new(state_with(1, 3), config);
    let noisy = search.stats[0].prior.clone();
    search.run_sims(2_000);
    assert!(!search.tree.transpositions.values().any(|id| *id == 0));
    for node in &search.tree.nodes {
        assert!(node.children.iter().all(|c| *c != 0), "a node points back at the root");
    }
    assert_eq!(search.stats[0].prior, noisy, "the search overwrote the noised root prior");
    let plain = Search::new(state_with(1, 3), Config { dag: true, ..Config::play() });
    assert_ne!(plain.stats[0].prior, noisy, "the root prior was not actually noised");
}

fn assert_index_sound(search: &Search) {
    for (key, id) in &search.tree.transpositions {
        assert!((*id as usize) < search.tree.nodes.len());
        assert_ne!(*id, 0);
        assert_eq!(search.tree.nodes[*id as usize].state.hash, *key);
    }
    assert!(search.tree.transpositions.len() < search.tree.nodes.len().max(1));
}

#[test]
fn re_rooting_rebuilds_the_index_and_reclaims_the_unreachable_nodes() {
    for batch_size in [1u16, 8] {
        let mut search = searched(true, batch_size, 3_000);
        let before_nodes = search.tree.node_count();
        let before_keys = search.tree.transpositions.len();
        assert!(before_keys > 0);
        let action = search.best_action().expect("a best action");
        assert!(search.rebase(action));
        assert!(search.tree.node_count() < before_nodes, "nothing was reclaimed");
        assert!(search.tree.transpositions.len() < before_keys);
        assert_index_sound(&search);

        let mut seen = vec![false; search.tree.node_count()];
        let mut queue = vec![0u32];
        seen[0] = true;
        while let Some(id) = queue.pop() {
            for child in &search.tree.nodes[id as usize].children {
                if *child != NO_NODE && !seen[*child as usize] {
                    seen[*child as usize] = true;
                    queue.push(*child);
                }
            }
        }
        assert!(seen.iter().all(|s| *s), "the arena kept a node the root cannot reach");

        search.run_sims(1_000);
        assert_clean(&search, batch_size, "after searching a re-rooted DAG");
        assert_index_sound(&search);
        assert!(search.best_action().is_some());
    }
}

#[test]
fn a_batched_dag_search_leaves_nothing_in_flight() {
    for batch_size in [1u16, 2, 8, 16] {
        let mut search = searched(true, batch_size, 1_453);
        assert_clean(&search, batch_size, "after simulating a DAG");
        assert_index_sound(&search);
        assert!(search.tree.merges() > 0, "batch {batch_size}: nothing merged");
        let action = search.best_action().expect("a best action");
        assert!(search.rebase(action));
        assert_clean(&search, batch_size, "after re-rooting a DAG");
    }
}

/// A key that two positions share costs a duplicate node, never a merge.
#[test]
fn a_key_collision_never_welds_two_positions_together() {
    let config = Config { dag: true, batch_size: 1, ..Config::play() };
    let mut tree = MctsSearcher::new(state_with(1, 3), config, false, &vec![]);
    for edge in 0..2 {
        let mut step = tree.descend();
        while let Step::Choose { .. } = step {
            step = tree.take_edge(edge);
        }
        if let Step::Apply { node, action, .. } = step {
            let mut next = apply(&tree.nodes[node as usize].state, action);
            next.hash = 7;
            tree.supply(next);
        }
        tree.evaluate_leaves();
        tree.backup();
    }
    assert_eq!(tree.key_collisions(), 1);
    assert_eq!(tree.merges(), 0);
    assert_eq!(tree.node_count(), 3);
    assert_eq!(tree.transpositions.get(&7), Some(&1), "the first node keeps the key");
}

// ------------------------------------------------------------- the schedule

#[test]
fn the_budget_goes_to_the_candidate_set_and_is_spent_in_full() {
    let search = run(midgame(1), gumbel(11, 64, 8), 64);
    assert!(search.tree.root_actions().len() > 8);
    assert_eq!(search.visits().iter().sum::<u32>(), 64, "every simulation lands");
    assert_eq!(nonzero(&search.visits()), 8, "exactly the top-m candidates get visits");
}

#[test]
fn an_m_larger_than_the_action_count_is_clamped() {
    let search = run(midgame(1), gumbel(11, 48, 4096), 48);
    let actions = search.tree.root_actions().len();
    assert_eq!(nonzero(&search.visits()), actions.min(48));
}

#[test]
fn the_played_action_is_a_measured_candidate() {
    let search = run(midgame(1), gumbel(5, 64, 8), 64);
    let action = search.best_action().expect("a non-terminal root answers");
    let slot = search.tree.root_actions().iter().position(|a| *a == action).unwrap();
    assert!(search.visits()[slot] > 0);
    assert!(search.tree.is_gumbel());
}

#[test]
fn a_budget_that_misses_the_plan_still_produces_a_legal_answer() {
    let legal = midgame(1).legal_actions;
    for (planned, actual) in [(192u32, 24u32), (24, 96)] {
        let search = run(midgame(1), gumbel(3, planned, 8), actual);
        let action = search.best_action().expect("an answer");
        assert!(legal.contains(&action), "{planned}/{actual} played {action:?}");
        assert_eq!(search.visits().iter().sum::<u32>(), actual);
    }
}

#[test]
fn a_gumbel_search_is_byte_stable_for_a_fixed_seed() {
    for batch in [1u16, 8] {
        let config = Config { batch_size: batch, ..gumbel(20_260_814, 96, 8) };
        let a = run(midgame(1), config, 96);
        let b = run(midgame(1), config, 96);
        assert_eq!(a.visits(), b.visits(), "batch {batch}");
        assert_eq!(a.best_action(), b.best_action(), "batch {batch}");
        let bits = |s: &Search| s.scores().iter().map(|x| x.bits).collect::<Vec<_>>();
        assert_eq!(bits(&a), bits(&b));
    }
}

#[test]
fn the_seed_changes_the_draw_and_therefore_the_search() {
    let base = run(midgame(1), gumbel(1, 64, 8), 64);
    let differing = (2..8u64)
        .map(|seed| run(midgame(1), gumbel(seed, 64, 8), 64))
        .filter(|other| other.visits() != base.visits())
        .count();
    assert!(differing >= 4, "the draw barely moved across six seeds");
}

#[test]
fn gumbel_is_deterministic_with_and_without_the_dag() {
    for dag in [true, false] {
        let config = Config { dag, ..gumbel(77, 64, 8) };
        let a = run(midgame(1), config, 64);
        let b = run(midgame(1), config, 64);
        assert_eq!(a.visits(), b.visits(), "dag {dag}");
        assert_eq!(a.best_action(), b.best_action(), "dag {dag}");
    }
}

#[test]
fn a_root_without_a_choice_has_no_schedule() {
    let search = Search::new(stuck(), gumbel(1, 16, 4));
    assert!(!search.tree.is_gumbel());
}

// ------------------------------------------------------------ the shared tree

struct Pool {
    tree: ParallelMcts,
    stats: Vec<Stats>,
}

fn pool_config(batch: u16, threads: usize) -> Config {
    Config { value_source: ValueSource::Net, batch_size: batch, threads, dag: false, ..Config::play() }
}

impl Pool {
    fn new(state: State, config: Config) -> Pool {
        assert_eq!(ParallelMcts::refusal(&state, &config, false), None);
        let stats = vec![stats_of(&state, config.value_source)];
        Pool { tree: ParallelMcts::new(state, config, false), stats }
    }

    /// One step of worker `w`'s descent. Returns whether the descent is over.
    fn advance(&mut self, w: usize) -> bool {
        assert!(self.tree.has_room(w));
        match self.tree.step(w) {
            Pace::Leaf(_) | Pace::Collision => true,
            Pace::Choose(node) => {
                let n = &self.tree.nodes[node as usize];
                let columns = Columns {
                    mover: n.mover,
                    n: &n.n,
                    vl: &n.vl,
                    visits: n.visits,
                    vl_visits: n.vl_visits,
                };
                let edge = select(columns, &self.stats[node as usize], &self.tree.config);
                if !self.tree.take_edge(w, edge) {
                    let n = &self.tree.nodes[node as usize];
                    let next = apply(&n.state, n.actions[edge]);
                    self.tree.supply(w, edge, next);
                }
                self.stats.resize_with(self.tree.nodes.len(), empty_stats);
                false
            }
        }
    }

    fn finish(&mut self, w: usize) -> u32 {
        for slot in self.tree.evaluate_leaves(w) {
            let id = self.tree.workers[w].leaves[slot].node as usize;
            self.stats[id] = stats_of(&self.tree.nodes[id].state, self.tree.config.value_source);
            self.tree.publish(w, slot);
        }
        let leaves = self.tree.workers[w].leaves.clone();
        let ran = self.tree.workers[w].descents.len() as u32;
        for Credit { node, edge, leaf } in self.tree.backup(w) {
            self.stats[node as usize].w[edge as usize] += leaf_value(&leaves[leaf], &self.stats);
        }
        ran
    }

    /// Runs `count` simulations, the workers taking their steps in an order
    /// drawn from `seed`.
    fn run_sims(&mut self, count: u32, seed: u64) {
        if self.tree.is_terminal() {
            return;
        }
        let batch = u32::from(self.tree.config.batch_size.max(1));
        let workers = self.tree.threads();
        let mut budget = Budget::new(count);
        // The rest of each worker's claim, or nothing when it is between two.
        let mut claim: Vec<Option<(u32, u32)>> = vec![None; workers];
        let mut rng = Rng::new(seed);
        loop {
            let w = rng.next_u64() as usize % workers;
            match claim[w] {
                None => {
                    let got = budget.claim_from(batch);
                    if got > 0 {
                        claim[w] = Some((got, got));
                    } else if claim.iter().all(|c| c.is_none()) {
                        return;
                    }
                }
                Some((got, 0)) => {
                    let ran = self.finish(w);
                    budget.hand_back(got - ran);
                    claim[w] = None;
                }
                Some((got, left)) => {
                    if self.tree.workers[w].cursor.is_none() {
                        self.tree.begin(w);
                    }
                    if self.advance(w) {
                        claim[w] = Some((got, left - 1));
                    }
                }
            }
        }
    }

    fn visits(&self) -> Vec<u32> {
        self.tree.root_visits().clone()
    }

    fn root_value_abs(&self) -> f64 {
        self.stats[0].w.iter().sum::<f64>() / f64::from(self.tree.nodes[0].visits)
    }
}

#[test]
fn parallel_with_one_thread_matches_the_serial_searcher() {
    for batch in [1u16, 4, 16] {
        let config = pool_config(batch, 1);
        let serial = run(midgame(1), config, 96);
        let mut parallel = Pool::new(midgame(1), config);
        parallel.run_sims(96, 5);
        assert_eq!(serial.tree.root_actions(), parallel.tree.root_actions());
        assert_eq!(serial.stats[0].prior, parallel.stats[0].prior);
        assert_eq!(serial.visits(), parallel.visits(), "batch {batch}: a different tree");
        assert_eq!(serial.root_value_abs().to_bits(), parallel.root_value_abs().to_bits());
        assert_eq!(serial.best_action(), parallel.tree.best_action(), "batch {batch}");
        assert_eq!(serial.tree.sims_run(), parallel.tree.sims_run(), "batch {batch}");
        assert_eq!(parallel.tree.collisions(), 0, "one worker cannot collide with itself");
        // Not only the root: the whole arena, node for node.
        assert_eq!(serial.tree.nodes.len(), parallel.tree.nodes.len());
        for (a, b) in serial.tree.nodes.iter().zip(&parallel.tree.nodes) {
            assert_eq!((&a.n, &a.children, a.visits), (&b.n, &b.children, b.visits));
        }
    }
}

#[test]
fn a_multi_threaded_search_stays_internally_consistent() {
    let legal = midgame(1).legal_actions;
    for threads in [2usize, 4] {
        for seed in 0..4 {
            let mut pool = Pool::new(midgame(1), pool_config(8, threads));
            assert_eq!(pool.tree.threads(), threads);
            pool.run_sims(400, seed);
            let visits: u64 = pool.visits().iter().map(|n| u64::from(*n)).sum();
            assert_eq!(visits, pool.tree.sims_run());
            assert!(pool.tree.sims_run() >= 300);
            let action = pool.tree.best_action().expect("a non-terminal root has a move");
            assert!(legal.contains(&action), "played an illegal action {action:?}");
            assert!(pool.root_value_abs().abs() <= 1.0);
            for node in &pool.tree.nodes {
                assert!(node.vl.iter().all(|v| *v == 0));
                assert_eq!(node.vl_visits, 0);
                assert!(!node.claimed);
                assert_eq!(node.visits, node.n.iter().sum::<u32>());
            }
        }
    }
}

#[test]
fn a_parallel_search_resumes_into_the_same_tree() {
    let mut pool = Pool::new(midgame(1), pool_config(8, 2));
    pool.run_sims(160, 1);
    let first = pool.tree.sims_run();
    assert!(first > 0);
    pool.run_sims(160, 2);
    assert!(pool.tree.sims_run() > first, "the second budget added nothing");
    let visits: u64 = pool.visits().iter().map(|n| u64::from(*n)).sum();
    assert_eq!(visits, pool.tree.sims_run());
}

#[test]
fn parallel_a_terminal_root_yields_no_action() {
    // Player 2 owns only its base.
    let mut cells = vec![EMPTY; CELLS];
    cells[0] = cell(CellKind::Base, 1);
    cells[1] = cell(CellKind::Normal, 1);
    cells[CELLS - 1] = cell(CellKind::Base, 2);
    let mut pool = Pool::new(from_grid(cells, 1, 3, [false, false]), pool_config(8, 2));
    pool.run_sims(16, 3);
    assert!(pool.tree.best_action().is_some() || pool.tree.root_actions().is_empty());

    let mut none = Pool::new(stuck(), pool_config(8, 2));
    none.run_sims(16, 3);
    assert!(none.tree.is_terminal());
    assert_eq!(none.tree.best_action(), None);
    assert_eq!(none.tree.chosen_action(0), None);
    assert_eq!(none.tree.sims_run(), 0);
}

#[test]
fn the_hand_tuned_fallback_runs_in_parallel() {
    let mut pool = Pool::new(midgame(1), Config { batch_size: 8, threads: 2, ..Config::play() });
    pool.run_sims(200, 9);
    let visits: u64 = pool.visits().iter().map(|n| u64::from(*n)).sum();
    assert_eq!(visits, pool.tree.sims_run());
    assert!(pool.tree.best_action().is_some());
}

/// A worker that runs into another's claim takes its virtual loss back, gets no
/// credit, and leaves the other's claim alone.
#[test]
fn a_collision_takes_no_credit() {
    let config = Config { visit_sampling: true, ..pool_config(4, 2) };
    let mut tree = ParallelMcts::new(state_with(1, 3), config, false);
    let next = apply(&tree.nodes[0].state, tree.nodes[0].actions[0]);
    for w in 0..2 {
        tree.begin(w);
        assert_eq!(tree.step(w), Pace::Choose(0));
    }
    assert!(!tree.take_edge(0, 0), "nothing is behind the edge yet");
    tree.supply(0, 0, next.clone());
    // The second worker supplies the same position and shares the node.
    tree.supply(1, 0, next);
    assert_eq!(tree.nodes.len(), 2);
    assert_eq!(tree.step(0), Pace::Leaf(0));
    assert_eq!(tree.step(1), Pace::Collision);
    assert_eq!(tree.collisions(), 1);
    assert_eq!(tree.nodes[0].vl[0], 1, "only the first worker is still in flight");
    assert!(tree.nodes[1].claimed);
    // A second descent of the first worker shares its own claim.
    tree.begin(0);
    tree.step(0);
    assert!(tree.take_edge(0, 0));
    assert_eq!(tree.step(0), Pace::Leaf(0));
    assert_eq!(tree.evaluate_leaves(0), vec![0]);
    tree.publish(0, 0);
    let credits = tree.backup(0);
    assert_eq!(credits.len(), 2);
    assert_eq!(tree.backup(1).len(), 0);
    assert_eq!(tree.sims_run(), 2);
    assert_eq!(tree.root_visits()[0], 2);
    assert_eq!(tree.nodes[0].vl_visits, 0);
    assert_eq!(tree.draw_total(), Some(2));
    assert_eq!(tree.chosen_action(1), Some(tree.nodes[0].actions[0]));
}

#[test]
fn a_claimed_node_without_a_move_is_terminal_after_all() {
    let mut tree = ParallelMcts::new(state_with(1, 3), pool_config(1, 1), false);
    tree.begin(0);
    tree.step(0);
    let mut next = apply(&tree.nodes[0].state, tree.nodes[0].actions[0]);
    next.legal_actions.clear();
    next.outcome_winner = 2;
    tree.supply(0, 0, next);
    assert_eq!(tree.step(0), Pace::Leaf(0));
    assert_eq!(tree.workers[0].leaves[0].value, LeafValue::Waiting);
    assert!(tree.evaluate_leaves(0).is_empty());
    assert_eq!(tree.workers[0].leaves[0].value, LeafValue::Terminal(-1));
    assert_eq!(tree.nodes[1].outcome, Some(-1));
    tree.backup(0);
    assert_eq!(tree.root_visits()[0], 1);
}

#[test]
fn a_shared_budget_is_never_overspent() {
    let mut budget = Budget::new(10);
    assert_eq!(budget.claim_from(4), 4);
    assert_eq!(budget.claim_from(4), 4);
    budget.hand_back(1);
    assert_eq!(budget.claim_from(4), 3);
    assert_eq!(budget.claim_from(4), 0);
}

#[test]
fn a_simulation_adds_one_node_merging_or_not() {
    for dag in [false, true] {
        let search = searched(dag, 1, 300);
        let finished = search.tree.nodes.iter().filter(|node| node.terminal).count();
        assert!(search.tree.node_count() as u64 <= search.tree.sims_run() + 1);
        if finished == 0 {
            assert_eq!(search.tree.node_count(), 301, "dag {dag}");
        }
    }
}

#[test]
fn a_lone_descent_chooses_on_plain_statistics() {
    let mut search = searched(true, 1, 40);
    let mut step = search.tree.descend();
    let mut chosen = 0;
    loop {
        step = match step {
            Step::Leaf { .. } => break,
            Step::Choose { node } => {
                let at = &search.tree.nodes[node as usize];
                assert_eq!(at.vl_visits, 0);
                assert!(at.vl.iter().all(|count| *count == 0));
                chosen += 1;
                search.tree.take_edge(0)
            }
            Step::Apply { node, action, .. } => {
                let next = apply(&search.tree.nodes[node as usize].state, action);
                search.tree.supply(next)
            }
        };
    }
    assert!(chosen > 0);
}

#[test]
fn a_lone_worker_credits_what_the_searcher_credits() {
    let config = pool_config(8, 1);
    let mut serial = Search::new(midgame(1), config);
    let mut pool = Pool::new(midgame(1), config);
    for rounds in 1..6 {
        serial.run_sims(8);
        pool.run_sims(8, rounds);
        assert_eq!(serial.tree.node_count(), pool.tree.nodes.len());
        for (s, p) in serial.tree.nodes.iter().zip(&pool.tree.nodes) {
            assert_eq!(s.state.hash, p.state.hash);
            assert_eq!(s.children, p.children);
            assert_eq!(s.n, p.n);
            assert_eq!(s.visits, p.visits);
        }
        for (s, p) in serial.stats.iter().zip(&pool.stats) {
            assert_eq!(s.w, p.w);
        }
    }
}

#[test]
fn a_schedule_is_drawn_with_the_tree_and_again_with_every_root() {
    let mut search = Search::new(midgame(1), gumbel(5, 64, 4));
    assert!(search.tree.is_gumbel());
    assert_eq!(search.tree.gumbel.as_ref().unwrap().alive.len(), 4);
    search.run_sims(64);
    let action = search.best_action().unwrap();
    assert!(search.rebase(action));
    let plan = search.tree.gumbel.as_ref().unwrap();
    assert_eq!(plan.scheduled, 0);
    assert_eq!(plan.edges, search.tree.root_actions().len());
    search.run_sims(32);
    assert!(search.best_action().is_some());
    assert!(!Search::new(midgame(1), Config::play()).tree.is_gumbel());
}

#[test]
fn a_score_that_is_not_a_number_never_wins() {
    let count = midgame(1).legal_actions.len();
    let flat: Vec<f64> = (0..count).map(|a| -(a as f64)).collect();
    let tree = MctsSearcher::new(midgame(1), gumbel(1, 16, 4), false, &bits(&flat));
    let mut scores = vec![0.0; count];
    scores[1] = f64::NAN;
    scores[2] = 3.0;
    assert_eq!(tree.best_action(&bits(&scores)), Some(tree.root_actions()[2]));
    scores[0] = f64::NAN;
    assert_eq!(tree.best_action(&bits(&scores)), Some(tree.root_actions()[0]));
}

#[test]
fn a_draw_never_falls_on_an_unvisited_action() {
    let config = Config { visit_sampling: true, ..Config::play() };
    let search = run(midgame(1), config, 30);
    let total = search.tree.draw_total().unwrap();
    assert_eq!(total, 30);
    let visits = search.visits();
    for target in 0..total {
        let action = search.tree.chosen_action(&vec![], target).unwrap();
        let edge = search.tree.root_actions().iter().position(|a| *a == action).unwrap();
        assert!(visits[edge] > 0);
    }
}

#[test]
fn the_root_position_is_not_stored_again() {
    let search = searched(true, 1, 300);
    let root = search.tree.root_state();
    for node in &search.tree.nodes[1..] {
        assert!(root.precedes(&node.state));
        assert!(!root.same_position(&node.state));
    }
}
