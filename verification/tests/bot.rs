//! The client state machine driven message by message, with a clock, an engine
//! and a wire that the test holds in its hands.

use std::collections::HashSet;
use virus_bot::game::{Action, Cell, CellKind, Pos, State};
use virus_bot::proto::bot::{
    select_fallback, ActionGuard, Bot, Dispatch, Effect, EngineAnswer, FallbackAnswer, Outbound,
    Written,
};
use virus_bot::proto::config::{BotConfig, Rng};
use virus_bot::proto::engine::{
    EngineKind, GreedyEngine, SearchBudget, SearchEngine, SearchOutcome,
};
use virus_bot::proto::machine::{Driver, Phase};
use virus_bot::proto::message::{
    CellPos, GamePlayerInfo, Inbound, LobbyInfo, Outgoing, Reading, UserInfo,
};
use virus_bot::proto::ponder::{decline, PonderStep};
use virus_bot::score::Score;
use virus_bot::time::{Duration, Instant};

// ------------------------------------------------------------------- the game

const SIZE: usize = 6;
const EMPTY: Cell = Cell { kind: CellKind::Empty, owner: 0 };
const NEUTRAL: Cell = Cell { kind: CellKind::Neutral, owner: 0 };

fn pos(index: usize) -> Pos {
    Pos { row: (index / SIZE) as i32, col: (index % SIZE) as i32 }
}

fn mv(row: i32, col: i32) -> Action {
    Action::Move { target: Pos { row, col } }
}

fn near(a: usize, b: usize) -> bool {
    let (p, q) = (pos(a), pos(b));
    a != b && (p.row - q.row).abs() <= 1 && (p.col - q.col).abs() <= 1
}

fn position(cells: Vec<Cell>, mover: u8, moves_left: u8, used: [bool; 2]) -> State {
    let own = |at: &usize| {
        cells[*at].owner == mover && cells[*at].kind != CellKind::Neutral
    };
    let targets: Vec<Pos> = (0..cells.len())
        .filter(|at| {
            let c = cells[*at];
            (c.kind == CellKind::Empty || (c.kind == CellKind::Normal && c.owner != mover))
                && (0..cells.len()).filter(own).any(|o| near(*at, o))
        })
        .map(pos)
        .collect();
    let normals =
        cells.iter().filter(|c| c.kind == CellKind::Normal && c.owner == mover).count();
    let mut hash = u64::from(mover) * 31 + u64::from(moves_left) * 7 + u64::from(used[0]);
    for c in &cells {
        hash = hash.wrapping_mul(0x0100_0000_01b3) ^ (c.kind as u64 * 4 + u64::from(c.owner));
    }
    State {
        rows: SIZE,
        cols: SIZE,
        players: 2,
        legal_actions: targets.iter().map(|t| Action::Move { target: *t }).collect(),
        legal_targets: targets,
        can_place_neutrals: moves_left == 3 && !used[mover as usize - 1] && normals >= 2,
        cells,
        current_player: mover,
        moves_left,
        neutral_used: used.to_vec(),
        game_over: false,
        winner: 0,
        outcome_winner: 0,
        hash,
    }
}

fn grid() -> Vec<Cell> {
    let mut cells = vec![EMPTY; SIZE * SIZE];
    cells[0] = Cell { kind: CellKind::Base, owner: 1 };
    cells[SIZE * SIZE - 1] = Cell { kind: CellKind::Base, owner: 2 };
    cells
}

fn opening() -> State {
    position(grid(), 1, 3, [false, false])
}

fn opening_with_normals(mover: u8) -> State {
    let mut cells = grid();
    cells[1] = Cell { kind: CellKind::Normal, owner: 1 };
    cells[SIZE] = Cell { kind: CellKind::Normal, owner: 1 };
    position(cells, mover, 3, [false, false])
}

fn opponent_opening() -> State {
    position(grid(), 2, 3, [false, false])
}

fn apply(state: &State, action: Action) -> State {
    let mut cells = state.cells.clone();
    let used = [state.neutral_used[0], state.neutral_used[1]];
    if let Action::Move { target } = action {
        cells[target.row as usize * SIZE + target.col as usize] =
            Cell { kind: CellKind::Normal, owner: state.current_player };
    }
    if state.moves_left > 1 {
        position(cells, state.current_player, state.moves_left - 1, used)
    } else {
        position(cells, 3 - state.current_player, 3, used)
    }
}

fn first_legal(state: &State) -> Action {
    state.legal_actions[0]
}

fn opponent_to_move() -> State {
    let mut state = opening();
    for _ in 0..3 {
        state = apply(&state, first_legal(&state));
    }
    assert_eq!(state.current_player, 2);
    state
}

fn back_to_us(mut state: State) -> State {
    while state.current_player == 2 {
        state = apply(&state, first_legal(&state));
    }
    state
}

// ----------------------------------------------------------------- messages

fn message(kind: &str) -> Inbound {
    Inbound {
        kind: kind.to_owned(),
        user_id: String::new(),
        username: String::new(),
        request_id: String::new(),
        lobby_id: String::new(),
        lobby: None,
        game_id: String::new(),
        your_player: 0,
        player: 0,
        row: None,
        col: None,
        cells: vec![],
        moves_left: 0,
        winner: 0,
        eliminated_player: 0,
        challenge_id: String::new(),
        from_username: String::new(),
        game_players: vec![],
        users: vec![],
        snapshot: None,
    }
}

fn frame(kind: &str, state: &State) -> Inbound {
    Inbound {
        game_id: "g".to_owned(),
        snapshot: Some(Reading::Decoded(state.clone())),
        ..message(kind)
    }
}

fn game_start(seat: i32, state: &State) -> Inbound {
    Inbound { your_player: seat, ..frame("game_start", state) }
}

fn game_end(game: &str) -> Inbound {
    Inbound { game_id: game.to_owned(), winner: 2, ..message("game_end") }
}

fn welcome() -> Inbound {
    Inbound { user_id: "me".to_owned(), username: "Bot A".to_owned(), ..message("welcome") }
}

fn challenge(id: &str) -> Inbound {
    Inbound { challenge_id: id.to_owned(), ..message("challenge_received") }
}

fn peer(id: &str) -> UserInfo {
    UserInfo {
        user_id: id.to_owned(),
        username: "Bot".to_owned(),
        in_game: false,
        in_lobby: false,
    }
}

// ------------------------------------------------------------------ harness

struct Harness {
    bot: Bot,
    now: Duration,
    outbox: Vec<(Outgoing, Option<ActionGuard>)>,
    searches: Vec<(Dispatch, Driver)>,
    cancelled: HashSet<u64>,
    sessions: HashSet<u64>,
    thinks: Vec<(State, SearchBudget)>,
    games: usize,
}

fn build_with(config: BotConfig, can_ponder: bool) -> Harness {
    Harness {
        bot: Bot::new(config, can_ponder),
        now: Duration::from_secs(1),
        outbox: vec![],
        searches: vec![],
        cancelled: HashSet::new(),
        sessions: HashSet::new(),
        thinks: vec![],
        games: 0,
    }
}

fn build() -> Harness {
    build_with(
        BotConfig { move_budget: Some(Duration::from_millis(50)), ..BotConfig::default() },
        false,
    )
}

fn ponder_config(ponder: bool) -> BotConfig {
    BotConfig {
        turn_budget: Duration::from_millis(300),
        move_budget: Some(Duration::from_millis(30)),
        ponder,
        ponder_budget: Duration::from_secs(5),
        fallback_grace: Duration::from_millis(200),
        ..BotConfig::default()
    }
}

impl Harness {
    fn now(&self) -> Instant {
        Instant::after(self.now)
    }

    fn wait(&mut self, span: Duration) {
        self.now = self.now.saturating_add(span);
    }

    fn perform(&mut self) {
        for effect in self.bot.take_effects() {
            match effect {
                Effect::Send { message, guard } => self.outbox.push((message, guard)),
                Effect::Cancel { token } => {
                    self.cancelled.insert(token);
                }
                Effect::Search { dispatch, driver } => self.searches.push((dispatch, driver)),
                Effect::GameStarted => self.games += 1,
                Effect::OpenSession { session } => {
                    self.sessions.insert(session);
                }
                Effect::CloseSession { session } => {
                    self.sessions.remove(&session);
                }
                Effect::Think { session, state, budget } => {
                    assert!(self.sessions.contains(&session), "the session is open");
                    self.thinks.push((state, budget));
                }
            }
        }
    }

    fn feed(&mut self, message: Inbound) {
        assert!(self.bot.has_room());
        let now = self.now();
        self.bot.handle(message, now);
        self.perform();
    }

    /// Runs the oldest search to its end: `answer` after `spent`.
    fn finish(&mut self, answer: EngineAnswer, spent: Duration) -> bool {
        let (dispatch, _) = self.searches.remove(0);
        let fallback = select_fallback(FallbackAnswer::Silent, &dispatch.position);
        let cancelled = self.cancelled.contains(&dispatch.cancel);
        self.wait(spent);
        let sent = self.bot.finish_search(&dispatch, &answer, fallback, cancelled, spent, spent);
        self.perform();
        sent
    }

    fn play_first(&mut self) -> bool {
        let action = first_legal(&self.searches[0].0.position);
        self.finish(EngineAnswer::Chose(SearchOutcome::new(action)), Duration::from_millis(1))
    }

    fn next(&mut self) -> (Outgoing, Option<ActionGuard>) {
        assert!(!self.outbox.is_empty(), "a message should have been queued");
        self.outbox.remove(0)
    }

    fn assert_silent(&self) {
        assert!(self.outbox.is_empty(), "unexpected message: {:?}", self.outbox);
    }
}

fn played(message: &Outgoing) -> Action {
    match message {
        Outgoing::Move { row, col, .. } => mv(*row, *col),
        other => panic!("expected a move, got {other:?}"),
    }
}

// ------------------------------------------------------------ turn discipline

#[test]
fn same_turn_snapshots_drive_one_action_each() {
    let mut h = build();
    let start = opening();
    h.feed(game_start(1, &start));
    assert!(h.play_first());
    let (first, guard) = h.next();
    assert!(guard.is_some());
    let next = apply(&start, played(&first));

    // `move_made` refreshes the position but must not act on its own.
    h.feed(frame("move_made", &next));
    assert!(h.searches.is_empty());

    // `game_state` is the mid-turn nudge that does.
    h.feed(frame("game_state", &next));
    assert_eq!(h.searches.len(), 1);
    assert_eq!(h.searches[0].1, Driver::GameState);
    assert!(h.play_first());
    played(&h.next().0);

    // A verbatim repeat is a no-op: one snapshot, one action.
    h.feed(frame("game_state", &next));
    assert!(h.searches.is_empty());
    h.assert_silent();
}

#[test]
fn a_late_search_result_is_dropped() {
    let mut h = build();
    let start = opening();
    h.feed(game_start(1, &start));
    let token = h.searches[0].0.cancel;
    assert!(!h.cancelled.contains(&token));
    h.feed(frame("move_made", &apply(&start, first_legal(&start))));
    assert!(h.cancelled.contains(&token), "the search is told to stop");
    assert!(!h.play_first());
    h.assert_silent();
    assert_eq!(h.bot.core_ref().counters.stale_results_dropped, 1);
    assert_eq!(h.bot.core_ref().counters.actions_sent, 0);
}

#[test]
fn game_end_invalidates_an_in_flight_search() {
    let mut h = build();
    h.feed(game_start(1, &opening()));
    h.feed(game_end("g"));
    assert!(!h.play_first());
    h.assert_silent();
    assert_eq!(h.bot.core_ref().counters.games_finished, 1);
    assert_eq!(h.bot.core_ref().phase, Phase::Idle);
}

#[test]
fn the_per_game_hook_tracks_accepted_game_starts_only() {
    let mut h = build();
    assert_eq!(h.games, 0, "nothing before a game");
    // Seat 2 in the opening: accepted, but not our turn, so nothing is queued.
    h.feed(game_start(2, &opening()));
    h.assert_silent();
    assert_eq!(h.games, 1);
    // Rejected starts: no snapshot, a seat outside the board, and no game id.
    h.feed(Inbound { snapshot: None, ..game_start(1, &opening()) });
    h.feed(game_start(9, &opening()));
    h.feed(Inbound { game_id: String::new(), ..game_start(1, &opening()) });
    assert_eq!(h.games, 1, "a rejected game start is not a game");
    // A second real game is.
    h.feed(game_start(2, &opening()));
    h.assert_silent();
    assert_eq!(h.games, 2);
}

#[test]
fn a_stale_game_end_cannot_disturb_the_current_game() {
    let mut h = build();
    h.feed(game_start(2, &opening()));
    h.assert_silent();
    h.feed(game_end("previous"));
    assert_eq!(h.bot.core_ref().phase, Phase::InGame);
    assert_eq!(h.bot.core_ref().current_game.as_deref(), Some("g"));
    assert_eq!(h.bot.core_ref().counters.games_finished, 0);
}

#[test]
fn our_own_neutrals_ack_never_emits_an_action() {
    let mut h = build();
    h.feed(game_start(1, &opening_with_normals(2)));
    assert!(h.searches.is_empty());

    // The ack: our two cells are neutral now, our placement is spent, and the
    // turn has not been rotated yet.
    let mut cells = grid();
    cells[1] = NEUTRAL;
    cells[SIZE] = NEUTRAL;
    let ack = position(cells, 1, 3, [true, false]);
    h.feed(Inbound {
        player: 1,
        cells: vec![CellPos { row: 0, col: 1 }, CellPos { row: 1, col: 0 }],
        ..frame("neutrals_placed", &ack)
    });
    h.assert_silent();
    assert!(h.searches.is_empty(), "the ack must not even start a search");
    // It was still absorbed: the position is authoritative, just not ours to
    // act on yet.
    assert!(h.bot.core_ref().position().is_some_and(|p| p.neutral_used[0]));

    // `turn_change` is the authoritative turn driver.
    h.feed(frame("turn_change", &ack));
    assert_eq!(h.searches.len(), 1);
    assert_eq!(h.searches[0].1, Driver::TurnChange);
    assert!(h.play_first());
    played(&h.next().0);
}

#[test]
fn our_own_action_ack_never_emits_an_action() {
    let mut h = build();
    h.feed(game_start(1, &opponent_opening()));
    h.feed(Inbound {
        request_id: "1c9a1b6e-0000-4000-8000-000000000000".to_owned(),
        moves_left: 3,
        player: 1,
        ..frame("action_ack", &opening())
    });
    h.assert_silent();
    assert!(h.searches.is_empty());
}

#[test]
fn the_send_time_guard_rejects_a_superseded_action() {
    let mut h = build();
    let start = opening();
    h.feed(game_start(1, &start));
    h.play_first();
    let (_, guard) = h.next();
    let guard = guard.expect("actions carry a send-time guard");
    assert!(h.bot.core_ref().action_still_valid(&guard));

    h.feed(frame("move_made", &apply(&start, first_legal(&start))));
    assert!(!h.bot.core_ref().action_still_valid(&guard));
    h.bot.on_disconnected();
    assert!(!h.bot.core_ref().action_still_valid(&guard));

    // The writer drops it, counts it, and lets everything else through.
    let before = h.bot.core_ref().counters.stale_results_dropped;
    let dropped = h.bot.write_item(Outbound::Text { data: "x".to_owned(), guard: Some(guard) });
    assert!(dropped.is_none());
    assert_eq!(h.bot.core_ref().counters.stale_results_dropped, before + 1);
    assert!(matches!(
        h.bot.write_item(Outbound::Text { data: "y".to_owned(), guard: None }),
        Some(Written::Text(t)) if t == "y"
    ));
    assert!(matches!(
        h.bot.write_item(Outbound::Pong(vec![1, 2])),
        Some(Written::Pong(p)) if p == vec![1, 2]
    ));
}

fn fixed(action: Action) -> EngineAnswer {
    EngineAnswer::Chose(SearchOutcome {
        action,
        score: Score { bits: 12.5f64.to_bits() },
        depth: 7,
        nodes: 1234,
    })
}

#[test]
fn actions_convert_to_the_documented_frames() {
    let mut h = build();
    h.feed(game_start(1, &opening()));
    assert!(h.finish(fixed(mv(0, 1)), Duration::from_millis(42)));
    let first_id = match h.next().0 {
        Outgoing::Move { game_id, request_id, row, col, diagnostics } => {
            assert_eq!((game_id.as_str(), row, col), ("g", 0, 1));
            assert_eq!(f64::from_bits(diagnostics.score.bits), 12.5);
            assert_eq!(diagnostics.depth, 7);
            assert_eq!(diagnostics.nodes_evaluated, 1234);
            assert_eq!(diagnostics.time_ms, 42);
            request_id
        }
        other => panic!("expected a move, got {other:?}"),
    };
    assert_eq!(first_id.len(), 36, "a hyphenated UUID: {first_id}");
    for (at, c) in first_id.chars().enumerate() {
        match at {
            8 | 13 | 18 | 23 => assert_eq!(c, '-'),
            14 => assert_eq!(c, '4', "a random UUID says so"),
            19 => assert!("89ab".contains(c)),
            _ => assert!(c.is_ascii_digit() || ('a'..='f').contains(&c)),
        }
    }

    let mut h = build();
    h.feed(game_start(1, &opening_with_normals(1)));
    let pair = Action::PlaceNeutrals { cells: [Pos { row: 0, col: 1 }, Pos { row: 1, col: 0 }] };
    assert!(h.finish(fixed(pair), Duration::from_millis(1)));
    match h.next().0 {
        Outgoing::Neutrals { game_id, request_id, cells, .. } => {
            assert_eq!(game_id, "g");
            assert_eq!(cells, vec![CellPos { row: 0, col: 1 }, CellPos { row: 1, col: 0 }]);
            assert_ne!(first_id, request_id, "request ids are never recycled");
        }
        other => panic!("expected a neutral placement, got {other:?}"),
    }
}

#[test]
fn an_illegal_engine_choice_is_never_queued() {
    let mut h = build();
    h.feed(game_start(1, &opening()));
    // Seat 2's base corner.
    assert!(!h.finish(fixed(mv(5, 5)), Duration::from_millis(1)));
    h.assert_silent();
    assert_eq!(h.bot.core_ref().counters.stale_results_dropped, 1);

    // A neutral placement needs two different cells of our own.
    for cells in [
        [Pos { row: 0, col: 1 }, Pos { row: 0, col: 1 }],
        [Pos { row: 0, col: 1 }, Pos { row: 0, col: 0 }],
        [Pos { row: 0, col: 1 }, Pos { row: -1, col: 0 }],
    ] {
        let mut h = build();
        h.feed(game_start(1, &opening_with_normals(1)));
        assert!(!h.finish(fixed(Action::PlaceNeutrals { cells }), Duration::from_millis(1)));
    }
}

#[test]
fn a_rejected_snapshot_drops_the_position_and_resyncs() {
    let mut h = build();
    h.feed(game_start(1, &opponent_opening()));
    assert!(h.bot.core_ref().position().is_some());
    let broken = || Inbound {
        game_id: "g".to_owned(),
        snapshot: Some(Reading::Rejected),
        ..message("turn_change")
    };
    h.feed(broken());
    let (resync, guard) = h.next();
    assert!(matches!(resync, Outgoing::Resync { game_id } if game_id == "g"));
    assert!(guard.is_none(), "a resync is not a game action");
    assert!(h.bot.core_ref().position().is_none(), "the position is dropped");
    assert_eq!(h.bot.core_ref().counters.rejected_snapshots, 1);
    assert!(!h.bot.core_ref().may_act());

    // Within the cooldown a second one asks for nothing; after it, it does.
    h.feed(broken());
    h.assert_silent();
    h.wait(Duration::from_secs(1));
    h.feed(broken());
    assert!(matches!(h.next().0, Outgoing::Resync { .. }));
}

#[test]
fn a_server_error_is_counted_and_costs_the_position() {
    let mut h = build();
    h.feed(game_start(1, &opponent_opening()));
    h.feed(Inbound { username: "busy".to_owned(), ..message("error") });
    assert_eq!(h.bot.core_ref().counters.errors, 1);
    assert!(h.bot.core_ref().position().is_some());
    h.feed(Inbound {
        username: "Defeated by illegal move: (0, 0)".to_owned(),
        game_id: "g".to_owned(),
        ..message("error")
    });
    let core = h.bot.core_ref();
    assert_eq!((core.counters.errors, core.counters.illegal_moves), (2, 1));
    assert_eq!(core.last_error.as_deref(), Some("Defeated by illegal move: (0, 0)"));
    assert!(core.position().is_none());
    assert!(matches!(h.next().0, Outgoing::Resync { .. }));
}

#[test]
fn inconsistent_seats_start_no_game() {
    let seats = |indices: &[i32]| -> Vec<GamePlayerInfo> {
        indices
            .iter()
            .map(|i| GamePlayerInfo {
                player_index: *i,
                username: String::new(),
                is_bot: false,
                is_active: true,
            })
            .collect()
    };
    for (indices, accepted) in [
        (vec![1, 2], true),
        (vec![2, 1], true),
        (vec![1, 1], false),
        (vec![0, 1], false),
        (vec![1, 3], false),
        (vec![1], false),
        (vec![1, 2, 3], false),
    ] {
        let mut h = build();
        h.feed(Inbound {
            your_player: 1,
            game_players: seats(&indices),
            ..frame("multiplayer_game_start", &opponent_opening())
        });
        assert_eq!(h.games == 1, accepted, "{indices:?}");
    }
}

// ------------------------------------------------------------------- the lobby

#[test]
fn users_update_never_sends_a_challenge() {
    let mut h = build_with(
        BotConfig {
            challenger: true,
            challenge_interval: Duration::from_secs(3600),
            rng_seed: Some(1),
            ..BotConfig::default()
        },
        false,
    );
    h.feed(welcome());
    for _ in 0..5 {
        h.feed(Inbound { users: vec![peer("peer"), peer("me")], ..message("users_update") });
    }
    h.assert_silent();
    assert_eq!(h.bot.core_ref().counters.challenges_sent, 0);
    assert_eq!(h.bot.core_ref().peers.len(), 2);

    // The timer does, and never challenges us or somebody busy.
    let mut rng = Rng::new(1);
    let now = h.now();
    h.bot.challenge_tick(&mut rng, now);
    h.perform();
    assert!(matches!(
        h.next().0,
        Outgoing::Challenge { target_user_id, rows: 12, cols: 12 } if target_user_id == "peer"
    ));
    assert_eq!(h.bot.core_ref().counters.challenges_sent, 1);
    h.feed(Inbound {
        users: vec![UserInfo { in_game: true, ..peer("peer") }, peer("me")],
        ..message("users_update")
    });
    let now = h.now();
    h.bot.challenge_tick(&mut rng, now);
    h.perform();
    h.assert_silent();
}

#[test]
fn a_busy_bot_declines_a_challenge() {
    let mut h = build();
    h.feed(game_start(1, &opponent_opening()));
    h.feed(challenge("c1"));
    assert!(matches!(
        h.next().0,
        Outgoing::DeclineChallenge { challenge_id } if challenge_id == "c1"
    ));
}

#[test]
fn a_second_challenge_before_game_start_is_declined() {
    let mut h = build();
    h.feed(welcome());
    h.feed(challenge("first"));
    assert!(matches!(
        h.next().0,
        Outgoing::AcceptChallenge { challenge_id } if challenge_id == "first"
    ));
    h.feed(challenge("second"));
    assert!(matches!(
        h.next().0,
        Outgoing::DeclineChallenge { challenge_id } if challenge_id == "second"
    ));
}

#[test]
fn an_accepted_game_that_never_starts_heals_back_to_idle() {
    let mut h = build_with(
        BotConfig { pending_game_grace: Duration::from_millis(50), ..BotConfig::default() },
        false,
    );
    h.feed(welcome());
    h.feed(challenge("dropped"));
    assert!(matches!(h.next().0, Outgoing::AcceptChallenge { .. }));
    assert_eq!(h.bot.core_ref().phase, Phase::InGame);
    h.wait(Duration::from_millis(50));
    h.feed(message("users_update"));
    assert_eq!(h.bot.core_ref().phase, Phase::InGame, "the grace is not over yet");
    h.wait(Duration::from_millis(70));
    // Any subsequent traffic heals the optimistic flag.
    h.feed(message("users_update"));
    assert_eq!(h.bot.core_ref().phase, Phase::Idle);
    h.feed(challenge("next"));
    assert!(matches!(h.next().0, Outgoing::AcceptChallenge { .. }));
}

#[test]
fn an_idle_bot_accepts_a_challenge() {
    let mut h = build();
    h.feed(welcome());
    h.feed(challenge("c1"));
    assert!(matches!(
        h.next().0,
        Outgoing::AcceptChallenge { challenge_id } if challenge_id == "c1"
    ));
}

#[test]
fn an_idle_bot_joins_a_wanted_lobby() {
    let mut h = build();
    h.feed(welcome());
    h.feed(Inbound {
        lobby_id: "L".to_owned(),
        request_id: "r1".to_owned(),
        ..message("bot_wanted")
    });
    assert!(matches!(
        h.next().0,
        Outgoing::JoinLobby { lobby_id, request_id } if lobby_id == "L" && request_id == "r1"
    ));
    // Once in the lobby it is no longer available for a challenge.
    h.feed(Inbound {
        lobby: Some(LobbyInfo { lobby_id: "L".to_owned() }),
        ..message("lobby_joined")
    });
    assert_eq!(h.bot.core_ref().phase, Phase::InLobby);
    assert_eq!(h.bot.core_ref().current_lobby.as_deref(), Some("L"));
    h.feed(challenge("c1"));
    assert!(matches!(h.next().0, Outgoing::DeclineChallenge { .. }));
    h.feed(message("lobby_closed"));
    assert_eq!(h.bot.core_ref().phase, Phase::Idle);
}

#[test]
fn unknown_and_malformed_frames_are_survivable() {
    let mut h = build();
    h.feed(game_start(1, &opponent_opening()));
    h.feed(message("chat_message"));
    h.feed(message(""));
    h.feed(Inbound { game_id: "g".to_owned(), ..message("turn_change") });
    h.assert_silent();
    assert_eq!(h.bot.core_ref().phase, Phase::InGame);
    assert!(h.bot.core_ref().position().is_some());
}

#[test]
fn a_dead_socket_invalidates_everything() {
    let mut h = build_with(ponder_config(true), true);
    h.feed(welcome());
    h.feed(game_start(1, &opening()));
    let token = h.searches[0].0.cancel;
    h.bot.on_disconnected();
    h.perform();
    assert!(h.cancelled.contains(&token));
    let core = h.bot.core_ref();
    assert_eq!(core.phase, Phase::Disconnected);
    assert!(core.position().is_none());
    assert_eq!(core.user_id, "");
    assert!(!h.play_first());
    h.assert_silent();
}

// ------------------------------------------------------------------- pondering

#[test]
fn a_pondering_session_never_emits_an_action() {
    let mut h = build_with(ponder_config(true), true);
    let mut state = opponent_to_move();
    h.feed(game_start(1, &state));
    h.feed(frame("turn_change", &state));
    for _ in 0..3 {
        state = apply(&state, first_legal(&state));
        if state.current_player != 2 {
            break;
        }
        h.feed(frame("move_made", &state));
    }
    h.assert_silent();
    assert!(h.searches.is_empty());
    assert_eq!(h.bot.core_ref().counters.actions_sent, 0);
    assert_eq!(h.bot.core_ref().counters.ponder_answers, 0);
    assert_eq!(h.thinks.len(), 3, "one step for each position, and none for the resend");
    assert_eq!(h.sessions.len(), 1);
}

#[test]
fn our_own_neutrals_ack_drives_neither_a_search_nor_a_ponder_step() {
    let mut h = build_with(ponder_config(true), true);
    h.feed(game_start(1, &opponent_to_move()));
    let before = h.thinks.len();
    assert_eq!(before, 1);
    let ours = opening();
    assert_eq!((ours.current_player, ours.moves_left), (1, 3));
    h.feed(frame("neutrals_placed", &ours));
    h.assert_silent();
    assert!(h.searches.is_empty());
    assert_eq!(h.thinks.len(), before, "a position of ours is not one to ponder");
}

#[test]
fn an_answer_is_only_ever_requested_on_our_own_turn() {
    let mut h = build_with(ponder_config(true), true);
    let opponent = opponent_to_move();
    h.feed(game_start(1, &opponent));
    for (state, _) in &h.thinks {
        assert_ne!(state.current_player, 1, "a step is for somebody else's position");
    }
    let ours = back_to_us(opponent);
    h.feed(frame("turn_change", &ours));
    assert_eq!(h.searches.len(), 1);
    let session = h.bot.offer_to_ponder(&h.searches[0].0).expect("the session is offered the turn");
    assert!(h.sessions.contains(&session));
    assert_eq!(h.searches[0].0.position.current_player, 1);
    assert!(h.searches[0].0.position.moves_left > 0);
    h.bot.handed_to_ponder(&h.searches[0].0, true);
    assert_eq!(h.bot.core_ref().counters.ponder_answers, 1);
    // The step in flight is the search's now, so a new snapshot stops it.
    assert!(h.play_first());
    played(&h.next().0);
    let token = h.bot.core_ref().ponder.as_ref().unwrap().cancel;
    h.feed(frame("move_made", &apply(&ours, first_legal(&ours))));
    assert!(h.cancelled.contains(&token));
}

#[test]
fn every_accepted_snapshot_cancels_the_step_in_flight() {
    let mut h = build_with(ponder_config(true), true);
    let first = opponent_to_move();
    h.feed(game_start(1, &first));
    let opening_step = h.thinks[0].1.cancel;
    assert!(!h.cancelled.contains(&opening_step), "the first step starts live");
    h.feed(frame("move_made", &apply(&first, first_legal(&first))));
    assert!(h.cancelled.contains(&opening_step));
    assert_eq!(h.thinks.len(), 2);
    let next_step = h.thinks[1].1.cancel;
    assert_ne!(opening_step, next_step);
    assert!(!h.cancelled.contains(&next_step), "the replacement carries a fresh token");
    h.assert_silent();
}

#[test]
fn a_game_ending_cancels_and_tears_down_the_session() {
    let mut h = build_with(ponder_config(true), true);
    h.feed(game_start(1, &opponent_to_move()));
    assert!(h.bot.core_ref().is_pondering());
    let step = h.thinks[0].1.cancel;
    h.feed(game_end("g"));
    assert!(!h.bot.core_ref().is_pondering(), "the session must be dropped");
    assert!(h.sessions.is_empty());
    assert!(h.cancelled.contains(&step));
}

#[test]
fn pondering_off_means_no_session_at_all() {
    let mut h = build_with(ponder_config(false), true);
    let mut state = opponent_to_move();
    h.feed(game_start(1, &state));
    for _ in 0..2 {
        state = apply(&state, first_legal(&state));
        h.feed(frame("move_made", &state));
    }
    h.assert_silent();
    assert!(!h.bot.core_ref().is_pondering());
    assert_eq!(h.bot.core_ref().counters.ponder_steps, 0);
    assert!(h.thinks.is_empty());
    // ...and the turn still gets played, out of a fresh search.
    h.feed(frame("turn_change", &back_to_us(state)));
    assert_eq!(h.bot.offer_to_ponder(&h.searches[0].0), None);
    assert!(h.play_first());
    played(&h.next().0);
    assert_eq!(h.bot.core_ref().counters.ponder_answers, 0);
}

#[test]
fn an_engine_that_cannot_ponder_is_never_given_a_session() {
    let mut h = build_with(ponder_config(true), false);
    h.feed(game_start(1, &opponent_to_move()));
    h.assert_silent();
    assert!(!h.bot.core_ref().is_pondering());
    assert!(h.thinks.is_empty());
}

#[test]
fn a_dead_session_still_lets_the_turn_be_played() {
    let mut h = build_with(ponder_config(true), true);
    let opponent = opponent_to_move();
    h.feed(game_start(1, &opponent));
    let ours = back_to_us(opponent);
    h.feed(frame("turn_change", &ours));
    // The session is offered the turn and turns out to be gone.
    assert!(h.bot.offer_to_ponder(&h.searches[0].0).is_some());
    h.bot.handed_to_ponder(&h.searches[0].0, false);
    assert!(!h.bot.core_ref().is_pondering());
    assert_eq!(h.bot.offer_to_ponder(&h.searches[0].0), None);
    assert!(h.play_first());
    let action = played(&h.next().0);
    assert!(ours.legal_actions.contains(&action));
    assert_eq!(h.bot.core_ref().counters.illegal_moves, 0);
}

#[test]
fn a_declined_session_answers_everything_it_was_asked() {
    let budget = SearchBudget::new(Instant::after(Duration::from_secs(9)), 4);
    let steps = vec![
        PonderStep::Answer { state: opening(), budget, reply: 11 },
        PonderStep::Think { state: opponent_to_move(), budget },
        PonderStep::Answer { state: opening(), budget, reply: 12 },
    ];
    assert_eq!(decline(&steps), vec![11, 12]);
    assert_eq!(steps[1].state().current_player, 2);
    assert_eq!(steps[1].budget().cancel, 4);
    assert_eq!(steps[1].reply(), None);
    assert_eq!(steps[2].reply(), Some(12));
}

// ---------------------------------------------------------------- the clock

const TURN_MILLIS: u64 = 600;

fn turn_config() -> BotConfig {
    BotConfig {
        turn_budget: Duration::from_millis(TURN_MILLIS),
        move_budget: None,
        ..BotConfig::default()
    }
}

/// Plays one action after `spent`, and feeds the position it leads to back.
/// Returns the target and the extension room the search was given.
fn play_one(h: &mut Harness, state: &mut State, spend_target: bool) -> (u128, u128) {
    let target = h.searches[0].0.allocation.target;
    let ceiling = h.searches[0].0.allocation.ceiling;
    let spent = if spend_target { target } else { Duration::zero() };
    let action = first_legal(state);
    assert!(h.finish(EngineAnswer::Chose(SearchOutcome::new(action)), spent));
    assert_eq!(played(&h.next().0), action);
    *state = apply(state, action);
    h.feed(frame("game_state", state));
    (target.as_millis(), ceiling.saturating_sub(target).as_millis())
}

#[test]
fn a_turn_is_divided_across_its_three_actions_largest_first() {
    let mut h = build_with(turn_config(), false);
    let mut state = opening();
    h.feed(game_start(1, &state));
    let seen: Vec<(u128, u128)> = (0..3).map(|_| play_one(&mut h, &mut state, true)).collect();
    // 50 / 30 / 20 of 600 ms.
    assert_eq!(seen.iter().map(|s| s.0).collect::<Vec<_>>(), vec![300, 180, 120]);
    assert!(seen[0].1 > 0, "there is room to extend into");
    assert!(seen[2].1 < seen[0].1, "the last action has nothing left to borrow");
}

#[test]
fn time_manager_a_stable_root_releases_its_remainder_to_the_next_action() {
    let mut h = build_with(turn_config(), false);
    let mut state = opening();
    h.feed(game_start(1, &state));
    let first = play_one(&mut h, &mut state, false);
    let second = play_one(&mut h, &mut state, false);
    assert!(second.0 > first.0);
    assert_eq!(second.0, 360, "60% of the 600ms still banked");
}

#[test]
fn a_per_action_override_gives_every_action_the_same_budget() {
    let mut h = build_with(
        BotConfig { move_budget: Some(Duration::from_millis(100)), ..turn_config() },
        false,
    );
    let mut state = opening();
    h.feed(game_start(1, &state));
    for _ in 0..3 {
        assert_eq!(play_one(&mut h, &mut state, true), (100, 0));
    }
}

#[test]
fn the_next_turn_starts_from_a_full_budget() {
    let mut h = build_with(turn_config(), false);
    let mut state = opening();
    h.feed(game_start(1, &state));
    for _ in 0..3 {
        play_one(&mut h, &mut state, true);
    }
    assert_ne!(state.current_player, 1, "three actions end our turn");
    for _ in 0..3 {
        state = apply(&state, first_legal(&state));
        h.feed(frame("move_made", &state));
    }
    assert_eq!(state.current_player, 1, "the turn came back to us");
    h.feed(frame("turn_change", &state));
    assert_eq!(h.searches[0].0.allocation.target.as_millis(), 300);
}

#[test]
fn an_engine_that_overruns_answers_with_the_fallback_it_picked_first() {
    let state = opening();
    let chosen = *state.legal_actions.last().unwrap();
    let mut h = build_with(
        BotConfig {
            turn_budget: Duration::from_millis(120),
            move_budget: None,
            fallback_grace: Duration::from_millis(80),
            ..BotConfig::default()
        },
        false,
    );
    h.feed(game_start(1, &state));
    let (dispatch, _) = h.searches.remove(0);
    let started = h.now();
    let budget = h.bot.budget_for(&dispatch, started);
    let ceiling = budget.ceiling.saturating_duration_since(started);
    assert_eq!(ceiling.as_nanos(), dispatch.allocation.ceiling.as_nanos());
    let wait = h.bot.hard_wait(&dispatch);
    assert_eq!(wait.as_millis(), dispatch.allocation.ceiling.as_millis() + 80);
    let fallback = select_fallback(FallbackAnswer::Said(Some(chosen)), &dispatch.position);
    h.wait(wait);
    assert!(h.bot.finish_search(&dispatch, &EngineAnswer::Overran, fallback, false, wait, wait));
    h.perform();
    assert!(h.cancelled.contains(&dispatch.cancel), "the runaway search is told to stop");
    let (message, guard) = h.next();
    assert_eq!(played(&message), chosen);
    assert!(h.bot.core_ref().action_still_valid(&guard.unwrap()));
    match message {
        Outgoing::Move { diagnostics, .. } => assert_eq!(diagnostics.nodes_evaluated, 0),
        _ => unreachable!(),
    }
    let counters = h.bot.core_ref().counters;
    assert_eq!(counters.actions_sent, 1);
    assert_eq!(counters.fallback_actions, 1);
    assert_eq!(counters.illegal_moves, 0);
}

#[test]
fn the_default_fallback_is_a_legal_action() {
    let state = opening();
    let mut h = build();
    h.feed(game_start(1, &state));
    let fallback = GreedyEngine.fallback(&state);
    assert_eq!(fallback, Some(first_legal(&state)));
    assert!(h.finish(EngineAnswer::Overran, Duration::from_millis(1)));
    assert!(state.legal_actions.contains(&played(&h.next().0)));
}

#[test]
fn an_engine_without_an_answer_is_replaced_only_while_its_position_stands() {
    // It offered nothing although there are moves: the fallback is played.
    let mut h = build();
    h.feed(game_start(1, &opening()));
    assert!(h.finish(EngineAnswer::Nothing, Duration::from_millis(1)));
    assert_eq!(h.bot.core_ref().counters.fallback_actions, 1);
    // It was superseded: nothing is.
    let mut h = build();
    h.feed(game_start(1, &opening()));
    let (dispatch, _) = h.searches.remove(0);
    let zero = Duration::zero();
    let fallback = Some(first_legal(&dispatch.position));
    assert!(!h.bot.finish_search(&dispatch, &EngineAnswer::Nothing, fallback, true, zero, zero));
    assert_eq!(h.bot.core_ref().counters.fallback_actions, 0);
    // It failed: nothing is.
    let failed = EngineAnswer::Failed;
    assert!(!h.bot.finish_search(&dispatch, &failed, fallback, false, zero, zero));
    assert_eq!(h.bot.core_ref().counters.fallback_actions, 0);
    assert_eq!(select_fallback(FallbackAnswer::Said(None), &opening()), None);
}

// ------------------------------------------------------------------ the engine

#[test]
fn the_greedy_engine_takes_the_first_capture() {
    let mut cells = grid();
    cells[SIZE + 1] = Cell { kind: CellKind::Normal, owner: 2 };
    let state = position(cells, 1, 3, [false, false]);
    let budget = SearchBudget::new(Instant::after(Duration::from_secs(1)), 0);
    let outcome = GreedyEngine.pick(&state, &budget).expect("a move");
    assert_eq!(outcome.action, mv(1, 1));
    assert_eq!(f64::from_bits(outcome.score.bits), 1.0);
    assert_eq!(outcome.nodes, state.legal_actions.len() as i64);
    let quiet = GreedyEngine.pick(&opening(), &budget).expect("a move");
    assert_eq!(quiet.action, first_legal(&opening()));
    assert_eq!(f64::from_bits(quiet.score.bits), 0.0);
    assert_eq!(GreedyEngine.name(), "greedy");
    assert!(!GreedyEngine.can_ponder());
}

#[test]
fn an_engine_is_named_or_refused() {
    assert_eq!(EngineKind::parse(" mcts\t").unwrap(), EngineKind::Mcts);
    assert_eq!(EngineKind::parse("Alpha_Beta").unwrap(), EngineKind::AlphaBeta);
    assert_eq!(EngineKind::parse("greedy").unwrap(), EngineKind::Greedy);
    assert_eq!(EngineKind::parse("").unwrap(), EngineKind::Mcts);
    let refused = EngineKind::parse("mc\"ts").unwrap_err();
    assert_eq!(
        refused.message(),
        "unknown SEARCH=\"mc\\\"ts\"; expected MCTS, GREEDY or ALPHABETA"
    );
    for kind in [EngineKind::Mcts, EngineKind::Greedy, EngineKind::AlphaBeta] {
        assert_eq!(EngineKind::parse(kind.as_str()).unwrap(), kind);
    }
}

#[test]
fn a_budget_runs_out_at_its_deadline_and_its_ceiling() {
    let at = |secs: u64| Instant::after(Duration::from_secs(secs));
    let mut budget = SearchBudget::new(at(10), 1);
    assert!(!budget.is_expired(at(9), false));
    assert!(budget.is_expired(at(10), false));
    assert!(budget.is_expired(at(1), true));
    budget.ceiling = at(12);
    assert!(!budget.is_exhausted(at(11), false));
    assert!(budget.is_exhausted(at(12), false));
}
