//! The model of the client: what it knows, what each event makes of that, and
//! what it then asks the program around it to do.
//!
//! The client performs nothing itself. A handler changes what the client knows
//! and appends to its list of effects; the program performs them in order.
//! Cancellation tokens and pondering sessions are numbers, handed out once
//! each.

use crate::game::{Action, CellKind, Player, Pos, State, StateView};
use crate::proto::clock::{ClockView, StopPolicy};
use crate::proto::config::BotConfig;
use crate::proto::message::{Inbound, OutgoingView, Reading, UserInfo, UserView};
use vstd::prelude::*;

verus! {

/// Where the bot is in its lifecycle.
#[derive(Clone, Copy, PartialEq, Eq, Debug, Structural)]
pub enum Phase {
    /// No live socket.
    Disconnected,
    /// Connected and available.
    Idle,
    /// Sitting in a lobby, waiting for the game to start.
    InLobby,
    /// Playing.
    InGame,
}

/// The message types allowed to start a search.
///
/// This is a whitelist, not a hint. Other messages carry a snapshot that can
/// show us as the mover with actions left, and none of them means it is our
/// turn.
#[derive(Clone, Copy, PartialEq, Eq, Debug, Structural)]
pub enum Driver {
    /// `game_start` / `multiplayer_game_start`: seat 1 must open the game.
    GameStart,
    /// `game_state`: the server's mid-turn "you may act again" nudge.
    GameState,
    /// `turn_change`: the authoritative turn driver.
    TurnChange,
}

/// Observability counters.
#[derive(Clone, Copy, Debug, PartialEq, Eq, Structural)]
pub struct Counters {
    /// `error` messages received.
    pub errors: u64,
    /// The subset of those that were illegal-move forfeits.
    pub illegal_moves: u64,
    /// Snapshots that did not decode.
    pub rejected_snapshots: u64,
    /// Actions that reached the outbox.
    pub actions_sent: u64,
    /// Search results discarded because the position had moved on.
    pub stale_results_dropped: u64,
    /// `game_end` messages for our game.
    pub games_finished: u64,
    /// Challenges we initiated.
    pub challenges_sent: u64,
    /// Actions answered with the pre-selected fallback.
    pub fallback_actions: u64,
    /// Ponder steps handed to a live session.
    pub ponder_steps: u64,
    /// Turns answered out of a pondering session's tree.
    pub ponder_answers: u64,
}

impl Default for Counters {
    fn default() -> (r: Counters)
        ensures
            r == zero_counters(),
    {
        Counters {
            errors: 0,
            illegal_moves: 0,
            rejected_snapshots: 0,
            actions_sent: 0,
            stale_results_dropped: 0,
            games_finished: 0,
            challenges_sent: 0,
            fallback_actions: 0,
            ponder_steps: 0,
            ponder_answers: 0,
        }
    }
}

/// Nothing counted yet.
pub open spec fn zero_counters() -> Counters {
    Counters {
        errors: 0,
        illegal_moves: 0,
        rejected_snapshots: 0,
        actions_sent: 0,
        stale_results_dropped: 0,
        games_finished: 0,
        challenges_sent: 0,
        fallback_actions: 0,
        ponder_steps: 0,
        ponder_answers: 0,
    }
}

impl Counters {
    /// No counter is full.
    pub open spec fn has_room(self) -> bool {
        &&& self.errors < u64::MAX
        &&& self.illegal_moves < u64::MAX
        &&& self.rejected_snapshots < u64::MAX
        &&& self.actions_sent < u64::MAX
        &&& self.stale_results_dropped < u64::MAX
        &&& self.games_finished < u64::MAX
        &&& self.challenges_sent < u64::MAX
        &&& self.fallback_actions < u64::MAX
        &&& self.ponder_steps < u64::MAX
        &&& self.ponder_answers < u64::MAX
    }
}

/// Everything an action must still be true about at send time.
#[verifier::ext_equal]
pub struct GuardView {
    /// Game the action belongs to.
    pub game_id: Seq<char>,
    /// The position version the search ran against.
    pub version: u64,
    /// Our seat.
    pub seat: Player,
    /// Actions remaining in the searched position.
    pub moves_left: u8,
    /// The action itself.
    pub action: Action,
}

/// A search to run.
#[verifier::ext_equal]
pub struct DispatchView {
    pub position: StateView,
    pub game_id: Seq<char>,
    pub version: u64,
    pub seat: Player,
    /// The token that stops it.
    pub cancel: u64,
    /// What it aims to spend.
    pub target: int,
    /// The most it may spend.
    pub ceiling: int,
}

/// What a pondering step may spend.
#[verifier::ext_equal]
pub struct BudgetView {
    pub deadline: int,
    pub ceiling: int,
    pub policy: StopPolicy,
    pub cancel: u64,
}

/// Something the program around the client has to do.
#[verifier::ext_equal]
pub enum EffectView {
    /// Queue a message for the socket. A guard must still hold when it is
    /// written.
    Send { message: OutgoingView, guard: Option<GuardView> },
    /// Cancel a token.
    Cancel { token: u64 },
    /// Run a search.
    Search { dispatch: DispatchView, driver: Driver },
    /// Tell the engine that a game starts.
    GameStarted,
    /// Open a pondering session.
    OpenSession { session: u64 },
    /// Close a pondering session.
    CloseSession { session: u64 },
    /// Have a pondering session think, and produce nothing.
    Think { session: u64, state: StateView, budget: BudgetView },
}

/// The client's end of a pondering session.
#[verifier::ext_equal]
pub struct SlotView {
    /// The game the session is thinking about.
    pub game_id: Seq<char>,
    pub session: u64,
    /// The token of the step currently in flight.
    pub cancel: u64,
}

/// What tells two snapshots apart: the position key and the terminal status.
pub open spec fn key_of(state: StateView) -> (u64, bool, Player) {
    (state.hash, state.game_over, state.winner)
}

/// The client's state.
#[verifier::ext_equal]
pub struct BotView {
    pub phase: Phase,
    pub user_id: Seq<char>,
    pub username: Seq<char>,
    pub current_game: Option<Seq<char>>,
    pub current_lobby: Option<Seq<char>>,
    pub seat: Player,
    /// The authoritative position. `None` means "not trusted, do not act".
    pub position: Option<StateView>,
    /// Moved on by every accepted snapshot and every invalidation.
    pub position_version: u64,
    pub peers: Seq<UserView>,
    pub counters: Counters,
    pub last_error: Option<Seq<char>>,
    pub position_key: Option<(u64, bool, Player)>,
    /// The version a search has already been started for.
    pub searched_version: u64,
    /// The version a ponder step has already been queued for.
    pub pondered_version: u64,
    /// The token of the search in flight.
    pub cancel: Option<u64>,
    /// When a challenge was accepted whose game has not started.
    pub pending_game_since: Option<int>,
    pub last_resync: Option<int>,
    pub clock: ClockView,
    pub ponder: Option<SlotView>,
    /// The next token or session number.
    pub next_token: u64,
    /// What the program has yet to do.
    pub effects: Seq<EffectView>,
}

/// A text that may be missing.
pub open spec fn text_of(text: Option<String>) -> Option<Seq<char>> {
    match text {
        Some(text) => Some(text@),
        None => None,
    }
}

/// The position a snapshot decoded to.
pub open spec fn position_of(position: Option<State>) -> Option<StateView> {
    match position {
        Some(state) => Some(state@),
        None => None,
    }
}

/// `pos` holds an ordinary cell of the seat to move.
pub open spec fn own_normal(position: StateView, pos: Pos) -> bool {
    position.cell(pos) matches Some(cell) && cell.owner == position.current_player && cell.kind
        == CellKind::Normal
}

/// `action` is legal in `position`.
pub open spec fn legal(position: StateView, action: Action) -> bool {
    match action {
        Action::Move { target } => position.legal_targets.contains(target),
        Action::PlaceNeutrals { cells } => position.can_place_neutrals && cells[0] != cells[1]
            && own_normal(position, cells[0]) && own_normal(position, cells[1]),
    }
}

/// The gap that must lie between two `resync` requests, in nanoseconds.
pub open spec fn resync_cooldown() -> int {
    1_000_000_000
}

/// `at` is more than `grace` past `since`.
pub open spec fn overdue(since: int, at: int, grace: int) -> bool {
    at >= since && at - since > grace
}

/// `message` names every seat of a game of `players` exactly once.
pub open spec fn seats_sane(message: Inbound, players: int) -> bool {
    let seats = message.game_players@;
    &&& seats.len() == players
    &&& forall|i: int|
        0 <= i < seats.len() ==> 1 <= (#[trigger] seats[i]).player_index <= players
    &&& forall|i: int, j: int|
        0 <= i < j < seats.len() ==> (#[trigger] seats[i]).player_index != (
        #[trigger] seats[j]).player_index
}

/// A `game_start` the bot accepts: it carries a position, seats us in it, names
/// every seat once where it names them at all, and names the game.
pub open spec fn start_accepted(message: Inbound) -> bool {
    &&& message.snapshot matches Some(Reading::Decoded(state))
    &&& 1 <= message.your_player <= state.players
    &&& message.kind@ == "multiplayer_game_start"@ ==> seats_sane(message, state.players as int)
    &&& message.game_id@.len() > 0
}

/// `message` carries a snapshot for the game we are playing.
pub open spec fn concerns(v: BotView, message: Inbound) -> bool {
    &&& message.snapshot is Some
    &&& v.phase == Phase::InGame
    &&& v.current_game matches Some(current)
    &&& (message.game_id@.len() == 0 || message.game_id@ == current)
}

impl BotView {
    /// The position is what its key says, and it is well formed.
    pub open spec fn wf(self) -> bool {
        match self.position {
            Some(state) => state.wf() && self.position_key == Some(key_of(state)),
            None => self.position_key is None,
        }
    }

    /// The counters have room for one more event.
    pub open spec fn has_room(self) -> bool {
        self.counters.has_room() && self.next_token <= u64::MAX - 4
    }

    /// One more thing to do.
    pub open spec fn with_effect(self, effect: EffectView) -> BotView {
        BotView { effects: self.effects.push(effect), ..self }
    }

    /// One more message to send, with nothing to hold when it is written.
    pub open spec fn sending(self, message: OutgoingView) -> BotView {
        self.with_effect(EffectView::Send { message, guard: None })
    }

    /// The in-flight search is cancelled, and so is the step the pondering
    /// session has in flight.
    pub open spec fn search_cancelled(self) -> BotView {
        let stopped = match self.cancel {
            Some(token) => BotView { cancel: None, ..self.with_effect(EffectView::Cancel { token }) },
            None => self,
        };
        match self.ponder {
            Some(slot) => stopped.with_effect(EffectView::Cancel { token: slot.cancel }),
            None => stopped,
        }
    }

    /// The pondering session is ended.
    pub open spec fn ponder_stopped(self) -> BotView {
        match self.ponder {
            Some(slot) => BotView { ponder: None, ..self }.with_effect(
                EffectView::Cancel { token: slot.cancel },
            ).with_effect(EffectView::CloseSession { session: slot.session }),
            None => self,
        }
    }

    /// The version moves on, so no result in flight is ever used.
    pub open spec fn invalidated(self) -> BotView {
        let stopped = self.search_cancelled();
        BotView { position_version: stopped.position_version.wrapping_add(1), ..stopped }
    }

    /// The position is no longer trusted.
    pub open spec fn position_dropped(self) -> BotView {
        BotView { position: None, position_key: None, ..self.invalidated() }
    }

    /// A validated position is installed. A re-send of the position already
    /// held changes nothing.
    pub open spec fn installed(self, state: StateView) -> BotView {
        if self.position_key == Some(key_of(state)) {
            self
        } else {
            let moved = self.invalidated();
            BotView {
                clock: if state.game_over || state.current_player != self.seat {
                    ClockView { turn_ended: true, ..moved.clock }
                } else {
                    moved.clock
                },
                position_key: Some(key_of(state)),
                position: Some(state),
                ..moved
            }
        }
    }

    /// Back in the idle pool.
    pub open spec fn idled(self) -> BotView {
        BotView {
            phase: Phase::Idle,
            current_game: None,
            current_lobby: None,
            position: None,
            position_key: None,
            seat: 0,
            pending_game_since: None,
            ..self.invalidated().ponder_stopped()
        }
    }

    /// It is our turn: we are playing, the game goes on, we are the mover, and
    /// we have actions left.
    pub open spec fn may_act(self) -> bool {
        &&& self.phase == Phase::InGame
        &&& self.current_game is Some
        &&& self.position matches Some(position)
        &&& !position.game_over
        &&& position.current_player == self.seat
        &&& position.moves_left > 0
    }

    /// Somebody else is the mover of a game that goes on.
    pub open spec fn may_ponder(self) -> bool {
        &&& self.phase == Phase::InGame
        &&& self.current_game is Some
        &&& self.position matches Some(position)
        &&& !position.game_over
        &&& position.current_player != self.seat
    }

    /// `guard`'s action may still be sent: nothing it was chosen from has
    /// changed, it is our turn, and it is legal in the live position.
    pub open spec fn allows(self, guard: GuardView) -> bool {
        &&& self.phase == Phase::InGame
        &&& self.current_game == Some(guard.game_id)
        &&& self.position_version == guard.version
        &&& self.seat == guard.seat
        &&& self.position matches Some(position)
        &&& position.moves_left == guard.moves_left
        &&& self.may_act()
        &&& legal(position, guard.action)
    }

    /// The search [`BotView::searching`] starts.
    pub open spec fn dispatch(self) -> DispatchView {
        let position = self.position->0;
        DispatchView {
            position,
            game_id: self.current_game->0,
            version: self.position_version,
            seat: self.seat,
            cancel: self.next_token,
            target: self.clock.target(position.moves_left),
            ceiling: self.clock.ceiling(position.moves_left),
        }
    }

    /// A search is started if it is our turn and none was started for this
    /// version.
    pub open spec fn searching(self, driver: Driver) -> BotView {
        if !self.may_act() || self.searched_version == self.position_version {
            self
        } else {
            let stopped = self.search_cancelled();
            BotView {
                cancel: Some(self.next_token),
                next_token: (self.next_token + 1) as u64,
                searched_version: self.position_version,
                clock: self.clock.allocated((self.position->0).moves_left),
                ..stopped
            }.with_effect(EffectView::Search { dispatch: self.dispatch(), driver })
        }
    }

    /// A pondering session for the current game: the one there is, or a new one
    /// in place of one for another game.
    pub open spec fn with_session(self) -> BotView {
        let game_id = self.current_game->0;
        if self.ponder matches Some(slot) && slot.game_id == game_id {
            self
        } else {
            let closed = self.ponder_stopped();
            BotView {
                ponder: Some(
                    SlotView {
                        game_id,
                        session: self.next_token,
                        cancel: (self.next_token + 1) as u64,
                    },
                ),
                next_token: (self.next_token + 2) as u64,
                ..closed
            }.with_effect(EffectView::OpenSession { session: self.next_token })
        }
    }

    /// The session is asked to think about a position somebody else is the
    /// mover of, once per version.
    pub open spec fn pondering(self, config: BotConfig, can_ponder: bool, now: int) -> BotView {
        if !config.ponder || !can_ponder || !self.may_ponder() || self.pondered_version
            == self.position_version {
            self
        } else {
            let ready = self.with_session();
            let slot = ready.ponder->0;
            let token = ready.next_token;
            BotView {
                pondered_version: ready.position_version,
                ponder: Some(SlotView { cancel: token, ..slot }),
                next_token: (token + 1) as u64,
                counters: Counters {
                    ponder_steps: (ready.counters.ponder_steps + 1) as u64,
                    ..ready.counters
                },
                ..ready
            }.with_effect(
                EffectView::Think {
                    session: slot.session,
                    state: ready.position->0,
                    budget: BudgetView {
                        deadline: now + config.ponder_budget@,
                        ceiling: now + config.ponder_budget@,
                        policy: StopPolicy { early_stop: false, extension: false, unstable_gap: 0 },
                        cancel: token,
                    },
                },
            )
        }
    }

    /// The server is asked for the authoritative position, unless it was asked
    /// within the cooldown.
    pub open spec fn resyncing(self, game_id: Seq<char>, now: int) -> BotView {
        if self.last_resync matches Some(last) && (now < last || now - last < resync_cooldown()) {
            self
        } else {
            BotView { last_resync: Some(now), ..self }.sending(OutgoingView::Resync { game_id })
        }
    }

    /// The snapshot of `message` is trusted afterwards.
    pub open spec fn absorbs(self, message: Inbound) -> bool {
        concerns(self, message) && message.snapshot->0 is Decoded
    }

    /// The snapshot of `message` is validated and installed; one that does not
    /// decode costs the position and asks for a clean one.
    pub open spec fn absorbing(self, message: Inbound, now: int) -> BotView {
        if !concerns(self, message) {
            self
        } else {
            match message.snapshot->0 {
                Reading::Decoded(state) => self.installed(state@),
                Reading::Rejected => BotView {
                    counters: Counters {
                        rejected_snapshots: (self.counters.rejected_snapshots + 1) as u64,
                        ..self.counters
                    },
                    ..self
                }.position_dropped().resyncing(self.current_game->0, now),
            }
        }
    }

    /// A challenge that was accepted and never started stops keeping us busy.
    pub open spec fn healed(self, config: BotConfig, now: int) -> BotView {
        if self.phase == Phase::InGame && self.current_game is None && (
        self.pending_game_since matches Some(since) && overdue(
            since,
            now,
            config.pending_game_grace@,
        )) {
            self.idled()
        } else {
            self
        }
    }

    pub open spec fn welcomed(self, message: Inbound) -> BotView {
        BotView {
            user_id: message.user_id@,
            username: message.username@,
            phase: Phase::Idle,
            ..self
        }
    }

    pub open spec fn wanted(self, message: Inbound) -> BotView {
        if self.phase != Phase::Idle {
            self
        } else {
            self.sending(
                OutgoingView::JoinLobby {
                    lobby_id: message.lobby_id@,
                    request_id: message.request_id@,
                },
            )
        }
    }

    pub open spec fn in_lobby(self, message: Inbound) -> BotView {
        BotView {
            phase: Phase::InLobby,
            current_lobby: Some(
                match message.lobby {
                    Some(lobby) => lobby.lobby_id@,
                    None => message.lobby_id@,
                },
            ),
            ..self
        }
    }

    /// A lobby closing never ends a game in progress.
    pub open spec fn lobby_closed(self) -> BotView {
        let left = BotView { current_lobby: None, ..self };
        if self.phase != Phase::InGame {
            left.idled()
        } else {
            left
        }
    }

    /// A challenge is accepted only from the idle pool, and accepting it leaves
    /// the pool at once.
    pub open spec fn challenged(self, message: Inbound, now: int) -> BotView {
        if self.phase != Phase::Idle {
            self.sending(OutgoingView::DeclineChallenge { challenge_id: message.challenge_id@ })
        } else {
            BotView { phase: Phase::InGame, pending_game_since: Some(now), ..self }.sending(
                OutgoingView::AcceptChallenge { challenge_id: message.challenge_id@ },
            )
        }
    }

    /// The client as an accepted game finds it, before its first position.
    pub open spec fn seated(self, config: BotConfig, message: Inbound) -> BotView {
        BotView {
            phase: Phase::InGame,
            current_game: Some(message.game_id@),
            seat: message.your_player as u8,
            searched_version: 0,
            pondered_version: 0,
            pending_game_since: None,
            clock: crate::proto::config::fresh_clock(config),
            position_key: None,
            ..self.search_cancelled().ponder_stopped()
        }
    }

    /// A game start: the position is installed, the engine is told, and the
    /// opening is searched or pondered. A start that is not accepted changes
    /// nothing but a counter.
    pub open spec fn game_started(
        self,
        config: BotConfig,
        can_ponder: bool,
        message: Inbound,
        now: int,
    ) -> BotView {
        if start_accepted(message) {
            let state = (message.snapshot->0)->Decoded_0;
            self.seated(config, message).installed(state@).with_effect(
                EffectView::GameStarted,
            ).searching(Driver::GameStart).pondering(config, can_ponder, now)
        } else if message.snapshot matches Some(Reading::Rejected) {
            BotView {
                counters: Counters {
                    rejected_snapshots: (self.counters.rejected_snapshots + 1) as u64,
                    ..self.counters
                },
                ..self
            }
        } else {
            self
        }
    }

    /// A game end for another game than ours changes nothing.
    pub open spec fn game_ended(self, message: Inbound) -> BotView {
        if message.game_id@.len() > 0 && self.current_game != Some(message.game_id@) {
            self
        } else {
            BotView {
                counters: Counters {
                    games_finished: (self.counters.games_finished + 1) as u64,
                    ..self.counters
                },
                ..self
            }.idled()
        }
    }

    /// A server error: counted, remembered, and, where it is about our game,
    /// the position it may be about is dropped.
    pub open spec fn errored(self, message: Inbound, now: int) -> BotView {
        let forfeited = "Defeated by illegal move"@.is_prefix_of(message.username@);
        let counted = BotView {
            counters: Counters {
                errors: (self.counters.errors + 1) as u64,
                illegal_moves: if forfeited {
                    (self.counters.illegal_moves + 1) as u64
                } else {
                    self.counters.illegal_moves
                },
                ..self.counters
            },
            last_error: Some(message.username@),
            ..self
        };
        if message.game_id@.len() > 0 && self.current_game == Some(message.game_id@) {
            counted.position_dropped().resyncing(message.game_id@, now)
        } else {
            counted
        }
    }

    /// A snapshot that may start a search.
    pub open spec fn driven(
        self,
        config: BotConfig,
        can_ponder: bool,
        message: Inbound,
        now: int,
        driver: Driver,
    ) -> BotView {
        let absorbed = self.absorbing(message, now);
        if self.absorbs(message) {
            absorbed.searching(driver).pondering(config, can_ponder, now)
        } else {
            absorbed
        }
    }

    /// A snapshot that never starts a search.
    pub open spec fn refreshed(
        self,
        config: BotConfig,
        can_ponder: bool,
        message: Inbound,
        now: int,
    ) -> BotView {
        let absorbed = self.absorbing(message, now);
        if self.absorbs(message) {
            absorbed.pondering(config, can_ponder, now)
        } else {
            absorbed
        }
    }

    /// One message from the server.
    pub open spec fn handled(
        self,
        config: BotConfig,
        can_ponder: bool,
        message: Inbound,
        now: int,
    ) -> BotView {
        let ready = self.healed(config, now);
        let kind = message.kind@;
        if kind == "welcome"@ {
            ready.welcomed(message)
        } else if kind == "users_update"@ {
            BotView { peers: message.users@.map_values(|user: UserInfo| user@), ..ready }
        } else if kind == "bot_wanted"@ {
            ready.wanted(message)
        } else if kind == "lobby_joined"@ {
            ready.in_lobby(message)
        } else if kind == "lobby_closed"@ {
            ready.lobby_closed()
        } else if kind == "challenge_received"@ {
            ready.challenged(message, now)
        } else if kind == "game_start"@ || kind == "multiplayer_game_start"@ {
            ready.game_started(config, can_ponder, message, now)
        } else if kind == "game_state"@ {
            ready.driven(config, can_ponder, message, now, Driver::GameState)
        } else if kind == "turn_change"@ {
            ready.driven(config, can_ponder, message, now, Driver::TurnChange)
        } else if kind == "move_made"@ || kind == "player_eliminated"@ || kind
            == "neutrals_placed"@ || kind == "action_ack"@ {
            ready.refreshed(config, can_ponder, message, now)
        } else if kind == "game_end"@ {
            ready.game_ended(message)
        } else if kind == "error"@ {
            ready.errored(message, now)
        } else {
            ready
        }
    }

    /// The socket died.
    pub open spec fn disconnected(self) -> BotView {
        BotView {
            phase: Phase::Disconnected,
            position: None,
            position_key: None,
            current_game: None,
            current_lobby: None,
            user_id: Seq::empty(),
            peers: Seq::empty(),
            pending_game_since: None,
            ..self.invalidated().ponder_stopped()
        }
    }
}

// ------------------------------------------------------------ a search's end

/// What came back from the engine for one action.
pub enum AnswerView {
    /// A searched action.
    Chose { action: Action },
    /// The engine declined.
    Nothing,
    /// The engine blew through its ceiling plus grace.
    Overran,
    /// The search itself failed.
    Failed,
}

/// The action a search ends with, and whether it is the fallback. A search
/// that overran, or that declined without having been superseded, is answered
/// with the fallback.
pub open spec fn answer_action(
    answer: AnswerView,
    fallback: Option<Action>,
    cancelled: bool,
) -> Option<(Action, bool)> {
    match answer {
        AnswerView::Chose { action } => Some((action, false)),
        AnswerView::Overran => match fallback {
            Some(action) => Some((action, true)),
            None => None,
        },
        AnswerView::Nothing => if cancelled {
            None
        } else {
            match fallback {
                Some(action) => Some((action, true)),
                None => None,
            }
        },
        AnswerView::Failed => None,
    }
}

/// What an action of `dispatch` must still be true about.
pub open spec fn guard_of(dispatch: DispatchView, action: Action) -> GuardView {
    GuardView {
        game_id: dispatch.game_id,
        version: dispatch.version,
        seat: dispatch.seat,
        moves_left: dispatch.position.moves_left,
        action,
    }
}

impl BotView {
    /// A search ended after `spent`: its time is charged, a runaway one is
    /// cancelled, and a fallback is counted.
    pub open spec fn answered(
        self,
        dispatch: DispatchView,
        answer: AnswerView,
        fallback: Option<Action>,
        cancelled: bool,
        spent: int,
    ) -> BotView {
        let charged = BotView { clock: self.clock.charged(spent), ..self };
        let stopped = if answer is Overran {
            charged.with_effect(EffectView::Cancel { token: dispatch.cancel })
        } else {
            charged
        };
        match answer_action(answer, fallback, cancelled) {
            Some((_, true)) => BotView {
                counters: Counters {
                    fallback_actions: (stopped.counters.fallback_actions + 1) as u64,
                    ..stopped.counters
                },
                ..stopped
            },
            _ => stopped,
        }
    }

    /// The action of a search that ended is revalidated: it counts as sent, or
    /// as dropped.
    pub open spec fn revalidated(self, guard: GuardView) -> BotView {
        BotView {
            counters: if self.allows(guard) {
                Counters { actions_sent: (self.counters.actions_sent + 1) as u64, ..self.counters }
            } else {
                Counters {
                    stale_results_dropped: (self.counters.stale_results_dropped + 1) as u64,
                    ..self.counters
                }
            },
            ..self
        }
    }

    /// A guarded message at the moment it is written: one that no longer holds
    /// is counted and not written.
    pub open spec fn written(self, guard: Option<GuardView>) -> BotView {
        match guard {
            Some(guard) if !self.allows(guard) => BotView {
                counters: Counters {
                    stale_results_dropped: (self.counters.stale_results_dropped + 1) as u64,
                    ..self.counters
                },
                ..self
            },
            _ => self,
        }
    }

    /// A search of `dispatch` may be handed to the live pondering session: it
    /// thinks about the same game, it is our turn, and the position is still
    /// the one that was dispatched.
    pub open spec fn offers(self, dispatch: DispatchView) -> Option<u64> {
        if self.ponder matches Some(slot) && slot.game_id == dispatch.game_id && self.may_act()
            && self.position_version == dispatch.version {
            Some((self.ponder->0).session)
        } else {
            None
        }
    }

    /// The pondering session turned out to be gone.
    pub open spec fn ponder_lost(self) -> BotView {
        match self.ponder {
            Some(slot) => BotView { ponder: None, ..self }.with_effect(
                EffectView::CloseSession { session: slot.session },
            ),
            None => self,
        }
    }

    /// The session took the search, under the search's own token, or turned out
    /// to be gone.
    pub open spec fn handed(self, token: u64, delivered: bool) -> BotView {
        match self.ponder {
            Some(slot) if delivered => BotView {
                ponder: Some(SlotView { cancel: token, ..slot }),
                counters: Counters {
                    ponder_answers: (self.counters.ponder_answers + 1) as u64,
                    ..self.counters
                },
                ..self
            },
            _ => self.ponder_lost(),
        }
    }

    /// Peers that could be challenged: idle, and not us.
    pub open spec fn challengeable(self) -> Seq<UserView> {
        self.peers.filter(|peer: UserView| peer.idle() && peer.user_id != self.user_id)
    }

    /// The challenger's timer fired, and `draw` came out of the generator.
    pub open spec fn ticked(self, config: BotConfig, now: int, draw: u64) -> BotView {
        let ready = self.healed(config, now);
        let candidates = ready.challengeable();
        if ready.phase != Phase::Idle || ready.user_id.len() == 0 || candidates.len() == 0 {
            ready
        } else {
            let target = candidates[draw as int % candidates.len() as int];
            BotView {
                counters: Counters {
                    challenges_sent: (ready.counters.challenges_sent + 1) as u64,
                    ..ready.counters
                },
                ..ready
            }.sending(
                OutgoingView::Challenge {
                    target_user_id: target.user_id,
                    rows: config.challenge_rows,
                    cols: config.challenge_cols,
                },
            )
        }
    }

    /// The timer draws from the generator only when it may challenge at all.
    pub open spec fn draws(self, config: BotConfig, now: int) -> bool {
        let ready = self.healed(config, now);
        ready.phase == Phase::Idle && ready.user_id.len() > 0 && ready.challengeable().len() > 0
    }
}

// ----------------------------------------------------------------- wellness

proof fn cancelling_keeps(v: BotView)
    ensures
        v.search_cancelled().position == v.position,
        v.search_cancelled().position_key == v.position_key,
        v.search_cancelled().counters == v.counters,
        v.search_cancelled().next_token == v.next_token,
        v.ponder_stopped().position == v.position,
        v.ponder_stopped().position_key == v.position_key,
        v.ponder_stopped().counters == v.counters,
        v.ponder_stopped().next_token == v.next_token,
{
}

pub proof fn installing_keeps(v: BotView, state: StateView)
    requires
        v.wf() || v.position_key is None,
        state.wf(),
    ensures
        v.installed(state).wf(),
        v.installed(state).counters == v.counters,
        v.installed(state).next_token == v.next_token,
{
    cancelling_keeps(v);
}

pub proof fn searching_keeps(v: BotView, driver: Driver)
    requires
        v.wf(),
    ensures
        v.searching(driver).wf(),
        v.searching(driver).counters == v.counters,
        v.searching(driver).next_token <= v.next_token + 1 || v.next_token == u64::MAX,
{
    cancelling_keeps(v);
}

pub proof fn pondering_keeps(v: BotView, config: BotConfig, can_ponder: bool, now: int)
    requires
        v.wf(),
    ensures
        v.pondering(config, can_ponder, now).wf(),
{
    cancelling_keeps(v);
}

pub proof fn healing_keeps(v: BotView, config: BotConfig, now: int)
    requires
        v.wf(),
    ensures
        v.healed(config, now).wf(),
        v.healed(config, now).counters == v.counters,
        v.healed(config, now).next_token == v.next_token,
{
    let moved = v.invalidated();
    cancelling_keeps(v);
    cancelling_keeps(moved);
}

pub proof fn absorbing_keeps(v: BotView, message: Inbound, now: int)
    requires
        v.wf(),
        message.snapshot matches Some(Reading::Decoded(state)) ==> state@.wf(),
    ensures
        v.absorbing(message, now).wf(),
        v.absorbs(message) ==> v.absorbing(message, now).counters == v.counters,
        v.absorbing(message, now).next_token == v.next_token,
{
    if concerns(v, message) {
        match message.snapshot->0 {
            Reading::Decoded(state) => {
                installing_keeps(v, state@);
            },
            Reading::Rejected => {
                let counted = BotView {
                    counters: Counters {
                        rejected_snapshots: (v.counters.rejected_snapshots + 1) as u64,
                        ..v.counters
                    },
                    ..v
                };
                cancelling_keeps(counted);
            },
        }
    }
}

/// Whatever arrives, the position stays what its key says.
pub proof fn handling_keeps(
    v: BotView,
    config: BotConfig,
    can_ponder: bool,
    message: Inbound,
    now: int,
)
    requires
        v.wf(),
        message.snapshot matches Some(Reading::Decoded(state)) ==> state@.wf(),
    ensures
        v.handled(config, can_ponder, message, now).wf(),
{
    let ready = v.healed(config, now);
    healing_keeps(v, config, now);
    absorbing_keeps(ready, message, now);
    let absorbed = ready.absorbing(message, now);
    searching_keeps(absorbed, Driver::GameState);
    searching_keeps(absorbed, Driver::TurnChange);
    pondering_keeps(absorbed, config, can_ponder, now);
    pondering_keeps(absorbed.searching(Driver::GameState), config, can_ponder, now);
    pondering_keeps(absorbed.searching(Driver::TurnChange), config, can_ponder, now);
    starting_keeps(ready, config, can_ponder, message, now);
    ending_keeps(ready, message, now);
}

proof fn starting_keeps(
    v: BotView,
    config: BotConfig,
    can_ponder: bool,
    message: Inbound,
    now: int,
)
    requires
        v.wf(),
        message.snapshot matches Some(Reading::Decoded(state)) ==> state@.wf(),
    ensures
        v.game_started(config, can_ponder, message, now).wf(),
{
    if start_accepted(message) {
        let state = (message.snapshot->0)->Decoded_0;
        let seated = v.seated(config, message);
        installing_keeps(seated, state@);
        let opened = seated.installed(state@).with_effect(EffectView::GameStarted);
        searching_keeps(opened, Driver::GameStart);
        pondering_keeps(opened.searching(Driver::GameStart), config, can_ponder, now);
    }
}

proof fn ending_keeps(v: BotView, message: Inbound, now: int)
    requires
        v.wf(),
    ensures
        v.game_ended(message).wf(),
        v.errored(message, now).wf(),
        v.lobby_closed().wf(),
        v.challenged(message, now).wf(),
        v.disconnected().wf(),
{
}

// -------------------------------------------------------------------- laws

/// `after` has everything to do that `before` had, in the same order.
pub open spec fn extends(before: BotView, after: BotView) -> bool {
    &&& before.effects.len() <= after.effects.len()
    &&& forall|k: int|
        0 <= k < before.effects.len() ==> #[trigger] after.effects[k] == before.effects[k]
}

/// `after` adds nothing to do but what `allowed` admits.
pub open spec fn adds_only(
    before: BotView,
    after: BotView,
    allowed: spec_fn(EffectView) -> bool,
) -> bool {
    &&& extends(before, after)
    &&& forall|k: int|
        before.effects.len() <= k < after.effects.len() ==> allowed(#[trigger] after.effects[k])
}

proof fn adding_chains(
    a: BotView,
    b: BotView,
    c: BotView,
    allowed: spec_fn(EffectView) -> bool,
)
    requires
        adds_only(a, b, allowed),
        adds_only(b, c, allowed),
    ensures
        adds_only(a, c, allowed),
{
    assert forall|k: int| 0 <= k < a.effects.len() implies #[trigger] c.effects[k]
        == a.effects[k] by {
        assert(b.effects[k] == a.effects[k]);
    }
    assert forall|k: int| a.effects.len() <= k < c.effects.len() implies allowed(
        #[trigger] c.effects[k],
    ) by {
        if k < b.effects.len() {
            assert(c.effects[k] == b.effects[k]);
        }
    }
}

/// An effect that stops something.
pub open spec fn stops(effect: EffectView) -> bool {
    effect is Cancel || effect is CloseSession
}

/// The effect neither starts a search nor sends an action.
pub open spec fn quiet(effect: EffectView) -> bool {
    &&& effect !is Search
    &&& effect matches EffectView::Send { message, guard } ==> message !is Move && message
        !is Neutrals
}

/// What a pondering session may be told: to stop, to start, and to think.
pub open spec fn only_ponders(effect: EffectView) -> bool {
    stops(effect) || effect is OpenSession || effect is Think
}

proof fn stopping_only_stops(v: BotView, allowed: spec_fn(EffectView) -> bool)
    requires
        forall|effect: EffectView| #[trigger] stops(effect) ==> allowed(effect),
    ensures
        adds_only(v, v.search_cancelled(), allowed),
        adds_only(v, v.ponder_stopped(), allowed),
        adds_only(v, v.invalidated(), allowed),
        adds_only(v, v.position_dropped(), allowed),
        adds_only(v, v.idled(), allowed),
        adds_only(v, v.disconnected(), allowed),
        forall|state: StateView| adds_only(v, #[trigger] v.installed(state), allowed),
{
    let cancelled = v.search_cancelled();
    assert forall|k: int| v.effects.len() <= k < cancelled.effects.len() implies allowed(
        #[trigger] cancelled.effects[k],
    ) by {
        assert(stops(cancelled.effects[k]));
    }
    let stopped = v.ponder_stopped();
    assert forall|k: int| v.effects.len() <= k < stopped.effects.len() implies allowed(
        #[trigger] stopped.effects[k],
    ) by {
        assert(stops(stopped.effects[k]));
    }
    let moved = v.invalidated();
    assert(adds_only(v, moved, allowed));
    let both = moved.ponder_stopped();
    assert forall|k: int| moved.effects.len() <= k < both.effects.len() implies allowed(
        #[trigger] both.effects[k],
    ) by {
        assert(stops(both.effects[k]));
    }
    adding_chains(v, moved, both, allowed);
}

proof fn pondering_only_ponders(
    v: BotView,
    config: BotConfig,
    can_ponder: bool,
    now: int,
    allowed: spec_fn(EffectView) -> bool,
)
    requires
        forall|effect: EffectView| #[trigger] only_ponders(effect) ==> allowed(effect),
    ensures
        adds_only(v, v.pondering(config, can_ponder, now), allowed),
{
    let w = v.pondering(config, can_ponder, now);
    assert forall|k: int| v.effects.len() <= k < w.effects.len() implies allowed(
        #[trigger] w.effects[k],
    ) by {
        assert(only_ponders(w.effects[k]));
    }
}

/// The kinds of message that may start a search.
pub open spec fn drives(kind: Seq<char>) -> bool {
    kind == "game_start"@ || kind == "multiplayer_game_start"@ || kind == "game_state"@ || kind
        == "turn_change"@
}

/// Only a whitelisted message starts a search. Our own acknowledgements, an
/// opponent's move, an elimination, an error: none of them does, and none of
/// them has an action sent, whatever the snapshot it carries shows.
pub proof fn only_a_driver_starts_a_search(
    v: BotView,
    config: BotConfig,
    can_ponder: bool,
    message: Inbound,
    now: int,
)
    requires
        !drives(message.kind@),
    ensures
        adds_only(
            v,
            v.handled(config, can_ponder, message, now),
            |effect: EffectView| quiet(effect),
        ),
        v.handled(config, can_ponder, message, now).searched_version == v.searched_version,
{
    let allowed = |effect: EffectView| quiet(effect);
    let ready = v.healed(config, now);
    assert forall|effect: EffectView| #[trigger] stops(effect) implies allowed(effect) by {}
    assert forall|effect: EffectView| #[trigger] only_ponders(effect) implies allowed(effect) by {}
    stopping_only_stops(v, allowed);
    assert(adds_only(v, ready, allowed));
    stopping_only_stops(ready, allowed);
    let counted = BotView {
        counters: Counters {
            rejected_snapshots: (ready.counters.rejected_snapshots + 1) as u64,
            ..ready.counters
        },
        ..ready
    };
    stopping_only_stops(counted, allowed);
    let absorbed = ready.absorbing(message, now);
    assert(adds_only(ready, absorbed, allowed));
    adding_chains(v, ready, absorbed, allowed);
    pondering_only_ponders(absorbed, config, can_ponder, now, allowed);
    adding_chains(v, absorbed, absorbed.pondering(config, can_ponder, now), allowed);
    ending_is_quiet(ready, message, now);
    adding_chains(v, ready, ready.game_ended(message), allowed);
    adding_chains(v, ready, ready.errored(message, now), allowed);
    adding_chains(v, ready, ready.lobby_closed(), allowed);
    adding_chains(v, ready, ready.challenged(message, now), allowed);
    adding_chains(v, ready, ready.wanted(message), allowed);
}

proof fn ending_is_quiet(v: BotView, message: Inbound, now: int)
    ensures
        adds_only(v, v.game_ended(message), |effect: EffectView| quiet(effect)),
        adds_only(v, v.errored(message, now), |effect: EffectView| quiet(effect)),
        adds_only(v, v.lobby_closed(), |effect: EffectView| quiet(effect)),
        adds_only(v, v.challenged(message, now), |effect: EffectView| quiet(effect)),
        adds_only(v, v.wanted(message), |effect: EffectView| quiet(effect)),
{
    let allowed = |effect: EffectView| quiet(effect);
    assert forall|effect: EffectView| #[trigger] stops(effect) implies allowed(effect) by {}
    let ended = BotView {
        counters: Counters {
            games_finished: (v.counters.games_finished + 1) as u64,
            ..v.counters
        },
        ..v
    };
    stopping_only_stops(ended, allowed);
    let left = BotView { current_lobby: None, ..v };
    stopping_only_stops(left, allowed);
    let forfeited = "Defeated by illegal move"@.is_prefix_of(message.username@);
    let counted = BotView {
        counters: Counters {
            errors: (v.counters.errors + 1) as u64,
            illegal_moves: if forfeited {
                (v.counters.illegal_moves + 1) as u64
            } else {
                v.counters.illegal_moves
            },
            ..v.counters
        },
        last_error: Some(message.username@),
        ..v
    };
    stopping_only_stops(counted, allowed);
}

/// A search starts only on our turn, on the live position, and under a token of
/// its own.
pub proof fn a_search_is_for_our_own_turn(v: BotView, driver: Driver)
    requires
        v.searching(driver) != v,
    ensures
        v.may_act(),
        v.searching(driver).effects.last() == (EffectView::Search {
            dispatch: v.dispatch(),
            driver,
        }),
        v.dispatch().position == v.position->0,
        v.dispatch().position.current_player == v.seat,
        v.dispatch().version == v.position_version,
        v.searching(driver).cancel == Some(v.dispatch().cancel),
{
}

/// One snapshot, one search: whatever drives it again, a version that has been
/// searched is not searched again.
pub proof fn a_version_is_searched_once(v: BotView, first: Driver, again: Driver)
    ensures
        v.searching(first).searching(again) == v.searching(first),
{
    let w = v.searching(first);
    if v.may_act() && v.searched_version != v.position_version {
        assert(w.searched_version == w.position_version);
    }
}

/// One snapshot, one step: a version that has been pondered is not pondered
/// again.
pub proof fn a_version_is_pondered_once(
    v: BotView,
    config: BotConfig,
    can_ponder: bool,
    first: int,
    again: int,
)
    ensures
        v.pondering(config, can_ponder, first).pondering(config, can_ponder, again)
            == v.pondering(config, can_ponder, first),
{
}

/// A new snapshot supersedes everything started for the one before it: the
/// version moves on, the search in flight and the session's step are cancelled,
/// and an action that was still good no longer is.
pub proof fn a_new_snapshot_supersedes_what_was_started(v: BotView, state: StateView, guard: GuardView)
    requires
        v.position_key != Some(key_of(state)),
    ensures
        ({
            let w = v.installed(state);
            &&& w.position == Some(state)
            &&& w.position_version == v.position_version.wrapping_add(1)
            &&& w.position_version != v.position_version
            &&& w.cancel is None
            &&& v.cancel matches Some(token) ==> w.effects.contains(EffectView::Cancel { token })
            &&& v.ponder matches Some(slot) ==> w.effects.contains(
                EffectView::Cancel { token: slot.cancel },
            )
            &&& v.allows(guard) ==> !w.allows(guard)
        }),
{
    let w = v.installed(state);
    if let Some(token) = v.cancel {
        let k = v.effects.len() as int;
        assert(w.effects[k] == (EffectView::Cancel { token }));
    }
    if let Some(slot) = v.ponder {
        let k = w.effects.len() - 1;
        assert(w.effects[k] == (EffectView::Cancel { token: slot.cancel }));
    }
}

/// A re-send of the position already held is not an event.
pub proof fn a_resend_changes_nothing(v: BotView)
    requires
        v.wf(),
        v.position is Some,
    ensures
        v.installed(v.position->0) == v,
{
}

/// We never think on our own turn's behalf and act in one breath: a position is
/// ours to act on, or somebody else's to think about, or neither.
pub proof fn acting_and_pondering_exclude_each_other(v: BotView)
    ensures
        !(v.may_act() && v.may_ponder()),
{
}

/// Pondering never sends anything and never starts a search, and what it thinks
/// about is never a position we are the mover of.
pub proof fn pondering_never_acts(v: BotView, config: BotConfig, can_ponder: bool, now: int)
    ensures
        adds_only(
            v,
            v.pondering(config, can_ponder, now),
            |effect: EffectView| only_ponders(effect),
        ),
        v.pondering(config, can_ponder, now) != v ==> {
            &&& v.may_ponder()
            &&& v.pondering(config, can_ponder, now).effects.last() matches EffectView::Think {
                session,
                state,
                budget,
            }
            &&& state == v.position->0
            &&& state.current_player != v.seat
            &&& budget.cancel == (v.pondering(config, can_ponder, now).ponder->0).cancel
        },
{
    pondering_only_ponders(v, config, can_ponder, now, |effect: EffectView| only_ponders(effect));
}

/// Pondering is off unless it is asked for and the engine can do it.
pub proof fn pondering_is_off_by_default(v: BotView, config: BotConfig, can_ponder: bool, now: int)
    requires
        !config.ponder || !can_ponder,
    ensures
        v.pondering(config, can_ponder, now) == v,
{
}

/// A session answers only on our turn, in the game it thinks about, for the
/// very position that was dispatched.
pub proof fn a_session_answers_only_on_our_turn(v: BotView, dispatch: DispatchView)
    requires
        v.offers(dispatch) is Some,
    ensures
        v.may_act(),
        v.position_version == dispatch.version,
        (v.ponder->0).game_id == dispatch.game_id,
{
}

/// A snapshot that does not decode costs the position: nothing may be played or
/// thought about, no action in flight is good, and a clean snapshot is asked
/// for unless one was asked for a moment ago.
pub proof fn a_rejected_snapshot_costs_the_position(
    v: BotView,
    message: Inbound,
    now: int,
    guard: GuardView,
)
    requires
        concerns(v, message),
        message.snapshot->0 is Rejected,
    ensures
        ({
            let w = v.absorbing(message, now);
            &&& w.position is None
            &&& !w.may_act()
            &&& !w.may_ponder()
            &&& !w.allows(guard)
            &&& !v.absorbs(message)
            &&& !(v.last_resync matches Some(last) && (now < last || now - last
                < resync_cooldown())) ==> w.effects.last() == (EffectView::Send {
                message: OutgoingView::Resync { game_id: v.current_game->0 },
                guard: None,
            })
        }),
{
}

/// An action is sent or written only while it is legal, in the live position,
/// on our turn, and at the version it was searched at.
pub proof fn an_allowed_action_is_legal_and_ours(v: BotView, guard: GuardView)
    requires
        v.allows(guard),
    ensures
        v.may_act(),
        legal(v.position->0, guard.action),
        v.position_version == guard.version,
        v.current_game == Some(guard.game_id),
        (v.position->0).current_player == guard.seat,
{
}

/// A late `game_end` for a game we already left does not disturb the new one.
pub proof fn a_stale_game_end_is_ignored(v: BotView, message: Inbound)
    requires
        message.game_id@.len() > 0,
        v.current_game != Some(message.game_id@),
    ensures
        v.game_ended(message) == v,
{
}

/// A second challenge, arriving before the first one's game starts, is
/// declined.
pub proof fn a_second_challenge_is_declined(
    v: BotView,
    first: Inbound,
    second: Inbound,
    now: int,
    later: int,
)
    requires
        v.phase == Phase::Idle,
    ensures
        ({
            let w = v.challenged(first, now).challenged(second, later);
            &&& w.phase == Phase::InGame
            &&& w.effects == v.effects.push(
                EffectView::Send {
                    message: OutgoingView::AcceptChallenge { challenge_id: first.challenge_id@ },
                    guard: None,
                },
            ).push(
                EffectView::Send {
                    message: OutgoingView::DeclineChallenge { challenge_id: second.challenge_id@ },
                    guard: None,
                },
            )
        }),
{
}

/// After a disconnect nothing is good any more: there is no position to act on
/// or to think about, and no action in flight may be written.
pub proof fn a_disconnect_invalidates_everything(v: BotView, guard: GuardView)
    ensures
        ({
            let w = v.disconnected();
            &&& !w.may_act()
            &&& !w.may_ponder()
            &&& !w.allows(guard)
            &&& w.ponder is None
            &&& w.cancel is None
            &&& w.position_version == v.position_version.wrapping_add(1)
        }),
{
}

/// The engine is told of a game exactly when its start is accepted, once, and
/// before the opening is searched.
pub proof fn the_engine_hears_of_accepted_games_only(
    v: BotView,
    config: BotConfig,
    can_ponder: bool,
    message: Inbound,
    now: int,
)
    ensures
        ({
            let w = v.game_started(config, can_ponder, message, now);
            let state = (message.snapshot->0)->Decoded_0;
            let seated = v.seated(config, message).installed(state@);
            if start_accepted(message) {
                &&& adds_only(v, seated, |effect: EffectView| stops(effect))
                &&& extends(seated.with_effect(EffectView::GameStarted), w)
                &&& forall|k: int|
                    seated.effects.len() < k < w.effects.len() ==> (#[trigger] w.effects[k])
                        !is GameStarted
            } else {
                w.effects == v.effects
            }
        }),
{
    let allowed = |effect: EffectView| stops(effect);
    let quiet = |effect: EffectView| effect !is GameStarted;
    if start_accepted(message) {
        let state = (message.snapshot->0)->Decoded_0;
        let seated = v.seated(config, message);
        let stopped = v.search_cancelled();
        stopping_only_stops(v, allowed);
        stopping_only_stops(stopped, allowed);
        adding_chains(v, stopped, stopped.ponder_stopped(), allowed);
        assert(seated.effects == stopped.ponder_stopped().effects);
        stopping_only_stops(seated, allowed);
        let placed = seated.installed(state@);
        assert(adds_only(v, seated, allowed));
        adding_chains(v, seated, placed, allowed);
        let told = placed.with_effect(EffectView::GameStarted);
        let opened = told.searching(Driver::GameStart);
        assert(adds_only(told, opened, quiet)) by {
            let cancelled = told.search_cancelled();
            assert forall|effect: EffectView| #[trigger] stops(effect) implies quiet(effect) by {}
            stopping_only_stops(told, quiet);
        }
        assert forall|effect: EffectView| #[trigger] only_ponders(effect) implies quiet(
            effect,
        ) by {}
        pondering_only_ponders(opened, config, can_ponder, now, quiet);
        adding_chains(told, opened, opened.pondering(config, can_ponder, now), quiet);
    }
}

} // verus!
