//! The client state machine.
//!
//! The rules it keeps:
//!
//! * Only a whitelisted message starts a search, and only when it is our turn.
//! * Every accepted snapshot moves the position's version on and cancels what
//!   was started for the position before it.
//! * An action is revalidated against the live position before it is queued,
//!   and again before it is written.
//! * A snapshot that does not decode costs the position: nothing is played
//!   until a clean one arrives.

use crate::game::{Action, CellKind, Player, Pos, State};
use crate::proto::clock::{MoveAllocation, TurnAllocator};
use crate::proto::config::{BotConfig, Rng};
use crate::proto::engine::{SearchBudget, SearchOutcome};
use crate::proto::machine::{
    adds_only, answer_action, drives, guard_of, quiet, AnswerView, BotView, BudgetView, Counters, DispatchView, Driver, EffectView, GuardView, Phase, SlotView,
};
use crate::proto::message::{Diagnostics, Inbound, Outgoing, OutgoingView, Reading, UserInfo};
use crate::text::{same_text, starts_with};
use crate::time::{Duration, Instant, MAX_NANOS};
use vstd::prelude::*;

verus! {

/// Minimum gap between `resync` requests, in seconds.
pub const RESYNC_COOLDOWN_SECS: u64 = 1;

/// How long the program waits for a fallback before it takes the first legal
/// action, in milliseconds.
pub const FALLBACK_SELECTION_MILLIS: u64 = 500;

/// Everything an action must still be true about at send time.
#[derive(Debug)]
pub struct ActionGuard {
    /// Game the action belongs to.
    pub game_id: String,
    /// [`BotCore::position_version`] the search ran against.
    pub version: u64,
    /// Our seat.
    pub seat: Player,
    /// Actions remaining in the searched position.
    pub moves_left: u8,
    /// The action itself, re-checked for legality against the live position.
    pub action: Action,
}

impl View for ActionGuard {
    type V = GuardView;

    open spec fn view(&self) -> GuardView {
        GuardView {
            game_id: self.game_id@,
            version: self.version,
            seat: self.seat,
            moves_left: self.moves_left,
            action: self.action,
        }
    }
}

/// A search to run.
#[derive(Debug)]
pub struct Dispatch {
    pub position: State,
    pub game_id: String,
    pub version: u64,
    pub seat: Player,
    /// The token that stops it.
    pub cancel: u64,
    pub allocation: MoveAllocation,
}

impl View for Dispatch {
    type V = DispatchView;

    open spec fn view(&self) -> DispatchView {
        DispatchView {
            position: self.position@,
            game_id: self.game_id@,
            version: self.version,
            seat: self.seat,
            cancel: self.cancel,
            target: self.allocation.target@,
            ceiling: self.allocation.ceiling@,
        }
    }
}

/// A budget as mathematical values.
pub open spec fn budget_view(budget: SearchBudget) -> BudgetView {
    BudgetView {
        deadline: budget.deadline@,
        ceiling: budget.ceiling@,
        policy: budget.policy,
        cancel: budget.cancel,
    }
}

/// Something the program around the client has to do.
#[derive(Debug)]
pub enum Effect {
    /// Queue a message for the socket. A guard must still hold when it is
    /// written.
    Send { message: Outgoing, guard: Option<ActionGuard> },
    /// Cancel a token.
    Cancel { token: u64 },
    /// Run a search.
    Search { dispatch: Dispatch, driver: Driver },
    /// Tell the engine that a game starts.
    GameStarted,
    /// Open a pondering session.
    OpenSession { session: u64 },
    /// Close a pondering session.
    CloseSession { session: u64 },
    /// Have a pondering session think, and produce nothing.
    Think { session: u64, state: State, budget: SearchBudget },
}

/// A guard that may be missing.
pub open spec fn guard_view(guard: Option<ActionGuard>) -> Option<GuardView> {
    match guard {
        Some(guard) => Some(guard@),
        None => None,
    }
}

impl View for Effect {
    type V = EffectView;

    open spec fn view(&self) -> EffectView {
        match *self {
            Effect::Send { message, guard } => EffectView::Send {
                message: message@,
                guard: guard_view(guard),
            },
            Effect::Cancel { token } => EffectView::Cancel { token },
            Effect::Search { dispatch, driver } => EffectView::Search {
                dispatch: dispatch@,
                driver,
            },
            Effect::GameStarted => EffectView::GameStarted,
            Effect::OpenSession { session } => EffectView::OpenSession { session },
            Effect::CloseSession { session } => EffectView::CloseSession { session },
            Effect::Think { session, state, budget } => EffectView::Think {
                session,
                state: state@,
                budget: budget_view(budget),
            },
        }
    }
}

/// The client's end of a pondering session.
#[derive(Debug)]
pub struct PonderSlot {
    /// The game the session is thinking about. A session never outlives it.
    pub game_id: String,
    pub session: u64,
    /// The token of the step currently in flight.
    pub cancel: u64,
}

impl View for PonderSlot {
    type V = SlotView;

    open spec fn view(&self) -> SlotView {
        SlotView { game_id: self.game_id@, session: self.session, cancel: self.cancel }
    }
}

/// The client's state.
#[derive(Debug)]
pub struct BotCore {
    /// Lifecycle phase.
    pub phase: Phase,
    /// Server-assigned id, from `welcome`.
    pub user_id: String,
    /// Server-assigned display name.
    pub username: String,
    /// The game we are playing, if any.
    pub current_game: Option<String>,
    /// The lobby we are sitting in, if any.
    pub current_lobby: Option<String>,
    /// Our seat, 1-based. Meaningless outside [`Phase::InGame`].
    pub seat: Player,
    /// The authoritative position. `None` means "not trusted, do not act".
    pub position: Option<State>,
    /// Moved on by every accepted snapshot and every invalidation.
    pub position_version: u64,
    /// Last `users_update`. Read by the challenger timer only.
    pub peers: Vec<UserInfo>,
    /// Counters.
    pub counters: Counters,
    /// The most recent server `error` text, for diagnostics.
    pub last_error: Option<String>,
    /// Key and terminal status of the current position.
    pub position_key: Option<(u64, bool, Player)>,
    /// The version a search has already been started for.
    pub searched_version: u64,
    /// The version a ponder step has already been queued for.
    pub pondered_version: u64,
    /// The token of the search in flight.
    pub cancel: Option<u64>,
    /// When a challenge was accepted whose game has not started.
    pub pending_game_since: Option<Instant>,
    /// Last resync request, for the cooldown.
    pub last_resync: Option<Instant>,
    /// Splits the turn budget across the turn's actions.
    pub allocator: TurnAllocator,
    /// The live pondering session, if any.
    pub ponder: Option<PonderSlot>,
    /// The next token or session number.
    pub next_token: u64,
    /// What the program has yet to do.
    pub effects: Vec<Effect>,
}

/// A point in time that may be missing.
pub open spec fn instant_view(instant: Option<Instant>) -> Option<int> {
    match instant {
        Some(instant) => Some(instant@),
        None => None,
    }
}

impl View for BotCore {
    type V = BotView;

    open spec fn view(&self) -> BotView {
        BotView {
            phase: self.phase,
            user_id: self.user_id@,
            username: self.username@,
            current_game: crate::proto::machine::text_of(self.current_game),
            current_lobby: crate::proto::machine::text_of(self.current_lobby),
            seat: self.seat,
            position: crate::proto::machine::position_of(self.position),
            position_version: self.position_version,
            peers: self.peers@.map_values(|user: UserInfo| user@),
            counters: self.counters,
            last_error: crate::proto::machine::text_of(self.last_error),
            position_key: self.position_key,
            searched_version: self.searched_version,
            pondered_version: self.pondered_version,
            cancel: self.cancel,
            pending_game_since: instant_view(self.pending_game_since),
            last_resync: instant_view(self.last_resync),
            clock: self.allocator@,
            ponder: match self.ponder {
                Some(slot) => Some(slot@),
                None => None,
            },
            next_token: self.next_token,
            effects: self.effects@.map_values(|effect: Effect| effect@),
        }
    }
}

/// A client that has not connected.
pub open spec fn new_bot(config: BotConfig) -> BotView {
    BotView {
        phase: Phase::Disconnected,
        user_id: Seq::empty(),
        username: Seq::empty(),
        current_game: None,
        current_lobby: None,
        seat: 0,
        position: None,
        position_version: 0,
        peers: Seq::empty(),
        counters: crate::proto::machine::zero_counters(),
        last_error: None,
        position_key: None,
        searched_version: 0,
        pondered_version: 0,
        cancel: None,
        pending_game_since: None,
        last_resync: None,
        clock: crate::proto::config::fresh_clock(config),
        ponder: None,
        next_token: 0,
        effects: Seq::empty(),
    }
}

/// Re-checks an action against a live position.
fn action_is_legal(position: &State, action: Action) -> (r: bool)
    requires
        position@.wf(),
    ensures
        r == crate::proto::machine::legal(position@, action),
{
    match action {
        Action::Move { target } => position.legal_move(target),
        Action::PlaceNeutrals { cells } => {
            position.can_place_neutrals && cells[0] != cells[1] && is_own_normal(
                position,
                cells[0],
            ) && is_own_normal(position, cells[1])
        },
    }
}

fn is_own_normal(position: &State, pos: Pos) -> (r: bool)
    requires
        position@.wf(),
    ensures
        r == crate::proto::machine::own_normal(position@, pos),
{
    match position.at_checked(pos) {
        Some(cell) => cell.owner == position.current_player && cell.kind == CellKind::Normal,
        None => false,
    }
}

/// Whether a text that may be missing is `wanted`.
fn is_text(text: &Option<String>, wanted: &String) -> (r: bool)
    ensures
        r == (crate::proto::machine::text_of(*text) == Some(wanted@)),
{
    match text {
        Some(text) => same_text(text.as_str(), wanted.as_str()),
        None => false,
    }
}

impl BotCore {
    /// Appends something to do.
    fn push(&mut self, effect: Effect)
        ensures
            final(self)@ == old(self)@.with_effect(effect@),
    {
        let ghost before = self@;
        self.effects.push(effect);
        assert(self@.effects =~= before.effects.push(effect@));
        assert(self@ =~= before.with_effect(effect@));
    }

    /// Queues a message with no send-time guard.
    fn send(&mut self, message: Outgoing)
        ensures
            final(self)@ == old(self)@.sending(message@),
    {
        self.push(Effect::Send { message, guard: None });
    }

    /// Cancels the in-flight search, and the step the pondering session has in
    /// flight.
    fn cancel_search(&mut self)
        ensures
            final(self)@ == old(self)@.search_cancelled(),
    {
        let ghost before = self@;
        if let Some(token) = self.cancel {
            self.cancel = None;
            self.push(Effect::Cancel { token });
        }
        let stepping: Option<u64> = match &self.ponder {
            Some(slot) => Some(slot.cancel),
            None => None,
        };
        if let Some(token) = stepping {
            self.push(Effect::Cancel { token });
        }
        assert(self@ =~= before.search_cancelled());
    }

    /// Ends the pondering session outright.
    fn stop_ponder(&mut self)
        ensures
            final(self)@ == old(self)@.ponder_stopped(),
    {
        let ghost before = self@;
        let taken = self.ponder.take();
        if let Some(slot) = taken {
            self.push(Effect::Cancel { token: slot.cancel });
            self.push(Effect::CloseSession { session: slot.session });
        }
        assert(self@ =~= before.ponder_stopped());
    }

    /// Cancels the search and moves the version on, so that no result in flight
    /// is ever used.
    fn invalidate(&mut self)
        ensures
            final(self)@ == old(self)@.invalidated(),
    {
        let ghost before = self@;
        self.cancel_search();
        self.position_version = self.position_version.wrapping_add(1);
        assert(self@ =~= before.invalidated());
    }

    /// Drops the position: nothing may be played until a fresh authoritative
    /// snapshot arrives.
    fn drop_position(&mut self)
        ensures
            final(self)@ == old(self)@.position_dropped(),
    {
        let ghost before = self@;
        self.invalidate();
        self.position = None;
        self.position_key = None;
        assert(self@ =~= before.position_dropped());
    }

    /// Installs a validated position. Returns `false` when the snapshot is the
    /// one already held, in which case nothing changes.
    fn install(&mut self, state: State) -> (r: bool)
        ensures
            final(self)@ == old(self)@.installed(state@),
            r == (old(self)@.position_key != Some(crate::proto::machine::key_of(state@))),
    {
        let ghost before = self@;
        let ghost position = state@;
        if let Some(key) = self.position_key {
            if key.0 == state.hash && key.1 == state.game_over && key.2 == state.winner {
                return false;
            }
        }
        self.invalidate();
        if state.game_over || state.current_player != self.seat {
            self.allocator.end_turn();
        }
        self.position_key = Some((state.hash, state.game_over, state.winner));
        self.position = Some(state);
        assert(self@ =~= before.installed(position));
        true
    }

    /// Returns to the idle pool.
    fn go_idle(&mut self)
        ensures
            final(self)@ == old(self)@.idled(),
    {
        let ghost before = self@;
        self.invalidate();
        self.stop_ponder();
        self.phase = Phase::Idle;
        self.current_game = None;
        self.current_lobby = None;
        self.position = None;
        self.position_key = None;
        self.seat = 0;
        self.pending_game_since = None;
        assert(self@ =~= before.idled());
    }

    /// Turn discipline: the conditions that must hold before any action is even
    /// considered.
    pub fn may_act(&self) -> (r: bool)
        ensures
            r == self@.may_act(),
    {
        match &self.position {
            Some(position) => self.phase == Phase::InGame && self.current_game.is_some()
                && !position.game_over && position.current_player == self.seat
                && position.moves_left > 0,
            None => false,
        }
    }

    /// Send-time revalidation. Asked when a search ends *and* again when its
    /// action is written, because a snapshot may have landed in between.
    pub fn action_still_valid(&self, guard: &ActionGuard) -> (r: bool)
        requires
            self@.wf(),
        ensures
            r == self@.allows(guard@),
    {
        if self.phase != Phase::InGame || !is_text(&self.current_game, &guard.game_id)
            || self.position_version != guard.version || self.seat != guard.seat {
            return false;
        }
        match &self.position {
            Some(position) => position.moves_left == guard.moves_left && self.may_act()
                && action_is_legal(position, guard.action),
            None => false,
        }
    }

    /// The current position, for tests and diagnostics.
    pub fn position(&self) -> (r: Option<&State>)
        ensures
            match r {
                Some(state) => self@.position == Some(state@),
                None => self@.position is None,
            },
    {
        self.position.as_ref()
    }

    /// The version a search has already been dispatched for.
    pub fn searched_version(&self) -> (r: u64)
        ensures
            r == self@.searched_version,
    {
        self.searched_version
    }

    /// The intra-turn time allocator, for diagnostics and tests.
    pub fn allocator(&self) -> (r: &TurnAllocator)
        ensures
            r@ == self@.clock,
    {
        &self.allocator
    }

    /// Whether a pondering session may be given this position: somebody else is
    /// the mover of a game that goes on.
    pub fn may_ponder(&self) -> (r: bool)
        ensures
            r == self@.may_ponder(),
    {
        match &self.position {
            Some(position) => self.phase == Phase::InGame && self.current_game.is_some()
                && !position.game_over && position.current_player != self.seat,
            None => false,
        }
    }

    /// Whether a pondering session is live.
    pub fn is_pondering(&self) -> (r: bool)
        ensures
            r == (self@.ponder is Some),
    {
        self.ponder.is_some()
    }

    /// Asks the server to re-send the position, unless it was asked within the
    /// cooldown.
    fn request_resync(&mut self, game_id: &String, now: Instant)
        ensures
            final(self)@ == old(self)@.resyncing(game_id@, now@),
    {
        let ghost before = self@;
        if let Some(last) = self.last_resync {
            let gap = now.saturating_duration_since(last);
            if gap.as_nanos() < Duration::from_secs(RESYNC_COOLDOWN_SECS).as_nanos() {
                return ;
            }
        }
        self.last_resync = Some(now);
        assert(self@ =~= (BotView { last_resync: Some(now@), ..before }));
        self.send(Outgoing::Resync { game_id: game_id.clone() });
    }

    /// Starts a search if it is our turn and none was started for this
    /// snapshot. One snapshot, one action.
    fn maybe_search(&mut self, driver: Driver)
        requires
            old(self)@.next_token < u64::MAX,
        ensures
            final(self)@ == old(self)@.searching(driver),
    {
        let ghost before = self@;
        if !self.may_act() || self.searched_version == self.position_version {
            return ;
        }
        let game_id: String = match &self.current_game {
            Some(game_id) => game_id.clone(),
            None => {
                return ;
            },
        };
        let position: State = match &self.position {
            Some(position) => position.clone(),
            None => {
                return ;
            },
        };
        let ghost dispatched = before.dispatch();
        let ghost moves_left = position@.moves_left;
        self.cancel_search();
        let cancel: u64 = self.next_token;
        self.next_token = cancel + 1;
        self.cancel = Some(cancel);
        self.searched_version = self.position_version;
        let allocation = self.allocator.allocate(position.moves_left);
        let dispatch = Dispatch {
            position,
            game_id,
            version: self.position_version,
            seat: self.seat,
            cancel,
            allocation,
        };
        assert(dispatch@ =~= dispatched);
        assert(self@ =~= (BotView {
            cancel: Some(cancel),
            next_token: (cancel + 1) as u64,
            searched_version: before.position_version,
            clock: before.clock.allocated(moves_left),
            ..before.search_cancelled()
        }));
        self.push(Effect::Search { dispatch, driver });
    }

    /// Starts, or feeds, the pondering session. It never produces an action.
    fn maybe_ponder(&mut self, config: &BotConfig, can_ponder: bool, now: Instant)
        requires
            old(self)@.next_token <= u64::MAX - 3,
            old(self)@.counters.has_room(),
            config.ponder && can_ponder ==> now@ + config.ponder_budget@ <= MAX_NANOS,
        ensures
            final(self)@ == old(self)@.pondering(*config, can_ponder, now@),
    {
        let ghost before = self@;
        if !config.ponder || !can_ponder {
            return ;
        }
        if !self.may_ponder() || self.pondered_version == self.position_version {
            return ;
        }
        let state: State = match &self.position {
            Some(position) => position.clone(),
            None => {
                return ;
            },
        };
        self.ensure_ponder_session();
        let ghost ready = self@;
        let cancel: u64 = self.next_token;
        self.next_token = cancel + 1;
        self.pondered_version = self.position_version;
        let mut session: u64 = 0;
        match self.ponder.take() {
            Some(slot) => {
                session = slot.session;
                self.ponder = Some(PonderSlot { game_id: slot.game_id, session, cancel });
            },
            None => {},
        }
        self.counters.ponder_steps = self.counters.ponder_steps + 1;
        let budget = SearchBudget::new(now.plus(config.ponder_budget), cancel);
        assert(self@ =~= (BotView {
            pondered_version: ready.position_version,
            ponder: Some(SlotView { cancel, ..ready.ponder->0 }),
            next_token: (cancel + 1) as u64,
            counters: Counters {
                ponder_steps: (ready.counters.ponder_steps + 1) as u64,
                ..ready.counters
            },
            ..ready
        }));
        self.push(Effect::Think { session, state, budget });
        assert(self@ =~= before.pondering(*config, can_ponder, now@));
    }

    /// Ensures a session exists for the current game, asking for one if needed.
    fn ensure_ponder_session(&mut self)
        requires
            old(self)@.current_game is Some,
            old(self)@.next_token <= u64::MAX - 2,
        ensures
            final(self)@ == old(self)@.with_session(),
    {
        let ghost before = self@;
        let game_id: String = match &self.current_game {
            Some(game_id) => game_id.clone(),
            None => {
                return ;
            },
        };
        let kept = match &self.ponder {
            Some(slot) => same_text(slot.game_id.as_str(), game_id.as_str()),
            None => false,
        };
        if kept {
            return ;
        }
        self.stop_ponder();
        let session: u64 = self.next_token;
        self.next_token = session + 2;
        self.ponder = Some(PonderSlot { game_id, session, cancel: session + 1 });
        assert(self@ =~= (BotView {
            ponder: Some(
                SlotView {
                    game_id: before.current_game->0,
                    session,
                    cancel: (session + 1) as u64,
                },
            ),
            next_token: (session + 2) as u64,
            ..before.ponder_stopped()
        }));
        self.push(Effect::OpenSession { session });
    }
}

/// The client: what it knows, and how it was set up.
#[derive(Debug)]
pub struct Bot {
    pub core: BotCore,
    pub config: BotConfig,
    /// The engine can run a pondering session.
    pub can_ponder: bool,
}

/// Every snapshot that decoded is a well-formed position.
pub open spec fn snapshot_wf(message: Inbound) -> bool {
    message.snapshot matches Some(Reading::Decoded(state)) ==> state@.wf()
}

/// Whether `message` names every seat of a game of `players` exactly once.
fn seats_are_sane(message: &Inbound, players: usize) -> (r: bool)
    ensures
        r == crate::proto::machine::seats_sane(*message, players as int),
{
    if message.game_players.len() != players {
        return false;
    }
    let mut seen: Vec<bool> = Vec::new();
    let mut k: usize = 0;
    while k < players
        invariant
            k <= players,
            seen@.len() == k,
            forall|j: int| 0 <= j < k ==> !#[trigger] seen@[j],
        decreases players - k,
    {
        seen.push(false);
        k += 1;
    }
    let ghost seats = message.game_players@;
    let mut i: usize = 0;
    while i < message.game_players.len()
        invariant
            i <= seats.len(),
            seats == message.game_players@,
            seats.len() == players,
            seen@.len() == players,
            forall|a: int|
                0 <= a < i ==> 1 <= (#[trigger] seats[a]).player_index <= players
                    && seen@[seats[a].player_index - 1],
            forall|j: int|
                0 <= j < players && #[trigger] seen@[j] ==> exists|a: int|
                    0 <= a < i && (#[trigger] seats[a]).player_index == j + 1,
            forall|a: int, b: int|
                0 <= a < b < i ==> (#[trigger] seats[a]).player_index != (
                #[trigger] seats[b]).player_index,
        decreases seats.len() - i,
    {
        let index: i32 = message.game_players[i].player_index;
        assert(seats[i as int].player_index == index);
        if index < 1 || index as usize > players {
            return false;
        }
        let place: usize = index as usize - 1;
        if seen[place] {
            proof {
                let a = choose|a: int| 0 <= a < i && (#[trigger] seats[a]).player_index == place + 1;
                assert(seats[a].player_index == seats[i as int].player_index);
            }
            return false;
        }
        let ghost before = seen@;
        seen.set(place, true);
        proof {
            assert forall|a: int| 0 <= a < i + 1 implies 1 <= (#[trigger] seats[a]).player_index
                <= players && seen@[seats[a].player_index - 1] by {
                if a < i {
                    assert(before[seats[a].player_index - 1]);
                }
            }
            assert forall|j: int| 0 <= j < players && #[trigger] seen@[j] implies exists|a: int|
                0 <= a < i + 1 && (#[trigger] seats[a]).player_index == j + 1 by {
                if j == place {
                    assert(seats[i as int].player_index == j + 1);
                } else {
                    assert(before[j]);
                    let a = choose|a: int| 0 <= a < i && (#[trigger] seats[a]).player_index == j + 1;
                    assert(seats[a].player_index == j + 1);
                }
            }
            assert forall|a: int, b: int| 0 <= a < b < i + 1 implies (
            #[trigger] seats[a]).player_index != (#[trigger] seats[b]).player_index by {
                if b == i {
                    assert(before[seats[a].player_index - 1]);
                }
            }
        }
        i += 1;
    }
    true
}

impl Bot {
    /// A client that has not connected.
    pub fn new(config: BotConfig, can_ponder: bool) -> (r: Bot)
        ensures
            r.core@ == new_bot(config),
            r.core@.wf(),
            r.config == config,
            r.can_ponder == can_ponder,
    {
        let core = BotCore {
            phase: Phase::Disconnected,
            user_id: String::new(),
            username: String::new(),
            current_game: None,
            current_lobby: None,
            seat: 0,
            position: None,
            position_version: 0,
            peers: Vec::new(),
            counters: Counters::default(),
            last_error: None,
            position_key: None,
            searched_version: 0,
            pondered_version: 0,
            cancel: None,
            pending_game_since: None,
            last_resync: None,
            allocator: config.allocator(),
            ponder: None,
            next_token: 0,
            effects: Vec::new(),
        };
        assert(core@ =~= new_bot(config));
        Bot { core, config, can_ponder }
    }

    /// The state of the client.
    pub fn core_ref(&self) -> (r: &BotCore)
        ensures
            *r == self.core,
    {
        &self.core
    }

    /// The configuration this client was built with.
    pub fn config(&self) -> (r: &BotConfig)
        ensures
            *r == self.config,
    {
        &self.config
    }

    /// Whether the counters have room for one more event.
    pub fn has_room(&self) -> (r: bool)
        ensures
            r == self.core@.has_room(),
    {
        let c = self.core.counters;
        c.errors < u64::MAX && c.illegal_moves < u64::MAX && c.rejected_snapshots < u64::MAX
            && c.actions_sent < u64::MAX && c.stale_results_dropped < u64::MAX
            && c.games_finished < u64::MAX && c.challenges_sent < u64::MAX && c.fallback_actions
            < u64::MAX && c.ponder_steps < u64::MAX && c.ponder_answers < u64::MAX
            && self.core.next_token <= u64::MAX - 4
    }

    /// Hands over what the program has to do, in order.
    pub fn take_effects(&mut self) -> (r: Vec<Effect>)
        ensures
            r@.map_values(|effect: Effect| effect@) == old(self).core@.effects,
            final(self).core@ == (BotView { effects: Seq::empty(), ..old(self).core@ }),
            final(self).config == old(self).config,
            final(self).can_ponder == old(self).can_ponder,
    {
        let ghost before = self.core@;
        let mut effects: Vec<Effect> = Vec::new();
        std::mem::swap(&mut effects, &mut self.core.effects);
        assert(self.core@ =~= (BotView { effects: Seq::empty(), ..before }));
        effects
    }

    /// Dispatches one decoded server message.
    #[verifier::spinoff_prover]
    pub fn handle(&mut self, message: Inbound, now: Instant)
        requires
            old(self).core@.wf(),
            old(self).core@.has_room(),
            snapshot_wf(message),
            old(self).config.ponder && old(self).can_ponder ==> now@ + old(
                self,
            ).config.ponder_budget@ <= MAX_NANOS,
        ensures
            final(self).core@ == old(self).core@.handled(
                old(self).config,
                old(self).can_ponder,
                message,
                now@,
            ),
            !drives(message.kind@) ==> {
                &&& final(self).core@.searched_version == old(self).core@.searched_version
                &&& adds_only(
                    old(self).core@,
                    final(self).core@,
                    |effect: EffectView| quiet(effect),
                )
            },
            final(self).core@.wf(),
            final(self).config == old(self).config,
            final(self).can_ponder == old(self).can_ponder,
    {
        proof {
            if !drives(message.kind@) {
                crate::proto::machine::only_a_driver_starts_a_search(
                    self.core@,
                    self.config,
                    self.can_ponder,
                    message,
                    now@,
                );
            }
            crate::proto::machine::handling_keeps(
                self.core@,
                self.config,
                self.can_ponder,
                message,
                now@,
            );
        }
        self.answer_message(message, now);
    }

    /// Does what `message` calls for, by its kind.
    #[verifier::spinoff_prover]
    fn answer_message(&mut self, message: Inbound, now: Instant)
        requires
            old(self).core@.wf(),
            old(self).core@.has_room(),
            snapshot_wf(message),
            old(self).config.ponder && old(self).can_ponder ==> now@ + old(
                self,
            ).config.ponder_budget@ <= MAX_NANOS,
        ensures
            final(self).core@ == old(self).core@.handled(
                old(self).config,
                old(self).can_ponder,
                message,
                now@,
            ),
            final(self).config == old(self).config,
            final(self).can_ponder == old(self).can_ponder,
    {
        proof {
            crate::proto::machine::healing_keeps(self.core@, self.config, now@);
        }
        self.heal_pending_game(now);
        let kind: &str = message.kind.as_str();
        if same_text(kind, "welcome") {
            self.on_welcome(&message);
        } else if same_text(kind, "users_update") {
            let ghost ready = self.core@;
            self.core.peers = message.users;
            assert(self.core@ =~= (BotView {
                peers: message.users@.map_values(|user: UserInfo| user@),
                ..ready
            }));
        } else if same_text(kind, "bot_wanted") {
            self.on_bot_wanted(&message);
        } else if same_text(kind, "lobby_joined") {
            self.on_lobby_joined(&message);
        } else if same_text(kind, "lobby_closed") {
            self.on_lobby_closed();
        } else if same_text(kind, "challenge_received") {
            self.on_challenge_received(&message, now);
        } else if same_text(kind, "game_start") || same_text(kind, "multiplayer_game_start") {
            self.on_game_start(&message, now);
        } else if same_text(kind, "game_state") || same_text(kind, "turn_change") {
            let driver = if same_text(kind, "turn_change") {
                Driver::TurnChange
            } else {
                Driver::GameState
            };
            proof {
                reveal_strlit("turn_change");
                reveal_strlit("game_state");
                assert("turn_change"@.len() != "game_state"@.len());
            }
            if self.absorb(&message, now) {
                self.core.maybe_search(driver);
                self.core.maybe_ponder(&self.config, self.can_ponder, now);
            }
        } else if same_text(kind, "move_made") || same_text(kind, "player_eliminated") || same_text(
            kind,
            "neutrals_placed",
        ) || same_text(kind, "action_ack") {
            // Refresh only: none of these means it is our turn, whatever the
            // snapshot they carry shows.
            if self.absorb(&message, now) {
                self.core.maybe_ponder(&self.config, self.can_ponder, now);
            }
        } else if same_text(kind, "game_end") {
            self.on_game_end(&message);
        } else if same_text(kind, "error") {
            self.on_error(&message, now);
        }
    }

    /// The socket died. Everything in flight is invalidated; nothing queued
    /// before the drop may be written after it.
    pub fn on_disconnected(&mut self)
        ensures
            final(self).core@ == old(self).core@.disconnected(),
            final(self).core@.wf(),
            final(self).config == old(self).config,
            final(self).can_ponder == old(self).can_ponder,
    {
        let ghost before = self.core@;
        self.core.invalidate();
        self.core.stop_ponder();
        self.core.phase = Phase::Disconnected;
        self.core.position = None;
        self.core.position_key = None;
        self.core.current_game = None;
        self.core.current_lobby = None;
        self.core.user_id = String::new();
        self.core.peers = Vec::new();
        self.core.pending_game_since = None;
        assert(self.core@ =~= before.disconnected());
    }

    fn on_welcome(&mut self, message: &Inbound)
        ensures
            final(self).core@ == old(self).core@.welcomed(*message),
            final(self).config == old(self).config,
            final(self).can_ponder == old(self).can_ponder,
    {
        let ghost before = self.core@;
        self.core.user_id = message.user_id.clone();
        self.core.username = message.username.clone();
        self.core.phase = Phase::Idle;
        assert(self.core@ =~= before.welcomed(*message));
    }

    fn on_bot_wanted(&mut self, message: &Inbound)
        ensures
            final(self).core@ == old(self).core@.wanted(*message),
            final(self).config == old(self).config,
            final(self).can_ponder == old(self).can_ponder,
    {
        if self.core.phase != Phase::Idle {
            return ;
        }
        self.core.send(
            Outgoing::JoinLobby {
                lobby_id: message.lobby_id.clone(),
                request_id: message.request_id.clone(),
            },
        );
    }

    fn on_lobby_joined(&mut self, message: &Inbound)
        ensures
            final(self).core@ == old(self).core@.in_lobby(*message),
            final(self).config == old(self).config,
            final(self).can_ponder == old(self).can_ponder,
    {
        let ghost before = self.core@;
        let lobby: String = match &message.lobby {
            Some(lobby) => lobby.lobby_id.clone(),
            None => message.lobby_id.clone(),
        };
        self.core.phase = Phase::InLobby;
        self.core.current_lobby = Some(lobby);
        assert(self.core@ =~= before.in_lobby(*message));
    }

    fn on_lobby_closed(&mut self)
        ensures
            final(self).core@ == old(self).core@.lobby_closed(),
            final(self).config == old(self).config,
            final(self).can_ponder == old(self).can_ponder,
    {
        let ghost before = self.core@;
        self.core.current_lobby = None;
        assert(self.core@ =~= (BotView { current_lobby: None, ..before }));
        if self.core.phase != Phase::InGame {
            self.core.go_idle();
        }
    }

    fn on_challenge_received(&mut self, message: &Inbound, now: Instant)
        ensures
            final(self).core@ == old(self).core@.challenged(*message, now@),
            final(self).config == old(self).config,
            final(self).can_ponder == old(self).can_ponder,
    {
        let ghost before = self.core@;
        if self.core.phase != Phase::Idle {
            self.core.send(
                Outgoing::DeclineChallenge { challenge_id: message.challenge_id.clone() },
            );
            return ;
        }
        // Busy *before* accepting, so that a second challenge arriving before
        // the game starts is declined rather than accepted too.
        self.core.phase = Phase::InGame;
        self.core.pending_game_since = Some(now);
        assert(self.core@ =~= (BotView {
            phase: Phase::InGame,
            pending_game_since: Some(now@),
            ..before
        }));
        self.core.send(Outgoing::AcceptChallenge { challenge_id: message.challenge_id.clone() });
    }

    fn on_game_start(&mut self, message: &Inbound, now: Instant)
        requires
            old(self).core@.has_room(),
            snapshot_wf(*message),
            old(self).config.ponder && old(self).can_ponder ==> now@ + old(
                self,
            ).config.ponder_budget@ <= MAX_NANOS,
        ensures
            final(self).core@ == old(self).core@.game_started(
                old(self).config,
                old(self).can_ponder,
                *message,
                now@,
            ),
            final(self).config == old(self).config,
            final(self).can_ponder == old(self).can_ponder,
    {
        let ghost before = self.core@;
        let state: State = match &message.snapshot {
            Some(Reading::Decoded(state)) => state.clone(),
            Some(Reading::Rejected) => {
                self.core.counters.rejected_snapshots = self.core.counters.rejected_snapshots + 1;
                assert(self.core@ =~= before.game_started(
                    self.config,
                    self.can_ponder,
                    *message,
                    now@,
                ));
                return ;
            },
            None => {
                return ;
            },
        };
        let players: usize = state.players;
        if message.your_player < 1 || message.your_player as usize > players {
            return ;
        }
        if same_text(message.kind.as_str(), "multiplayer_game_start") && !seats_are_sane(
            message,
            players,
        ) {
            return ;
        }
        if message.game_id.as_str().is_empty() {
            return ;
        }
        self.core.cancel_search();
        self.core.stop_ponder();
        self.core.phase = Phase::InGame;
        self.core.current_game = Some(message.game_id.clone());
        self.core.seat = message.your_player as u8;
        self.core.searched_version = 0;
        self.core.pondered_version = 0;
        self.core.pending_game_since = None;
        self.core.allocator = self.config.allocator();
        // Forces the install even when a rematch opens on the position the last
        // game opened on.
        self.core.position_key = None;
        assert(self.core@ =~= before.seated(self.config, *message));
        self.core.install(state);
        self.core.push(Effect::GameStarted);
        self.core.maybe_search(Driver::GameStart);
        self.core.maybe_ponder(&self.config, self.can_ponder, now);
    }

    fn on_game_end(&mut self, message: &Inbound)
        requires
            old(self).core@.has_room(),
        ensures
            final(self).core@ == old(self).core@.game_ended(*message),
            final(self).config == old(self).config,
            final(self).can_ponder == old(self).can_ponder,
    {
        let ghost before = self.core@;
        if !message.game_id.as_str().is_empty() && !is_text(
            &self.core.current_game,
            &message.game_id,
        ) {
            return ;
        }
        self.core.counters.games_finished = self.core.counters.games_finished + 1;
        assert(self.core@ =~= (BotView {
            counters: Counters {
                games_finished: (before.counters.games_finished + 1) as u64,
                ..before.counters
            },
            ..before
        }));
        self.core.go_idle();
    }

    fn on_error(&mut self, message: &Inbound, now: Instant)
        requires
            old(self).core@.has_room(),
        ensures
            final(self).core@ == old(self).core@.errored(*message, now@),
            final(self).config == old(self).config,
            final(self).can_ponder == old(self).can_ponder,
    {
        let ghost before = self.core@;
        self.core.counters.errors = self.core.counters.errors + 1;
        if starts_with(message.username.as_str(), "Defeated by illegal move") {
            self.core.counters.illegal_moves = self.core.counters.illegal_moves + 1;
        }
        self.core.last_error = Some(message.username.clone());
        assert(self.core@ =~= (BotView {
            counters: self.core@.counters,
            last_error: Some(message.username@),
            ..before
        }));
        // The position we hold may be exactly the one the server disagreed
        // with.
        if !message.game_id.as_str().is_empty() && is_text(
            &self.core.current_game,
            &message.game_id,
        ) {
            self.core.drop_position();
            self.core.request_resync(&message.game_id, now);
        }
    }

    /// Validates and installs the snapshot carried by `message`.
    ///
    /// Returns `true` when the position is trustworthy afterwards: the *only*
    /// condition under which a caller may go on to start a search.
    fn absorb(&mut self, message: &Inbound, now: Instant) -> (r: bool)
        requires
            old(self).core@.has_room(),
        ensures
            final(self).core@ == old(self).core@.absorbing(*message, now@),
            r == old(self).core@.absorbs(*message),
            final(self).config == old(self).config,
            final(self).can_ponder == old(self).can_ponder,
    {
        let ghost before = self.core@;
        let reading = match &message.snapshot {
            Some(reading) => reading,
            None => {
                return false;
            },
        };
        if self.core.phase != Phase::InGame {
            return false;
        }
        let game_id: String = match &self.core.current_game {
            Some(current) => current.clone(),
            None => {
                return false;
            },
        };
        if !message.game_id.as_str().is_empty() && !same_text(
            message.game_id.as_str(),
            game_id.as_str(),
        ) {
            return false;
        }
        match reading {
            Reading::Decoded(state) => {
                self.core.install(state.clone());
                true
            },
            Reading::Rejected => {
                self.core.counters.rejected_snapshots = self.core.counters.rejected_snapshots + 1;
                assert(self.core@ =~= (BotView {
                    counters: Counters {
                        rejected_snapshots: (before.counters.rejected_snapshots + 1) as u64,
                        ..before.counters
                    },
                    ..before
                }));
                self.core.drop_position();
                self.core.request_resync(&game_id, now);
                false
            },
        }
    }

    /// Undoes the optimistic busy flag if the accepted game never arrived.
    fn heal_pending_game(&mut self, now: Instant)
        ensures
            final(self).core@ == old(self).core@.healed(old(self).config, now@),
            final(self).config == old(self).config,
            final(self).can_ponder == old(self).can_ponder,
    {
        if self.core.phase != Phase::InGame || self.core.current_game.is_some() {
            return ;
        }
        if let Some(since) = self.core.pending_game_since {
            let waited = now.saturating_duration_since(since);
            if waited.as_nanos() > self.config.pending_game_grace.as_nanos() {
                self.core.go_idle();
            }
        }
    }
}

// ------------------------------------------------------------ a search's end

/// One item of the outbox.
#[derive(Debug)]
pub enum Outbound {
    /// A message, with the guard that must still hold when it is written.
    Text { data: String, guard: Option<ActionGuard> },
    /// The answer to a ping.
    Pong(Vec<u8>),
}

/// One frame for the wire.
#[derive(Debug)]
pub enum Written {
    Text(String),
    Pong(Vec<u8>),
}

/// What came back from the engine for one action.
#[derive(Debug)]
pub enum EngineAnswer {
    /// A searched action.
    Chose(SearchOutcome),
    /// The engine declined: a terminal root, or cancellation before a candidate
    /// existed.
    Nothing,
    /// The engine blew through its ceiling plus grace. The fallback answers.
    Overran,
    /// The search itself failed. Nothing to send.
    Failed,
}

impl View for EngineAnswer {
    type V = AnswerView;

    open spec fn view(&self) -> AnswerView {
        match *self {
            EngineAnswer::Chose(outcome) => AnswerView::Chose { action: outcome.action },
            EngineAnswer::Nothing => AnswerView::Nothing,
            EngineAnswer::Overran => AnswerView::Overran,
            EngineAnswer::Failed => AnswerView::Failed,
        }
    }
}

/// What came back when the engine was asked for its overrun answer.
#[derive(Debug)]
pub enum FallbackAnswer {
    /// What it said.
    Said(Option<Action>),
    /// It did not answer in time, or failed.
    Silent,
}

/// An action that passed revalidation and is about to be queued.
#[derive(Debug)]
pub struct Chosen {
    pub outcome: SearchOutcome,
    pub from_fallback: bool,
    pub guard: ActionGuard,
}

/// The overrun answer for `position`.
pub open spec fn fallback_of(
    answer: FallbackAnswer,
    position: crate::game::StateView,
) -> Option<Action> {
    match answer {
        FallbackAnswer::Said(action) => action,
        FallbackAnswer::Silent => crate::proto::engine::first_legal(position),
    }
}

/// The overrun answer: what the engine said, or the first legal action where it
/// said nothing in time.
pub fn select_fallback(answer: FallbackAnswer, position: &State) -> (r: Option<Action>)
    ensures
        r == fallback_of(answer, position@),
        r == match answer {
            FallbackAnswer::Said(action) => action,
            FallbackAnswer::Silent => crate::proto::engine::first_legal(position@),
        },
{
    match answer {
        FallbackAnswer::Said(action) => action,
        FallbackAnswer::Silent => {
            if position.legal_actions.len() == 0 {
                None
            } else {
                Some(position.legal_actions[0])
            }
        },
    }
}

/// A lowercase hexadecimal digit.
pub open spec fn lower_hex(c: char) -> bool {
    '0' <= c <= '9' || 'a' <= c <= 'f'
}

/// The hyphenated text of a random UUID: 36 characters, hyphens after the
/// eighth, twelfth, sixteenth and twentieth digit, the version digit `4` and a
/// variant digit of `8` to `b`.
pub open spec fn random_uuid_text(text: Seq<char>) -> bool {
    &&& text.len() == 36
    &&& text[8] == '-' && text[13] == '-' && text[18] == '-' && text[23] == '-'
    &&& text[14] == '4'
    &&& text[19] == '8' || text[19] == '9' || text[19] == 'a' || text[19] == 'b'
    &&& forall|i: int|
        0 <= i < 36 && i != 8 && i != 13 && i != 18 && i != 23 ==> lower_hex(#[trigger] text[i])
}

/// A fresh request id, from `uuid`'s `Uuid::new_v4`.
///
/// The contract claims the form of the text and nothing of its digits, which
/// come from the operating system's random numbers.
#[verifier::external_body]
fn fresh_request_id() -> (r: String)
    ensures
        random_uuid_text(r@),
{
    uuid::Uuid::new_v4().to_string()
}

/// The diagnostics sent with an action. A fallback was not searched, and does
/// not claim to have been.
pub open spec fn diagnostics_of(
    outcome: SearchOutcome,
    from_fallback: bool,
    total: int,
) -> Diagnostics {
    Diagnostics {
        score: outcome.score,
        depth: outcome.depth,
        nodes_evaluated: if from_fallback {
            0
        } else {
            outcome.nodes
        },
        time_ms: (total / 1_000_000) as i64,
    }
}

/// `message` plays `chosen` under some random request id.
pub open spec fn plays_chosen(
    message: OutgoingView,
    dispatch: DispatchView,
    outcome: SearchOutcome,
    from_fallback: bool,
    total: int,
) -> bool {
    exists|id: Seq<char>|
        #![trigger random_uuid_text(id)]
        random_uuid_text(id) && message == crate::proto::message::action_message(
            dispatch.game_id,
            id,
            outcome.action,
            diagnostics_of(outcome, from_fallback, total),
        )
}

/// The outcome a search ends with.
pub open spec fn outcome_of(answer: EngineAnswer, action: Action) -> SearchOutcome {
    match answer {
        EngineAnswer::Chose(outcome) => outcome,
        _ => SearchOutcome {
            action,
            score: crate::score::Score { bits: 0 },
            depth: 0,
            nodes: 0,
        },
    }
}

/// What a search dispatched as `dispatch` and begun at `started` may spend.
pub open spec fn budget_of(
    dispatch: DispatchView,
    started: int,
    policy: crate::proto::clock::StopPolicy,
) -> BudgetView {
    BudgetView {
        deadline: started + dispatch.target,
        ceiling: started + dispatch.ceiling,
        policy,
        cancel: dispatch.cancel,
    }
}

/// How long a dispatched search is waited for.
pub open spec fn patience(dispatch: DispatchView, grace: int) -> int {
    dispatch.ceiling + grace
}

impl Bot {
    /// What a dispatched search may spend, measured from `started`.
    pub fn budget_for(&self, dispatch: &Dispatch, started: Instant) -> (r: SearchBudget)
        requires
            started@ + dispatch.allocation.target@ <= MAX_NANOS,
            started@ + dispatch.allocation.ceiling@ <= MAX_NANOS,
        ensures
            budget_view(r) == budget_of(dispatch@, started@, self.config.stop_policy),
            budget_view(r) == (BudgetView {
                deadline: started@ + dispatch@.target,
                ceiling: started@ + dispatch@.ceiling,
                policy: self.config.stop_policy,
                cancel: dispatch@.cancel,
            }),
    {
        SearchBudget::allocated(
            started,
            dispatch.allocation,
            self.config.stop_policy,
            dispatch.cancel,
        )
    }

    /// How long a dispatched search is waited for.
    pub fn hard_wait(&self, dispatch: &Dispatch) -> (r: Duration)
        requires
            dispatch.allocation.ceiling@ + self.config.fallback_grace@ <= MAX_NANOS,
        ensures
            r@ == dispatch@.ceiling + self.config.fallback_grace@,
            r@ == patience(dispatch@, self.config.fallback_grace@),
    {
        dispatch.allocation.ceiling.saturating_add(self.config.fallback_grace)
    }

    /// The pondering session a dispatched search may be handed to, so that the
    /// tree it built during the opponent's turn is continued.
    pub fn offer_to_ponder(&self, dispatch: &Dispatch) -> (r: Option<u64>)
        ensures
            r == self.core@.offers(dispatch@),
    {
        match &self.core.ponder {
            Some(slot) => {
                if same_text(slot.game_id.as_str(), dispatch.game_id.as_str())
                    && self.core.may_act() && self.core.position_version == dispatch.version {
                    Some(slot.session)
                } else {
                    None
                }
            },
            None => None,
        }
    }

    /// Records whether the session took the search.
    pub fn handed_to_ponder(&mut self, dispatch: &Dispatch, delivered: bool)
        requires
            old(self).core@.counters.has_room(),
        ensures
            final(self).core@ == old(self).core@.handed(dispatch@.cancel, delivered),
            final(self).core@.wf() == old(self).core@.wf(),
            final(self).config == old(self).config,
            final(self).can_ponder == old(self).can_ponder,
    {
        let ghost before = self.core@;
        if !delivered {
            self.ponder_lost();
            return ;
        }
        match self.core.ponder.take() {
            Some(slot) => {
                self.core.ponder = Some(
                    PonderSlot {
                        game_id: slot.game_id,
                        session: slot.session,
                        cancel: dispatch.cancel,
                    },
                );
                self.core.counters.ponder_answers = self.core.counters.ponder_answers + 1;
            },
            None => {},
        }
        assert(self.core@ =~= before.handed(dispatch@.cancel, delivered));
    }

    /// Records that the pondering session is gone.
    pub fn ponder_lost(&mut self)
        ensures
            final(self).core@ == old(self).core@.ponder_lost(),
            final(self).core@.wf() == old(self).core@.wf(),
            final(self).config == old(self).config,
            final(self).can_ponder == old(self).can_ponder,
    {
        let ghost before = self.core@;
        let taken = self.core.ponder.take();
        if let Some(slot) = taken {
            assert(self.core@ =~= (BotView { ponder: None, ..before }));
            self.core.push(Effect::CloseSession { session: slot.session });
        }
        assert(self.core@ =~= before.ponder_lost());
    }

    /// Ends a search: charges its time, stops a runaway one, settles on its
    /// action or the fallback, and revalidates that against the live position.
    ///
    /// `None` when there is nothing to send: no action, or one the position has
    /// moved on from.
    pub fn settle_search(
        &mut self,
        dispatch: &Dispatch,
        answer: &EngineAnswer,
        fallback: Option<Action>,
        cancelled: bool,
        spent: Duration,
    ) -> (r: Option<Chosen>)
        requires
            old(self).core@.wf(),
            old(self).core@.counters.has_room(),
        ensures
            ({
                let ended = old(self).core@.answered(
                    dispatch@,
                    answer@,
                    fallback,
                    cancelled,
                    spent@,
                );
                match answer_action(answer@, fallback, cancelled) {
                    None => r is None && final(self).core@ == ended,
                    Some((action, from_fallback)) => {
                        let guard = guard_of(dispatch@, action);
                        &&& final(self).core@ == ended.revalidated(guard)
                        &&& r is Some <==> ended.allows(guard)
                        &&& r matches Some(chosen) ==> {
                            &&& chosen.outcome == outcome_of(*answer, action)
                            &&& chosen.from_fallback == from_fallback
                            &&& chosen.guard@ == guard
                        }
                    },
                }
            }),
            final(self).core@.wf(),
            final(self).config == old(self).config,
            final(self).can_ponder == old(self).can_ponder,
    {
        let ghost before = self.core@;
        self.core.allocator.spent(spent);
        let ghost charged = BotView { clock: before.clock.charged(spent@), ..before };
        assert(self.core@ =~= charged);
        let (outcome, from_fallback): (SearchOutcome, bool) = match answer {
            EngineAnswer::Chose(outcome) => (*outcome, false),
            EngineAnswer::Overran => {
                self.core.push(Effect::Cancel { token: dispatch.cancel });
                match fallback {
                    Some(action) => (SearchOutcome::new(action), true),
                    None => {
                        return None;
                    },
                }
            },
            EngineAnswer::Nothing => {
                if cancelled {
                    // Superseded before a candidate was established. The next
                    // snapshot drives.
                    return None;
                }
                match fallback {
                    Some(action) => (SearchOutcome::new(action), true),
                    None => {
                        return None;
                    },
                }
            },
            EngineAnswer::Failed => {
                return None;
            },
        };
        if from_fallback {
            self.core.counters.fallback_actions = self.core.counters.fallback_actions + 1;
        }
        let ghost ended = before.answered(dispatch@, answer@, fallback, cancelled, spent@);
        assert(self.core@ =~= ended);
        let guard = ActionGuard {
            game_id: dispatch.game_id.clone(),
            version: dispatch.version,
            seat: dispatch.seat,
            moves_left: dispatch.position.moves_left,
            action: outcome.action,
        };
        let valid = self.core.action_still_valid(&guard);
        if !valid {
            self.core.counters.stale_results_dropped = self.core.counters.stale_results_dropped
                + 1;
            assert(self.core@ =~= ended.revalidated(guard@));
            return None;
        }
        self.core.counters.actions_sent = self.core.counters.actions_sent + 1;
        assert(self.core@ =~= ended.revalidated(guard@));
        Some(Chosen { outcome, from_fallback, guard })
    }

    /// Queues a revalidated action under `request_id`. `total` is the time since
    /// the search started.
    pub fn send_action(&mut self, dispatch: &Dispatch, chosen: Chosen, request_id: &String, total: Duration)
        requires
            total@ / 1_000_000 <= i64::MAX,
        ensures
            final(self).core@ == old(self).core@.with_effect(
                EffectView::Send {
                    message: crate::proto::message::action_message(
                        dispatch@.game_id,
                        request_id@,
                        chosen.outcome.action,
                        diagnostics_of(chosen.outcome, chosen.from_fallback, total@),
                    ),
                    guard: Some(chosen.guard@),
                },
            ),
            final(self).core@.wf() == old(self).core@.wf(),
            final(self).config == old(self).config,
            final(self).can_ponder == old(self).can_ponder,
    {
        let diagnostics = Diagnostics {
            score: chosen.outcome.score,
            depth: chosen.outcome.depth,
            nodes_evaluated: if chosen.from_fallback {
                0
            } else {
                chosen.outcome.nodes
            },
            time_ms: total.as_millis() as i64,
        };
        let message = Outgoing::action(
            dispatch.game_id.as_str(),
            request_id.as_str(),
            chosen.outcome.action,
            diagnostics,
        );
        self.core.push(Effect::Send { message, guard: Some(chosen.guard) });
    }

    /// Ends a search and queues its action, if it still holds, under a fresh
    /// request id. Returns whether an action was queued.
    pub fn finish_search(
        &mut self,
        dispatch: &Dispatch,
        answer: &EngineAnswer,
        fallback: Option<Action>,
        cancelled: bool,
        spent: Duration,
        total: Duration,
    ) -> (r: bool)
        requires
            old(self).core@.wf(),
            old(self).core@.counters.has_room(),
            total@ / 1_000_000 <= i64::MAX,
        ensures
            ({
                let ended = old(self).core@.answered(
                    dispatch@,
                    answer@,
                    fallback,
                    cancelled,
                    spent@,
                );
                match answer_action(answer@, fallback, cancelled) {
                    None => !r && final(self).core@ == ended,
                    Some((action, from_fallback)) => {
                        let guard = guard_of(dispatch@, action);
                        let counted = ended.revalidated(guard);
                        &&& r == ended.allows(guard)
                        &&& !r ==> final(self).core@ == counted
                        &&& r ==> exists|message: OutgoingView|
                            #![trigger counted.with_effect(
                                EffectView::Send { message, guard: Some(guard) },
                            )]
                            plays_chosen(
                                message,
                                dispatch@,
                                outcome_of(*answer, action),
                                from_fallback,
                                total@,
                            ) && final(self).core@ == counted.with_effect(
                                EffectView::Send { message, guard: Some(guard) },
                            )
                    },
                }
            }),
            final(self).core@.wf(),
            final(self).config == old(self).config,
            final(self).can_ponder == old(self).can_ponder,
    {
        match self.settle_search(dispatch, answer, fallback, cancelled, spent) {
            Some(chosen) => {
                let request_id = fresh_request_id();
                let ghost message = crate::proto::message::action_message(
                    dispatch@.game_id,
                    request_id@,
                    chosen.outcome.action,
                    diagnostics_of(chosen.outcome, chosen.from_fallback, total@),
                );
                let ghost counted = self.core@;
                let ghost guard = chosen.guard@;
                assert(random_uuid_text(request_id@));
                self.send_action(dispatch, chosen, &request_id, total);
                assert(self.core@ == counted.with_effect(
                    EffectView::Send { message, guard: Some(guard) },
                ));
                true
            },
            None => false,
        }
    }

    /// The last gate before the wire: whether a queued message may be written.
    /// An action the position has moved on from is counted and dropped.
    pub fn may_write(&mut self, guard: &Option<ActionGuard>) -> (r: bool)
        requires
            old(self).core@.wf(),
            old(self).core@.counters.has_room(),
        ensures
            final(self).core@ == old(self).core@.written(guard_view(*guard)),
            r == (guard_view(*guard) matches Some(guard) ==> old(self).core@.allows(guard)),
            final(self).core@.wf(),
            final(self).config == old(self).config,
            final(self).can_ponder == old(self).can_ponder,
    {
        let ghost before = self.core@;
        if let Some(guard) = guard {
            if !self.core.action_still_valid(guard) {
                self.core.counters.stale_results_dropped = self.core.counters.stale_results_dropped
                    + 1;
                assert(self.core@ =~= before.written(Some(guard@)));
                return false;
            }
        }
        true
    }

    /// Turns a queued item into what goes onto the wire, if it still may. The
    /// guard of an action is checked here, after everything else: a snapshot may
    /// have landed since the search's own check, and sending anyway is how a
    /// stale move becomes a forfeit.
    pub fn write_item(&mut self, item: Outbound) -> (r: Option<Written>)
        requires
            old(self).core@.wf(),
            old(self).core@.counters.has_room(),
        ensures
            match item {
                Outbound::Pong(payload) => {
                    &&& final(self).core@ == old(self).core@
                    &&& r matches Some(Written::Pong(p)) && p@ == payload@
                },
                Outbound::Text { data, guard } => {
                    &&& final(self).core@ == old(self).core@.written(guard_view(guard))
                    &&& r is Some <==> (guard_view(guard) matches Some(g) ==> old(
                        self,
                    ).core@.allows(g))
                    &&& r is Some ==> (r matches Some(Written::Text(t)) && t@ == data@)
                },
            },
            final(self).core@.wf(),
            final(self).config == old(self).config,
            final(self).can_ponder == old(self).can_ponder,
    {
        match item {
            Outbound::Pong(payload) => Some(Written::Pong(payload)),
            Outbound::Text { data, guard } => if self.may_write(&guard) {
                Some(Written::Text(data))
            } else {
                None
            },
        }
    }

    /// Challenger tick: the sole driver of outbound challenges.
    pub fn challenge_tick(&mut self, rng: &mut Rng, now: Instant)
        requires
            old(self).core@.wf(),
            old(self).core@.has_room(),
        ensures
            final(self).core@ == old(self).core@.ticked(
                old(self).config,
                now@,
                crate::mcts::rng::mixed(final(rng)@),
            ),
            final(rng)@ == (if old(self).core@.draws(old(self).config, now@) {
                old(rng)@.wrapping_add(crate::mcts::rng::GOLDEN_GAMMA)
            } else {
                old(rng)@
            }),
            final(self).core@.wf(),
            final(self).config == old(self).config,
            final(self).can_ponder == old(self).can_ponder,
    {
        proof {
            crate::proto::machine::healing_keeps(self.core@, self.config, now@);
        }
        self.heal_pending_game(now);
        let ghost ready = self.core@;
        if self.core.phase != Phase::Idle || self.core.user_id.as_str().is_empty() {
            return ;
        }
        let ghost wanted = |peer: crate::proto::message::UserView|
            peer.idle() && peer.user_id != ready.user_id;
        let mut candidates: Vec<String> = Vec::new();
        let mut i: usize = 0;
        assert(ready.peers.take(0) =~= Seq::empty());
        proof {
            reveal(Seq::filter);
        }
        while i < self.core.peers.len()
            invariant
                i <= self.core.peers@.len(),
                ready == self.core@,
                wanted == (|peer: crate::proto::message::UserView|
                    peer.idle() && peer.user_id != ready.user_id),
                candidates@.len() == ready.peers.take(i as int).filter(wanted).len(),
                forall|k: int|
                    0 <= k < candidates@.len() ==> (#[trigger] candidates@[k])@
                        == ready.peers.take(i as int).filter(wanted)[k].user_id,
            decreases self.core.peers@.len() - i,
        {
            proof {
                reveal(Seq::filter);
                let longer = ready.peers.take(i as int + 1);
                assert(longer.drop_last() =~= ready.peers.take(i as int));
                assert(longer.last() == self.core.peers@[i as int]@);
            }
            if self.core.peers[i].is_idle() && !same_text(
                self.core.peers[i].user_id.as_str(),
                self.core.user_id.as_str(),
            ) {
                candidates.push(self.core.peers[i].user_id.clone());
            }
            i += 1;
        }
        assert(ready.peers.take(i as int) =~= ready.peers);
        assert(ready.challengeable() == ready.peers.filter(wanted));
        match rng.below(candidates.len()) {
            Some(index) => {
                let target_user_id: String = candidates[index].clone();
                self.core.counters.challenges_sent = self.core.counters.challenges_sent + 1;
                assert(self.core@ =~= (BotView {
                    counters: Counters {
                        challenges_sent: (ready.counters.challenges_sent + 1) as u64,
                        ..ready.counters
                    },
                    ..ready
                }));
                self.core.send(
                    Outgoing::Challenge {
                        target_user_id,
                        rows: self.config.challenge_rows,
                        cols: self.config.challenge_cols,
                    },
                );
            },
            None => {},
        }
    }
}

/// What is sent with an action says what its search found: its score and depth,
/// the nodes it spent unless the action is a fallback, which was not searched,
/// and the whole milliseconds it took.
pub proof fn an_action_reports_its_search(outcome: SearchOutcome, from_fallback: bool, total: int)
    requires
        0 <= total,
        total / 1_000_000 <= i64::MAX,
    ensures
        ({
            let sent = diagnostics_of(outcome, from_fallback, total);
            &&& sent.score == outcome.score
            &&& sent.depth == outcome.depth
            &&& from_fallback ==> sent.nodes_evaluated == 0
            &&& !from_fallback ==> sent.nodes_evaluated == outcome.nodes
            &&& sent.time_ms * 1_000_000 <= total < (sent.time_ms + 1) * 1_000_000
        }),
{
}

/// A search that chose is reported as it answered; a fallback is reported with
/// its action and nothing else.
pub proof fn a_fallback_claims_nothing(answer: EngineAnswer, action: Action)
    ensures
        answer matches EngineAnswer::Chose(outcome) ==> outcome_of(answer, action) == outcome,
        answer !is Chose ==> {
            &&& outcome_of(answer, action).action == action
            &&& outcome_of(answer, action).score.bits == 0
            &&& outcome_of(answer, action).depth == 0
            &&& outcome_of(answer, action).nodes == 0
        },
{
}

/// A message that plays what a search chose plays that action, in the game the
/// search was for, under a request id of its own.
pub proof fn a_chosen_action_is_the_one_sent(
    message: OutgoingView,
    dispatch: DispatchView,
    outcome: SearchOutcome,
    from_fallback: bool,
    total: int,
)
    requires
        plays_chosen(message, dispatch, outcome, from_fallback, total),
    ensures
        match outcome.action {
            Action::Move { target } => message matches OutgoingView::Move {
                game_id,
                request_id,
                row,
                col,
                diagnostics,
            } && {
                &&& game_id == dispatch.game_id
                &&& row == target.row
                &&& col == target.col
                &&& request_id.len() == 36
                &&& diagnostics.score == outcome.score
            },
            Action::PlaceNeutrals { cells } => message matches OutgoingView::Neutrals {
                game_id,
                request_id,
                cells: sent,
                diagnostics,
            } && {
                &&& game_id == dispatch.game_id
                &&& sent.len() == 2
                &&& sent[0].row == cells[0].row && sent[0].col == cells[0].col
                &&& sent[1].row == cells[1].row && sent[1].col == cells[1].col
                &&& request_id.len() == 36
                &&& diagnostics.score == outcome.score
            },
        },
{
    let id = choose|id: Seq<char>|
        #![trigger random_uuid_text(id)]
        random_uuid_text(id) && message == crate::proto::message::action_message(
            dispatch.game_id,
            id,
            outcome.action,
            diagnostics_of(outcome, from_fallback, total),
        );
    assert(random_uuid_text(id));
}

/// A client that has not connected knows nothing, has nothing to do, and has
/// nothing in flight.
pub proof fn a_new_client_knows_nothing(config: BotConfig)
    ensures
        ({
            let v = new_bot(config);
            &&& v.phase == Phase::Disconnected
            &&& v.user_id.len() == 0
            &&& v.current_game is None
            &&& v.current_lobby is None
            &&& v.position is None
            &&& v.position_key is None
            &&& v.cancel is None
            &&& v.ponder is None
            &&& v.peers.len() == 0
            &&& v.effects.len() == 0
            &&& v.counters.errors == 0
            &&& v.counters.actions_sent == 0
            &&& v.wf()
            &&& v.has_room()
            &&& v.clock == crate::proto::config::fresh_clock(config)
        }),
{
}

/// A search is given exactly its allocation from the moment it begins, under its
/// own token, and is waited for through its ceiling and the grace on top.
pub proof fn a_search_gets_its_allocation(
    dispatch: DispatchView,
    started: int,
    policy: crate::proto::clock::StopPolicy,
    grace: int,
)
    ensures
        budget_of(dispatch, started, policy).deadline - started == dispatch.target,
        budget_of(dispatch, started, policy).ceiling - started == dispatch.ceiling,
        budget_of(dispatch, started, policy).policy == policy,
        budget_of(dispatch, started, policy).cancel == dispatch.cancel,
        patience(dispatch, grace) - dispatch.ceiling == grace,
{
}

/// What the engine says in time is its fallback, a refusal included; only its
/// silence is answered for it, with the position's first legal action.
pub proof fn silence_is_answered_with_the_first_legal_action(
    answer: FallbackAnswer,
    position: crate::game::StateView,
)
    ensures
        answer matches FallbackAnswer::Said(action) ==> fallback_of(answer, position) == action,
        answer is Silent && position.legal_actions.len() > 0 ==> fallback_of(answer, position)
            == Some(position.legal_actions[0]),
        answer is Silent && position.legal_actions.len() == 0 ==> fallback_of(
            answer,
            position,
        ) is None,
{
}

} // verus!
