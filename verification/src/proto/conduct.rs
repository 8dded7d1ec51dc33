//! What the client is seen to do, message by message: laws of
//! [`BotView::handled`] in terms of what arrives, what is known afterwards and
//! what is then asked for.
//!
//! A message finds the client as [`BotView::healed`] leaves it: as it was, unless
//! an accepted challenge has waited too long for its game.

use crate::game::{Action, CellKind, StateView};
use crate::proto::config::BotConfig;
use crate::proto::machine::{
    adds_only, key_of, stops, AnswerView, BotView, Counters, DispatchView, Driver, EffectView,
    GuardView, Phase,
};
use crate::proto::message::{Inbound, OutgoingView, Reading, UserView};
use vstd::prelude::*;

verus! {

/// The kinds of message that carry a snapshot of a game under way.
pub open spec fn bears_state(kind: Seq<char>) -> bool {
    ||| kind == "game_state"@
    ||| kind == "turn_change"@
    ||| kind == "move_made"@
    ||| kind == "neutrals_placed"@
    ||| kind == "player_eliminated"@
    ||| kind == "action_ack"@
}

/// The kinds of message differ, by their length or a letter.
proof fn kinds_differ()
    ensures
        "welcome"@.len() == 7,
        "users_update"@.len() == 12 && "users_update"@[0] == 'u',
        "bot_wanted"@.len() == 10 && "bot_wanted"@[0] == 'b',
        "lobby_joined"@.len() == 12 && "lobby_joined"@[0] == 'l' && "lobby_joined"@[6] == 'j',
        "lobby_closed"@.len() == 12 && "lobby_closed"@[0] == 'l' && "lobby_closed"@[6] == 'c',
        "challenge_received"@.len() == 18,
        "game_start"@.len() == 10 && "game_start"@[0] == 'g' && "game_start"@[8] == 'r',
        "multiplayer_game_start"@.len() == 22,
        "game_state"@.len() == 10 && "game_state"@[0] == 'g' && "game_state"@[8] == 't',
        "turn_change"@.len() == 11,
        "move_made"@.len() == 9,
        "player_eliminated"@.len() == 17,
        "neutrals_placed"@.len() == 15,
        "action_ack"@.len() == 10 && "action_ack"@[0] == 'a',
        "game_end"@.len() == 8,
        "error"@.len() == 5,
{
    reveal_strlit("welcome");
    reveal_strlit("users_update");
    reveal_strlit("bot_wanted");
    reveal_strlit("lobby_joined");
    reveal_strlit("lobby_closed");
    reveal_strlit("challenge_received");
    reveal_strlit("game_start");
    reveal_strlit("multiplayer_game_start");
    reveal_strlit("game_state");
    reveal_strlit("turn_change");
    reveal_strlit("move_made");
    reveal_strlit("player_eliminated");
    reveal_strlit("neutrals_placed");
    reveal_strlit("action_ack");
    reveal_strlit("game_end");
    reveal_strlit("error");
}

// ---------------------------------------------------------------- snapshots

/// A snapshot that names another game than ours changes nothing: not the
/// position, not its version, not the search in flight, and nothing is asked
/// for. Neither does one that arrives while we play no game, or a message that
/// carries none.
pub proof fn a_snapshot_of_another_game_is_ignored(
    v: BotView,
    config: BotConfig,
    can_ponder: bool,
    message: Inbound,
    now: int,
)
    requires
        bears_state(message.kind@),
        ({
            ||| message.game_id@.len() > 0 && v.current_game != Some(message.game_id@)
            ||| v.phase != Phase::InGame
            ||| v.current_game is None
            ||| message.snapshot is None
        }),
    ensures
        v.phase != Phase::InGame || v.current_game is Some ==> v.handled(
            config,
            can_ponder,
            message,
            now,
        ) == v,
        v.handled(config, can_ponder, message, now) == v.healed(config, now),
{
    kinds_differ();
}

/// A clean snapshot of our game becomes the position, under a new version and
/// with everything started for the old one cancelled, unless it is the one we
/// hold: then version and position stay. The game, the seat and the phase stay
/// in any case.
pub proof fn a_snapshot_of_our_game_is_followed(
    v: BotView,
    config: BotConfig,
    can_ponder: bool,
    message: Inbound,
    now: int,
)
    requires
        bears_state(message.kind@),
        v.phase == Phase::InGame,
        v.current_game is Some,
        message.game_id@.len() == 0 || Some(message.game_id@) == v.current_game,
        message.snapshot matches Some(Reading::Decoded(state)),
    ensures
        ({
            let state = (message.snapshot->0)->Decoded_0@;
            let w = v.handled(config, can_ponder, message, now);
            let held = v.position_key == Some((state.hash, state.game_over, state.winner));
            &&& w.phase == v.phase
            &&& w.current_game == v.current_game
            &&& w.seat == v.seat
            &&& w.position_key == Some((state.hash, state.game_over, state.winner))
            &&& !held ==> {
                &&& w.position == Some(state)
                &&& w.position_version == v.position_version.wrapping_add(1)
                &&& v.cancel matches Some(token) ==> w.effects.contains(
                    EffectView::Cancel { token },
                )
            }
            &&& held ==> w.position == v.position && w.position_version == v.position_version
        }),
{
    kinds_differ();
    let state = (message.snapshot->0)->Decoded_0@;
    let w = v.handled(config, can_ponder, message, now);
    let placed = v.installed(state);
    if v.position_key != Some(key_of(state)) {
        if let Some(token) = v.cancel {
            let k = v.effects.len() as int;
            assert(placed.effects[k] == (EffectView::Cancel { token }));
            assert(w.effects[k] == (EffectView::Cancel { token }));
        }
    }
}

/// A new position that is another seat's, or that ends the game, marks our turn
/// as over; one that is still ours to move in leaves the clock alone.
pub proof fn a_position_of_anothers_ends_our_turn(v: BotView, state: StateView)
    requires
        v.position_key != Some((state.hash, state.game_over, state.winner)),
    ensures
        state.game_over || state.current_player != v.seat ==> v.installed(state).clock.turn_ended,
        !state.game_over && state.current_player == v.seat ==> v.installed(state).clock == v.clock,
        v.installed(state).clock.turn == v.clock.turn,
        v.installed(state).clock.bank == v.clock.bank,
        v.installed(state).clock.fixed == v.clock.fixed,
        v.installed(state).clock.last_moves_left == v.clock.last_moves_left,
{
}

/// Once a position was somebody else's, our next search divides the whole turn
/// budget, whatever was spent before and however many actions were left when we
/// last moved.
pub proof fn our_next_turn_is_a_full_one(
    v: BotView,
    theirs: StateView,
    ours: StateView,
    driver: Driver,
)
    requires
        v.phase == Phase::InGame,
        v.current_game is Some,
        v.clock.fixed is None,
        v.clock.turn >= 100_000_000,
        v.clock.bank >= 0,
        v.position_key != Some((theirs.hash, theirs.game_over, theirs.winner)),
        theirs.game_over || theirs.current_player != v.seat,
        (theirs.hash, theirs.game_over, theirs.winner) != (
            ours.hash,
            ours.game_over,
            ours.winner,
        ),
        !ours.game_over,
        ours.current_player == v.seat,
        ours.moves_left > 0,
        v.searched_version != v.position_version.wrapping_add(1).wrapping_add(1),
    ensures
        v.installed(theirs).installed(ours).searching(driver).effects.last() matches
            EffectView::Search { dispatch, driver: by } && {
            &&& by == driver
            &&& dispatch.position == ours
            &&& ours.moves_left >= 3 ==> -1 <= 2 * dispatch.target - v.clock.turn <= 1
            &&& ours.moves_left == 2 ==> -5 <= 2 * (5 * dispatch.target - 3 * v.clock.turn) <= 5
            &&& ours.moves_left == 1 ==> dispatch.target == v.clock.turn
            &&& v.installed(theirs).installed(ours).searching(driver).clock.bank == v.clock.turn
        },
{
    let ready = v.installed(theirs).installed(ours);
    assert(ready.clock.turn_ended);
    crate::proto::clock::an_allocation_divides_the_turn_that_is_left(
        ready.clock,
        ours.moves_left,
    );
}

// ------------------------------------------------------------------ searches

/// A position of our own game in which we are to move is searched, at once and
/// as it is, when the message that brings it may start a search.
pub proof fn our_turn_is_searched(
    v: BotView,
    config: BotConfig,
    can_ponder: bool,
    message: Inbound,
    now: int,
)
    requires
        message.kind@ == "turn_change"@ || message.kind@ == "game_state"@,
        v.phase == Phase::InGame,
        v.current_game is Some,
        message.game_id@.len() == 0 || Some(message.game_id@) == v.current_game,
        message.snapshot matches Some(Reading::Decoded(state)),
        ({
            let state = (message.snapshot->0)->Decoded_0@;
            &&& v.position_key != Some((state.hash, state.game_over, state.winner))
            &&& !state.game_over
            &&& state.current_player == v.seat
            &&& state.moves_left > 0
        }),
        v.searched_version != v.position_version.wrapping_add(1),
        v.next_token < u64::MAX,
    ensures
        ({
            let state = (message.snapshot->0)->Decoded_0@;
            let w = v.handled(config, can_ponder, message, now);
            &&& w.effects.last() matches EffectView::Search { dispatch, driver } && {
                &&& dispatch.position == state
                &&& Some(dispatch.game_id) == v.current_game
                &&& dispatch.version == v.position_version.wrapping_add(1)
                &&& dispatch.seat == v.seat
                &&& dispatch.cancel == v.next_token
                &&& dispatch.target == v.clock.target(state.moves_left)
                &&& dispatch.ceiling == v.clock.ceiling(state.moves_left)
                &&& message.kind@ == "turn_change"@ ==> driver == Driver::TurnChange
                &&& message.kind@ == "game_state"@ ==> driver == Driver::GameState
            }
            &&& w.cancel == Some(v.next_token)
            &&& w.next_token == v.next_token + 1
            &&& w.searched_version == w.position_version
            &&& w.clock == v.clock.allocated(state.moves_left)
        }),
{
    kinds_differ();
}

/// Whatever arrives, what is searched is our own turn: the live position, in
/// the live game and at the live version, with us to move and actions left, and
/// only a message that may start a search does.
#[verifier::spinoff_prover]
#[verifier::rlimit(40)]
pub proof fn every_search_is_of_our_own_turn(
    v: BotView,
    config: BotConfig,
    can_ponder: bool,
    message: Inbound,
    now: int,
    k: int,
)
    requires
        v.effects.len() <= k < v.handled(config, can_ponder, message, now).effects.len(),
        v.handled(config, can_ponder, message, now).effects[k] is Search,
    ensures
        ({
            let w = v.handled(config, can_ponder, message, now);
            let dispatch = w.effects[k]->dispatch;
            &&& message.kind@ == "game_start"@ || message.kind@ == "multiplayer_game_start"@
                || message.kind@ == "game_state"@ || message.kind@ == "turn_change"@
            &&& w.phase == Phase::InGame
            &&& w.position == Some(dispatch.position)
            &&& w.current_game == Some(dispatch.game_id)
            &&& w.position_version == dispatch.version
            &&& w.seat == dispatch.seat
            &&& w.cancel == Some(dispatch.cancel)
            &&& dispatch.position.current_player == w.seat
            &&& !dispatch.position.game_over
            &&& dispatch.position.moves_left > 0
        }),
{
    kinds_differ();
    let w = v.handled(config, can_ponder, message, now);
    let ready = v.healed(config, now);
    healing_only_stops(v, config, now);
    if k < ready.effects.len() {
        assert(stops(ready.effects[k]));
    }
    if !crate::proto::machine::drives(message.kind@) {
        crate::proto::machine::only_a_driver_starts_a_search(v, config, can_ponder, message, now);
        assert(crate::proto::machine::quiet(w.effects[k]));
    } else if message.kind@ == "game_start"@ || message.kind@ == "multiplayer_game_start"@ {
        a_start_searches_our_own_turn(ready, config, can_ponder, message, now, k);
    } else {
        a_snapshot_searches_our_own_turn(ready, config, can_ponder, message, now, k);
    }
}

proof fn healing_only_stops(v: BotView, config: BotConfig, now: int)
    ensures
        adds_only(v, v.healed(config, now), |effect: EffectView| stops(effect)),
        v.effects.len() <= v.healed(config, now).effects.len(),
{
    let healed = v.healed(config, now);
    assert forall|k: int| v.effects.len() <= k < healed.effects.len() implies stops(
        #[trigger] healed.effects[k],
    ) by {}
}

/// What a search adds to the effects: cancellations, and itself.
proof fn searching_adds_one_search(v: BotView, driver: Driver)
    ensures
        ({
            let w = v.searching(driver);
            &&& v.effects.len() <= w.effects.len()
            &&& forall|k: int|
                0 <= k < v.effects.len() ==> #[trigger] w.effects[k] == v.effects[k]
            &&& forall|k: int|
                v.effects.len() <= k < w.effects.len() && (#[trigger] w.effects[k]) is Search ==> {
                    let dispatch = w.effects[k]->dispatch;
                    &&& w.phase == Phase::InGame
                    &&& w.position == Some(dispatch.position)
                    &&& w.current_game == Some(dispatch.game_id)
                    &&& w.position_version == dispatch.version
                    &&& w.seat == dispatch.seat
                    &&& w.cancel == Some(dispatch.cancel)
                    &&& dispatch.position.current_player == w.seat
                    &&& !dispatch.position.game_over
                    &&& dispatch.position.moves_left > 0
                }
        }),
{
}

/// Pondering adds no search and leaves what a search is about alone.
proof fn pondering_adds_no_search(v: BotView, config: BotConfig, can_ponder: bool, now: int)
    ensures
        ({
            let w = v.pondering(config, can_ponder, now);
            &&& v.effects.len() <= w.effects.len()
            &&& forall|k: int|
                0 <= k < v.effects.len() ==> #[trigger] w.effects[k] == v.effects[k]
            &&& forall|k: int|
                v.effects.len() <= k < w.effects.len() ==> (#[trigger] w.effects[k]) !is Search
            &&& w.phase == v.phase
            &&& w.position == v.position
            &&& w.current_game == v.current_game
            &&& w.position_version == v.position_version
            &&& w.seat == v.seat
            &&& w.cancel == v.cancel
        }),
{
}

/// Installing a position adds cancellations only.
proof fn installing_only_stops(v: BotView, state: StateView)
    ensures
        ({
            let w = v.installed(state);
            &&& v.effects.len() <= w.effects.len()
            &&& forall|k: int|
                0 <= k < v.effects.len() ==> #[trigger] w.effects[k] == v.effects[k]
            &&& forall|k: int|
                v.effects.len() <= k < w.effects.len() ==> stops(#[trigger] w.effects[k])
        }),
{
}

proof fn a_start_searches_our_own_turn(
    v: BotView,
    config: BotConfig,
    can_ponder: bool,
    message: Inbound,
    now: int,
    k: int,
)
    requires
        0 <= k < v.game_started(config, can_ponder, message, now).effects.len(),
        v.game_started(config, can_ponder, message, now).effects[k] is Search,
        k < v.effects.len() ==> v.effects[k] !is Search,
    ensures
        ({
            let w = v.game_started(config, can_ponder, message, now);
            let dispatch = w.effects[k]->dispatch;
            &&& w.phase == Phase::InGame
            &&& w.position == Some(dispatch.position)
            &&& w.current_game == Some(dispatch.game_id)
            &&& w.position_version == dispatch.version
            &&& w.seat == dispatch.seat
            &&& w.cancel == Some(dispatch.cancel)
            &&& dispatch.position.current_player == w.seat
            &&& !dispatch.position.game_over
            &&& dispatch.position.moves_left > 0
        }),
{
    if crate::proto::machine::start_accepted(message) {
        let state = (message.snapshot->0)->Decoded_0@;
        let seated = v.seated(config, message);
        let placed = seated.installed(state);
        let told = placed.with_effect(EffectView::GameStarted);
        let opened = told.searching(Driver::GameStart);
        installing_only_stops(seated, state);
        searching_adds_one_search(told, Driver::GameStart);
        pondering_adds_no_search(opened, config, can_ponder, now);
        assert forall|i: int| v.effects.len() <= i < seated.effects.len() implies stops(
            #[trigger] seated.effects[i],
        ) by {}
        assert forall|i: int| 0 <= i < v.effects.len() implies #[trigger] seated.effects[i]
            == v.effects[i] by {}
        if k < told.effects.len() {
            assert(told.effects[k] == opened.effects[k]);
            if k < placed.effects.len() {
                assert(placed.effects[k] == told.effects[k]);
                if k < seated.effects.len() {
                    assert(seated.effects[k] == placed.effects[k]);
                    if k < v.effects.len() {
                        assert(seated.effects[k] == v.effects[k]);
                    } else {
                        assert(stops(seated.effects[k]));
                    }
                } else {
                    assert(stops(placed.effects[k]));
                }
            }
        }
    }
}

proof fn a_snapshot_searches_our_own_turn(
    v: BotView,
    config: BotConfig,
    can_ponder: bool,
    message: Inbound,
    now: int,
    k: int,
)
    requires
        message.kind@ == "game_state"@ || message.kind@ == "turn_change"@,
        ({
            let driver = if message.kind@ == "game_state"@ {
                Driver::GameState
            } else {
                Driver::TurnChange
            };
            let w = v.driven(config, can_ponder, message, now, driver);
            &&& 0 <= k < w.effects.len()
            &&& w.effects[k] is Search
        }),
        k < v.effects.len() ==> v.effects[k] !is Search,
    ensures
        ({
            let driver = if message.kind@ == "game_state"@ {
                Driver::GameState
            } else {
                Driver::TurnChange
            };
            let w = v.driven(config, can_ponder, message, now, driver);
            let dispatch = w.effects[k]->dispatch;
            &&& w.phase == Phase::InGame
            &&& w.position == Some(dispatch.position)
            &&& w.current_game == Some(dispatch.game_id)
            &&& w.position_version == dispatch.version
            &&& w.seat == dispatch.seat
            &&& w.cancel == Some(dispatch.cancel)
            &&& dispatch.position.current_player == w.seat
            &&& !dispatch.position.game_over
            &&& dispatch.position.moves_left > 0
        }),
{
    let driver = if message.kind@ == "game_state"@ {
        Driver::GameState
    } else {
        Driver::TurnChange
    };
    let absorbed = v.absorbing(message, now);
    if v.absorbs(message) {
        let state = (message.snapshot->0)->Decoded_0@;
        installing_only_stops(v, state);
        let opened = absorbed.searching(driver);
        searching_adds_one_search(absorbed, driver);
        pondering_adds_no_search(opened, config, can_ponder, now);
        if k < absorbed.effects.len() {
            assert(absorbed.effects[k] == opened.effects[k]);
            if k < v.effects.len() {
                assert(absorbed.effects[k] == v.effects[k]);
            } else {
                assert(stops(absorbed.effects[k]));
            }
        }
    } else {
        assert(absorbed.effects[k] is Search);
        assert forall|i: int| v.effects.len() <= i < absorbed.effects.len() implies (
        #[trigger] absorbed.effects[i]) !is Search by {}
        if k < v.effects.len() {
            assert(absorbed.effects[k] == v.effects[k]);
        }
    }
}

/// A message of a kind we do not know, or one that only reports, starts nothing
/// and changes nothing but what healing changes.
pub proof fn an_unknown_message_is_ignored(
    v: BotView,
    config: BotConfig,
    can_ponder: bool,
    message: Inbound,
    now: int,
)
    requires
        !bears_state(message.kind@),
        message.kind@ != "welcome"@,
        message.kind@ != "users_update"@,
        message.kind@ != "bot_wanted"@,
        message.kind@ != "lobby_joined"@,
        message.kind@ != "lobby_closed"@,
        message.kind@ != "challenge_received"@,
        message.kind@ != "game_start"@,
        message.kind@ != "multiplayer_game_start"@,
        message.kind@ != "game_end"@,
        message.kind@ != "error"@,
    ensures
        v.handled(config, can_ponder, message, now) == v.healed(config, now),
{
}

// ----------------------------------------------------------------- pondering

/// What a session is asked to think about is somebody else's turn: the live
/// position of the live game, once, for the configured time, with no early stop
/// and no extension, under a token of its own.
pub proof fn a_session_thinks_about_anothers_turn(
    v: BotView,
    config: BotConfig,
    can_ponder: bool,
    now: int,
)
    requires
        v.next_token <= u64::MAX - 3,
        v.counters.ponder_steps < u64::MAX,
    ensures
        ({
            let w = v.pondering(config, can_ponder, now);
            let due = {
                &&& config.ponder
                &&& can_ponder
                &&& v.phase == Phase::InGame
                &&& v.current_game is Some
                &&& v.position is Some
                &&& !(v.position->0).game_over
                &&& (v.position->0).current_player != v.seat
                &&& v.pondered_version != v.position_version
            };
            &&& !due ==> w == v
            &&& due ==> {
                &&& w.pondered_version == v.position_version
                &&& w.counters.ponder_steps == v.counters.ponder_steps + 1
                &&& w.ponder is Some
                &&& Some((w.ponder->0).game_id) == v.current_game
                &&& w.effects.last() matches EffectView::Think { session, state, budget } && {
                    &&& session == (w.ponder->0).session
                    &&& Some(state) == v.position
                    &&& budget.deadline == now + config.ponder_budget@
                    &&& budget.ceiling == now + config.ponder_budget@
                    &&& !budget.policy.early_stop
                    &&& !budget.policy.extension
                    &&& budget.cancel == (w.ponder->0).cancel
                    &&& v.next_token <= budget.cancel < w.next_token
                }
                &&& w.position == v.position
                &&& w.position_version == v.position_version
                &&& w.cancel == v.cancel
            }
        }),
{
}

/// A session belongs to one game: the one we have is kept for its own game, and
/// for another it is cancelled and closed before a new one is opened.
pub proof fn a_session_belongs_to_one_game(v: BotView)
    requires
        v.current_game is Some,
        v.next_token <= u64::MAX - 3,
    ensures
        ({
            let w = v.with_session();
            let ours = v.ponder is Some && Some((v.ponder->0).game_id) == v.current_game;
            &&& ours ==> w == v
            &&& !ours ==> {
                &&& w.ponder is Some
                &&& Some((w.ponder->0).game_id) == v.current_game
                &&& w.effects.last() == (EffectView::OpenSession {
                    session: (w.ponder->0).session,
                })
                &&& v.next_token <= (w.ponder->0).session < w.next_token
            }
            &&& !ours && v.ponder is Some ==> {
                &&& w.effects.contains(EffectView::Cancel { token: (v.ponder->0).cancel })
                &&& w.effects.contains(EffectView::CloseSession { session: (v.ponder->0).session })
            }
        }),
{
    let w = v.with_session();
    if v.ponder is Some && Some((v.ponder->0).game_id) != v.current_game {
        let k = v.effects.len() as int;
        assert(w.effects[k] == (EffectView::Cancel { token: (v.ponder->0).cancel }));
        assert(w.effects[k + 1] == (EffectView::CloseSession {
            session: (v.ponder->0).session,
        }));
    }
}

/// A search goes to the session exactly when the session thinks about the
/// search's game, the position is still the one that was dispatched, and it is
/// our turn in it.
pub proof fn a_search_goes_to_the_session_of_its_game(v: BotView, dispatch: DispatchView)
    ensures
        v.offers(dispatch) is Some <==> {
            &&& v.ponder is Some
            &&& (v.ponder->0).game_id == dispatch.game_id
            &&& v.position_version == dispatch.version
            &&& v.phase == Phase::InGame
            &&& v.current_game is Some
            &&& v.position is Some
            &&& !(v.position->0).game_over
            &&& (v.position->0).current_player == v.seat
            &&& (v.position->0).moves_left > 0
        },
        v.offers(dispatch) matches Some(session) ==> session == (v.ponder->0).session,
{
}

/// A session that takes a search steps under the search's own token and counts
/// as having answered; one that does not is forgotten and closed.
pub proof fn a_session_takes_a_search_or_is_closed(v: BotView, token: u64, delivered: bool)
    requires
        v.ponder is Some,
        v.counters.ponder_answers < u64::MAX,
    ensures
        ({
            let w = v.handed(token, delivered);
            let slot = v.ponder->0;
            &&& delivered ==> {
                &&& w.ponder is Some
                &&& (w.ponder->0).session == slot.session
                &&& (w.ponder->0).game_id == slot.game_id
                &&& (w.ponder->0).cancel == token
                &&& w.counters.ponder_answers == v.counters.ponder_answers + 1
                &&& w.effects == v.effects
            }
            &&& !delivered ==> {
                &&& w.ponder is None
                &&& w.counters == v.counters
                &&& w.effects == v.effects.push(
                    EffectView::CloseSession { session: slot.session },
                )
            }
            &&& w.position == v.position
            &&& w.position_version == v.position_version
        }),
{
}

// ------------------------------------------------------------------- actions

/// An action may be sent exactly while we play its game at its version and in
/// its seat, the game goes on with us to move and as many actions left as when
/// it was chosen, and the live position allows it: a listed target for a move,
/// two different ordinary cells of our own, while neutrals may be placed, for a
/// placement.
pub proof fn an_action_may_be_sent_while_it_holds(v: BotView, guard: GuardView)
    ensures
        v.allows(guard) <==> {
            &&& v.phase == Phase::InGame
            &&& v.current_game == Some(guard.game_id)
            &&& v.position_version == guard.version
            &&& v.seat == guard.seat
            &&& v.position is Some
            &&& !(v.position->0).game_over
            &&& (v.position->0).current_player == guard.seat
            &&& (v.position->0).moves_left == guard.moves_left
            &&& guard.moves_left > 0
            &&& match guard.action {
                Action::Move { target } => (v.position->0).legal_targets.contains(target),
                Action::PlaceNeutrals { cells } => {
                    &&& (v.position->0).can_place_neutrals
                    &&& cells[0] != cells[1]
                    &&& (v.position->0).cell(cells[0]) matches Some(a) && a.kind
                        == CellKind::Normal && a.owner == guard.seat
                    &&& (v.position->0).cell(cells[1]) matches Some(b) && b.kind
                        == CellKind::Normal && b.owner == guard.seat
                },
            }
        },
{
}

/// The guard of a search's action holds it to the game, the version, the seat
/// and the actions left of the very position that was searched.
pub proof fn a_guard_is_the_searched_position(dispatch: DispatchView, action: Action)
    ensures
        ({
            let guard = crate::proto::machine::guard_of(dispatch, action);
            &&& guard.game_id == dispatch.game_id
            &&& guard.version == dispatch.version
            &&& guard.seat == dispatch.seat
            &&& guard.moves_left == dispatch.position.moves_left
            &&& guard.action == action
        }),
{
}

/// A search's own action is played wherever it has one. The fallback stands in
/// for a search that ran over, and for one that declined without having been
/// superseded, and for no other.
pub proof fn the_fallback_stands_in_for_a_missing_answer(
    answer: AnswerView,
    fallback: Option<Action>,
    cancelled: bool,
)
    ensures
        ({
            let settled = crate::proto::machine::answer_action(answer, fallback, cancelled);
            let stands_in = answer is Overran || (answer is Nothing && !cancelled);
            &&& answer matches AnswerView::Chose { action } ==> settled == Some((action, false))
            &&& stands_in && fallback is Some ==> settled == Some((fallback->0, true))
            &&& stands_in && fallback is None ==> settled is None
            &&& answer !is Chose && !stands_in ==> settled is None
        }),
{
}

/// Ending a search charges its time, cancels it if it ran over, counts a
/// fallback, and does nothing else.
pub proof fn ending_a_search_charges_its_time(
    v: BotView,
    dispatch: DispatchView,
    answer: AnswerView,
    fallback: Option<Action>,
    cancelled: bool,
    spent: int,
)
    requires
        v.counters.fallback_actions < u64::MAX,
        v.clock.bank >= 0,
        spent >= 0,
    ensures
        ({
            let w = v.answered(dispatch, answer, fallback, cancelled, spent);
            let fell_back = fallback is Some && (answer is Overran || (answer is Nothing
                && !cancelled));
            &&& v.clock.fixed is None && v.clock.bank >= spent ==> w.clock.bank == v.clock.bank
                - spent
            &&& v.clock.fixed is None && v.clock.bank < spent ==> w.clock.bank == 0
            &&& v.clock.fixed is Some ==> w.clock == v.clock
            &&& answer is Overran ==> w.effects == v.effects.push(
                EffectView::Cancel { token: dispatch.cancel },
            )
            &&& answer !is Overran ==> w.effects == v.effects
            &&& fell_back ==> w.counters.fallback_actions == v.counters.fallback_actions + 1
            &&& !fell_back ==> w.counters == v.counters
            &&& w.counters.actions_sent == v.counters.actions_sent
            &&& w.position == v.position
            &&& w.position_version == v.position_version
            &&& w.phase == v.phase
            &&& w.current_game == v.current_game
            &&& w.seat == v.seat
        }),
{
}

/// An action that still holds when its search ends counts as sent, one that
/// does not as dropped, and nothing else changes. At the wire only a drop is
/// counted.
pub proof fn an_action_is_sent_or_dropped(v: BotView, guard: GuardView)
    requires
        v.counters.has_room(),
    ensures
        ({
            let w = v.revalidated(guard);
            let x = v.written(Some(guard));
            &&& v.allows(guard) ==> {
                &&& w.counters.actions_sent == v.counters.actions_sent + 1
                &&& w.counters.stale_results_dropped == v.counters.stale_results_dropped
                &&& x == v
            }
            &&& !v.allows(guard) ==> {
                &&& w.counters.actions_sent == v.counters.actions_sent
                &&& w.counters.stale_results_dropped == v.counters.stale_results_dropped + 1
                &&& x == w
            }
            &&& w == (BotView { counters: w.counters, ..v })
            &&& v.written(None) == v
        }),
{
}

// ----------------------------------------------------------------- lifecycle

/// A welcome names us and puts us in the pool, and nothing is sent.
pub proof fn a_welcome_names_us(
    v: BotView,
    config: BotConfig,
    can_ponder: bool,
    message: Inbound,
    now: int,
)
    requires
        message.kind@ == "welcome"@,
    ensures
        ({
            let w = v.handled(config, can_ponder, message, now);
            let v = v.healed(config, now);
            &&& w.user_id == message.user_id@
            &&& w.username == message.username@
            &&& w.phase == Phase::Idle
            &&& w.effects == v.effects
            &&& w.position == v.position
            &&& w.counters == v.counters
        }),
{
    kinds_differ();
    let v = v.healed(config, now);
}

/// The list of peers is the last one broadcast, and nothing is done about it.
pub proof fn the_peers_are_the_last_broadcast(
    v: BotView,
    config: BotConfig,
    can_ponder: bool,
    message: Inbound,
    now: int,
)
    requires
        message.kind@ == "users_update"@,
    ensures
        ({
            let w = v.handled(config, can_ponder, message, now);
            let v = v.healed(config, now);
            &&& w.peers.len() == message.users@.len()
            &&& forall|i: int|
                0 <= i < w.peers.len() ==> {
                    &&& (#[trigger] w.peers[i]).user_id == message.users@[i].user_id@
                    &&& w.peers[i].username == message.users@[i].username@
                    &&& w.peers[i].in_game == message.users@[i].in_game
                    &&& w.peers[i].in_lobby == message.users@[i].in_lobby
                }
            &&& w == (BotView { peers: w.peers, ..v })
        }),
{
    kinds_differ();
    let v = v.healed(config, now);
}

/// A lobby that wants a bot is joined from the pool, by the names it gave, and
/// from nowhere else.
pub proof fn a_lobby_is_joined_from_the_pool(
    v: BotView,
    config: BotConfig,
    can_ponder: bool,
    message: Inbound,
    now: int,
)
    requires
        message.kind@ == "bot_wanted"@,
    ensures
        ({
            let w = v.handled(config, can_ponder, message, now);
            let v = v.healed(config, now);
            &&& v.phase != Phase::Idle ==> w == v
            &&& v.phase == Phase::Idle ==> {
                &&& w.effects == v.effects.push(
                    EffectView::Send {
                        message: OutgoingView::JoinLobby {
                            lobby_id: message.lobby_id@,
                            request_id: message.request_id@,
                        },
                        guard: None,
                    },
                )
                &&& w == (BotView { effects: w.effects, ..v })
            }
        }),
{
    kinds_differ();
    let v = v.healed(config, now);
}

/// Sitting down in a lobby leaves the pool, and the lobby is the one the
/// message describes, or names where it describes none.
pub proof fn a_lobby_takes_us_out_of_the_pool(
    v: BotView,
    config: BotConfig,
    can_ponder: bool,
    message: Inbound,
    now: int,
)
    requires
        message.kind@ == "lobby_joined"@,
    ensures
        ({
            let w = v.handled(config, can_ponder, message, now);
            let v = v.healed(config, now);
            &&& w.phase == Phase::InLobby
            &&& message.lobby matches Some(lobby) ==> w.current_lobby == Some(lobby.lobby_id@)
            &&& message.lobby is None ==> w.current_lobby == Some(message.lobby_id@)
            &&& w.effects == v.effects
            &&& w.current_game == v.current_game
            &&& w.position == v.position
        }),
{
    kinds_differ();
    let v = v.healed(config, now);
}

/// Back in the pool there is no game, no lobby, no position, no seat, no search
/// and no session, and what was started is cancelled.
pub open spec fn in_the_pool(v: BotView) -> bool {
    &&& v.phase == Phase::Idle
    &&& v.current_game is None
    &&& v.current_lobby is None
    &&& v.position is None
    &&& v.position_key is None
    &&& v.seat == 0
    &&& v.cancel is None
    &&& v.ponder is None
    &&& v.pending_game_since is None
}

/// `after` has moved on from `before`: the version is another, and the search
/// and the session there were are cancelled, the session closed.
pub open spec fn moved_on(before: BotView, after: BotView) -> bool {
    &&& after.position_version == before.position_version.wrapping_add(1)
    &&& before.cancel matches Some(token) ==> after.effects.contains(EffectView::Cancel { token })
    &&& before.ponder matches Some(slot) ==> {
        &&& after.effects.contains(EffectView::Cancel { token: slot.cancel })
        &&& after.effects.contains(EffectView::CloseSession { session: slot.session })
    }
}

proof fn idling_moves_on(v: BotView)
    ensures
        in_the_pool(v.idled()),
        moved_on(v, v.idled()),
        v.idled().counters == v.counters,
        v.idled().user_id == v.user_id,
        v.idled().username == v.username,
        v.idled().peers == v.peers,
{
    let w = v.idled();
    if let Some(token) = v.cancel {
        let k = v.effects.len() as int;
        assert(w.effects[k] == (EffectView::Cancel { token }));
    }
    if let Some(slot) = v.ponder {
        let k = w.effects.len() - 1;
        assert(w.effects[k] == (EffectView::CloseSession { session: slot.session }));
        assert(w.effects[k - 1] == (EffectView::Cancel { token: slot.cancel }));
    }
}

/// A lobby that closes is left, and puts us back in the pool unless a game is
/// under way, which it does not touch.
pub proof fn a_closing_lobby_ends_no_game(
    v: BotView,
    config: BotConfig,
    can_ponder: bool,
    message: Inbound,
    now: int,
)
    requires
        message.kind@ == "lobby_closed"@,
    ensures
        ({
            let w = v.handled(config, can_ponder, message, now);
            let v = v.healed(config, now);
            &&& w.current_lobby is None
            &&& v.phase == Phase::InGame ==> w == (BotView { current_lobby: None, ..v })
            &&& v.phase != Phase::InGame ==> in_the_pool(w) && moved_on(v, w)
        }),
{
    kinds_differ();
    let v = v.healed(config, now);
    let left = BotView { current_lobby: None, ..v };
    idling_moves_on(left);
}

/// A challenge is accepted from the pool, which it takes us out of at once, and
/// declined from anywhere else; either answer names the challenge it answers.
pub proof fn a_challenge_is_accepted_from_the_pool(
    v: BotView,
    config: BotConfig,
    can_ponder: bool,
    message: Inbound,
    now: int,
)
    requires
        message.kind@ == "challenge_received"@,
    ensures
        ({
            let w = v.handled(config, can_ponder, message, now);
            let v = v.healed(config, now);
            &&& v.phase == Phase::Idle ==> {
                &&& w.phase == Phase::InGame
                &&& w.pending_game_since == Some(now)
                &&& w.current_game == v.current_game
                &&& w.effects == v.effects.push(
                    EffectView::Send {
                        message: OutgoingView::AcceptChallenge {
                            challenge_id: message.challenge_id@,
                        },
                        guard: None,
                    },
                )
            }
            &&& v.phase != Phase::Idle ==> {
                &&& w.effects == v.effects.push(
                    EffectView::Send {
                        message: OutgoingView::DeclineChallenge {
                            challenge_id: message.challenge_id@,
                        },
                        guard: None,
                    },
                )
                &&& w == (BotView { effects: w.effects, ..v })
            }
        }),
{
    kinds_differ();
    let v = v.healed(config, now);
}

/// A challenge that was accepted and never became a game gives us back to the
/// pool once it has waited longer than the grace, and not before; a game under
/// way is never given up.
pub proof fn a_game_that_never_starts_is_given_up(v: BotView, config: BotConfig, now: int)
    ensures
        ({
            let w = v.healed(config, now);
            let waited_out = {
                &&& v.phase == Phase::InGame
                &&& v.current_game is None
                &&& v.pending_game_since is Some
                &&& now - v.pending_game_since->0 > config.pending_game_grace@
                &&& now >= v.pending_game_since->0
            };
            &&& waited_out ==> in_the_pool(w) && moved_on(v, w) && w.counters == v.counters
            &&& !waited_out ==> w == v
        }),
{
    idling_moves_on(v);
}

/// The end of our game, or one that names no game, is counted and puts us back
/// in the pool; the end of another changes nothing.
pub proof fn the_end_of_our_game_puts_us_back_in_the_pool(
    v: BotView,
    config: BotConfig,
    can_ponder: bool,
    message: Inbound,
    now: int,
)
    requires
        message.kind@ == "game_end"@,
        v.counters.games_finished < u64::MAX,
    ensures
        ({
            let w = v.handled(config, can_ponder, message, now);
            let v = v.healed(config, now);
            let ours = message.game_id@.len() == 0 || v.current_game == Some(message.game_id@);
            &&& ours ==> {
                &&& in_the_pool(w)
                &&& moved_on(v, w)
                &&& w.counters == (Counters {
                    games_finished: (v.counters.games_finished + 1) as u64,
                    ..v.counters
                })
            }
            &&& !ours ==> w == v
        }),
{
    kinds_differ();
    let v = v.healed(config, now);
    let counted = BotView {
        counters: Counters {
            games_finished: (v.counters.games_finished + 1) as u64,
            ..v.counters
        },
        ..v
    };
    idling_moves_on(counted);
}

/// A dead socket leaves nothing to act on: no game, no lobby, no position, no
/// name, no peers; what was started is cancelled and no version is reused.
pub proof fn a_dead_socket_leaves_nothing(v: BotView)
    ensures
        ({
            let w = v.disconnected();
            &&& w.phase == Phase::Disconnected
            &&& w.current_game is None
            &&& w.current_lobby is None
            &&& w.position is None
            &&& w.position_key is None
            &&& w.user_id.len() == 0
            &&& w.peers.len() == 0
            &&& w.cancel is None
            &&& w.ponder is None
            &&& w.pending_game_since is None
            &&& moved_on(v, w)
            &&& w.counters == v.counters
        }),
{
    let w = v.disconnected();
    if let Some(token) = v.cancel {
        let k = v.effects.len() as int;
        assert(w.effects[k] == (EffectView::Cancel { token }));
    }
    if let Some(slot) = v.ponder {
        let k = w.effects.len() - 1;
        assert(w.effects[k] == (EffectView::CloseSession { session: slot.session }));
        assert(w.effects[k - 1] == (EffectView::Cancel { token: slot.cancel }));
    }
}

// -------------------------------------------------------------------- starts

/// A start is accepted exactly when it carries a clean position, seats us at
/// its table, names its game, and, where several play, lists every seat once.
pub proof fn a_start_is_accepted_if_it_seats_us(message: Inbound)
    ensures
        crate::proto::machine::start_accepted(message) <==> {
            &&& message.snapshot is Some
            &&& message.snapshot->0 is Decoded
            &&& message.game_id@.len() > 0
            &&& 1 <= message.your_player
            &&& message.your_player <= ((message.snapshot->0)->Decoded_0).players
            &&& message.kind@ == "multiplayer_game_start"@ ==> {
                let seats = message.game_players@;
                let players = ((message.snapshot->0)->Decoded_0).players;
                &&& seats.len() == players
                &&& forall|i: int|
                    0 <= i < seats.len() ==> 1 <= (#[trigger] seats[i]).player_index
                        && seats[i].player_index <= players
                &&& forall|i: int, j: int|
                    0 <= i < seats.len() && 0 <= j < seats.len() && i != j ==> (
                    #[trigger] seats[i]).player_index != (#[trigger] seats[j]).player_index
            }
        },
{
}

/// An accepted start seats us in its game with its position and a full clock;
/// one that is not accepted changes nothing, and is counted only where its
/// position did not decode.
pub proof fn an_accepted_start_seats_us(
    v: BotView,
    config: BotConfig,
    can_ponder: bool,
    message: Inbound,
    now: int,
)
    requires
        message.kind@ == "game_start"@ || message.kind@ == "multiplayer_game_start"@,
        v.counters.rejected_snapshots < u64::MAX,
        message.snapshot matches Some(Reading::Decoded(state)) ==> state.players <= 255,
        v.next_token <= u64::MAX - 4,
    ensures
        ({
            let w = v.handled(config, can_ponder, message, now);
            let v = v.healed(config, now);
            let accepted = crate::proto::machine::start_accepted(message);
            &&& accepted ==> {
                let state = (message.snapshot->0)->Decoded_0@;
                &&& w.phase == Phase::InGame
                &&& w.current_game == Some(message.game_id@)
                &&& w.seat == message.your_player
                &&& w.position == Some(state)
                &&& w.position_version == v.position_version.wrapping_add(1)
                &&& w.pending_game_since is None
                &&& w.effects.contains(EffectView::GameStarted)
                &&& w.clock.turn == crate::proto::config::fresh_clock(config).turn
                &&& w.clock.fixed == crate::proto::config::fresh_clock(config).fixed
                &&& v.cancel matches Some(token) ==> w.effects.contains(
                    EffectView::Cancel { token },
                )
            }
            &&& !accepted && (message.snapshot matches Some(Reading::Rejected)) ==> w == (BotView {
                counters: Counters {
                    rejected_snapshots: (v.counters.rejected_snapshots + 1) as u64,
                    ..v.counters
                },
                ..v
            })
            &&& !accepted && !(message.snapshot matches Some(Reading::Rejected)) ==> w == v
        }),
{
    kinds_differ();
    let v = v.healed(config, now);
    if crate::proto::machine::start_accepted(message) {
        let state = (message.snapshot->0)->Decoded_0@;
        let seated = v.seated(config, message);
        let placed = seated.installed(state);
        let told = placed.with_effect(EffectView::GameStarted);
        let opened = told.searching(Driver::GameStart);
        let w = opened.pondering(config, can_ponder, now);
        installing_only_stops(seated, state);
        searching_adds_one_search(told, Driver::GameStart);
        pondering_adds_no_search(opened, config, can_ponder, now);
        let k = placed.effects.len() as int;
        assert(told.effects[k] == EffectView::GameStarted);
        assert(opened.effects[k] == told.effects[k]);
        assert(w.effects[k] == opened.effects[k]);
        if let Some(token) = v.cancel {
            let c = v.effects.len() as int;
            assert(seated.effects[c] == (EffectView::Cancel { token }));
            assert(placed.effects[c] == seated.effects[c]);
            assert(told.effects[c] == placed.effects[c]);
            assert(opened.effects[c] == told.effects[c]);
            assert(w.effects[c] == opened.effects[c]);
        }
    }
}

/// The opening of an accepted game is searched at once where it is ours.
pub proof fn our_opening_is_searched(
    v: BotView,
    config: BotConfig,
    can_ponder: bool,
    message: Inbound,
    now: int,
)
    requires
        message.kind@ == "game_start"@ || message.kind@ == "multiplayer_game_start"@,
        crate::proto::machine::start_accepted(message),
        v.next_token <= u64::MAX - 4,
        v.healed(config, now).position_version.wrapping_add(1) != 0,
        ({
            let state = (message.snapshot->0)->Decoded_0@;
            &&& state.players <= 255
            &&& !state.game_over
            &&& state.current_player == message.your_player
            &&& state.moves_left > 0
        }),
    ensures
        v.handled(config, can_ponder, message, now).effects.last() matches EffectView::Search {
            dispatch,
            driver,
        } && {
            &&& driver == Driver::GameStart
            &&& dispatch.position == (message.snapshot->0)->Decoded_0@
            &&& dispatch.game_id == message.game_id@
            &&& dispatch.seat == message.your_player
            &&& dispatch.version == v.healed(config, now).position_version.wrapping_add(1)
            &&& dispatch.target == crate::proto::config::fresh_clock(config).target(
                dispatch.position.moves_left,
            )
        },
{
    kinds_differ();
    let v = v.healed(config, now);
}

// -------------------------------------------------------------------- errors

/// A server error is counted and remembered, as a forfeit too where it says so.
/// Where it names our game it costs the position, and the search with it;
/// anywhere else it costs nothing.
pub proof fn an_error_costs_the_position_it_is_about(
    v: BotView,
    config: BotConfig,
    can_ponder: bool,
    message: Inbound,
    now: int,
)
    requires
        message.kind@ == "error"@,
        v.counters.has_room(),
    ensures
        ({
            let w = v.handled(config, can_ponder, message, now);
            let v = v.healed(config, now);
            let ours = message.game_id@.len() > 0 && v.current_game == Some(message.game_id@);
            let forfeit = "Defeated by illegal move"@.is_prefix_of(message.username@);
            &&& w.counters.errors == v.counters.errors + 1
            &&& forfeit ==> w.counters.illegal_moves == v.counters.illegal_moves + 1
            &&& !forfeit ==> w.counters.illegal_moves == v.counters.illegal_moves
            &&& w.last_error == Some(message.username@)
            &&& w.phase == v.phase
            &&& w.current_game == v.current_game
            &&& w.seat == v.seat
            &&& ours ==> {
                &&& w.position is None
                &&& w.position_key is None
                &&& w.position_version == v.position_version.wrapping_add(1)
                &&& w.cancel is None
                &&& v.last_resync is None || now - v.last_resync->0 >= 1_000_000_000
                    ==> w.effects.last() == (EffectView::Send {
                    message: OutgoingView::Resync { game_id: message.game_id@ },
                    guard: None,
                })
            }
            &&& !ours ==> w == (BotView { counters: w.counters, last_error: w.last_error, ..v })
        }),
{
    kinds_differ();
    let v = v.healed(config, now);
}

/// The server is asked for a clean position once a second at the most: at once
/// if it never was, and again only when a second has passed.
pub proof fn a_resync_is_asked_for_once_a_second(v: BotView, game_id: Seq<char>, now: int)
    ensures
        ({
            let w = v.resyncing(game_id, now);
            let due = v.last_resync is None || now - v.last_resync->0 >= 1_000_000_000;
            &&& due ==> {
                &&& w.last_resync == Some(now)
                &&& w.effects == v.effects.push(
                    EffectView::Send { message: OutgoingView::Resync { game_id }, guard: None },
                )
                &&& w == (BotView { last_resync: w.last_resync, effects: w.effects, ..v })
            }
            &&& !due ==> w == v
        }),
{
}

/// A snapshot of our game that does not decode is counted and costs the
/// position; a clean one is asked for, for our game.
pub proof fn a_snapshot_that_does_not_decode_costs_the_position(
    v: BotView,
    config: BotConfig,
    can_ponder: bool,
    message: Inbound,
    now: int,
)
    requires
        bears_state(message.kind@),
        v.phase == Phase::InGame,
        v.current_game is Some,
        message.game_id@.len() == 0 || Some(message.game_id@) == v.current_game,
        message.snapshot matches Some(Reading::Rejected),
        v.counters.has_room(),
    ensures
        ({
            let w = v.handled(config, can_ponder, message, now);
            &&& w.position is None
            &&& w.position_key is None
            &&& w.position_version == v.position_version.wrapping_add(1)
            &&& w.cancel is None
            &&& w.counters.rejected_snapshots == v.counters.rejected_snapshots + 1
            &&& w.phase == v.phase
            &&& w.current_game == v.current_game
            &&& w.searched_version == v.searched_version
            &&& v.last_resync is None || now - v.last_resync->0 >= 1_000_000_000
                ==> w.effects.last() == (EffectView::Send {
                message: OutgoingView::Resync { game_id: v.current_game->0 },
                guard: None,
            })
        }),
{
    kinds_differ();
}

// ---------------------------------------------------------------- challenger

/// A challenge goes out from the pool only, to a peer that is in nothing and is
/// not us, for the configured board, and is counted. Without such a peer, or a
/// name of our own, nothing happens.
pub proof fn a_challenge_goes_to_an_idle_peer(v: BotView, config: BotConfig, now: int, draw: u64)
    requires
        v.counters.challenges_sent < u64::MAX,
    ensures
        ({
            let w = v.ticked(config, now, draw);
            let v = v.healed(config, now);
            let could = v.phase == Phase::Idle && v.user_id.len() > 0 && exists|i: int|
                {
                    &&& 0 <= i < v.peers.len()
                    &&& (#[trigger] v.peers[i]).user_id.len() > 0
                    &&& !v.peers[i].in_game
                    &&& !v.peers[i].in_lobby
                    &&& v.peers[i].user_id != v.user_id
                };
            &&& !could ==> w == v
            &&& could ==> exists|i: int|
                {
                    &&& 0 <= i < v.peers.len()
                    &&& (#[trigger] v.peers[i]).user_id.len() > 0
                    &&& !v.peers[i].in_game
                    &&& !v.peers[i].in_lobby
                    &&& v.peers[i].user_id != v.user_id
                    &&& w.effects == v.effects.push(
                        EffectView::Send {
                            message: OutgoingView::Challenge {
                                target_user_id: v.peers[i].user_id,
                                rows: config.challenge_rows,
                                cols: config.challenge_cols,
                            },
                            guard: None,
                        },
                    )
                }
            &&& could ==> w.counters.challenges_sent == v.counters.challenges_sent + 1
            &&& w.phase == v.phase
        }),
        v.draws(config, now) <==> v.ticked(config, now, draw) != v.healed(config, now),
{
    let v = v.healed(config, now);
    let wanted = |peer: UserView| peer.idle() && peer.user_id != v.user_id;
    let candidates = v.peers.filter(wanted);
    assert(v.challengeable() =~= candidates);
    broadcast use vstd::seq_lib::group_filter_ensures;

    if candidates.len() > 0 {
        let at = draw as int % candidates.len() as int;
        let target = candidates[at];
        assert(candidates.contains(target));
        v.peers.lemma_filter_contains_rev(wanted, target);
        let i = choose|i: int| 0 <= i < v.peers.len() && v.peers[i] == target;
        assert(wanted(target));
        assert(v.peers[i].user_id.len() > 0);
    }
    if exists|i: int|
        {
            &&& 0 <= i < v.peers.len()
            &&& (#[trigger] v.peers[i]).user_id.len() > 0
            &&& !v.peers[i].in_game
            &&& !v.peers[i].in_lobby
            &&& v.peers[i].user_id != v.user_id
        } {
        let i = choose|i: int|
            {
                &&& 0 <= i < v.peers.len()
                &&& (#[trigger] v.peers[i]).user_id.len() > 0
                &&& !v.peers[i].in_game
                &&& !v.peers[i].in_lobby
                &&& v.peers[i].user_id != v.user_id
            };
        assert(wanted(v.peers[i]));
        assert(candidates.contains(v.peers[i]));
    }
}

/// Every peer that can be challenged has its own draws: the draw counts through
/// them in the order they were broadcast in, and starts over behind the last.
pub proof fn every_idle_peer_has_its_own_draws(
    v: BotView,
    config: BotConfig,
    now: int,
    draw: u64,
    round: nat,
    at: nat,
)
    requires
        ({
            let ready = v.healed(config, now);
            let idle = ready.peers.filter(
                |peer: UserView|
                    peer.user_id.len() > 0 && !peer.in_game && !peer.in_lobby && peer.user_id
                        != ready.user_id,
            );
            &&& ready.phase == Phase::Idle
            &&& ready.user_id.len() > 0
            &&& at < idle.len()
            &&& draw == round * idle.len() + at
        }),
    ensures
        ({
            let ready = v.healed(config, now);
            let idle = ready.peers.filter(
                |peer: UserView|
                    peer.user_id.len() > 0 && !peer.in_game && !peer.in_lobby && peer.user_id
                        != ready.user_id,
            );
            v.ticked(config, now, draw).effects.last() == (EffectView::Send {
                message: OutgoingView::Challenge {
                    target_user_id: idle[at as int].user_id,
                    rows: config.challenge_rows,
                    cols: config.challenge_cols,
                },
                guard: None,
            })
        }),
{
    let ready = v.healed(config, now);
    let named = |peer: UserView| peer.idle() && peer.user_id != ready.user_id;
    let spelt = |peer: UserView|
        peer.user_id.len() > 0 && !peer.in_game && !peer.in_lobby && peer.user_id != ready.user_id;
    assert(named =~= spelt);
    let idle = ready.peers.filter(spelt);
    assert(ready.challengeable() == idle);
    vstd::arithmetic::div_mod::lemma_fundamental_div_mod_converse(
        draw as int,
        idle.len() as int,
        round as int,
        at as int,
    );
}

} // verus!
