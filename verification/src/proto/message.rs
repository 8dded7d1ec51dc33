//! The wire message catalog.
//!
//! One flat inbound type, every field defaulted, as the server sends it; and
//! every message the bot sends. Reading and writing the wire text happens
//! elsewhere. So does decoding a snapshot: an inbound message arrives with the
//! position its snapshot decoded to, or with the fact that it was rejected.

use crate::game::{Action, Pos, State};
use crate::score::Score;
use vstd::prelude::*;

verus! {

/// A board coordinate as the protocol writes it.
#[derive(Clone, Copy, PartialEq, Eq, Debug, Structural)]
pub struct CellPos {
    /// Row, 0-based.
    pub row: i32,
    /// Column, 0-based.
    pub col: i32,
}

impl From<Pos> for CellPos {
    fn from(pos: Pos) -> (r: CellPos) {
        CellPos { row: pos.row, col: pos.col }
    }
}

impl vstd::std_specs::convert::FromSpecImpl<Pos> for CellPos {
    open spec fn obeys_from_spec() -> bool {
        true
    }

    open spec fn from_spec(pos: Pos) -> CellPos {
        CellPos { row: pos.row, col: pos.col }
    }
}

impl From<CellPos> for Pos {
    fn from(cell: CellPos) -> (r: Pos) {
        Pos { row: cell.row, col: cell.col }
    }
}

impl vstd::std_specs::convert::FromSpecImpl<CellPos> for Pos {
    open spec fn obeys_from_spec() -> bool {
        true
    }

    open spec fn from_spec(cell: CellPos) -> Pos {
        Pos { row: cell.row, col: cell.col }
    }
}

/// One entry of the lobby broadcast.
#[derive(Clone, Debug)]
pub struct UserInfo {
    /// Server-assigned user id: the handle a `challenge` targets.
    pub user_id: String,
    /// Display name.
    pub username: String,
    /// Whether the peer is mid-game.
    pub in_game: bool,
    /// Whether the peer is sitting in a lobby.
    pub in_lobby: bool,
}

/// A [`UserInfo`] as mathematical values.
#[verifier::ext_equal]
pub struct UserView {
    pub user_id: Seq<char>,
    pub username: Seq<char>,
    pub in_game: bool,
    pub in_lobby: bool,
}

impl View for UserInfo {
    type V = UserView;

    open spec fn view(&self) -> UserView {
        UserView {
            user_id: self.user_id@,
            username: self.username@,
            in_game: self.in_game,
            in_lobby: self.in_lobby,
        }
    }
}

impl UserView {
    /// The peer has an id and is in neither a game nor a lobby.
    pub open spec fn idle(self) -> bool {
        self.user_id.len() > 0 && !self.in_game && !self.in_lobby
    }
}

impl UserInfo {
    /// A peer that could accept a challenge right now.
    pub fn is_idle(&self) -> (r: bool)
        ensures
            r == self@.idle(),
    {
        !self.user_id.as_str().is_empty() && !self.in_game && !self.in_lobby
    }
}

/// Per-seat metadata attached to `multiplayer_game_start`.
#[derive(Clone, Debug)]
pub struct GamePlayerInfo {
    /// 1-based seat.
    pub player_index: i32,
    /// Display name.
    pub username: String,
    /// Whether the seat is a bot.
    pub is_bot: bool,
    /// Server-reported activity. Not trusted for rules purposes.
    pub is_active: bool,
}

/// The lobby descriptor carried by `lobby_joined`.
#[derive(Clone, Debug)]
pub struct LobbyInfo {
    /// Lobby id.
    pub lobby_id: String,
}

/// What a message's snapshot decoded to.
#[derive(Debug)]
pub enum Reading {
    /// The position it describes.
    Decoded(State),
    /// It describes none.
    Rejected,
}

/// Every server message the bot understands, in one tolerant struct.
///
/// The messages the bot acts on are named by [`Inbound::kind`]; anything else
/// is ignored.
#[derive(Debug)]
pub struct Inbound {
    /// Message discriminator.
    pub kind: String,
    /// Our server-assigned id (`welcome`).
    pub user_id: String,
    /// On `welcome`, our display name. On `error`, the reason.
    pub username: String,
    /// Correlation id echoed back on acks, errors and `bot_wanted`.
    pub request_id: String,
    /// Lobby id (`bot_wanted`).
    pub lobby_id: String,
    /// Lobby descriptor (`lobby_joined`).
    pub lobby: Option<LobbyInfo>,
    /// Game id.
    pub game_id: String,
    /// Our seat, 1-based (`game_start`, `multiplayer_game_start`).
    pub your_player: i32,
    /// The seat a message refers to.
    pub player: i32,
    /// Move row.
    pub row: Option<i32>,
    /// Move column.
    pub col: Option<i32>,
    /// The two cells of a `neutrals_placed`.
    pub cells: Vec<CellPos>,
    /// Actions left in the current turn, as the server counts them.
    pub moves_left: i32,
    /// Winning seat on `game_end`, else zero.
    pub winner: i32,
    /// Seat removed by `player_eliminated`.
    pub eliminated_player: i32,
    /// Challenge handle (`challenge_received`).
    pub challenge_id: String,
    /// Challenger's display name.
    pub from_username: String,
    /// Seat metadata (`multiplayer_game_start`).
    pub game_players: Vec<GamePlayerInfo>,
    /// Lobby population (`users_update`). Recorded, never acted on directly.
    pub users: Vec<UserInfo>,
    /// The authoritative position. Present on every state-bearing message.
    pub snapshot: Option<Reading>,
}

impl Default for Inbound {
    fn default() -> (r: Inbound)
        ensures
            r.kind@.len() == 0,
            r.user_id@.len() == 0,
            r.username@.len() == 0,
            r.request_id@.len() == 0,
            r.lobby_id@.len() == 0,
            r.lobby is None,
            r.game_id@.len() == 0,
            r.your_player == 0,
            r.player == 0,
            r.row is None,
            r.col is None,
            r.cells@.len() == 0,
            r.moves_left == 0,
            r.winner == 0,
            r.eliminated_player == 0,
            r.challenge_id@.len() == 0,
            r.from_username@.len() == 0,
            r.game_players@.len() == 0,
            r.users@.len() == 0,
            r.snapshot is None,
    {
        Inbound {
            kind: String::new(),
            user_id: String::new(),
            username: String::new(),
            request_id: String::new(),
            lobby_id: String::new(),
            lobby: None,
            game_id: String::new(),
            your_player: 0,
            player: 0,
            row: None,
            col: None,
            cells: Vec::new(),
            moves_left: 0,
            winner: 0,
            eliminated_player: 0,
            challenge_id: String::new(),
            from_username: String::new(),
            game_players: Vec::new(),
            users: Vec::new(),
            snapshot: None,
        }
    }
}

/// Search diagnostics forwarded with an action. Display-only.
#[derive(Clone, Copy, Debug, PartialEq, Eq, Structural)]
pub struct Diagnostics {
    /// Root score in the mover's frame.
    pub score: Score,
    /// Completed search depth, or `0` where the engine has none.
    pub depth: i32,
    /// Nodes or simulations spent.
    pub nodes_evaluated: i64,
    /// Wall-clock milliseconds spent choosing.
    pub time_ms: i64,
}

impl Default for Diagnostics {
    fn default() -> (r: Diagnostics)
        ensures
            r == (Diagnostics {
                score: Score { bits: 0 },
                depth: 0,
                nodes_evaluated: 0,
                time_ms: 0,
            }),
    {
        Diagnostics { score: Score { bits: 0 }, depth: 0, nodes_evaluated: 0, time_ms: 0 }
    }
}

/// Every message the bot sends.
#[derive(Clone, Debug)]
pub enum Outgoing {
    /// Play a cell. The server infers grow-vs-attack from the board.
    Move {
        game_id: String,
        request_id: String,
        row: i32,
        col: i32,
        diagnostics: Diagnostics,
    },
    /// Convert two of our own cells to neutral. Consumes the turn.
    Neutrals {
        game_id: String,
        request_id: String,
        cells: Vec<CellPos>,
        diagnostics: Diagnostics,
    },
    /// Answer a `bot_wanted` broadcast.
    JoinLobby { lobby_id: String, request_id: String },
    /// Accept a 1v1 challenge.
    AcceptChallenge { challenge_id: String },
    /// Refuse a 1v1 challenge (we are busy).
    DeclineChallenge { challenge_id: String },
    /// Open a 1v1 challenge against a peer (challenger mode).
    Challenge { target_user_id: String, rows: usize, cols: usize },
    /// Ask the server to re-send the authoritative snapshot.
    Resync { game_id: String },
}

/// An [`Outgoing`] message as mathematical values.
#[verifier::ext_equal]
pub enum OutgoingView {
    Move {
        game_id: Seq<char>,
        request_id: Seq<char>,
        row: i32,
        col: i32,
        diagnostics: Diagnostics,
    },
    Neutrals {
        game_id: Seq<char>,
        request_id: Seq<char>,
        cells: Seq<CellPos>,
        diagnostics: Diagnostics,
    },
    JoinLobby { lobby_id: Seq<char>, request_id: Seq<char> },
    AcceptChallenge { challenge_id: Seq<char> },
    DeclineChallenge { challenge_id: Seq<char> },
    Challenge { target_user_id: Seq<char>, rows: usize, cols: usize },
    Resync { game_id: Seq<char> },
}

impl View for Outgoing {
    type V = OutgoingView;

    open spec fn view(&self) -> OutgoingView {
        match *self {
            Outgoing::Move { game_id, request_id, row, col, diagnostics } => OutgoingView::Move {
                game_id: game_id@,
                request_id: request_id@,
                row,
                col,
                diagnostics,
            },
            Outgoing::Neutrals { game_id, request_id, cells, diagnostics } => {
                OutgoingView::Neutrals {
                    game_id: game_id@,
                    request_id: request_id@,
                    cells: cells@,
                    diagnostics,
                }
            },
            Outgoing::JoinLobby { lobby_id, request_id } => OutgoingView::JoinLobby {
                lobby_id: lobby_id@,
                request_id: request_id@,
            },
            Outgoing::AcceptChallenge { challenge_id } => OutgoingView::AcceptChallenge {
                challenge_id: challenge_id@,
            },
            Outgoing::DeclineChallenge { challenge_id } => OutgoingView::DeclineChallenge {
                challenge_id: challenge_id@,
            },
            Outgoing::Challenge { target_user_id, rows, cols } => OutgoingView::Challenge {
                target_user_id: target_user_id@,
                rows,
                cols,
            },
            Outgoing::Resync { game_id } => OutgoingView::Resync { game_id: game_id@ },
        }
    }
}

/// The message that plays `action`.
pub open spec fn action_message(
    game_id: Seq<char>,
    request_id: Seq<char>,
    action: Action,
    diagnostics: Diagnostics,
) -> OutgoingView {
    match action {
        Action::Move { target } => OutgoingView::Move {
            game_id,
            request_id,
            row: target.row,
            col: target.col,
            diagnostics,
        },
        Action::PlaceNeutrals { cells } => OutgoingView::Neutrals {
            game_id,
            request_id,
            cells: seq![
                CellPos { row: cells[0].row, col: cells[0].col },
                CellPos { row: cells[1].row, col: cells[1].col },
            ],
            diagnostics,
        },
    }
}

impl Outgoing {
    /// Builds the action message for a chosen [`Action`].
    pub fn action(
        game_id: &str,
        request_id: &str,
        action: Action,
        diagnostics: Diagnostics,
    ) -> (r: Outgoing)
        ensures
            r@ == action_message(game_id@, request_id@, action, diagnostics),
    {
        match action {
            Action::Move { target } => Outgoing::Move {
                game_id: game_id.to_owned(),
                request_id: request_id.to_owned(),
                row: target.row,
                col: target.col,
                diagnostics,
            },
            Action::PlaceNeutrals { cells } => {
                let mut pair: Vec<CellPos> = Vec::new();
                pair.push(CellPos::from(cells[0]));
                pair.push(CellPos::from(cells[1]));
                assert(pair@ =~= seq![
                    CellPos { row: cells[0].row, col: cells[0].col },
                    CellPos { row: cells[1].row, col: cells[1].col },
                ]);
                Outgoing::Neutrals {
                    game_id: game_id.to_owned(),
                    request_id: request_id.to_owned(),
                    cells: pair,
                    diagnostics,
                }
            },
        }
    }
}

/// The message that plays an action names the action's own cells in the
/// action's own order, the game it is for, and the request it is.
pub proof fn an_action_is_sent_as_it_is(
    game_id: Seq<char>,
    request_id: Seq<char>,
    action: Action,
    diagnostics: Diagnostics,
)
    ensures
        match action_message(game_id, request_id, action, diagnostics) {
            OutgoingView::Move { game_id: g, request_id: r, row, col, diagnostics: d } => {
                &&& action == (Action::Move { target: Pos { row, col } })
                &&& g == game_id
                &&& r == request_id
                &&& d == diagnostics
            },
            OutgoingView::Neutrals { game_id: g, request_id: r, cells, diagnostics: d } => {
                &&& action is PlaceNeutrals
                &&& cells.len() == 2
                &&& cells[0].row == action->cells[0].row && cells[0].col == action->cells[0].col
                &&& cells[1].row == action->cells[1].row && cells[1].col == action->cells[1].col
                &&& g == game_id
                &&& r == request_id
                &&& d == diagnostics
            },
            _ => false,
        },
{
}

/// A peer can be challenged when it has an id and is neither in a game nor in a
/// lobby.
pub proof fn an_idle_peer_is_in_nothing(peer: UserView)
    ensures
        peer.idle() <==> peer.user_id.len() > 0 && !(peer.in_game || peer.in_lobby),
{
}

/// A coordinate written for the wire and read back is the same cell, and so is
/// one read and written.
pub proof fn a_cell_reads_back(pos: Pos, cell: CellPos)
    ensures
        <Pos as vstd::std_specs::convert::FromSpec<CellPos>>::from_spec(
            <CellPos as vstd::std_specs::convert::FromSpec<Pos>>::from_spec(pos),
        ) == pos,
        <CellPos as vstd::std_specs::convert::FromSpec<Pos>>::from_spec(pos).row == pos.row,
        <CellPos as vstd::std_specs::convert::FromSpec<Pos>>::from_spec(pos).col == pos.col,
        <Pos as vstd::std_specs::convert::FromSpec<CellPos>>::from_spec(cell).row == cell.row,
        <Pos as vstd::std_specs::convert::FromSpec<CellPos>>::from_spec(cell).col == cell.col,
{
}

} // verus!
