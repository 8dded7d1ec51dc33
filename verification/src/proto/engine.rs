//! The engine seam.
//!
//! The client owns turn discipline, snapshot validation and cancellation; the
//! engine owns move choice and nothing else.

use crate::game::{Action, CellKind, Player, State, StateView};
use crate::proto::clock::{MoveAllocation, StopPolicy};
use crate::score::Score;
use crate::text::{quoted, same_text};
use crate::time::{Instant, MAX_NANOS};
use vstd::prelude::*;

verus! {

/// What a search is allowed to spend.
///
/// A search must stop at its deadline, or, while its root is unstable, at its
/// ceiling; and it must stop when its token is cancelled, because its position
/// has been superseded.
#[derive(Clone, Copy, Debug)]
pub struct SearchBudget {
    /// When the search aims to return by.
    pub deadline: Instant,
    /// When the search must return by, come what may.
    pub ceiling: Instant,
    /// Which visit-based stop rules apply.
    pub policy: StopPolicy,
    /// The token that is cancelled when the position is superseded.
    pub cancel: u64,
}

impl SearchBudget {
    /// The search must stop at `now`.
    pub open spec fn expired(self, now: int, cancelled: bool) -> bool {
        cancelled || now >= self.deadline@
    }

    /// The search must stop at `now` even counting its extension room.
    pub open spec fn exhausted(self, now: int, cancelled: bool) -> bool {
        cancelled || now >= self.ceiling@
    }

    /// A budget that ends at `deadline`, with no extension room.
    pub fn new(deadline: Instant, cancel: u64) -> (r: SearchBudget)
        ensures
            r.deadline == deadline,
            r.ceiling == deadline,
            r.policy == (StopPolicy { early_stop: false, extension: false, unstable_gap: 0 }),
            r.cancel == cancel,
    {
        SearchBudget { deadline, ceiling: deadline, policy: StopPolicy::off(), cancel }
    }

    /// The budget for an allocated action of a turn, measured from `started`.
    pub fn allocated(
        started: Instant,
        allocation: MoveAllocation,
        policy: StopPolicy,
        cancel: u64,
    ) -> (r: SearchBudget)
        requires
            started@ + allocation.target@ <= MAX_NANOS,
            started@ + allocation.ceiling@ <= MAX_NANOS,
        ensures
            r.deadline@ == started@ + allocation.target@,
            r.ceiling@ == started@ + allocation.ceiling@,
            r.policy == policy,
            r.cancel == cancel,
    {
        SearchBudget {
            deadline: allocation.target_deadline(started),
            ceiling: allocation.ceiling_deadline(started),
            policy,
            cancel,
        }
    }

    /// Whether the search must stop at `now`: its deadline is reached, or its
    /// token is cancelled.
    pub fn is_expired(&self, now: Instant, cancelled: bool) -> (r: bool)
        ensures
            r == (cancelled || now@ >= self.deadline@),
            r == self.expired(now@, cancelled),
    {
        cancelled || now.reached(self.deadline)
    }

    /// Whether the search must stop at `now` even counting its extension room.
    pub fn is_exhausted(&self, now: Instant, cancelled: bool) -> (r: bool)
        ensures
            r == (cancelled || now@ >= self.ceiling@),
            r == self.exhausted(now@, cancelled),
    {
        cancelled || now.reached(self.ceiling)
    }
}

/// A chosen action plus the diagnostics the server relays to spectators.
#[derive(Clone, Copy, Debug)]
pub struct SearchOutcome {
    /// The action to play.
    pub action: Action,
    /// Root score in the mover's frame.
    pub score: Score,
    /// Completed depth, or `0` for engines without one.
    pub depth: i32,
    /// Nodes or simulations spent.
    pub nodes: i64,
}

impl SearchOutcome {
    /// An outcome carrying only an action.
    pub fn new(action: Action) -> (r: SearchOutcome)
        ensures
            r == (SearchOutcome { action, score: Score { bits: 0 }, depth: 0, nodes: 0 }),
    {
        SearchOutcome { action, score: Score { bits: 0 }, depth: 0, nodes: 0 }
    }
}

/// Chooses an action for the side to move.
///
/// Returning `None` means "no action"; the client then waits for the next
/// authoritative snapshot.
pub trait SearchEngine {
    /// Picks an action for `state`, respecting `budget`.
    fn pick(&self, state: &State, budget: &SearchBudget) -> (r: Option<SearchOutcome>)
        requires
            state@.wf(),
    ;

    /// Short name for logs.
    fn name(&self) -> (r: &'static str)
        default_ensures
            r@ == "engine"@,
    {
        "engine"
    }

    /// A legal action to answer with if the search overruns its deadline, asked
    /// for *before* the search starts. The default is the first legal action.
    fn fallback(&self, state: &State) -> (r: Option<Action>)
        default_ensures
            r == first_legal(state@),
    {
        if state.legal_actions.len() == 0 {
            None
        } else {
            Some(state.legal_actions[0])
        }
    }

    /// Whether this engine can run a pondering session.
    fn can_ponder(&self) -> (r: bool)
        default_ensures
            !r,
    {
        false
    }
}

/// The first legal action, if there is one.
pub open spec fn first_legal(state: StateView) -> Option<Action> {
    if state.legal_actions.len() == 0 {
        None
    } else {
        Some(state.legal_actions[0])
    }
}

/// The reference engine: take the first capture, else the first legal action.
#[derive(Clone, Copy, Debug)]
pub struct GreedyEngine;

impl Default for GreedyEngine {
    fn default() -> GreedyEngine {
        GreedyEngine
    }
}

/// `action` moves onto an enemy's ordinary cell.
pub open spec fn captures(state: StateView, action: Action) -> bool {
    action matches Action::Move { target } && state.cell(target) matches Some(cell) && cell.kind
        == CellKind::Normal && cell.owner != state.current_player
}

/// `at` is the first legal action that captures.
pub open spec fn first_capture(state: StateView, at: int) -> bool {
    &&& 0 <= at < state.legal_actions.len()
    &&& captures(state, state.legal_actions[at])
    &&& forall|j: int| 0 <= j < at ==> !captures(state, #[trigger] state.legal_actions[j])
}

/// What the reference engine answers.
pub open spec fn greedy_answer(state: StateView, answer: Option<SearchOutcome>) -> bool {
    if state.legal_actions.len() == 0 {
        answer is None
    } else {
        &&& answer is Some
        &&& answer->0.depth == 1
        &&& answer->0.nodes == state.legal_actions.len()
        &&& (exists|at: int|
            #![trigger first_capture(state, at)]
            first_capture(state, at) && answer->0.action == state.legal_actions[at]
                && answer->0.score == (Score { bits: 0x3FF0_0000_0000_0000 })) || ({
            &&& forall|j: int|
                0 <= j < state.legal_actions.len() ==> !captures(
                    state,
                    #[trigger] state.legal_actions[j],
                )
            &&& answer->0.action == state.legal_actions[0]
            &&& answer->0.score == (Score { bits: 0 })
        })
    }
}

impl SearchEngine for GreedyEngine {
    fn pick(&self, state: &State, budget: &SearchBudget) -> (r: Option<SearchOutcome>)
        ensures
            greedy_answer(state@, r),
    {
        let mover: Player = state.current_player;
        let count: usize = state.legal_actions.len();
        let mut i: usize = 0;
        while i < count
            invariant
                i <= count,
                count == state.legal_actions@.len(),
                state@.wf(),
                mover == state@.current_player,
                forall|j: int|
                    0 <= j < i ==> !captures(state@, #[trigger] state@.legal_actions[j]),
            decreases count - i,
        {
            let action = state.legal_actions[i];
            if let Action::Move { target } = action {
                if let Some(cell) = state.at_checked(target) {
                    if cell.kind == CellKind::Normal && cell.owner != mover {
                        assert(first_capture(state@, i as int));
                        return Some(
                            SearchOutcome {
                                action,
                                score: Score { bits: 0x3FF0_0000_0000_0000 },
                                depth: 1,
                                nodes: count as i64,
                            },
                        );
                    }
                }
            }
            assert(!captures(state@, state@.legal_actions[i as int]));
            i += 1;
        }
        if count == 0 {
            return None;
        }
        Some(
            SearchOutcome {
                action: state.legal_actions[0],
                score: Score { bits: 0 },
                depth: 1,
                nodes: count as i64,
            },
        )
    }

    fn name(&self) -> (r: &'static str)
        ensures
            r@ == "greedy"@,
    {
        "greedy"
    }
}

/// Which engine the program should build.
#[derive(Clone, Copy, PartialEq, Eq, Debug, Structural)]
pub enum EngineKind {
    /// Tree search with the policy and value net. The engine the bot plays with.
    Mcts,
    /// The reference engine: deliberately weak and instant.
    Greedy,
    /// Iterative-deepening alpha-beta.
    AlphaBeta,
}

impl Default for EngineKind {
    fn default() -> (r: EngineKind)
        ensures
            r == EngineKind::Mcts,
    {
        EngineKind::Mcts
    }
}

/// An engine's name as it is compared: trimmed and in capitals.
pub open spec fn engine_name(value: Seq<char>) -> Seq<char> {
    crate::text::trimmed(value).map_values(|c: char| crate::text::capital(c))
}

/// The engine a name stands for.
pub open spec fn engine_named(name: Seq<char>) -> Option<EngineKind> {
    if name == ""@ {
        Some(EngineKind::Mcts)
    } else if name == "GREEDY"@ {
        Some(EngineKind::Greedy)
    } else if name == "ALPHABETA"@ || name == "ALPHA_BETA"@ {
        Some(EngineKind::AlphaBeta)
    } else if name == "MCTS"@ {
        Some(EngineKind::Mcts)
    } else {
        None
    }
}

impl EngineKind {
    /// The spelling of this engine.
    pub open spec fn spelling(self) -> Seq<char> {
        match self {
            EngineKind::Greedy => "GREEDY"@,
            EngineKind::AlphaBeta => "ALPHABETA"@,
            EngineKind::Mcts => "MCTS"@,
        }
    }

    /// Parses an engine's name. Case-insensitive; unknown values are an error
    /// rather than a silent fallback. An empty value means "unset".
    pub fn parse(value: &str) -> (r: Result<EngineKind, UnknownEngine>)
        ensures
            match engine_named(engine_name(value@)) {
                Some(kind) => r == Ok::<EngineKind, UnknownEngine>(kind),
                None => r matches Err(unknown) && unknown.0@ == value@,
            },
    {
        let name = value.trim().to_ascii_uppercase();
        let name: &str = name.as_str();
        if same_text(name, "") {
            return Ok(EngineKind::default());
        }
        if same_text(name, "GREEDY") {
            return Ok(EngineKind::Greedy);
        }
        if same_text(name, "ALPHABETA") || same_text(name, "ALPHA_BETA") {
            return Ok(EngineKind::AlphaBeta);
        }
        if same_text(name, "MCTS") {
            return Ok(EngineKind::Mcts);
        }
        Err(UnknownEngine(value.to_owned()))
    }

    /// The spelling of this engine.
    pub fn as_str(self) -> (r: &'static str)
        ensures
            r@ == self.spelling(),
    {
        match self {
            EngineKind::Greedy => "GREEDY",
            EngineKind::AlphaBeta => "ALPHABETA",
            EngineKind::Mcts => "MCTS",
        }
    }
}

/// An engine's own spelling names it.
pub proof fn spellings_parse_back(kind: EngineKind)
    ensures
        engine_named(kind.spelling()) == Some(kind),
        engine_name(kind.spelling()) == kind.spelling(),
{
    reveal_strlit("");
    reveal_strlit("GREEDY");
    reveal_strlit("ALPHABETA");
    reveal_strlit("ALPHA_BETA");
    reveal_strlit("MCTS");
    let name = kind.spelling();
    assert(crate::text::trimmed(name) == name);
    assert(engine_name(name) =~= name);
    assert(""@.len() == 0 && "GREEDY"@.len() == 6 && "ALPHABETA"@.len() == 9 && "ALPHA_BETA"@.len()
        == 10 && "MCTS"@.len() == 4);
}

/// A setting named an engine that does not exist.
#[derive(Clone, Debug)]
pub struct UnknownEngine(pub String);

impl UnknownEngine {
    /// The message for whoever made the setting.
    pub fn message(&self) -> (r: String)
        ensures
            r@ == "unknown SEARCH="@ + crate::text::quoted_text(self.0@)
                + "; expected MCTS, GREEDY or ALPHABETA"@,
    {
        let mut text = "unknown SEARCH=".to_owned();
        text.append(quoted(self.0.as_str()).as_str());
        text.append("; expected MCTS, GREEDY or ALPHABETA");
        text
    }
}

/// Three engines have names, one of them two, and the default stands for no
/// name at all. Nothing else names an engine.
pub proof fn these_names_and_no_others(name: Seq<char>)
    ensures
        engine_named(name) == Some(EngineKind::Greedy) <==> name == "GREEDY"@,
        engine_named(name) == Some(EngineKind::AlphaBeta) <==> name == "ALPHABETA"@ || name
            == "ALPHA_BETA"@,
        engine_named(name) == Some(EngineKind::Mcts) <==> name == "MCTS"@ || name == ""@,
        engine_named(name) is None <==> name != "GREEDY"@ && name != "ALPHABETA"@ && name
            != "ALPHA_BETA"@ && name != "MCTS"@ && name != ""@,
{
    reveal_strlit("");
    reveal_strlit("GREEDY");
    reveal_strlit("ALPHABETA");
    reveal_strlit("ALPHA_BETA");
    reveal_strlit("MCTS");
    assert(""@.len() == 0 && "GREEDY"@.len() == 6 && "ALPHABETA"@.len() == 9 && "ALPHA_BETA"@.len()
        == 10 && "MCTS"@.len() == 4);
}

/// White space around an engine's name does not matter.
pub proof fn space_around_a_name_does_not_matter(value: Seq<char>, space: char)
    requires
        crate::text::white_space(space),
    ensures
        engine_name(seq![space] + value) == engine_name(value),
        engine_name(value.push(space)) == engine_name(value),
{
    let led = seq![space] + value;
    assert(led[0] == space);
    assert(led.drop_first() =~= value);
    trailing_space_is_trimmed(value, space);
}

proof fn trailing_space_is_trimmed(value: Seq<char>, space: char)
    requires
        crate::text::white_space(space),
    ensures
        crate::text::trimmed(value.push(space)) == crate::text::trimmed(value),
    decreases value.len(),
{
    let text = value.push(space);
    if value.len() == 0 {
        assert(text.drop_first() =~= value);
    } else {
        assert(text[0] == value[0]);
        if crate::text::white_space(value[0]) {
            assert(text.drop_first() =~= value.drop_first().push(space));
            trailing_space_is_trimmed(value.drop_first(), space);
        } else {
            assert(text.last() == space);
            assert(text.drop_last() =~= value);
        }
    }
}

/// The case of an engine's name does not matter: names that agree letter by
/// letter once capitalised are compared as one.
pub proof fn the_case_of_a_name_does_not_matter(value: Seq<char>, other: Seq<char>)
    requires
        value.len() == other.len(),
        forall|i: int|
            0 <= i < value.len() ==> value[i] == #[trigger] other[i] || (('a' <= value[i] <= 'z')
                && other[i] as int == value[i] as int - 32) || (('a' <= other[i] <= 'z')
                && value[i] as int == other[i] as int - 32),
    ensures
        engine_name(value) == engine_name(other),
    decreases value.len(),
{
    if value.len() > 0 {
        assert(crate::text::white_space(value[0]) == crate::text::white_space(other[0]));
        let last = value.len() - 1;
        assert(value.last() == value[last] && other.last() == other[last]);
        assert(value[last] == other[last] || (('a' <= value[last] <= 'z') && other[last] as int
            == value[last] as int - 32) || (('a' <= other[last] <= 'z') && value[last] as int
            == other[last] as int - 32));
        assert(crate::text::white_space(value.last()) == crate::text::white_space(other.last()));
        if crate::text::white_space(value[0]) {
            let v = value.drop_first();
            let o = other.drop_first();
            assert forall|i: int| 0 <= i < v.len() implies v[i] == #[trigger] o[i] || (('a' <= v[i]
                <= 'z') && o[i] as int == v[i] as int - 32) || (('a' <= o[i] <= 'z') && v[i] as int
                == o[i] as int - 32) by {
                assert(v[i] == value[i + 1] && o[i] == other[i + 1]);
            }
            the_case_of_a_name_does_not_matter(v, o);
        } else if crate::text::white_space(value.last()) {
            let v = value.drop_last();
            let o = other.drop_last();
            assert forall|i: int| 0 <= i < v.len() implies v[i] == #[trigger] o[i] || (('a' <= v[i]
                <= 'z') && o[i] as int == v[i] as int - 32) || (('a' <= o[i] <= 'z') && v[i] as int
                == o[i] as int - 32) by {
                assert(v[i] == value[i] && o[i] == other[i]);
            }
            the_case_of_a_name_does_not_matter(v, o);
        } else {
            assert(engine_name(value) =~= engine_name(other)) by {
                assert forall|i: int| 0 <= i < value.len() implies crate::text::capital(value[i])
                    == crate::text::capital(#[trigger] other[i]) by {}
            }
        }
    } else {
        assert(value =~= other);
    }
}

/// The reference engine answers wherever there is an action, with a legal one,
/// and with one that takes an enemy's cell wherever one does.
pub proof fn the_reference_engine_captures_if_it_can(
    state: StateView,
    answer: Option<SearchOutcome>,
)
    requires
        greedy_answer(state, answer),
    ensures
        answer is None <==> state.legal_actions.len() == 0,
        answer matches Some(outcome) ==> {
            let takes = |action: Action|
                action matches Action::Move { target } && state.cell(target) matches Some(cell)
                    && cell.kind == CellKind::Normal && cell.owner != state.current_player;
            &&& state.legal_actions.contains(outcome.action)
            &&& (exists|i: int|
                0 <= i < state.legal_actions.len() && takes(#[trigger] state.legal_actions[i]))
                ==> takes(outcome.action)
            &&& takes(outcome.action) <==> outcome.score.bits == 0x3FF0_0000_0000_0000
            &&& !takes(outcome.action) <==> outcome.score.bits == 0
            &&& outcome.depth == 1
            &&& outcome.nodes == state.legal_actions.len()
        },
{
}

/// A search stops at its deadline, not before, and once due stays due; a
/// cancelled one is due at any time. Its ceiling is a deadline in the same way,
/// and the later of the two.
pub proof fn a_budget_runs_out_once(budget: SearchBudget, now: int, later: int)
    requires
        now <= later,
        budget.deadline@ <= budget.ceiling@,
    ensures
        budget.expired(now, true) && budget.exhausted(now, true),
        budget.expired(budget.deadline@, false) && !budget.expired(budget.deadline@ - 1, false),
        budget.exhausted(budget.ceiling@, false) && !budget.exhausted(budget.ceiling@ - 1, false),
        budget.expired(now, false) ==> budget.expired(later, false),
        budget.exhausted(now, false) ==> budget.exhausted(later, false),
        budget.exhausted(now, false) ==> budget.expired(now, false),
{
}

/// The answer of last resort is the first action of the position's own list,
/// and there is none only where nothing is legal.
pub proof fn the_first_legal_action_comes_first(state: StateView)
    ensures
        first_legal(state) is None <==> state.legal_actions.len() == 0,
        first_legal(state) matches Some(action) ==> state.legal_actions.first() == action
            && state.legal_actions.contains(action),
{
}

} // verus!
