//! The position a decision is made about.
//!
//! The game's rules are applied elsewhere. A [`State`] holds what the rules
//! reported about one position, as plain values: the grid, the turn counters,
//! and the legal actions in the rules' own enumeration order.

use vstd::prelude::*;

verus! {

/// A seat, numbered from one. Zero is nobody.
pub type Player = u8;

/// A board cell.
#[derive(Clone, Copy, Debug, PartialEq, Eq, Structural, Hash)]
pub struct Pos {
    pub row: i32,
    pub col: i32,
}

/// One action. A turn is three of them.
#[derive(Clone, Copy, Debug, Eq)]
pub enum Action {
    /// Grow onto, or capture, one cell.
    Move { target: Pos },
    /// Turn two own cells neutral.
    PlaceNeutrals { cells: [Pos; 2] },
}

impl PartialEq for Action {
    fn eq(&self, other: &Action) -> (r: bool) {
        match (self, other) {
            (Action::Move { target: a }, Action::Move { target: b }) => *a == *b,
            (Action::PlaceNeutrals { cells: a }, Action::PlaceNeutrals { cells: b }) => {
                let r = a[0] == b[0] && a[1] == b[1];
                assert(r ==> *a =~= *b);
                r
            },
            _ => false,
        }
    }
}

impl vstd::std_specs::cmp::PartialEqSpecImpl for Action {
    open spec fn obeys_eq_spec() -> bool {
        true
    }

    open spec fn eq_spec(&self, other: &Action) -> bool {
        *self == *other
    }
}

/// What stands on a cell.
#[derive(Clone, Copy, Debug, PartialEq, Eq, Structural, Hash)]
pub enum CellKind {
    Empty,
    Normal,
    Base,
    Fortified,
    Neutral,
}

/// One cell: what stands on it, and whose it is.
#[derive(Clone, Copy, Debug, PartialEq, Eq, Structural, Hash)]
pub struct Cell {
    pub kind: CellKind,
    pub owner: Player,
}

/// One position, with what the rules say about it.
#[derive(Debug)]
pub struct State {
    pub rows: usize,
    pub cols: usize,
    pub players: usize,
    /// The grid, row by row.
    pub cells: Vec<Cell>,
    /// The seat to move.
    pub current_player: Player,
    /// Actions left in this turn.
    pub moves_left: u8,
    /// Whether each seat has spent its neutral placement; seat `p` is at `p - 1`.
    pub neutral_used: Vec<bool>,
    pub game_over: bool,
    /// The winner the position names, zero for none.
    pub winner: Player,
    /// The winner by the labelling rule, territory tiebreak included.
    pub outcome_winner: Player,
    /// The seat to move may place neutrals now.
    pub can_place_neutrals: bool,
    /// Every legal action of the seat to move, in enumeration order.
    pub legal_actions: Vec<Action>,
    /// Every cell the seat to move may legally move onto.
    pub legal_targets: Vec<Pos>,
    /// The position key, covering everything that distinguishes positions.
    pub hash: u64,
}

/// A [`State`] as mathematical values. Two states are the same position when
/// their views are equal.
#[verifier::ext_equal]
pub struct StateView {
    pub rows: int,
    pub cols: int,
    pub players: int,
    pub cells: Seq<Cell>,
    pub current_player: Player,
    pub moves_left: u8,
    pub neutral_used: Seq<bool>,
    pub game_over: bool,
    pub winner: Player,
    pub outcome_winner: Player,
    pub can_place_neutrals: bool,
    pub legal_actions: Seq<Action>,
    pub legal_targets: Seq<Pos>,
    pub hash: u64,
}

impl View for State {
    type V = StateView;

    open spec fn view(&self) -> StateView {
        StateView {
            rows: self.rows as int,
            cols: self.cols as int,
            players: self.players as int,
            cells: self.cells@,
            current_player: self.current_player,
            moves_left: self.moves_left,
            neutral_used: self.neutral_used@,
            game_over: self.game_over,
            winner: self.winner,
            outcome_winner: self.outcome_winner,
            can_place_neutrals: self.can_place_neutrals,
            legal_actions: self.legal_actions@,
            legal_targets: self.legal_targets@,
            hash: self.hash,
        }
    }
}

/// How many cells hold `kind`.
pub open spec fn tally(cells: Seq<Cell>, kind: CellKind) -> int
    decreases cells.len(),
{
    if cells.len() == 0 {
        0
    } else {
        tally(cells.drop_last(), kind) + if cells.last().kind == kind {
            1int
        } else {
            0int
        }
    }
}

impl StateView {
    /// `next` lies further into the game: it has fewer empty cells, or as many
    /// and more fortified ones, or as many of both and more neutral ones.
    ///
    /// Every action takes a position to one that it precedes. A move onto an
    /// empty cell spends it, a capture fortifies, and a neutral placement adds
    /// neutrals; nothing ever reverses one of the three.
    pub open spec fn precedes(self, next: StateView) -> bool {
        let empty = tally(self.cells, CellKind::Empty);
        let fortified = tally(self.cells, CellKind::Fortified);
        let neutral = tally(self.cells, CellKind::Neutral);
        let next_empty = tally(next.cells, CellKind::Empty);
        let next_fortified = tally(next.cells, CellKind::Fortified);
        let next_neutral = tally(next.cells, CellKind::Neutral);
        ||| next_empty < empty
        ||| next_empty == empty && next_fortified > fortified
        ||| next_empty == empty && next_fortified == fortified && next_neutral > neutral
    }

    /// The grid has a cell for every row and column, the neutral flags a slot
    /// for every seat, a seat's number fits 8 bits, and an action's place in
    /// the list fits 32.
    pub open spec fn wf(self) -> bool {
        &&& self.cells.len() == self.rows * self.cols
        &&& self.neutral_used.len() == self.players
        &&& self.players <= u8::MAX
        &&& self.legal_actions.len() <= u32::MAX
    }

    /// `pos` lies on the board.
    pub open spec fn on_board(self, pos: Pos) -> bool {
        0 <= pos.row < self.rows && 0 <= pos.col < self.cols
    }

    /// The cell at `pos`, if `pos` lies on the board.
    pub open spec fn cell(self, pos: Pos) -> Option<Cell> {
        if self.on_board(pos) {
            Some(self.cells[pos.row * self.cols + pos.col])
        } else {
            None
        }
    }
}

fn same_cells(a: &Vec<Cell>, b: &Vec<Cell>) -> (r: bool)
    ensures
        r == (a@ == b@),
{
    if a.len() != b.len() {
        return false;
    }
    let mut i: usize = 0;
    while i < a.len()
        invariant
            i <= a.len(),
            a.len() == b.len(),
            forall|j: int| 0 <= j < i ==> a@[j] == b@[j],
        decreases a.len() - i,
    {
        if a[i] != b[i] {
            return false;
        }
        i += 1;
    }
    assert(a@ =~= b@);
    true
}

fn same_flags(a: &Vec<bool>, b: &Vec<bool>) -> (r: bool)
    ensures
        r == (a@ == b@),
{
    if a.len() != b.len() {
        return false;
    }
    let mut i: usize = 0;
    while i < a.len()
        invariant
            i <= a.len(),
            a.len() == b.len(),
            forall|j: int| 0 <= j < i ==> a@[j] == b@[j],
        decreases a.len() - i,
    {
        if a[i] != b[i] {
            return false;
        }
        i += 1;
    }
    assert(a@ =~= b@);
    true
}

fn same_actions(a: &Vec<Action>, b: &Vec<Action>) -> (r: bool)
    ensures
        r == (a@ == b@),
{
    if a.len() != b.len() {
        return false;
    }
    let mut i: usize = 0;
    while i < a.len()
        invariant
            i <= a.len(),
            a.len() == b.len(),
            forall|j: int| 0 <= j < i ==> a@[j] == b@[j],
        decreases a.len() - i,
    {
        if a[i] != b[i] {
            return false;
        }
        i += 1;
    }
    assert(a@ =~= b@);
    true
}

fn same_targets(a: &Vec<Pos>, b: &Vec<Pos>) -> (r: bool)
    ensures
        r == (a@ == b@),
{
    if a.len() != b.len() {
        return false;
    }
    let mut i: usize = 0;
    while i < a.len()
        invariant
            i <= a.len(),
            a.len() == b.len(),
            forall|j: int| 0 <= j < i ==> a@[j] == b@[j],
        decreases a.len() - i,
    {
        if a[i] != b[i] {
            return false;
        }
        i += 1;
    }
    assert(a@ =~= b@);
    true
}

impl Clone for State {
    fn clone(&self) -> (r: State)
        ensures
            r@ == self@,
    {
        let r = State {
            rows: self.rows,
            cols: self.cols,
            players: self.players,
            cells: self.cells.clone(),
            current_player: self.current_player,
            moves_left: self.moves_left,
            neutral_used: self.neutral_used.clone(),
            game_over: self.game_over,
            winner: self.winner,
            outcome_winner: self.outcome_winner,
            can_place_neutrals: self.can_place_neutrals,
            legal_actions: self.legal_actions.clone(),
            legal_targets: self.legal_targets.clone(),
            hash: self.hash,
        };
        assert(r@ =~= self@);
        r
    }
}

/// How many cells hold `kind`.
fn count_kind(cells: &Vec<Cell>, kind: CellKind) -> (r: usize)
    ensures
        r == tally(cells@, kind),
{
    let mut count: usize = 0;
    let mut i: usize = 0;
    assert(cells@.take(0) =~= Seq::empty());
    while i < cells.len()
        invariant
            i <= cells@.len(),
            count <= i,
            count == tally(cells@.take(i as int), kind),
        decreases cells@.len() - i,
    {
        assert(cells@.take(i as int + 1).drop_last() =~= cells@.take(i as int));
        if cells[i].kind == kind {
            count += 1;
        }
        i += 1;
    }
    assert(cells@.take(i as int) =~= cells@);
    count
}

impl State {
    /// Whether the parts of the position fit together.
    pub fn is_wf(&self) -> (r: bool)
        ensures
            r == self@.wf(),
    {
        let held: usize = self.cells.len();
        match self.rows.checked_mul(self.cols) {
            Some(count) => held == count && self.neutral_used.len() == self.players
                && self.players <= 255 && self.legal_actions.len() as u64 <= u32::MAX as u64,
            None => {
                assert(held <= usize::MAX);
                false
            },
        }
    }

    /// Whether `next` lies further into the game.
    pub fn precedes(&self, next: &State) -> (r: bool)
        ensures
            r == self@.precedes(next@),
    {
        let empty: usize = count_kind(&self.cells, CellKind::Empty);
        let next_empty: usize = count_kind(&next.cells, CellKind::Empty);
        if next_empty != empty {
            return next_empty < empty;
        }
        let fortified: usize = count_kind(&self.cells, CellKind::Fortified);
        let next_fortified: usize = count_kind(&next.cells, CellKind::Fortified);
        if next_fortified != fortified {
            return next_fortified > fortified;
        }
        count_kind(&next.cells, CellKind::Neutral) > count_kind(&self.cells, CellKind::Neutral)
    }

    /// Whether both are the same position, field by field.
    pub fn same_position(&self, other: &State) -> (r: bool)
        ensures
            r == (self@ == other@),
    {
        let r = self.rows == other.rows && self.cols == other.cols && self.players == other.players
            && self.current_player == other.current_player && self.moves_left == other.moves_left
            && self.game_over == other.game_over && self.winner == other.winner
            && self.outcome_winner == other.outcome_winner && self.can_place_neutrals
            == other.can_place_neutrals && self.hash == other.hash && same_cells(
            &self.cells,
            &other.cells,
        ) && same_flags(&self.neutral_used, &other.neutral_used) && same_actions(
            &self.legal_actions,
            &other.legal_actions,
        ) && same_targets(&self.legal_targets, &other.legal_targets);
        assert(r ==> self@ =~= other@);
        r
    }

    /// The cell at `pos`, or `None` off the board.
    pub fn at_checked(&self, pos: Pos) -> (r: Option<Cell>)
        requires
            self@.wf(),
        ensures
            r == self@.cell(pos),
    {
        if pos.row < 0 || pos.col < 0 || pos.row as usize >= self.rows || pos.col as usize
            >= self.cols {
            return None;
        }
        let row: usize = pos.row as usize;
        let col: usize = pos.col as usize;
        assert(row * self.cols + col < self.rows * self.cols) by (nonlinear_arith)
            requires
                row < self.rows,
                col < self.cols,
        ;
        assert(0 <= row * self.cols) by (nonlinear_arith)
            requires
                0 <= row,
                0 <= self.cols,
        ;
        assert(self.cells.len() == self.rows * self.cols);
        Some(self.cells[row * self.cols + col])
    }

    /// Whether the seat to move may legally move onto `target`.
    pub fn legal_move(&self, target: Pos) -> (r: bool)
        ensures
            r == self@.legal_targets.contains(target),
    {
        let mut i: usize = 0;
        while i < self.legal_targets.len()
            invariant
                i <= self.legal_targets.len(),
                forall|j: int| 0 <= j < i ==> self.legal_targets@[j] != target,
            decreases self.legal_targets.len() - i,
        {
            if self.legal_targets[i] == target {
                assert(self.legal_targets@[i as int] == target);
                return true;
            }
            i += 1;
        }
        false
    }
}

/// A cell is found row by row: on the board there is one at every place, off it
/// there is none, and two places hold different entries of the grid.
pub proof fn a_cell_is_found_row_by_row(state: StateView, a: Pos, b: Pos)
    requires
        state.wf(),
    ensures
        state.cell(a) is Some <==> 0 <= a.row < state.rows && 0 <= a.col < state.cols,
        state.cell(a) is Some && state.cell(b) is Some ==> exists|i: int, j: int|
            {
                &&& 0 <= i < state.cells.len()
                &&& 0 <= j < state.cells.len()
                &&& state.cell(a) == Some(#[trigger] state.cells[i])
                &&& state.cell(b) == Some(#[trigger] state.cells[j])
                &&& a.row == b.row ==> j - i == b.col - a.col
                &&& a.row + 1 == b.row && a.col == b.col ==> j - i == state.cols
                &&& a.row == 0 && a.col == 0 ==> i == 0
            },
{
    if state.cell(a) is Some && state.cell(b) is Some {
        let i = a.row * state.cols + a.col;
        let j = b.row * state.cols + b.col;
        assert(0 <= i < state.rows * state.cols) by (nonlinear_arith)
            requires
                0 <= a.row < state.rows,
                0 <= a.col < state.cols,
                i == a.row * state.cols + a.col,
        ;
        assert(0 <= j < state.rows * state.cols) by (nonlinear_arith)
            requires
                0 <= b.row < state.rows,
                0 <= b.col < state.cols,
                j == b.row * state.cols + b.col,
        ;
        if a.row + 1 == b.row {
            assert(b.row * state.cols == a.row * state.cols + state.cols) by (nonlinear_arith)
                requires
                    b.row == a.row + 1,
            ;
        }
        if a.row == 0 {
            assert(a.row * state.cols == 0) by (nonlinear_arith)
                requires
                    a.row == 0,
            ;
        }
        assert(state.cell(a) == Some(state.cells[i]));
        assert(state.cell(b) == Some(state.cells[j]));
    }
}

} // verus!
