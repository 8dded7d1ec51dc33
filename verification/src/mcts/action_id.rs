//! The flat action numbering of the 12x12 policy space.

use crate::game::{Action, Pos};
use vstd::prelude::*;

verus! {

/// Edge of the only board the policy space describes.
pub const BOARD: usize = 12;

/// Cells of that board.
pub const CELLS: usize = 144;

/// Size of the flat action space: 144 moves plus 144x144 ordered pair slots.
pub const ACTION_ID_COUNT: usize = 20_880;

/// `pos` is a cell of the 12x12 board.
pub open spec fn on_board(pos: Pos) -> bool {
    0 <= pos.row < BOARD && 0 <= pos.col < BOARD
}

/// Row-major number of a cell.
pub open spec fn cell_number(pos: Pos) -> int {
    pos.row * 12 + pos.col
}

/// The cell with a row-major number.
pub open spec fn cell_at(index: int) -> Pos {
    Pos { row: (index / 12) as i32, col: (index % 12) as i32 }
}

/// The actions that have a number: a move onto the board, or two different
/// cells of it.
pub open spec fn numbered(action: Action) -> bool {
    match action {
        Action::Move { target } => on_board(target),
        Action::PlaceNeutrals { cells } => on_board(cells[0]) && on_board(cells[1]) && cells[0]
            != cells[1],
    }
}

/// The flat number of an action. A pair's number does not depend on the order
/// its cells are named in.
pub open spec fn number_of(action: Action) -> int {
    match action {
        Action::Move { target } => cell_number(target),
        Action::PlaceNeutrals { cells } => {
            let a = cell_number(cells[0]);
            let b = cell_number(cells[1]);
            if a <= b {
                144 + a * 144 + b
            } else {
                144 + b * 144 + a
            }
        },
    }
}

/// The action with its pair, if it has one, in ascending cell order.
pub open spec fn ordered(action: Action) -> Action {
    match action {
        Action::Move { target } => action,
        Action::PlaceNeutrals { cells } => if cell_number(cells[0]) <= cell_number(cells[1]) {
            action
        } else {
            Action::PlaceNeutrals { cells: [cells[1], cells[0]] }
        },
    }
}

/// `id` is the number of some action: a cell, or a pair with `i < j`.
pub open spec fn is_number(id: int) -> bool {
    ||| 0 <= id < 144
    ||| 144 <= id < 20_880 && (id - 144) / 144 < (id - 144) % 144
}

/// The action with number `id`.
pub open spec fn action_numbered(id: int) -> Action {
    if id < 144 {
        Action::Move { target: cell_at(id) }
    } else {
        Action::PlaceNeutrals { cells: [cell_at((id - 144) / 144), cell_at((id - 144) % 144)] }
    }
}

/// Row-major number of a 12x12 cell.
fn cell(pos: Pos) -> (r: usize)
    requires
        on_board(pos),
    ensures
        r == cell_number(pos),
        r < CELLS,
{
    pos.row as usize * BOARD + pos.col as usize
}

/// The cell with number `index`.
fn pos_at(index: usize) -> (r: Pos)
    requires
        index < CELLS,
    ensures
        r == cell_at(index as int),
        on_board(r),
{
    Pos { row: (index / BOARD) as i32, col: (index % BOARD) as i32 }
}

/// The flat id of an action on a 12x12 board.
pub fn action_id(action: Action) -> (r: usize)
    requires
        numbered(action),
    ensures
        r == number_of(action),
        r < ACTION_ID_COUNT,
        is_number(r as int),
{
    proof {
        ids_round_trip(action);
    }
    match action {
        Action::Move { target } => cell(target),
        Action::PlaceNeutrals { cells } => {
            let a: usize = cell(cells[0]);
            let b: usize = cell(cells[1]);
            assert(a != b);
            if a <= b {
                CELLS + a * CELLS + b
            } else {
                CELLS + b * CELLS + a
            }
        },
    }
}

/// Inverse of [`action_id`]; `None` for an id outside the space or one that
/// encodes a degenerate `i >= j` pair.
pub fn action_from_id(id: usize) -> (r: Option<Action>)
    ensures
        r is Some <==> is_number(id as int),
        r matches Some(action) ==> action == action_numbered(id as int) && numbered(action),
{
    if id < CELLS {
        return Some(Action::Move { target: pos_at(id) });
    }
    let rest: usize = id - CELLS;
    if rest >= CELLS * CELLS {
        return None;
    }
    let i: usize = rest / CELLS;
    let j: usize = rest % CELLS;
    if i >= j {
        return None;
    }
    let cells = [pos_at(i), pos_at(j)];
    assert(cells =~= [cell_at(i as int), cell_at(j as int)]);
    Some(Action::PlaceNeutrals { cells })
}

/// Numbering an action and reading the number back gives the action, its pair
/// put in ascending order.
pub proof fn ids_round_trip(action: Action)
    requires
        numbered(action),
    ensures
        is_number(number_of(action)),
        action_numbered(number_of(action)) == ordered(action),
{
    match action {
        Action::Move { target } => {},
        Action::PlaceNeutrals { cells } => {
            let a = cell_number(cells[0]);
            let b = cell_number(cells[1]);
            let (i, j) = if a <= b {
                (a, b)
            } else {
                (b, a)
            };
            assert((i * 144 + j) / 144 == i && (i * 144 + j) % 144 == j);
            let back = [cell_at(i), cell_at(j)];
            if a <= b {
                assert(back =~= cells);
            } else {
                assert(back =~= [cells[1], cells[0]]);
            }
        },
    }
}

/// Every number names an action whose number it is.
pub proof fn numbers_round_trip(id: int)
    requires
        is_number(id),
    ensures
        numbered(action_numbered(id)),
        number_of(action_numbered(id)) == id,
{
    if id >= 144 {
        let i = (id - 144) / 144;
        let j = (id - 144) % 144;
        assert(0 <= i < j < 144);
        assert(cell_number(cell_at(i)) == i && cell_number(cell_at(j)) == j);
        assert(i * 144 + j == id - 144);
    }
}

/// Two actions share a number only when they are the same action, up to the
/// order a pair is named in.
pub proof fn ids_are_injective(first: Action, second: Action)
    requires
        numbered(first),
        numbered(second),
        number_of(first) == number_of(second),
    ensures
        ordered(first) == ordered(second),
{
    ids_round_trip(first);
    ids_round_trip(second);
}

/// A pair has one number, whichever cell is named first.
pub proof fn pair_ids_are_order_independent(a: Pos, b: Pos)
    requires
        on_board(a),
        on_board(b),
    ensures
        number_of(Action::PlaceNeutrals { cells: [a, b] }) == number_of(
            Action::PlaceNeutrals { cells: [b, a] },
        ),
{
}

/// A move's number is its cell's place in the grid of a 12x12 position.
pub proof fn a_move_is_numbered_like_its_cell(state: crate::game::StateView, target: Pos)
    requires
        state.wf(),
        state.rows == 12,
        state.cols == 12,
        0 <= target.row < 12,
        0 <= target.col < 12,
    ensures
        0 <= number_of(Action::Move { target }) < 144,
        state.cell(target) == Some(state.cells[number_of(Action::Move { target })]),
{
}

/// A pair's number is made of the numbers of its cells: the smaller picks a
/// block of 144 behind the moves, the larger the place in it.
pub proof fn a_pair_is_numbered_by_its_cells(a: Pos, b: Pos)
    requires
        numbered(Action::PlaceNeutrals { cells: [a, b] }),
    ensures
        ({
            let first = number_of(Action::Move { target: a });
            let second = number_of(Action::Move { target: b });
            let pair = number_of(Action::PlaceNeutrals { cells: [a, b] });
            &&& first < second ==> pair == 144 * (first + 1) + second
            &&& second < first ==> pair == 144 * (second + 1) + first
            &&& first != second
        }),
{
}

/// An action has a number exactly when every cell it names lies on the board
/// and, for a pair, they are two.
pub proof fn what_lies_on_the_board_is_numbered(action: Action)
    ensures
        numbered(action) <==> match action {
            Action::Move { target } => 0 <= target.row <= 11 && 0 <= target.col <= 11,
            Action::PlaceNeutrals { cells } => {
                &&& 0 <= cells[0].row <= 11 && 0 <= cells[0].col <= 11
                &&& 0 <= cells[1].row <= 11 && 0 <= cells[1].col <= 11
                &&& cells[0] != cells[1]
            },
        },
{
}

} // verus!
