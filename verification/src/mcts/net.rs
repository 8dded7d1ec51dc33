//! The policy net's shapes: the encoding of a position as input planes, and
//! the validation of an exported artifact.
//!
//! The arithmetic of inference is floating point and lives elsewhere. What is
//! decided here is what goes in, and whether an artifact is a net that can be
//! run at all: declared shape against actual shape, and every weight for
//! finiteness, in one pass, at load time.
//!
//! Weights are held as the bit patterns of the 64-bit values the artifact
//! writes; inference narrows them to 32 bits.

use crate::game::{Cell, CellKind, Player, State, StateView};
use crate::mcts::action_id::BOARD;
use crate::text::{decimal, push_decimal, push_signed, quoted, quoted_text, same_text, signed_decimal};
use vstd::prelude::*;

verus! {

/// Number of input planes.
pub const PLANES: usize = 13;

/// Number of distinct cell symbols the first eight planes one-hot encode.
pub const SYMBOLS: usize = 8;

/// Positions a batched pass processes in one interleaved group.
pub const BATCH_LANES: usize = 8;

/// Magnitudes from this bit pattern on narrow to an infinity, or are one, or
/// are not a number.
pub const TOO_LARGE: u64 = 0x47EF_FFFF_F000_0000;

// ---------------------------------------------------------------- encoding

/// Cell symbol in the mover's frame: `0` empty, `1` neutral, `2`/`3` own/enemy
/// base, `4`/`5` own/enemy normal, `6`/`7` own/enemy fortified.
pub open spec fn symbol_of(cell: Cell, mover: Player) -> u8 {
    let own = cell.owner == mover;
    match cell.kind {
        CellKind::Empty => 0,
        CellKind::Neutral => 1,
        CellKind::Base => if own {
            2
        } else {
            3
        },
        CellKind::Normal => if own {
            4
        } else {
            5
        },
        CellKind::Fortified => if own {
            6
        } else {
            7
        },
    }
}

/// Cell symbol in the mover's frame.
pub fn symbol(cell: Cell, mover: Player) -> (r: u8)
    ensures
        r == symbol_of(cell, mover),
        r < SYMBOLS,
{
    let own = cell.owner == mover;
    match cell.kind {
        CellKind::Empty => 0,
        CellKind::Neutral => 1,
        CellKind::Base => if own {
            2
        } else {
            3
        },
        CellKind::Normal => if own {
            4
        } else {
            5
        },
        CellKind::Fortified => if own {
            6
        } else {
            7
        },
    }
}

/// The compact encoding of one position.
#[derive(Clone, Debug, PartialEq, Eq)]
pub struct Encoded {
    /// Per-cell symbol in the mover's frame, row-major.
    pub sym: [u8; 144],
    /// Actions remaining this turn, `1..=3`.
    pub moves_left: u8,
    /// Whether the mover has already spent its neutral placement.
    pub nu_own: bool,
    /// Whether the opponent has already spent its neutral placement.
    pub nu_opp: bool,
}

/// A position the net can be asked about: 12x12, two players, one of them to
/// move.
pub open spec fn encodable(state: StateView) -> bool {
    &&& state.wf()
    &&& state.rows == BOARD
    &&& state.cols == BOARD
    &&& state.players == 2
    &&& state.current_player == 1 || state.current_player == 2
}

/// `input` is the encoding of `state`: every cell's symbol, the actions left,
/// and who has spent the neutral placement, all from the mover's chair.
pub open spec fn encodes(state: StateView, input: Encoded) -> bool {
    &&& forall|i: int|
        0 <= i < 144 ==> #[trigger] input.sym@[i] == symbol_of(
            state.cells[i],
            state.current_player,
        )
    &&& input.moves_left == state.moves_left
    &&& input.nu_own == state.neutral_used[state.current_player - 1]
    &&& input.nu_opp == state.neutral_used[2 - state.current_player]
}

impl Encoded {
    /// Encodes a 12x12 two-player position from the current mover's point of
    /// view.
    pub fn from_state(state: &State) -> (r: Encoded)
        requires
            encodable(state@),
        ensures
            encodes(state@, r),
            forall|i: int|
                0 <= i < 144 ==> #[trigger] r.sym@[i] == symbol_of(
                    state@.cells[i],
                    state@.current_player,
                ),
            r.moves_left == state@.moves_left,
            r.nu_own == state@.neutral_used[state@.current_player - 1],
            r.nu_opp == state@.neutral_used[2 - state@.current_player],
    {
        let mover: Player = state.current_player;
        let opponent: Player = if mover == 1 {
            2
        } else {
            1
        };
        let mut sym = [0u8;144];
        let mut i: usize = 0;
        while i < 144
            invariant
                i <= 144,
                state@.cells.len() == 144,
                mover == state@.current_player,
                forall|j: int|
                    0 <= j < i ==> #[trigger] sym@[j] == symbol_of(state@.cells[j], mover),
            decreases 144 - i,
        {
            sym[i] = symbol(state.cells[i], mover);
            i += 1;
        }
        Encoded {
            sym,
            moves_left: state.moves_left,
            nu_own: state.neutral_used[mover as usize - 1],
            nu_opp: state.neutral_used[opponent as usize - 1],
        }
    }
}

/// The plane that is constantly one for a turn with `moves_left` actions left:
/// the count, kept within one to three, picks one of three planes.
pub open spec fn turn_plane(moves_left: u8) -> int {
    if moves_left <= 1 {
        8
    } else if moves_left == 2 {
        9
    } else {
        10
    }
}

/// Whether cell `i` of plane `p` is one.
pub open spec fn lit(input: Encoded, p: int, i: int) -> bool {
    if p < 8 {
        (if input.sym@[i] <= 7 {
            input.sym@[i] as int
        } else {
            7
        }) == p
    } else if p < 11 {
        p == turn_plane(input.moves_left)
    } else if p == 11 {
        input.nu_own
    } else {
        input.nu_opp
    }
}

fn is_lit(input: &Encoded, p: usize, i: usize) -> (r: bool)
    requires
        p < PLANES,
        i < 144,
    ensures
        r == lit(*input, p as int, i as int),
{
    if p < SYMBOLS {
        let own: usize = input.sym[i] as usize;
        if own <= 7 {
            own == p
        } else {
            p == 7
        }
    } else if p < 11 {
        let plane: usize = if input.moves_left <= 1 {
            8
        } else if input.moves_left == 2 {
            9
        } else {
            10
        };
        p == plane
    } else if p == 11 {
        input.nu_own
    } else {
        input.nu_opp
    }
}

/// `planes` are the input planes of `input`, plane after plane, cell after cell.
pub open spec fn planes_of(input: Encoded, planes: Seq<bool>) -> bool {
    &&& planes.len() == 13 * 144
    &&& forall|p: int, i: int|
        0 <= p < 13 && 0 <= i < 144 ==> #[trigger] planes[p * 144 + i] == lit(input, p, i)
}

/// `planes` are the input planes of `group`, the lanes of one cell next to each
/// other.
pub open spec fn lanes_of(group: Seq<Encoded>, planes: Seq<bool>) -> bool {
    &&& planes.len() == 13 * 144 * 8
    &&& forall|p: int, i: int, lane: int|
        0 <= p < 13 && 0 <= i < 144 && 0 <= lane < 8 ==> #[trigger] planes[(p * 144 + i) * 8 + lane]
            == (lane < group.len() && lit(group[lane], p, i))
}

/// The input planes of one position, plane after plane, cell after cell.
pub fn input_planes(input: &Encoded) -> (r: Vec<bool>)
    ensures
        planes_of(*input, r@),
        r@.len() == 13 * 144,
        forall|p: int, i: int|
            0 <= p < 13 && 0 <= i < 144 ==> #[trigger] r@[p * 144 + i] == lit(*input, p, i),
{
    let mut out: Vec<bool> = Vec::new();
    let mut k: usize = 0;
    while k < 1872
        invariant
            k <= 1872,
            out@.len() == k,
            forall|j: int| 0 <= j < k ==> #[trigger] out@[j] == lit(*input, j / 144, j % 144),
        decreases 1872 - k,
    {
        out.push(is_lit(input, k / 144, k % 144));
        k += 1;
    }
    assert forall|p: int, i: int| 0 <= p < 13 && 0 <= i < 144 implies #[trigger] out@[p * 144 + i]
        == lit(*input, p, i) by {
        assert((p * 144 + i) / 144 == p && (p * 144 + i) % 144 == i);
    }
    out
}

/// The input planes of a group of positions, interleaved: the lanes of one cell
/// lie next to each other, and a lane without a position stays zero.
pub fn batch_planes(group: &Vec<Encoded>) -> (r: Vec<bool>)
    requires
        group@.len() <= BATCH_LANES,
    ensures
        lanes_of(group@, r@),
        r@.len() == 13 * 144 * 8,
        forall|p: int, i: int, lane: int|
            0 <= p < 13 && 0 <= i < 144 && 0 <= lane < 8 ==> #[trigger] r@[(p * 144 + i) * 8 + lane]
                == (lane < group@.len() && lit(group@[lane], p, i)),
{
    let mut out: Vec<bool> = Vec::new();
    let mut k: usize = 0;
    while k < 14976
        invariant
            k <= 14976,
            out@.len() == k,
            group@.len() <= BATCH_LANES,
            forall|j: int|
                0 <= j < k ==> #[trigger] out@[j] == (j % 8 < group@.len() && lit(
                    group@[j % 8],
                    j / 8 / 144,
                    (j / 8) % 144,
                )),
        decreases 14976 - k,
    {
        let lane: usize = k % BATCH_LANES;
        let place: usize = k / BATCH_LANES;
        let value = lane < group.len() && is_lit(&group[lane], place / 144, place % 144);
        out.push(value);
        k += 1;
    }
    assert forall|p: int, i: int, lane: int|
        0 <= p < 13 && 0 <= i < 144 && 0 <= lane < 8 implies #[trigger] out@[(p * 144 + i) * 8
        + lane] == (lane < group@.len() && lit(group@[lane], p, i)) by {
        let j = (p * 144 + i) * 8 + lane;
        assert(j % 8 == lane && j / 8 == p * 144 + i);
        assert((p * 144 + i) / 144 == p && (p * 144 + i) % 144 == i);
    }
    out
}

/// Exactly one symbol plane and exactly one turn plane is one at every cell.
pub proof fn the_planes_are_one_hot(input: Encoded, i: int)
    requires
        0 <= i < 144,
    ensures
        exists|p: int| 0 <= p < 8 && lit(input, p, i),
        exists|p: int| 8 <= p < 11 && lit(input, p, i),
        forall|p: int, q: int|
            0 <= p < 8 && 0 <= q < 8 && lit(input, p, i) && lit(input, q, i) ==> p == q,
        forall|p: int, q: int|
            8 <= p < 11 && 8 <= q < 11 && lit(input, p, i) && lit(input, q, i) ==> p == q,
{
    let own = if input.sym@[i] <= 7 {
        input.sym@[i] as int
    } else {
        7
    };
    assert(lit(input, own, i));
    assert(lit(input, turn_plane(input.moves_left), i));
}

/// A batch says of each position what the position says on its own.
pub proof fn a_lane_is_the_position_on_its_own(
    group: Seq<Encoded>,
    single: Seq<bool>,
    batch: Seq<bool>,
    p: int,
    i: int,
    lane: int,
)
    requires
        0 <= lane < group.len() <= 8,
        0 <= p < 13,
        0 <= i < 144,
        forall|p: int, i: int|
            0 <= p < 13 && 0 <= i < 144 ==> #[trigger] single[p * 144 + i] == lit(group[lane], p, i),
        forall|p: int, i: int, l: int|
            0 <= p < 13 && 0 <= i < 144 && 0 <= l < 8 ==> #[trigger] batch[(p * 144 + i) * 8 + l]
                == (l < group.len() && lit(group[l], p, i)),
    ensures
        batch[(p * 144 + i) * 8 + lane] == single[p * 144 + i],
{
}

/// A group's planes hold each position's own planes in its own lane, and a lane
/// without a position is dark.
pub proof fn a_group_holds_the_planes_of_each(
    group: Seq<Encoded>,
    single: Seq<bool>,
    batch: Seq<bool>,
    p: int,
    i: int,
    lane: int,
)
    requires
        group.len() <= 8,
        0 <= lane < 8,
        0 <= p < 13,
        0 <= i < 144,
        lane < group.len() ==> planes_of(group[lane], single),
        lanes_of(group, batch),
    ensures
        lane < group.len() ==> batch[(p * 144 + i) * 8 + lane] == single[p * 144 + i],
        lane >= group.len() ==> !batch[(p * 144 + i) * 8 + lane],
{
    if lane < group.len() {
        a_lane_is_the_position_on_its_own(group, single, batch, p, i, lane);
    }
}

/// A cell's symbol says what stands there and whether it is the mover's, and
/// nothing else: every kind has a symbol of its own, and every owned kind has
/// one for each side.
pub proof fn a_symbol_names_the_piece_and_the_side(cell: Cell, mover: Player)
    ensures
        symbol_of(cell, mover) == 0 <==> cell.kind == CellKind::Empty,
        symbol_of(cell, mover) == 1 <==> cell.kind == CellKind::Neutral,
        symbol_of(cell, mover) == 2 <==> cell.kind == CellKind::Base && cell.owner == mover,
        symbol_of(cell, mover) == 3 <==> cell.kind == CellKind::Base && cell.owner != mover,
        symbol_of(cell, mover) == 4 <==> cell.kind == CellKind::Normal && cell.owner == mover,
        symbol_of(cell, mover) == 5 <==> cell.kind == CellKind::Normal && cell.owner != mover,
        symbol_of(cell, mover) == 6 <==> cell.kind == CellKind::Fortified && cell.owner == mover,
        symbol_of(cell, mover) == 7 <==> cell.kind == CellKind::Fortified && cell.owner != mover,
{
}

/// The net never sees a seat number: two cells that hold the same thing, each
/// its own mover's or each not, look alike.
pub proof fn the_net_sees_sides_and_no_seats(
    cell: Cell,
    mover: Player,
    other: Cell,
    rival: Player,
)
    requires
        cell.kind == other.kind,
        cell.owner == mover <==> other.owner == rival,
    ensures
        symbol_of(cell, mover) == symbol_of(other, rival),
{
}

/// A turn with one, two or three actions left lights plane 8, 9 or 10 over the
/// whole board and leaves the other two dark. A count out of that range is
/// taken for the nearest in it.
pub proof fn the_actions_left_light_their_own_plane(input: Encoded, i: int)
    requires
        0 <= i < 144,
    ensures
        1 <= input.moves_left <= 3 ==> forall|p: int|
            8 <= p <= 10 ==> (#[trigger] lit(input, p, i) <==> p == 7 + input.moves_left),
        input.moves_left == 0 ==> forall|p: int|
            8 <= p <= 10 ==> (#[trigger] lit(input, p, i) <==> p == 8),
        input.moves_left > 3 ==> forall|p: int|
            8 <= p <= 10 ==> (#[trigger] lit(input, p, i) <==> p == 10),
{
}

/// A cell's symbol lights the plane of that number at that cell and leaves the
/// other symbol planes dark there; one without a plane lights the last.
pub proof fn a_symbol_lights_its_own_plane(input: Encoded, i: int)
    requires
        0 <= i < 144,
    ensures
        input.sym@[i] < 8 ==> forall|p: int|
            0 <= p < 8 ==> (#[trigger] lit(input, p, i) <==> p == input.sym@[i]),
        input.sym@[i] >= 8 ==> forall|p: int|
            0 <= p < 8 ==> (#[trigger] lit(input, p, i) <==> p == 7),
{
}

/// What the planes of a position say, plane by plane: what stands on a cell and
/// whose it is, how many actions are left, and who has spent the neutral
/// placement.
pub proof fn the_planes_show_the_position(
    state: StateView,
    input: Encoded,
    planes: Seq<bool>,
    i: int,
)
    requires
        encodable(state),
        0 <= i < 144,
        encodes(state, input),
        planes_of(input, planes),
    ensures
        ({
            let cell = state.cells[i];
            let own = cell.owner == state.current_player;
            &&& planes[i] <==> cell.kind == CellKind::Empty
            &&& planes[144 + i] <==> cell.kind == CellKind::Neutral
            &&& planes[288 + i] <==> cell.kind == CellKind::Base && own
            &&& planes[432 + i] <==> cell.kind == CellKind::Base && !own
            &&& planes[576 + i] <==> cell.kind == CellKind::Normal && own
            &&& planes[720 + i] <==> cell.kind == CellKind::Normal && !own
            &&& planes[864 + i] <==> cell.kind == CellKind::Fortified && own
            &&& planes[1008 + i] <==> cell.kind == CellKind::Fortified && !own
        }),
        1 <= state.moves_left <= 3 ==> {
            &&& planes[1152 + i] <==> state.moves_left == 1
            &&& planes[1296 + i] <==> state.moves_left == 2
            &&& planes[1440 + i] <==> state.moves_left == 3
        },
        state.current_player == 1 ==> {
            &&& planes[1584 + i] == state.neutral_used[0]
            &&& planes[1728 + i] == state.neutral_used[1]
        },
        state.current_player == 2 ==> {
            &&& planes[1584 + i] == state.neutral_used[1]
            &&& planes[1728 + i] == state.neutral_used[0]
        },
{
    assert(planes[0 * 144 + i] == lit(input, 0, i));
    assert(planes[1 * 144 + i] == lit(input, 1, i));
    assert(planes[2 * 144 + i] == lit(input, 2, i));
    assert(planes[3 * 144 + i] == lit(input, 3, i));
    assert(planes[4 * 144 + i] == lit(input, 4, i));
    assert(planes[5 * 144 + i] == lit(input, 5, i));
    assert(planes[6 * 144 + i] == lit(input, 6, i));
    assert(planes[7 * 144 + i] == lit(input, 7, i));
    assert(planes[8 * 144 + i] == lit(input, 8, i));
    assert(planes[9 * 144 + i] == lit(input, 9, i));
    assert(planes[10 * 144 + i] == lit(input, 10, i));
    assert(planes[11 * 144 + i] == lit(input, 11, i));
    assert(planes[12 * 144 + i] == lit(input, 12, i));
    a_symbol_names_the_piece_and_the_side(state.cells[i], state.current_player);
    a_symbol_lights_its_own_plane(input, i);
    the_actions_left_light_their_own_plane(input, i);
}

// ---------------------------------------------------------------- artifact

/// What the artifact says of itself. A number it leaves out is minus one, and a
/// missing architecture is empty.
#[derive(Clone, Debug)]
pub struct RawMeta {
    pub arch: String,
    pub board: i64,
    pub planes: i64,
    pub channels: i64,
    pub layers: i64,
}

/// One convolution layer, weights as `[out][in][3][3]`.
#[derive(Clone, Debug)]
pub struct RawConv {
    pub w: Vec<Vec<Vec<Vec<u64>>>>,
    pub b: Vec<u64>,
}

/// One per-cell head, weights as `[channels][1][1]`.
#[derive(Clone, Debug)]
pub struct RawHead {
    pub w: Vec<Vec<Vec<u64>>>,
    pub b: u64,
}

/// The value head, its first weights as `[hidden][channels]`.
#[derive(Clone, Debug)]
pub struct RawValueHead {
    pub fc1_w: Vec<Vec<u64>>,
    pub fc1_b: Vec<u64>,
    pub fc2_w: Vec<u64>,
    pub fc2_b: u64,
}

/// An artifact as it was written, before anything about it was checked.
#[derive(Clone, Debug)]
pub struct RawNet {
    pub meta: RawMeta,
    pub conv: Vec<RawConv>,
    pub move_head: RawHead,
    pub pair_head: RawHead,
    pub pair_bias: u64,
    pub value_head: Option<RawValueHead>,
}

/// The number that stands for one the artifact leaves out.
pub fn minus_one() -> (r: i64)
    ensures
        r == -1,
{
    -1
}

/// A per-cell head.
#[derive(Clone, Copy, Debug, PartialEq, Eq, Structural)]
pub enum Head {
    Move,
    Pair,
}

/// A one-dimensional list of weights in the artifact.
#[derive(Clone, Copy, Debug, PartialEq, Eq, Structural)]
pub enum Row {
    /// The biases of a convolution layer.
    Bias(usize),
    /// One hidden unit's weights in the value head.
    Hidden(usize),
    /// The hidden units' biases.
    HiddenBias,
    /// The output's weights.
    Output,
}

/// Where a single weight stands in the artifact.
#[derive(Clone, Copy, Debug, PartialEq, Eq, Structural)]
pub enum Place {
    /// A convolution weight, by layer, output, input, kernel row and column.
    Kernel(usize, usize, usize, usize, usize),
    /// An entry of a list.
    Entry(Row, usize),
    /// A head's weight for one channel.
    Channel(Head, usize),
    /// A head's bias.
    HeadBias(Head),
    /// The bias of a pair of cells.
    PairBias,
    /// The value head's output bias.
    OutputBias,
}

/// What is wrong with an artifact.
#[derive(Clone, Copy, Debug, PartialEq, Eq, Structural)]
pub enum Fault {
    /// Not an architecture this library runs.
    Arch,
    /// Another board or another number of planes.
    Board { board: i64, planes: i64 },
    /// A size that is not positive.
    Sizes { channels: i64, layers: i64 },
    /// Not as many layers as declared.
    Layers { found: usize, declared: u64 },
    /// A layer without one row for each output channel.
    Rows { layer: usize, found: usize, expected: u64 },
    /// A row without one kernel for each input channel.
    Inputs { layer: usize, output: usize, found: usize, expected: u64 },
    /// A kernel that is not three rows high.
    KernelRows { layer: usize, output: usize, input: usize, found: usize },
    /// A kernel row that is not three columns wide.
    KernelColumns { layer: usize, output: usize, input: usize, row: usize, found: usize },
    /// A list of the wrong length.
    Length { row: Row, found: usize, expected: u64 },
    /// A head without one kernel for each channel.
    Channels { head: Head, found: usize, expected: u64 },
    /// A head's kernel that is not one by one.
    HeadKernel { head: Head, channel: usize, rows: usize, columns: usize },
    /// A value head without hidden units.
    NoHidden,
    /// A weight that is not finite once narrowed.
    NotFinite { place: Place, bits: u64 },
}

/// Whether a weight is finite after narrowing to 32 bits.
pub open spec fn fits(bits: u64) -> bool {
    bits % 0x8000_0000_0000_0000 < TOO_LARGE
}

/// The fault of one weight.
pub open spec fn weight_fault(bits: u64, place: Place) -> Option<Fault> {
    if fits(bits) {
        None
    } else {
        Some(Fault::NotFinite { place, bits })
    }
}

/// The earlier of two faults.
pub open spec fn earlier(first: Option<Fault>, second: Option<Fault>) -> Option<Fault> {
    if first is Some {
        first
    } else {
        second
    }
}

/// The first fault of a list's entries, from `from` on.
pub open spec fn entries_fault(values: Seq<u64>, row: Row, from: int) -> Option<Fault>
    decreases values.len() - from,
{
    if from >= values.len() {
        None
    } else {
        earlier(
            weight_fault(values[from], Place::Entry(row, from as usize)),
            entries_fault(values, row, from + 1),
        )
    }
}

/// The first fault of a list that must have `expected` entries.
pub open spec fn row_fault(values: Seq<u64>, expected: int, row: Row) -> Option<Fault> {
    if values.len() != expected {
        Some(Fault::Length { row, found: values.len() as usize, expected: expected as u64 })
    } else {
        entries_fault(values, row, 0)
    }
}

/// The first fault of one row of a kernel.
pub open spec fn kernel_row_fault(
    values: Seq<u64>,
    layer: usize,
    output: usize,
    input: usize,
    row: usize,
) -> Option<Fault> {
    if values.len() != 3 {
        Some(Fault::KernelColumns { layer, output, input, row, found: values.len() as usize })
    } else {
        earlier(
            weight_fault(values[0], Place::Kernel(layer, output, input, row, 0)),
            earlier(
                weight_fault(values[1], Place::Kernel(layer, output, input, row, 1)),
                weight_fault(values[2], Place::Kernel(layer, output, input, row, 2)),
            ),
        )
    }
}

/// The first fault of one kernel.
pub open spec fn kernel_fault(
    kernel: Seq<Vec<u64>>,
    layer: usize,
    output: usize,
    input: usize,
) -> Option<Fault> {
    if kernel.len() != 3 {
        Some(Fault::KernelRows { layer, output, input, found: kernel.len() as usize })
    } else {
        earlier(
            kernel_row_fault(kernel[0]@, layer, output, input, 0),
            earlier(
                kernel_row_fault(kernel[1]@, layer, output, input, 1),
                kernel_row_fault(kernel[2]@, layer, output, input, 2),
            ),
        )
    }
}

/// The first fault of one output's kernels, from `from` on.
pub open spec fn kernels_fault(
    row: Seq<Vec<Vec<u64>>>,
    layer: usize,
    output: usize,
    from: int,
) -> Option<Fault>
    decreases row.len() - from,
{
    if from >= row.len() {
        None
    } else {
        earlier(
            kernel_fault(row[from]@, layer, output, from as usize),
            kernels_fault(row, layer, output, from + 1),
        )
    }
}

/// The first fault of a layer's outputs, from `from` on.
pub open spec fn outputs_fault(
    w: Seq<Vec<Vec<Vec<u64>>>>,
    inputs: int,
    layer: usize,
    from: int,
) -> Option<Fault>
    decreases w.len() - from,
{
    if from >= w.len() {
        None
    } else {
        earlier(
            if w[from]@.len() != inputs {
                Some(
                    Fault::Inputs {
                        layer,
                        output: from as usize,
                        found: w[from]@.len() as usize,
                        expected: inputs as u64,
                    },
                )
            } else {
                kernels_fault(w[from]@, layer, from as usize, 0)
            },
            outputs_fault(w, inputs, layer, from + 1),
        )
    }
}

/// The first fault of one layer.
pub open spec fn layer_fault(conv: RawConv, channels: int, inputs: int, layer: usize) -> Option<
    Fault,
> {
    if conv.w@.len() != channels {
        Some(Fault::Rows { layer, found: conv.w@.len() as usize, expected: channels as u64 })
    } else {
        earlier(
            outputs_fault(conv.w@, inputs, layer, 0),
            row_fault(conv.b@, channels, Row::Bias(layer)),
        )
    }
}

/// The number of inputs of a layer: the planes for the first, the channels for
/// the others.
pub open spec fn inputs_of(channels: int, layer: int) -> int {
    if layer == 0 {
        PLANES as int
    } else {
        channels
    }
}

/// The first fault of the layers, from `from` on.
pub open spec fn layers_fault(conv: Seq<RawConv>, channels: int, from: int) -> Option<Fault>
    decreases conv.len() - from,
{
    if from >= conv.len() {
        None
    } else {
        earlier(
            layer_fault(conv[from], channels, inputs_of(channels, from), from as usize),
            layers_fault(conv, channels, from + 1),
        )
    }
}

/// The fault of one channel of a head.
pub open spec fn channel_fault(kernel: Seq<Vec<u64>>, head: Head, channel: usize) -> Option<Fault> {
    if kernel.len() != 1 || kernel[0]@.len() != 1 {
        Some(
            Fault::HeadKernel {
                head,
                channel,
                rows: kernel.len() as usize,
                columns: if kernel.len() == 0 {
                    0
                } else {
                    kernel[0]@.len() as usize
                },
            },
        )
    } else {
        weight_fault(kernel[0]@[0], Place::Channel(head, channel))
    }
}

/// The first fault of a head's channels, from `from` on.
pub open spec fn channels_fault(w: Seq<Vec<Vec<u64>>>, head: Head, from: int) -> Option<Fault>
    decreases w.len() - from,
{
    if from >= w.len() {
        None
    } else {
        earlier(
            channel_fault(w[from]@, head, from as usize),
            channels_fault(w, head, from + 1),
        )
    }
}

/// The first fault of a head's weights.
pub open spec fn head_fault(raw: RawHead, channels: int, head: Head) -> Option<Fault> {
    if raw.w@.len() != channels {
        Some(Fault::Channels { head, found: raw.w@.len() as usize, expected: channels as u64 })
    } else {
        channels_fault(raw.w@, head, 0)
    }
}

/// The first fault of the hidden units' weights, from `from` on.
pub open spec fn hidden_fault(rows: Seq<Vec<u64>>, channels: int, from: int) -> Option<Fault>
    decreases rows.len() - from,
{
    if from >= rows.len() {
        None
    } else {
        earlier(
            row_fault(rows[from]@, channels, Row::Hidden(from as usize)),
            hidden_fault(rows, channels, from + 1),
        )
    }
}

/// The first fault of the value head.
pub open spec fn value_fault(raw: RawValueHead, channels: int) -> Option<Fault> {
    let hidden = raw.fc1_w@.len() as int;
    if hidden == 0 {
        Some(Fault::NoHidden)
    } else {
        earlier(
            hidden_fault(raw.fc1_w@, channels, 0),
            earlier(
                row_fault(raw.fc1_b@, hidden, Row::HiddenBias),
                earlier(
                    row_fault(raw.fc2_w@, hidden, Row::Output),
                    weight_fault(raw.fc2_b, Place::OutputBias),
                ),
            ),
        )
    }
}

/// Whether the architecture is one that is run here.
pub open spec fn supported(arch: Seq<char>) -> bool {
    arch == "conv-policy-v1"@ || arch == "conv-policy-value-v1"@
}

/// The first fault behind the declaration: layers, heads, value head.
pub open spec fn body_fault(raw: RawNet) -> Option<Fault> {
    let channels = raw.meta.channels as int;
    earlier(
        layers_fault(raw.conv@, channels, 0),
        earlier(
            head_fault(raw.move_head, channels, Head::Move),
            earlier(
                head_fault(raw.pair_head, channels, Head::Pair),
                earlier(
                    weight_fault(raw.move_head.b, Place::HeadBias(Head::Move)),
                    earlier(
                        weight_fault(raw.pair_head.b, Place::HeadBias(Head::Pair)),
                        earlier(
                            weight_fault(raw.pair_bias, Place::PairBias),
                            match raw.value_head {
                                Some(head) => value_fault(head, channels),
                                None => None,
                            },
                        ),
                    ),
                ),
            ),
        ),
    )
}

/// The first fault of an artifact, in the order in which it is read.
pub open spec fn fault_of(raw: RawNet) -> Option<Fault> {
    let meta = raw.meta;
    if !supported(meta.arch@) {
        Some(Fault::Arch)
    } else if meta.board != BOARD || meta.planes != PLANES {
        Some(Fault::Board { board: meta.board, planes: meta.planes })
    } else if meta.channels <= 0 || meta.layers <= 0 {
        Some(Fault::Sizes { channels: meta.channels, layers: meta.layers })
    } else if raw.conv@.len() != meta.layers {
        Some(Fault::Layers { found: raw.conv@.len() as usize, declared: meta.layers as u64 })
    } else {
        body_fault(raw)
    }
}

/// A kernel's weights, row by row.
pub open spec fn kernel_weights(kernel: Seq<Vec<u64>>) -> Seq<u64> {
    kernel[0]@ + kernel[1]@ + kernel[2]@
}

/// The weights of the first `n` kernels of an output.
pub open spec fn output_weights(row: Seq<Vec<Vec<u64>>>, n: int) -> Seq<u64>
    decreases n,
{
    if n <= 0 {
        Seq::empty()
    } else {
        output_weights(row, n - 1) + kernel_weights(row[n - 1]@)
    }
}

/// The weights of the first `n` outputs of a layer.
pub open spec fn layer_weights(w: Seq<Vec<Vec<Vec<u64>>>>, n: int) -> Seq<u64>
    decreases n,
{
    if n <= 0 {
        Seq::empty()
    } else {
        layer_weights(w, n - 1) + output_weights(w[n - 1]@, w[n - 1]@.len() as int)
    }
}

/// The weights of the first `n` hidden units.
pub open spec fn hidden_weights(rows: Seq<Vec<u64>>, n: int) -> Seq<u64>
    decreases n,
{
    if n <= 0 {
        Seq::empty()
    } else {
        hidden_weights(rows, n - 1) + rows[n - 1]@
    }
}

/// A head's weights, one a channel.
pub open spec fn head_weights_of(w: Seq<Vec<Vec<u64>>>) -> Seq<u64> {
    Seq::new(w.len(), |c: int| w[c]@[0]@[0])
}

/// The value head of a net that can be run.
#[derive(Clone, Debug)]
pub struct ValueHead {
    /// The hidden units' weights, one unit after another.
    pub fc1_w: Vec<u64>,
    pub fc1_b: Vec<u64>,
    pub fc2_w: Vec<u64>,
    pub fc2_b: u64,
}

/// A net that can be run: shapes checked, every weight finite.
#[derive(Clone, Debug)]
pub struct PolicyValueNet {
    pub arch: String,
    pub channels: usize,
    pub layers: usize,
    /// Each layer's weights, output by output, input by input, row by row.
    pub conv_w: Vec<Vec<u64>>,
    pub conv_b: Vec<Vec<u64>>,
    pub move_w: Vec<u64>,
    pub move_b: u64,
    pub pair_w: Vec<u64>,
    pub pair_b: u64,
    pub pair_bias: u64,
    pub value: Option<ValueHead>,
}

/// A loaded value head holds the artifact's weights.
pub open spec fn value_loaded(raw: RawValueHead, head: ValueHead) -> bool {
    &&& head.fc1_w@ == hidden_weights(raw.fc1_w@, raw.fc1_w@.len() as int)
    &&& head.fc1_b@ == raw.fc1_b@
    &&& head.fc2_w@ == raw.fc2_w@
    &&& head.fc2_b == raw.fc2_b
}

/// A loaded net holds the artifact's weights.
pub open spec fn loaded(raw: RawNet, net: PolicyValueNet) -> bool {
    &&& net.arch@ == raw.meta.arch@
    &&& net.channels == raw.meta.channels
    &&& net.layers == raw.meta.layers
    &&& net.conv_w@.len() == net.layers
    &&& net.conv_b@.len() == net.layers
    &&& forall|l: int|
        0 <= l < net.layers ==> #[trigger] net.conv_w@[l]@ == layer_weights(
            raw.conv@[l].w@,
            raw.conv@[l].w@.len() as int,
        )
    &&& forall|l: int| 0 <= l < net.layers ==> #[trigger] net.conv_b@[l]@ == raw.conv@[l].b@
    &&& net.move_w@ == head_weights_of(raw.move_head.w@)
    &&& net.move_b == raw.move_head.b
    &&& net.pair_w@ == head_weights_of(raw.pair_head.w@)
    &&& net.pair_b == raw.pair_head.b
    &&& net.pair_bias == raw.pair_bias
    &&& net.value is Some == raw.value_head is Some
    &&& raw.value_head is Some ==> value_loaded(raw.value_head->Some_0, net.value->Some_0)
}

fn finite(bits: u64, place: Place) -> (r: Result<u64, Fault>)
    ensures
        match weight_fault(bits, place) {
            Some(fault) => r == Err::<u64, Fault>(fault),
            None => r == Ok::<u64, Fault>(bits),
        },
{
    if bits % 0x8000_0000_0000_0000 < TOO_LARGE {
        Ok(bits)
    } else {
        Err(Fault::NotFinite { place, bits })
    }
}

fn vector(values: &Vec<u64>, expected: u64, row: Row) -> (r: Result<Vec<u64>, Fault>)
    ensures
        match row_fault(values@, expected as int, row) {
            Some(fault) => r == Err::<Vec<u64>, Fault>(fault),
            None => r is Ok && r->Ok_0@ == values@,
        },
{
    if values.len() as u64 != expected {
        return Err(Fault::Length { row, found: values.len(), expected });
    }
    let mut out: Vec<u64> = Vec::new();
    let mut i: usize = 0;
    while i < values.len()
        invariant
            i <= values@.len(),
            values@.len() == expected,
            out@ == values@.take(i as int),
            row_fault(values@, expected as int, row) == entries_fault(values@, row, i as int),
        decreases values@.len() - i,
    {
        match finite(values[i], Place::Entry(row, i)) {
            Ok(bits) => {
                out.push(bits);
                assert(out@ =~= values@.take(i + 1));
            },
            Err(fault) => {
                return Err(fault);
            },
        }
        i += 1;
    }
    assert(values@.take(i as int) =~= values@);
    Ok(out)
}

fn push_kernel_row(
    out: &mut Vec<u64>,
    values: &Vec<u64>,
    layer: usize,
    output: usize,
    input: usize,
    row: usize,
) -> (r: Option<Fault>)
    ensures
        r == kernel_row_fault(values@, layer, output, input, row),
        r is None ==> final(out)@ == old(out)@ + values@,
{
    if values.len() != 3 {
        return Some(Fault::KernelColumns { layer, output, input, row, found: values.len() });
    }
    let mut column: usize = 0;
    while column < 3
        invariant
            column <= 3,
            values@.len() == 3,
            out@ == old(out)@ + values@.take(column as int),
            forall|c: int| 0 <= c < column ==> fits(#[trigger] values@[c]),
        decreases 3 - column,
    {
        match finite(values[column], Place::Kernel(layer, output, input, row, column)) {
            Ok(bits) => {
                out.push(bits);
                assert(out@ =~= old(out)@ + values@.take(column + 1));
            },
            Err(fault) => {
                return Some(fault);
            },
        }
        column += 1;
    }
    assert(values@.take(3) =~= values@);
    None
}

fn push_kernel(
    out: &mut Vec<u64>,
    kernel: &Vec<Vec<u64>>,
    layer: usize,
    output: usize,
    input: usize,
) -> (r: Option<Fault>)
    ensures
        r == kernel_fault(kernel@, layer, output, input),
        r is None ==> final(out)@ == old(out)@ + kernel_weights(kernel@),
{
    if kernel.len() != 3 {
        return Some(Fault::KernelRows { layer, output, input, found: kernel.len() });
    }
    let first = push_kernel_row(out, &kernel[0], layer, output, input, 0);
    if first.is_some() {
        return first;
    }
    let second = push_kernel_row(out, &kernel[1], layer, output, input, 1);
    if second.is_some() {
        return second;
    }
    let third = push_kernel_row(out, &kernel[2], layer, output, input, 2);
    assert(third is None ==> out@ =~= old(out)@ + kernel_weights(kernel@));
    third
}

fn push_output(
    out: &mut Vec<u64>,
    row: &Vec<Vec<Vec<u64>>>,
    layer: usize,
    output: usize,
) -> (r: Option<Fault>)
    ensures
        r == kernels_fault(row@, layer, output, 0),
        r is None ==> final(out)@ == old(out)@ + output_weights(row@, row@.len() as int),
{
    let mut input: usize = 0;
    assert(out@ =~= old(out)@ + output_weights(row@, 0));
    while input < row.len()
        invariant
            input <= row@.len(),
            out@ == old(out)@ + output_weights(row@, input as int),
            kernels_fault(row@, layer, output, 0) == kernels_fault(
                row@,
                layer,
                output,
                input as int,
            ),
        decreases row@.len() - input,
    {
        let fault = push_kernel(out, &row[input], layer, output, input);
        if fault.is_some() {
            return fault;
        }
        assert(out@ =~= old(out)@ + output_weights(row@, input + 1));
        input += 1;
    }
    None
}

fn flat_layer(conv: &RawConv, channels: u64, inputs: u64, layer: usize) -> (r: Result<
    Vec<u64>,
    Fault,
>)
    requires
        conv.w@.len() == channels,
    ensures
        match outputs_fault(conv.w@, inputs as int, layer, 0) {
            Some(fault) => r == Err::<Vec<u64>, Fault>(fault),
            None => r is Ok && r->Ok_0@ == layer_weights(conv.w@, conv.w@.len() as int),
        },
{
    let mut flat: Vec<u64> = Vec::new();
    let mut output: usize = 0;
    assert(flat@ =~= layer_weights(conv.w@, 0));
    while output < conv.w.len()
        invariant
            output <= conv.w@.len(),
            flat@ == layer_weights(conv.w@, output as int),
            outputs_fault(conv.w@, inputs as int, layer, 0) == outputs_fault(
                conv.w@,
                inputs as int,
                layer,
                output as int,
            ),
        decreases conv.w@.len() - output,
    {
        let row = &conv.w[output];
        if row.len() as u64 != inputs {
            return Err(Fault::Inputs { layer, output, found: row.len(), expected: inputs });
        }
        match push_output(&mut flat, row, layer, output) {
            Some(fault) => {
                return Err(fault);
            },
            None => {},
        }
        output += 1;
    }
    Ok(flat)
}

/// A layer's weights in one run, and its biases.
fn read_layer(conv: &RawConv, channels: u64, layer: usize) -> (r: Result<
    (Vec<u64>, Vec<u64>),
    Fault,
>)
    ensures
        match layer_fault(
            *conv,
            channels as int,
            inputs_of(channels as int, layer as int),
            layer,
        ) {
            Some(fault) => r == Err::<(Vec<u64>, Vec<u64>), Fault>(fault),
            None => {
                &&& r is Ok
                &&& r->Ok_0.0@ == layer_weights(conv.w@, conv.w@.len() as int)
                &&& r->Ok_0.1@ == conv.b@
            },
        },
{
    if conv.w.len() as u64 != channels {
        return Err(Fault::Rows { layer, found: conv.w.len(), expected: channels });
    }
    let inputs: u64 = if layer == 0 {
        13
    } else {
        channels
    };
    let flat = match flat_layer(conv, channels, inputs, layer) {
        Ok(flat) => flat,
        Err(fault) => {
            return Err(fault);
        },
    };
    match vector(&conv.b, channels, Row::Bias(layer)) {
        Ok(bias) => Ok((flat, bias)),
        Err(fault) => Err(fault),
    }
}

fn head_weights(raw: &RawHead, channels: u64, head: Head) -> (r: Result<Vec<u64>, Fault>)
    ensures
        match head_fault(*raw, channels as int, head) {
            Some(fault) => r == Err::<Vec<u64>, Fault>(fault),
            None => r is Ok && r->Ok_0@ == head_weights_of(raw.w@),
        },
{
    if raw.w.len() as u64 != channels {
        return Err(Fault::Channels { head, found: raw.w.len(), expected: channels });
    }
    let mut out: Vec<u64> = Vec::new();
    let mut channel: usize = 0;
    while channel < raw.w.len()
        invariant
            channel <= raw.w@.len(),
            raw.w@.len() == channels,
            out@ == head_weights_of(raw.w@).take(channel as int),
            head_fault(*raw, channels as int, head) == channels_fault(
                raw.w@,
                head,
                channel as int,
            ),
        decreases raw.w@.len() - channel,
    {
        let kernel = &raw.w[channel];
        if kernel.len() != 1 || kernel[0].len() != 1 {
            let columns: usize = if kernel.len() == 0 {
                0
            } else {
                kernel[0].len()
            };
            return Err(Fault::HeadKernel { head, channel, rows: kernel.len(), columns });
        }
        match finite(kernel[0][0], Place::Channel(head, channel)) {
            Ok(bits) => {
                out.push(bits);
                assert(out@ =~= head_weights_of(raw.w@).take(channel + 1));
            },
            Err(fault) => {
                return Err(fault);
            },
        }
        channel += 1;
    }
    assert(out@ =~= head_weights_of(raw.w@));
    Ok(out)
}

fn read_hidden(rows: &Vec<Vec<u64>>, channels: u64) -> (r: Result<Vec<u64>, Fault>)
    ensures
        match hidden_fault(rows@, channels as int, 0) {
            Some(fault) => r == Err::<Vec<u64>, Fault>(fault),
            None => r is Ok && r->Ok_0@ == hidden_weights(rows@, rows@.len() as int),
        },
{
    let mut out: Vec<u64> = Vec::new();
    let mut unit: usize = 0;
    assert(out@ =~= hidden_weights(rows@, 0));
    while unit < rows.len()
        invariant
            unit <= rows@.len(),
            out@ == hidden_weights(rows@, unit as int),
            hidden_fault(rows@, channels as int, 0) == hidden_fault(
                rows@,
                channels as int,
                unit as int,
            ),
        decreases rows@.len() - unit,
    {
        let mut row = match vector(&rows[unit], channels, Row::Hidden(unit)) {
            Ok(row) => row,
            Err(fault) => {
                return Err(fault);
            },
        };
        out.append(&mut row);
        unit += 1;
    }
    Ok(out)
}

fn read_value_head(raw: &RawValueHead, channels: u64) -> (r: Result<ValueHead, Fault>)
    ensures
        match value_fault(*raw, channels as int) {
            Some(fault) => r == Err::<ValueHead, Fault>(fault),
            None => r is Ok && value_loaded(*raw, r->Ok_0),
        },
{
    if raw.fc1_w.len() == 0 {
        return Err(Fault::NoHidden);
    }
    let hidden: u64 = raw.fc1_w.len() as u64;
    let fc1_w = match read_hidden(&raw.fc1_w, channels) {
        Ok(weights) => weights,
        Err(fault) => {
            return Err(fault);
        },
    };
    let fc1_b = match vector(&raw.fc1_b, hidden, Row::HiddenBias) {
        Ok(weights) => weights,
        Err(fault) => {
            return Err(fault);
        },
    };
    let fc2_w = match vector(&raw.fc2_w, hidden, Row::Output) {
        Ok(weights) => weights,
        Err(fault) => {
            return Err(fault);
        },
    };
    match finite(raw.fc2_b, Place::OutputBias) {
        Ok(fc2_b) => Ok(ValueHead { fc1_w, fc1_b, fc2_w, fc2_b }),
        Err(fault) => Err(fault),
    }
}

fn is_supported(arch: &str) -> (r: bool)
    ensures
        r == supported(arch@),
{
    same_text(arch, "conv-policy-v1") || same_text(arch, "conv-policy-value-v1")
}

impl PolicyValueNet {
    /// Checks an artifact in reading order: the architecture by its name, since
    /// another one could have the same shapes; the declared sizes; every
    /// tensor's shape; and every weight.
    pub fn from_raw(raw: RawNet) -> (r: Result<PolicyValueNet, Fault>)
        ensures
            match fault_of(raw) {
                Some(fault) => r == Err::<PolicyValueNet, Fault>(fault),
                None => r is Ok && loaded(raw, r->Ok_0),
            },
    {
        if !is_supported(raw.meta.arch.as_str()) {
            return Err(Fault::Arch);
        }
        if raw.meta.board != BOARD as i64 || raw.meta.planes != PLANES as i64 {
            return Err(Fault::Board { board: raw.meta.board, planes: raw.meta.planes });
        }
        if raw.meta.channels <= 0 || raw.meta.layers <= 0 {
            return Err(Fault::Sizes { channels: raw.meta.channels, layers: raw.meta.layers });
        }
        let channels: u64 = raw.meta.channels as u64;
        let declared: u64 = raw.meta.layers as u64;
        if raw.conv.len() as u64 != declared {
            return Err(Fault::Layers { found: raw.conv.len(), declared });
        }
        let mut conv_w: Vec<Vec<u64>> = Vec::new();
        let mut conv_b: Vec<Vec<u64>> = Vec::new();
        let mut layer: usize = 0;
        while layer < raw.conv.len()
            invariant
                layer <= raw.conv@.len(),
                channels == raw.meta.channels,
                conv_w@.len() == layer,
                conv_b@.len() == layer,
                forall|l: int|
                    0 <= l < layer ==> #[trigger] conv_w@[l]@ == layer_weights(
                        raw.conv@[l].w@,
                        raw.conv@[l].w@.len() as int,
                    ),
                forall|l: int| 0 <= l < layer ==> #[trigger] conv_b@[l]@ == raw.conv@[l].b@,
                layer > 0 ==> raw.conv@[0].w@.len() == channels,
                layers_fault(raw.conv@, channels as int, 0) == layers_fault(
                    raw.conv@,
                    channels as int,
                    layer as int,
                ),
                fault_of(raw) == body_fault(raw),
            decreases raw.conv@.len() - layer,
        {
            match read_layer(&raw.conv[layer], channels, layer) {
                Ok((flat, bias)) => {
                    conv_w.push(flat);
                    conv_b.push(bias);
                },
                Err(fault) => {
                    return Err(fault);
                },
            }
            layer += 1;
        }
        let move_w = match head_weights(&raw.move_head, channels, Head::Move) {
            Ok(weights) => weights,
            Err(fault) => {
                return Err(fault);
            },
        };
        let pair_w = match head_weights(&raw.pair_head, channels, Head::Pair) {
            Ok(weights) => weights,
            Err(fault) => {
                return Err(fault);
            },
        };
        let move_b: u64 = match finite(raw.move_head.b, Place::HeadBias(Head::Move)) {
            Ok(bits) => bits,
            Err(fault) => {
                return Err(fault);
            },
        };
        let pair_b: u64 = match finite(raw.pair_head.b, Place::HeadBias(Head::Pair)) {
            Ok(bits) => bits,
            Err(fault) => {
                return Err(fault);
            },
        };
        let pair_bias: u64 = match finite(raw.pair_bias, Place::PairBias) {
            Ok(bits) => bits,
            Err(fault) => {
                return Err(fault);
            },
        };
        let value = match &raw.value_head {
            None => None,
            Some(head) => match read_value_head(head, channels) {
                Ok(head) => Some(head),
                Err(fault) => {
                    return Err(fault);
                },
            },
        };
        let layers: usize = raw.conv.len();
        Ok(
            PolicyValueNet {
                arch: raw.meta.arch,
                channels: channels as usize,
                layers,
                conv_w,
                conv_b,
                move_w,
                move_b,
                pair_w,
                pair_b,
                pair_bias,
                value,
            },
        )
    }

    /// The architecture's name.
    pub fn arch(&self) -> (r: &str)
        ensures
            r@ == self.arch@,
    {
        self.arch.as_str()
    }

    /// Number of channels of the trunk.
    pub fn channels(&self) -> (r: usize)
        ensures
            r == self.channels,
    {
        self.channels
    }

    /// Number of convolution layers.
    pub fn layers(&self) -> (r: usize)
        ensures
            r == self.layers,
    {
        self.layers
    }

    /// The bias of a pair of cells, as the artifact's bits.
    pub fn pair_bias(&self) -> (r: u64)
        ensures
            r == self.pair_bias,
    {
        self.pair_bias
    }

    /// Whether the net says anything about the value of a position.
    pub fn has_value_head(&self) -> (r: bool)
        ensures
            r == (self.value is Some),
    {
        self.value.is_some()
    }
}

// ---------------------------------------------------------------- messages

/// A number in square brackets.
pub open spec fn index_text(n: int) -> Seq<char> {
    "["@ + decimal(n) + "]"@
}

/// The name of a layer's kernels.
pub open spec fn layer_text(layer: usize) -> Seq<char> {
    "conv"@ + index_text(layer as int) + ".w"@
}

/// The name of a head.
pub open spec fn head_text(head: Head) -> Seq<char> {
    match head {
        Head::Move => "move_head"@,
        Head::Pair => "pair_head"@,
    }
}

/// The name of a list of weights.
pub open spec fn row_text(row: Row) -> Seq<char> {
    match row {
        Row::Bias(layer) => "conv"@ + index_text(layer as int) + ".b"@,
        Row::Hidden(unit) => "value_head.fc1_w"@ + index_text(unit as int),
        Row::HiddenBias => "value_head.fc1_b"@,
        Row::Output => "value_head.fc2_w"@,
    }
}

/// The name of a weight.
pub open spec fn place_text(place: Place) -> Seq<char> {
    match place {
        Place::Kernel(layer, output, input, row, column) => layer_text(layer) + index_text(
            output as int,
        ) + index_text(input as int) + index_text(row as int) + index_text(column as int),
        Place::Entry(row, index) => row_text(row) + index_text(index as int),
        Place::Channel(head, channel) => head_text(head) + ".w"@ + index_text(channel as int),
        Place::HeadBias(head) => head_text(head) + ".b"@,
        Place::PairBias => "pair_bias"@,
        Place::OutputBias => "value_head.fc2_b"@,
    }
}

/// A fault in words, for an artifact that declares the architecture `arch`. Of
/// a weight that is not finite, which one it is; its value is left to whoever
/// can print it.
pub open spec fn fault_text(fault: Fault, arch: Seq<char>) -> Seq<char> {
    match fault {
        Fault::Arch => "meta arch "@ + quoted_text(arch)
            + " unsupported, expected one of [\"conv-policy-v1\", \"conv-policy-value-v1\"]"@,
        Fault::Board { board, planes } => "meta board/planes "@ + signed_decimal(board as int)
            + "/"@ + signed_decimal(planes as int) + " unsupported, expected 12/13"@,
        Fault::Sizes { channels, layers } => "meta channels/layers must be positive, got "@
            + signed_decimal(channels as int) + "/"@ + signed_decimal(layers as int),
        Fault::Layers { found, declared } => "conv has "@ + decimal(found as int)
            + " layers, meta declares "@ + decimal(declared as int),
        Fault::Rows { layer, found, expected } => layer_text(layer) + " has "@ + decimal(
            found as int,
        ) + " rows, expected "@ + decimal(expected as int),
        Fault::Inputs { layer, output, found, expected } => layer_text(layer) + index_text(
            output as int,
        ) + " has "@ + decimal(found as int) + " input channels, expected "@ + decimal(
            expected as int,
        ),
        Fault::KernelRows { layer, output, input, found } => layer_text(layer) + index_text(
            output as int,
        ) + index_text(input as int) + " has "@ + decimal(found as int) + " rows, expected 3"@,
        Fault::KernelColumns { layer, output, input, row, found } => layer_text(layer)
            + index_text(output as int) + index_text(input as int) + index_text(row as int)
            + " has "@ + decimal(found as int) + " columns, expected 3"@,
        Fault::Length { row, found, expected } => row_text(row) + " must have "@ + decimal(
            expected as int,
        ) + " entries, got "@ + decimal(found as int),
        Fault::Channels { head, found, expected } => head_text(head) + ".w has "@ + decimal(
            found as int,
        ) + " channels, expected "@ + decimal(expected as int),
        Fault::HeadKernel { head, channel, rows, columns } => head_text(head) + ".w"@ + index_text(
            channel as int,
        ) + " must be a 1x1 kernel, got "@ + decimal(rows as int) + "x"@ + decimal(columns as int),
        Fault::NoHidden => "value_head.fc1_w is empty"@,
        Fault::NotFinite { place, bits } => place_text(place) + " is not finite"@,
    }
}

fn push_index(text: &mut String, n: usize)
    ensures
        final(text)@ == old(text)@ + index_text(n as int),
{
    text.append("[");
    push_decimal(text, n as u64);
    text.append("]");
    assert(text@ =~= old(text)@ + index_text(n as int));
}

fn layer_name(layer: usize) -> (r: String)
    ensures
        r@ == layer_text(layer),
{
    let mut text = "conv".to_owned();
    push_index(&mut text, layer);
    text.append(".w");
    text
}

fn head_name(head: Head) -> (r: String)
    ensures
        r@ == head_text(head),
{
    match head {
        Head::Move => "move_head".to_owned(),
        Head::Pair => "pair_head".to_owned(),
    }
}

fn row_name(row: Row) -> (r: String)
    ensures
        r@ == row_text(row),
{
    match row {
        Row::Bias(layer) => {
            let mut text = "conv".to_owned();
            push_index(&mut text, layer);
            text.append(".b");
            text
        },
        Row::Hidden(unit) => {
            let mut text = "value_head.fc1_w".to_owned();
            push_index(&mut text, unit);
            text
        },
        Row::HiddenBias => "value_head.fc1_b".to_owned(),
        Row::Output => "value_head.fc2_w".to_owned(),
    }
}

fn place_name(place: Place) -> (r: String)
    ensures
        r@ == place_text(place),
{
    match place {
        Place::Kernel(layer, output, input, row, column) => {
            let mut text = layer_name(layer);
            push_index(&mut text, output);
            push_index(&mut text, input);
            push_index(&mut text, row);
            push_index(&mut text, column);
            text
        },
        Place::Entry(row, index) => {
            let mut text = row_name(row);
            push_index(&mut text, index);
            text
        },
        Place::Channel(head, channel) => {
            let mut text = head_name(head);
            text.append(".w");
            push_index(&mut text, channel);
            text
        },
        Place::HeadBias(head) => {
            let mut text = head_name(head);
            text.append(".b");
            text
        },
        Place::PairBias => "pair_bias".to_owned(),
        Place::OutputBias => "value_head.fc2_b".to_owned(),
    }
}

impl Fault {
    /// The fault in words, for an artifact that declares the architecture
    /// `arch`.
    pub fn message(&self, arch: &str) -> (r: String)
        ensures
            r@ == fault_text(*self, arch@),
    {
        match *self {
            Fault::Arch => {
                let mut text = "meta arch ".to_owned();
                text.append(quoted(arch).as_str());
                text.append(
                    " unsupported, expected one of [\"conv-policy-v1\", \"conv-policy-value-v1\"]",
                );
                text
            },
            Fault::Board { board, planes } => {
                let mut text = "meta board/planes ".to_owned();
                push_signed(&mut text, board);
                text.append("/");
                push_signed(&mut text, planes);
                text.append(" unsupported, expected 12/13");
                text
            },
            Fault::Sizes { channels, layers } => {
                let mut text = "meta channels/layers must be positive, got ".to_owned();
                push_signed(&mut text, channels);
                text.append("/");
                push_signed(&mut text, layers);
                text
            },
            Fault::Layers { found, declared } => {
                let mut text = "conv has ".to_owned();
                push_decimal(&mut text, found as u64);
                text.append(" layers, meta declares ");
                push_decimal(&mut text, declared);
                text
            },
            Fault::Rows { layer, found, expected } => {
                let mut text = layer_name(layer);
                text.append(" has ");
                push_decimal(&mut text, found as u64);
                text.append(" rows, expected ");
                push_decimal(&mut text, expected);
                text
            },
            Fault::Inputs { layer, output, found, expected } => {
                let mut text = layer_name(layer);
                push_index(&mut text, output);
                text.append(" has ");
                push_decimal(&mut text, found as u64);
                text.append(" input channels, expected ");
                push_decimal(&mut text, expected);
                text
            },
            Fault::KernelRows { layer, output, input, found } => {
                let mut text = layer_name(layer);
                push_index(&mut text, output);
                push_index(&mut text, input);
                text.append(" has ");
                push_decimal(&mut text, found as u64);
                text.append(" rows, expected 3");
                text
            },
            Fault::KernelColumns { layer, output, input, row, found } => {
                let mut text = layer_name(layer);
                push_index(&mut text, output);
                push_index(&mut text, input);
                push_index(&mut text, row);
                text.append(" has ");
                push_decimal(&mut text, found as u64);
                text.append(" columns, expected 3");
                text
            },
            Fault::Length { row, found, expected } => {
                let mut text = row_name(row);
                text.append(" must have ");
                push_decimal(&mut text, expected);
                text.append(" entries, got ");
                push_decimal(&mut text, found as u64);
                text
            },
            Fault::Channels { head, found, expected } => {
                let mut text = head_name(head);
                text.append(".w has ");
                push_decimal(&mut text, found as u64);
                text.append(" channels, expected ");
                push_decimal(&mut text, expected);
                text
            },
            Fault::HeadKernel { head, channel, rows, columns } => {
                let mut text = head_name(head);
                text.append(".w");
                push_index(&mut text, channel);
                text.append(" must be a 1x1 kernel, got ");
                push_decimal(&mut text, rows as u64);
                text.append("x");
                push_decimal(&mut text, columns as u64);
                text
            },
            Fault::NoHidden => "value_head.fc1_w is empty".to_owned(),
            Fault::NotFinite { place, bits } => {
                let mut text = place_name(place);
                text.append(" is not finite");
                text
            },
        }
    }
}

// ---------------------------------------------------------------- laws

proof fn entries_are_sound(values: Seq<u64>, row: Row, from: int, i: int)
    requires
        entries_fault(values, row, from) is None,
        0 <= from <= i < values.len(),
    ensures
        fits(values[i]),
    decreases values.len() - from,
{
    if from < i {
        entries_are_sound(values, row, from + 1, i);
    }
}

proof fn kernels_are_sound(row: Seq<Vec<Vec<u64>>>, layer: usize, output: usize, from: int, i: int)
    requires
        kernels_fault(row, layer, output, from) is None,
        0 <= from <= i < row.len(),
    ensures
        kernel_fault(row[i]@, layer, output, i as usize) is None,
    decreases row.len() - from,
{
    if from < i {
        kernels_are_sound(row, layer, output, from + 1, i);
    }
}

proof fn outputs_are_sound(
    w: Seq<Vec<Vec<Vec<u64>>>>,
    inputs: int,
    layer: usize,
    from: int,
    o: int,
)
    requires
        outputs_fault(w, inputs, layer, from) is None,
        0 <= from <= o < w.len(),
    ensures
        w[o]@.len() == inputs,
        kernels_fault(w[o]@, layer, o as usize, 0) is None,
    decreases w.len() - from,
{
    if from < o {
        outputs_are_sound(w, inputs, layer, from + 1, o);
    }
}

proof fn layers_are_sound(conv: Seq<RawConv>, channels: int, from: int, l: int)
    requires
        layers_fault(conv, channels, from) is None,
        0 <= from <= l < conv.len(),
    ensures
        layer_fault(conv[l], channels, inputs_of(channels, l), l as usize) is None,
    decreases conv.len() - from,
{
    if from < l {
        layers_are_sound(conv, channels, from + 1, l);
    }
}

proof fn an_output_lies_flat(
    row: Seq<Vec<Vec<u64>>>,
    layer: usize,
    output: usize,
    n: int,
    i: int,
    r: int,
    c: int,
)
    requires
        kernels_fault(row, layer, output, 0) is None,
        0 <= i < n <= row.len(),
        0 <= r < 3,
        0 <= c < 3,
    ensures
        output_weights(row, n).len() == n * 9,
        row[i]@.len() == 3,
        row[i]@[r]@.len() == 3,
        fits(row[i]@[r]@[c]),
        output_weights(row, n)[i * 9 + r * 3 + c] == row[i]@[r]@[c],
    decreases n,
{
    kernels_are_sound(row, layer, output, 0, i);
    kernels_are_sound(row, layer, output, 0, n - 1);
    if n > 1 {
        an_output_lies_flat(
            row,
            layer,
            output,
            n - 1,
            if i < n - 1 {
                i
            } else {
                0
            },
            r,
            c,
        );
    } else {
        assert(output_weights(row, 0).len() == 0);
    }
}

proof fn a_layer_lies_flat(
    w: Seq<Vec<Vec<Vec<u64>>>>,
    inputs: int,
    layer: usize,
    n: int,
    o: int,
    k: int,
)
    requires
        outputs_fault(w, inputs, layer, 0) is None,
        0 < inputs,
        0 <= o < n <= w.len(),
        0 <= k < inputs * 9,
    ensures
        layer_weights(w, n).len() == n * (inputs * 9),
        w[o]@.len() == inputs,
        o * (inputs * 9) + k < layer_weights(w, n).len(),
        layer_weights(w, n)[o * (inputs * 9) + k] == output_weights(w[o]@, inputs)[k],
    decreases n,
{
    outputs_are_sound(w, inputs, layer, 0, o);
    outputs_are_sound(w, inputs, layer, 0, n - 1);
    an_output_lies_flat(w[n - 1]@, layer, (n - 1) as usize, inputs, 0, 0, 0);
    let width = inputs * 9;
    assert((n - 1) * width + width == n * width) by (nonlinear_arith);
    assert(0 <= o * width) by (nonlinear_arith)
        requires
            0 <= o,
            0 < width,
    ;
    if n > 1 {
        let lower = if o < n - 1 {
            o
        } else {
            0
        };
        a_layer_lies_flat(w, inputs, layer, n - 1, lower, k);
        if o < n - 1 {
            assert(o * width + width <= (n - 1) * width) by (nonlinear_arith)
                requires
                    o < n - 1,
                    0 < width,
            ;
        }
    } else {
        assert(layer_weights(w, 0).len() == 0);
        assert(o * width == 0) by (nonlinear_arith)
            requires
                o == 0,
        ;
    }
}

/// A loaded convolution weight is the artifact's, it is finite, and it stands
/// where its layer, output, input, row and column say.
pub proof fn a_weight_stands_where_it_is_read(
    raw: RawNet,
    net: PolicyValueNet,
    layer: int,
    output: int,
    input: int,
    row: int,
    column: int,
)
    requires
        fault_of(raw) is None,
        loaded(raw, net),
        0 <= layer < net.layers,
        0 <= output < net.channels,
        0 <= input < inputs_of(net.channels as int, layer),
        0 <= row < 3,
        0 <= column < 3,
    ensures
        ({
            let at = output * (inputs_of(net.channels as int, layer) * 9) + input * 9 + row * 3
                + column;
            let bits = net.conv_w@[layer]@[at];
            &&& 0 <= at < net.conv_w@[layer]@.len()
            &&& bits == raw.conv@[layer].w@[output]@[input]@[row]@[column]
            &&& fits(bits)
        }),
{
    let channels = net.channels as int;
    let inputs = inputs_of(channels, layer);
    let w = raw.conv@[layer].w@;
    layers_are_sound(raw.conv@, channels, 0, layer);
    outputs_are_sound(w, inputs, layer as usize, 0, output);
    an_output_lies_flat(w[output]@, layer as usize, output as usize, inputs, input, row, column);
    a_layer_lies_flat(
        w,
        inputs,
        layer as usize,
        channels,
        output,
        input * 9 + row * 3 + column,
    );
    assert(0 <= output * (inputs * 9)) by (nonlinear_arith)
        requires
            0 <= output,
            0 < inputs,
    ;
}

/// A net that loaded has one weight a channel in each head and one bias a
/// channel in each layer, all of them finite.
pub proof fn a_loaded_net_is_whole(raw: RawNet, net: PolicyValueNet, layer: int, channel: int)
    requires
        fault_of(raw) is None,
        loaded(raw, net),
        0 <= layer < net.layers,
        0 <= channel < net.channels,
    ensures
        net.move_w@.len() == net.channels,
        net.pair_w@.len() == net.channels,
        net.conv_b@[layer]@.len() == net.channels,
        fits(net.move_w@[channel]),
        fits(net.pair_w@[channel]),
        fits(net.conv_b@[layer]@[channel]),
        fits(net.move_b),
        fits(net.pair_b),
        fits(net.pair_bias),
{
    let channels = net.channels as int;
    layers_are_sound(raw.conv@, channels, 0, layer);
    entries_are_sound(raw.conv@[layer].b@, Row::Bias(layer as usize), 0, channel);
    channels_are_sound(raw.move_head.w@, Head::Move, 0, channel);
    channels_are_sound(raw.pair_head.w@, Head::Pair, 0, channel);
}

proof fn channels_are_sound(w: Seq<Vec<Vec<u64>>>, head: Head, from: int, c: int)
    requires
        channels_fault(w, head, from) is None,
        0 <= from <= c < w.len(),
    ensures
        channel_fault(w[c]@, head, c as usize) is None,
    decreases w.len() - from,
{
    if from < c {
        channels_are_sound(w, head, from + 1, c);
    }
}

/// A policy-only artifact loads into a net without a value head, and one with a
/// value head into a net that has it.
pub proof fn the_value_head_is_the_artifacts(raw: RawNet, net: PolicyValueNet)
    requires
        fault_of(raw) is None,
        loaded(raw, net),
    ensures
        net.value is Some <==> raw.value_head is Some,
        net.value is Some ==> {
            &&& net.value->Some_0.fc1_b@.len() == raw.value_head->Some_0.fc1_w@.len()
            &&& net.value->Some_0.fc2_w@.len() == raw.value_head->Some_0.fc1_w@.len()
            &&& fits(net.value->Some_0.fc2_b)
        },
{
}

proof fn hidden_lies_flat(rows: Seq<Vec<u64>>, channels: int, n: int, h: int, c: int)
    requires
        forall|k: int| 0 <= k < rows.len() ==> (#[trigger] rows[k])@.len() == channels,
        0 <= h < n <= rows.len(),
        0 <= c < channels,
    ensures
        hidden_weights(rows, n).len() == n * channels,
        0 <= h * channels + c < n * channels,
        hidden_weights(rows, n)[h * channels + c] == rows[h]@[c],
    decreases n,
{
    assert((n - 1) * channels + channels == n * channels) by (nonlinear_arith);
    assert(0 <= h * channels && h * channels <= (n - 1) * channels) by (nonlinear_arith)
        requires
            0 <= h <= n - 1,
            0 < channels,
    ;
    assert(rows[n - 1]@.len() == channels);
    if n > 1 {
        hidden_lies_flat(
            rows,
            channels,
            n - 1,
            if h < n - 1 {
                h
            } else {
                0
            },
            c,
        );
        if h < n - 1 {
            assert(h * channels + channels <= (n - 1) * channels) by (nonlinear_arith)
                requires
                    h < n - 1,
                    0 < channels,
            ;
        }
    } else {
        assert(hidden_weights(rows, 0).len() == 0);
        assert((n - 1) * channels == 0) by (nonlinear_arith)
            requires
                n == 1,
        ;
    }
}

proof fn hidden_is_sound(rows: Seq<Vec<u64>>, channels: int, from: int, h: int)
    requires
        hidden_fault(rows, channels, from) is None,
        0 <= from <= h < rows.len(),
    ensures
        row_fault(rows[h]@, channels, Row::Hidden(h as usize)) is None,
    decreases rows.len() - from,
{
    if from < h {
        hidden_is_sound(rows, channels, from + 1, h);
    }
}

/// A loaded hidden weight is the artifact's, it is finite, and it stands where
/// its unit and its channel say, with its unit's bias and its unit's output
/// weight under the unit's own number.
pub proof fn a_hidden_weight_stands_where_it_is_read(
    raw: RawNet,
    net: PolicyValueNet,
    unit: int,
    channel: int,
)
    requires
        fault_of(raw) is None,
        loaded(raw, net),
        raw.value_head is Some,
        0 <= unit < raw.value_head->0.fc1_w@.len(),
        0 <= channel < raw.meta.channels,
    ensures
        ({
            let from = raw.value_head->0;
            let head = net.value->0;
            let hidden = from.fc1_w@.len();
            let at = unit * net.channels + channel;
            &&& net.value is Some
            &&& head.fc1_w@.len() == hidden * net.channels
            &&& 0 <= at < head.fc1_w@.len()
            &&& head.fc1_w@[at] == from.fc1_w@[unit]@[channel]
            &&& fits(head.fc1_w@[at])
            &&& head.fc1_b@.len() == hidden
            &&& head.fc1_b@[unit] == from.fc1_b@[unit]
            &&& fits(head.fc1_b@[unit])
            &&& head.fc2_w@.len() == hidden
            &&& head.fc2_w@[unit] == from.fc2_w@[unit]
            &&& fits(head.fc2_w@[unit])
            &&& head.fc2_b == from.fc2_b
            &&& fits(head.fc2_b)
        }),
{
    let from = raw.value_head->0;
    let channels = raw.meta.channels as int;
    let rows = from.fc1_w@;
    assert(value_fault(from, channels) is None);
    assert forall|k: int| 0 <= k < rows.len() implies (#[trigger] rows[k])@.len() == channels by {
        hidden_is_sound(rows, channels, 0, k);
    }
    hidden_is_sound(rows, channels, 0, unit);
    entries_are_sound(rows[unit]@, Row::Hidden(unit as usize), 0, channel);
    entries_are_sound(from.fc1_b@, Row::HiddenBias, 0, unit);
    entries_are_sound(from.fc2_w@, Row::Output, 0, unit);
    hidden_lies_flat(rows, channels, rows.len() as int, unit, channel);
}

/// Every bias and every head weight of a loaded net is the artifact's, under
/// its own layer and channel, and the net says of itself what the artifact
/// says.
pub proof fn a_loaded_net_holds_the_artifact(
    raw: RawNet,
    net: PolicyValueNet,
    layer: int,
    channel: int,
)
    requires
        fault_of(raw) is None,
        loaded(raw, net),
        0 <= layer < raw.meta.layers,
        0 <= channel < raw.meta.channels,
    ensures
        net.arch@ == raw.meta.arch@,
        net.channels == raw.meta.channels,
        net.layers == raw.meta.layers,
        net.layers == raw.conv@.len(),
        net.conv_w@.len() == net.layers,
        net.conv_b@.len() == net.layers,
        net.conv_b@[layer]@[channel] == raw.conv@[layer].b@[channel],
        net.move_w@[channel] == raw.move_head.w@[channel]@[0]@[0],
        net.pair_w@[channel] == raw.pair_head.w@[channel]@[0]@[0],
        net.move_b == raw.move_head.b,
        net.pair_b == raw.pair_head.b,
        net.pair_bias == raw.pair_bias,
{
    a_loaded_net_is_whole(raw, net, layer, channel);
}

/// A weight is finite once narrowed exactly when its exponent is below that of
/// the largest 32-bit number, or is that one and its fraction is not so large
/// that rounding carries it past. Its sign does not matter.
pub proof fn a_weight_narrows_by_its_exponent(bits: u64)
    ensures
        ({
            let exponent = (bits as int / 0x10_0000_0000_0000) % 2048;
            let fraction = bits as int % 0x10_0000_0000_0000;
            fits(bits) <==> exponent < 1150 || (exponent == 1150 && fraction
                < 0xF_FFFF_F000_0000)
        }),
        bits < 0x8000_0000_0000_0000 ==> fits(bits) == fits(
            (bits + 0x8000_0000_0000_0000) as u64,
        ),
{
    let whole = bits as int % 0x8000_0000_0000_0000;
    assert(whole / 0x10_0000_0000_0000 == (bits as int / 0x10_0000_0000_0000) % 2048);
    assert(whole % 0x10_0000_0000_0000 == bits as int % 0x10_0000_0000_0000);
}

/// Every entry of a list of the right length is finite.
pub open spec fn row_sound(values: Seq<u64>, expected: int) -> bool {
    &&& values.len() == expected
    &&& forall|i: int| 0 <= i < values.len() ==> fits(#[trigger] values[i])
}

/// A three by three kernel, all finite.
pub open spec fn kernel_sound(kernel: Seq<Vec<u64>>) -> bool {
    &&& kernel.len() == 3
    &&& forall|r: int| 0 <= r < 3 ==> row_sound((#[trigger] kernel[r])@, 3)
}

/// One finite kernel for each input.
pub open spec fn output_sound(row: Seq<Vec<Vec<u64>>>, inputs: int) -> bool {
    &&& row.len() == inputs
    &&& forall|i: int| 0 <= i < row.len() ==> kernel_sound((#[trigger] row[i])@)
}

/// One sound row and one finite bias for each output.
pub open spec fn layer_sound(conv: RawConv, channels: int, inputs: int) -> bool {
    &&& conv.w@.len() == channels
    &&& forall|o: int| 0 <= o < channels ==> output_sound((#[trigger] conv.w@[o])@, inputs)
    &&& row_sound(conv.b@, channels)
}

/// One finite one-by-one kernel for each channel, and a finite bias.
pub open spec fn head_sound(raw: RawHead, channels: int) -> bool {
    &&& raw.w@.len() == channels
    &&& forall|c: int|
        0 <= c < channels ==> (#[trigger] raw.w@[c])@.len() == 1 && raw.w@[c]@[0]@.len() == 1
            && fits(raw.w@[c]@[0]@[0])
    &&& fits(raw.b)
}

/// At least one hidden unit, each with a finite weight for every channel, a
/// finite bias and a finite output weight, and a finite output bias.
pub open spec fn value_sound(raw: RawValueHead, channels: int) -> bool {
    let hidden = raw.fc1_w@.len() as int;
    &&& hidden > 0
    &&& forall|h: int| 0 <= h < hidden ==> row_sound((#[trigger] raw.fc1_w@[h])@, channels)
    &&& row_sound(raw.fc1_b@, hidden)
    &&& row_sound(raw.fc2_w@, hidden)
    &&& fits(raw.fc2_b)
}

proof fn entries_are_faultless(values: Seq<u64>, row: Row, from: int)
    requires
        0 <= from,
        forall|i: int| 0 <= i < values.len() ==> fits(#[trigger] values[i]),
    ensures
        entries_fault(values, row, from) is None,
    decreases values.len() - from,
{
    if from < values.len() {
        entries_are_faultless(values, row, from + 1);
    }
}

proof fn row_faults_are_unsoundness(values: Seq<u64>, expected: int, row: Row)
    ensures
        row_fault(values, expected, row) is None <==> row_sound(values, expected),
{
    if row_sound(values, expected) {
        entries_are_faultless(values, row, 0);
    }
    if row_fault(values, expected, row) is None {
        assert forall|i: int| 0 <= i < values.len() implies fits(#[trigger] values[i]) by {
            entries_are_sound(values, row, 0, i);
        }
    }
}

proof fn kernel_faults_are_unsoundness(
    kernel: Seq<Vec<u64>>,
    layer: usize,
    output: usize,
    input: usize,
)
    ensures
        kernel_fault(kernel, layer, output, input) is None <==> kernel_sound(kernel),
{
    if kernel_sound(kernel) {
        assert(row_sound(kernel[0]@, 3) && row_sound(kernel[1]@, 3) && row_sound(kernel[2]@, 3));
        assert forall|r: int| 0 <= r < 3 implies kernel_row_fault(
            (#[trigger] kernel[r])@,
            layer,
            output,
            input,
            r as usize,
        ) is None by {
            let values = kernel[r]@;
            assert(fits(values[0]) && fits(values[1]) && fits(values[2]));
        }
        assert(kernel_row_fault(kernel[0]@, layer, output, input, 0) is None);
        assert(kernel_row_fault(kernel[1]@, layer, output, input, 1) is None);
        assert(kernel_row_fault(kernel[2]@, layer, output, input, 2) is None);
    }
    if kernel_fault(kernel, layer, output, input) is None {
        assert forall|r: int| 0 <= r < 3 implies row_sound((#[trigger] kernel[r])@, 3) by {
            assert(r == 0 || r == 1 || r == 2);
            assert(kernel_row_fault(kernel[r]@, layer, output, input, r as usize) is None);
            assert forall|c: int| 0 <= c < 3 implies fits(#[trigger] kernel[r]@[c]) by {
                assert(c == 0 || c == 1 || c == 2);
            }
        }
    }
}

proof fn kernels_are_faultless(
    row: Seq<Vec<Vec<u64>>>,
    layer: usize,
    output: usize,
    from: int,
)
    requires
        0 <= from,
        forall|i: int| 0 <= i < row.len() ==> kernel_sound((#[trigger] row[i])@),
    ensures
        kernels_fault(row, layer, output, from) is None,
    decreases row.len() - from,
{
    if from < row.len() {
        kernel_faults_are_unsoundness(row[from]@, layer, output, from as usize);
        kernels_are_faultless(row, layer, output, from + 1);
    }
}

proof fn outputs_are_faultless(
    w: Seq<Vec<Vec<Vec<u64>>>>,
    inputs: int,
    layer: usize,
    from: int,
)
    requires
        0 <= from,
        forall|o: int| 0 <= o < w.len() ==> output_sound((#[trigger] w[o])@, inputs),
    ensures
        outputs_fault(w, inputs, layer, from) is None,
    decreases w.len() - from,
{
    if from < w.len() {
        assert(output_sound(w[from]@, inputs));
        kernels_are_faultless(w[from]@, layer, from as usize, 0);
        outputs_are_faultless(w, inputs, layer, from + 1);
    }
}

proof fn layer_faults_are_unsoundness(conv: RawConv, channels: int, inputs: int, layer: usize)
    ensures
        layer_fault(conv, channels, inputs, layer) is None <==> layer_sound(
            conv,
            channels,
            inputs,
        ),
{
    row_faults_are_unsoundness(conv.b@, channels, Row::Bias(layer));
    if layer_sound(conv, channels, inputs) {
        outputs_are_faultless(conv.w@, inputs, layer, 0);
    }
    if layer_fault(conv, channels, inputs, layer) is None {
        assert forall|o: int| 0 <= o < channels implies output_sound(
            (#[trigger] conv.w@[o])@,
            inputs,
        ) by {
            outputs_are_sound(conv.w@, inputs, layer, 0, o);
            let row = conv.w@[o]@;
            assert forall|i: int| 0 <= i < row.len() implies kernel_sound((#[trigger] row[i])@) by {
                kernels_are_sound(row, layer, o as usize, 0, i);
                kernel_faults_are_unsoundness(row[i]@, layer, o as usize, i as usize);
            }
        }
    }
}

proof fn layers_are_faultless(conv: Seq<RawConv>, channels: int, from: int)
    requires
        0 <= from,
        forall|l: int|
            0 <= l < conv.len() ==> layer_sound(
                #[trigger] conv[l],
                channels,
                if l == 0 {
                    13
                } else {
                    channels
                },
            ),
    ensures
        layers_fault(conv, channels, from) is None,
    decreases conv.len() - from,
{
    if from < conv.len() {
        layer_faults_are_unsoundness(
            conv[from],
            channels,
            inputs_of(channels, from),
            from as usize,
        );
        layers_are_faultless(conv, channels, from + 1);
    }
}

proof fn head_faults_are_unsoundness(raw: RawHead, channels: int, head: Head)
    ensures
        head_fault(raw, channels, head) is None && fits(raw.b) <==> head_sound(raw, channels),
{
    if head_fault(raw, channels, head) is None {
        assert forall|c: int| 0 <= c < channels implies (#[trigger] raw.w@[c])@.len() == 1
            && raw.w@[c]@[0]@.len() == 1 && fits(raw.w@[c]@[0]@[0]) by {
            channels_are_sound(raw.w@, head, 0, c);
        }
    }
    if head_sound(raw, channels) {
        channels_are_faultless(raw.w@, head, 0);
    }
}

proof fn channels_are_faultless(w: Seq<Vec<Vec<u64>>>, head: Head, from: int)
    requires
        0 <= from,
        forall|c: int|
            0 <= c < w.len() ==> (#[trigger] w[c])@.len() == 1 && w[c]@[0]@.len() == 1 && fits(
                w[c]@[0]@[0],
            ),
    ensures
        channels_fault(w, head, from) is None,
    decreases w.len() - from,
{
    if from < w.len() {
        assert(w[from]@.len() == 1);
        channels_are_faultless(w, head, from + 1);
    }
}

proof fn hidden_is_faultless(rows: Seq<Vec<u64>>, channels: int, from: int)
    requires
        0 <= from,
        forall|h: int| 0 <= h < rows.len() ==> row_sound((#[trigger] rows[h])@, channels),
    ensures
        hidden_fault(rows, channels, from) is None,
    decreases rows.len() - from,
{
    if from < rows.len() {
        row_faults_are_unsoundness(rows[from]@, channels, Row::Hidden(from as usize));
        hidden_is_faultless(rows, channels, from + 1);
    }
}

proof fn value_faults_are_unsoundness(raw: RawValueHead, channels: int)
    ensures
        value_fault(raw, channels) is None <==> value_sound(raw, channels),
{
    let hidden = raw.fc1_w@.len() as int;
    row_faults_are_unsoundness(raw.fc1_b@, hidden, Row::HiddenBias);
    row_faults_are_unsoundness(raw.fc2_w@, hidden, Row::Output);
    if value_sound(raw, channels) {
        hidden_is_faultless(raw.fc1_w@, channels, 0);
    }
    if value_fault(raw, channels) is None {
        assert forall|h: int| 0 <= h < hidden implies row_sound(
            (#[trigger] raw.fc1_w@[h])@,
            channels,
        ) by {
            hidden_is_sound(raw.fc1_w@, channels, 0, h);
            row_faults_are_unsoundness(raw.fc1_w@[h]@, channels, Row::Hidden(h as usize));
        }
    }
}

/// An artifact loads exactly when it is a net for the 12x12 board and its 13
/// planes, of a known architecture, with the declared number of layers and
/// channels, every part of the declared shape and every weight finite.
pub proof fn an_artifact_loads_exactly_when_it_is_sound(raw: RawNet)
    ensures
        fault_of(raw) is None <==> {
            let channels = raw.meta.channels as int;
            &&& raw.meta.arch@ == "conv-policy-v1"@ || raw.meta.arch@ == "conv-policy-value-v1"@
            &&& raw.meta.board == 12
            &&& raw.meta.planes == 13
            &&& channels > 0
            &&& raw.meta.layers > 0
            &&& raw.conv@.len() == raw.meta.layers
            &&& forall|l: int|
                0 <= l < raw.conv@.len() ==> layer_sound(
                    #[trigger] raw.conv@[l],
                    channels,
                    if l == 0 {
                        13
                    } else {
                        channels
                    },
                )
            &&& head_sound(raw.move_head, channels)
            &&& head_sound(raw.pair_head, channels)
            &&& fits(raw.pair_bias)
            &&& raw.value_head matches Some(head) ==> value_sound(head, channels)
        },
{
    let channels = raw.meta.channels as int;
    head_faults_are_unsoundness(raw.move_head, channels, Head::Move);
    head_faults_are_unsoundness(raw.pair_head, channels, Head::Pair);
    if let Some(head) = raw.value_head {
        value_faults_are_unsoundness(head, channels);
    }
    if forall|l: int|
        0 <= l < raw.conv@.len() ==> layer_sound(
            #[trigger] raw.conv@[l],
            channels,
            if l == 0 {
                13
            } else {
                channels
            },
        ) {
        layers_are_faultless(raw.conv@, channels, 0);
    }
    if layers_fault(raw.conv@, channels, 0) is None {
        assert forall|l: int| 0 <= l < raw.conv@.len() implies layer_sound(
            #[trigger] raw.conv@[l],
            channels,
            if l == 0 {
                13
            } else {
                channels
            },
        ) by {
            layers_are_sound(raw.conv@, channels, 0, l);
            layer_faults_are_unsoundness(
                raw.conv@[l],
                channels,
                inputs_of(channels, l),
                l as usize,
            );
        }
    }
}

/// What `fault` says is so: the named part is there, is as long as it says and
/// not as long as it should be, or holds the weight it names, which does not
/// narrow to a finite one.
pub open spec fn points_at(raw: RawNet, fault: Fault) -> bool {
    let conv = raw.conv@;
    let channels = raw.meta.channels;
    match fault {
        Fault::Arch => raw.meta.arch@ != "conv-policy-v1"@ && raw.meta.arch@
            != "conv-policy-value-v1"@,
        Fault::Board { board, planes } => {
            &&& board == raw.meta.board
            &&& planes == raw.meta.planes
            &&& !(board == 12 && planes == 13)
        },
        Fault::Sizes { channels, layers } => {
            &&& channels == raw.meta.channels
            &&& layers == raw.meta.layers
            &&& !(channels > 0 && layers > 0)
        },
        Fault::Layers { found, declared } => {
            &&& found == conv.len()
            &&& declared == raw.meta.layers
            &&& found != declared
        },
        Fault::Rows { layer, found, expected } => {
            &&& layer < conv.len()
            &&& found == conv[layer as int].w@.len()
            &&& expected == channels
            &&& found != expected
        },
        Fault::Inputs { layer, output, found, expected } => {
            &&& layer < conv.len()
            &&& output < conv[layer as int].w@.len()
            &&& found == conv[layer as int].w@[output as int]@.len()
            &&& expected == (if layer == 0 {
                13
            } else {
                channels as int
            })
            &&& found != expected
        },
        Fault::KernelRows { layer, output, input, found } => {
            &&& layer < conv.len()
            &&& output < conv[layer as int].w@.len()
            &&& input < conv[layer as int].w@[output as int]@.len()
            &&& found == conv[layer as int].w@[output as int]@[input as int]@.len()
            &&& found != 3
        },
        Fault::KernelColumns { layer, output, input, row, found } => {
            &&& layer < conv.len()
            &&& output < conv[layer as int].w@.len()
            &&& input < conv[layer as int].w@[output as int]@.len()
            &&& row < conv[layer as int].w@[output as int]@[input as int]@.len()
            &&& found == conv[layer as int].w@[output as int]@[input as int]@[row as int]@.len()
            &&& found != 3
        },
        Fault::Length { row, found, expected } => {
            &&& found != expected
            &&& match row {
                Row::Bias(layer) => {
                    &&& layer < conv.len()
                    &&& found == conv[layer as int].b@.len()
                    &&& expected == channels
                },
                Row::Hidden(unit) => {
                    &&& raw.value_head is Some
                    &&& unit < raw.value_head->0.fc1_w@.len()
                    &&& found == raw.value_head->0.fc1_w@[unit as int]@.len()
                    &&& expected == channels
                },
                Row::HiddenBias => {
                    &&& raw.value_head is Some
                    &&& found == raw.value_head->0.fc1_b@.len()
                    &&& expected == raw.value_head->0.fc1_w@.len()
                },
                Row::Output => {
                    &&& raw.value_head is Some
                    &&& found == raw.value_head->0.fc2_w@.len()
                    &&& expected == raw.value_head->0.fc1_w@.len()
                },
            }
        },
        Fault::Channels { head, found, expected } => {
            &&& found == named_head(raw, head).w@.len()
            &&& expected == channels
            &&& found != expected
        },
        Fault::HeadKernel { head, channel, rows, columns } => {
            let w = named_head(raw, head).w@;
            &&& channel < w.len()
            &&& rows == w[channel as int]@.len()
            &&& rows == 0 ==> columns == 0
            &&& rows > 0 ==> columns == w[channel as int]@[0]@.len()
            &&& !(rows == 1 && columns == 1)
        },
        Fault::NoHidden => raw.value_head is Some && raw.value_head->0.fc1_w@.len() == 0,
        Fault::NotFinite { place, bits } => !fits(bits) && stands_at(raw, place, bits),
    }
}

/// The head of that name.
pub open spec fn named_head(raw: RawNet, head: Head) -> RawHead {
    match head {
        Head::Move => raw.move_head,
        Head::Pair => raw.pair_head,
    }
}

/// The artifact holds `bits` at `place`.
pub open spec fn stands_at(raw: RawNet, place: Place, bits: u64) -> bool {
    let conv = raw.conv@;
    match place {
        Place::Kernel(layer, output, input, row, column) => {
            &&& layer < conv.len()
            &&& output < conv[layer as int].w@.len()
            &&& input < conv[layer as int].w@[output as int]@.len()
            &&& row < 3
            &&& column < 3
            &&& conv[layer as int].w@[output as int]@[input as int]@[row as int]@[column as int]
                == bits
        },
        Place::Entry(Row::Bias(layer), at) => {
            &&& layer < conv.len()
            &&& at < conv[layer as int].b@.len()
            &&& conv[layer as int].b@[at as int] == bits
        },
        Place::Entry(Row::Hidden(unit), at) => {
            &&& raw.value_head is Some
            &&& unit < raw.value_head->0.fc1_w@.len()
            &&& at < raw.value_head->0.fc1_w@[unit as int]@.len()
            &&& raw.value_head->0.fc1_w@[unit as int]@[at as int] == bits
        },
        Place::Entry(Row::HiddenBias, at) => {
            &&& raw.value_head is Some
            &&& at < raw.value_head->0.fc1_b@.len()
            &&& raw.value_head->0.fc1_b@[at as int] == bits
        },
        Place::Entry(Row::Output, at) => {
            &&& raw.value_head is Some
            &&& at < raw.value_head->0.fc2_w@.len()
            &&& raw.value_head->0.fc2_w@[at as int] == bits
        },
        Place::Channel(head, channel) => {
            &&& channel < named_head(raw, head).w@.len()
            &&& named_head(raw, head).w@[channel as int]@[0]@[0] == bits
        },
        Place::HeadBias(head) => named_head(raw, head).b == bits,
        Place::PairBias => raw.pair_bias == bits,
        Place::OutputBias => raw.value_head is Some && raw.value_head->0.fc2_b == bits,
    }
}

proof fn an_entry_fault_points(values: Vec<u64>, row: Row, from: int)
    requires
        0 <= from,
        entries_fault(values@, row, from) is Some,
    ensures
        entries_fault(values@, row, from)->0 matches Fault::NotFinite { place, bits }
            && place matches Place::Entry(r, at) && r == row && at < values@.len()
            && values@[at as int] == bits && !fits(bits),
    decreases values@.len() - from,
{
    assert(values@.len() == values.len());
    if weight_fault(values@[from], Place::Entry(row, from as usize)) is None {
        an_entry_fault_points(values, row, from + 1);
    }
}

proof fn a_kernel_fault_points(raw: RawNet, layer: int, output: int, from: int)
    requires
        0 <= layer < raw.conv@.len(),
        0 <= output < raw.conv@[layer].w@.len(),
        0 <= from,
        kernels_fault(
            raw.conv@[layer].w@[output]@,
            layer as usize,
            output as usize,
            from,
        ) is Some,
    ensures
        points_at(
            raw,
            kernels_fault(
                raw.conv@[layer].w@[output]@,
                layer as usize,
                output as usize,
                from,
            )->0,
        ),
    decreases raw.conv@[layer].w@[output]@.len() - from,
{
    let row = raw.conv@[layer].w@[output]@;
    assert(raw.conv@.len() == raw.conv.len());
    assert(raw.conv@[layer].w@.len() == raw.conv@[layer].w.len());
    assert(row.len() == raw.conv@[layer].w@[output].len());
    if kernel_fault(row[from]@, layer as usize, output as usize, from as usize) is None {
        a_kernel_fault_points(raw, layer, output, from + 1);
    } else {
        let kernel = row[from]@;
        assert(kernel.len() == row[from].len());
        if kernel.len() == 3 {
            assert(kernel[0]@.len() == kernel[0].len());
            assert(kernel[1]@.len() == kernel[1].len());
            assert(kernel[2]@.len() == kernel[2].len());
        }
    }
}

proof fn an_output_fault_points(raw: RawNet, inputs: int, layer: int, from: int)
    requires
        0 <= layer < raw.conv@.len(),
        0 <= from,
        raw.meta.channels > 0,
        inputs == inputs_of(raw.meta.channels as int, layer),
        outputs_fault(raw.conv@[layer].w@, inputs, layer as usize, from) is Some,
    ensures
        points_at(raw, outputs_fault(raw.conv@[layer].w@, inputs, layer as usize, from)->0),
    decreases raw.conv@[layer].w@.len() - from,
{
    let w = raw.conv@[layer].w@;
    assert(raw.conv@.len() == raw.conv.len());
    assert(w.len() == raw.conv@[layer].w.len());
    assert(w[from]@.len() == w[from].len());
    if w[from]@.len() == inputs {
        if kernels_fault(w[from]@, layer as usize, from as usize, 0) is Some {
            a_kernel_fault_points(raw, layer, from, 0);
        } else {
            an_output_fault_points(raw, inputs, layer, from + 1);
        }
    }
}

proof fn a_layer_fault_points(raw: RawNet, from: int)
    requires
        0 <= from,
        raw.meta.channels > 0,
        layers_fault(raw.conv@, raw.meta.channels as int, from) is Some,
    ensures
        points_at(raw, layers_fault(raw.conv@, raw.meta.channels as int, from)->0),
    decreases raw.conv@.len() - from,
{
    let channels = raw.meta.channels as int;
    let inputs = inputs_of(channels, from);
    let conv = raw.conv@[from];
    assert(raw.conv@.len() == raw.conv.len());
    assert(conv.w@.len() == conv.w.len());
    assert(conv.b@.len() == conv.b.len());
    if layer_fault(conv, channels, inputs, from as usize) is None {
        a_layer_fault_points(raw, from + 1);
    } else if conv.w@.len() == channels {
        if outputs_fault(conv.w@, inputs, from as usize, 0) is Some {
            an_output_fault_points(raw, inputs, from, 0);
        } else if conv.b@.len() == channels {
            an_entry_fault_points(conv.b, Row::Bias(from as usize), 0);
        }
    }
}

proof fn a_channel_fault_points(raw: RawNet, head: Head, from: int)
    requires
        0 <= from,
        channels_fault(named_head(raw, head).w@, head, from) is Some,
    ensures
        points_at(raw, channels_fault(named_head(raw, head).w@, head, from)->0),
    decreases named_head(raw, head).w@.len() - from,
{
    let w = named_head(raw, head).w;
    assert(w@.len() == w.len());
    assert(w@[from]@.len() == w@[from].len());
    assert(w@[from]@[0]@.len() == w@[from]@[0].len());
    if channel_fault(w@[from]@, head, from as usize) is None {
        a_channel_fault_points(raw, head, from + 1);
    }
}

proof fn a_hidden_fault_points(raw: RawNet, from: int)
    requires
        0 <= from,
        raw.meta.channels > 0,
        raw.value_head is Some,
        hidden_fault(raw.value_head->0.fc1_w@, raw.meta.channels as int, from) is Some,
    ensures
        points_at(
            raw,
            hidden_fault(raw.value_head->0.fc1_w@, raw.meta.channels as int, from)->0,
        ),
    decreases raw.value_head->0.fc1_w@.len() - from,
{
    let rows = raw.value_head->0.fc1_w;
    let channels = raw.meta.channels as int;
    assert(rows@.len() == rows.len());
    assert(rows@[from]@.len() == rows@[from].len());
    if row_fault(rows@[from]@, channels, Row::Hidden(from as usize)) is None {
        a_hidden_fault_points(raw, from + 1);
    } else if rows@[from]@.len() == channels {
        an_entry_fault_points(rows@[from], Row::Hidden(from as usize), 0);
    }
}

/// A refusal is true: what it says is wrong is wrong, where it says.
pub proof fn a_fault_points_at_what_is_wrong(raw: RawNet)
    requires
        fault_of(raw) is Some,
    ensures
        points_at(raw, fault_of(raw)->0),
{
    let channels = raw.meta.channels as int;
    assert(raw.conv@.len() == raw.conv.len());
    assert(raw.move_head.w@.len() == raw.move_head.w.len());
    assert(raw.pair_head.w@.len() == raw.pair_head.w.len());
    if channels > 0 {
        if layers_fault(raw.conv@, channels, 0) is Some {
            a_layer_fault_points(raw, 0);
        }
        if channels_fault(raw.move_head.w@, Head::Move, 0) is Some {
            a_channel_fault_points(raw, Head::Move, 0);
        }
        if channels_fault(raw.pair_head.w@, Head::Pair, 0) is Some {
            a_channel_fault_points(raw, Head::Pair, 0);
        }
        if let Some(head) = raw.value_head {
            let hidden = head.fc1_w@.len() as int;
            assert(head.fc1_w@.len() == head.fc1_w.len());
            assert(head.fc1_b@.len() == head.fc1_b.len());
            assert(head.fc2_w@.len() == head.fc2_w.len());
            if hidden_fault(head.fc1_w@, channels, 0) is Some {
                a_hidden_fault_points(raw, 0);
            }
            if entries_fault(head.fc1_b@, Row::HiddenBias, 0) is Some {
                an_entry_fault_points(head.fc1_b, Row::HiddenBias, 0);
            }
            if entries_fault(head.fc2_w@, Row::Output, 0) is Some {
                an_entry_fault_points(head.fc2_w, Row::Output, 0);
            }
        }
    }
}

/// The layer a fault is in, if it is in one.
pub open spec fn layer_of(fault: Fault) -> Option<usize> {
    match fault {
        Fault::Rows { layer, .. } => Some(layer),
        Fault::Inputs { layer, .. } => Some(layer),
        Fault::KernelRows { layer, .. } => Some(layer),
        Fault::KernelColumns { layer, .. } => Some(layer),
        Fault::Length { row: Row::Bias(layer), .. } => Some(layer),
        Fault::NotFinite { place: Place::Kernel(layer, ..), .. } => Some(layer),
        Fault::NotFinite { place: Place::Entry(Row::Bias(layer), _), .. } => Some(layer),
        _ => None,
    }
}

/// The head whose weights a fault is in, if it is in one's.
pub open spec fn head_of(fault: Fault) -> Option<Head> {
    match fault {
        Fault::Channels { head, .. } => Some(head),
        Fault::HeadKernel { head, .. } => Some(head),
        Fault::NotFinite { place: Place::Channel(head, _), .. } => Some(head),
        _ => None,
    }
}

/// The fault is in the value head.
pub open spec fn in_value_head(fault: Fault) -> bool {
    match fault {
        Fault::NoHidden => true,
        Fault::Length { row, .. } => row !is Bias,
        Fault::NotFinite { place: Place::Entry(row, _), .. } => row !is Bias,
        Fault::NotFinite { place: Place::OutputBias, .. } => true,
        _ => false,
    }
}

proof fn a_kernel_fault_names_its_layer(
    row: Seq<Vec<Vec<u64>>>,
    layer: usize,
    output: usize,
    from: int,
)
    requires
        kernels_fault(row, layer, output, from) is Some,
    ensures
        layer_of(kernels_fault(row, layer, output, from)->0) == Some(layer),
    decreases row.len() - from,
{
    if kernel_fault(row[from]@, layer, output, from as usize) is None {
        a_kernel_fault_names_its_layer(row, layer, output, from + 1);
    }
}

proof fn an_output_fault_names_its_layer(
    w: Seq<Vec<Vec<Vec<u64>>>>,
    inputs: int,
    layer: usize,
    from: int,
)
    requires
        outputs_fault(w, inputs, layer, from) is Some,
    ensures
        layer_of(outputs_fault(w, inputs, layer, from)->0) == Some(layer),
    decreases w.len() - from,
{
    if w[from]@.len() == inputs {
        if kernels_fault(w[from]@, layer, from as usize, 0) is Some {
            a_kernel_fault_names_its_layer(w[from]@, layer, from as usize, 0);
        } else {
            an_output_fault_names_its_layer(w, inputs, layer, from + 1);
        }
    }
}

proof fn an_entry_fault_names_its_list(values: Seq<u64>, row: Row, from: int)
    requires
        entries_fault(values, row, from) is Some,
    ensures
        entries_fault(values, row, from)->0 matches Fault::NotFinite { place, bits }
            && place matches Place::Entry(r, at) && r == row,
    decreases values.len() - from,
{
    if weight_fault(values[from], Place::Entry(row, from as usize)) is None {
        an_entry_fault_names_its_list(values, row, from + 1);
    }
}

proof fn a_layer_fault_names_its_layer(conv: Vec<RawConv>, channels: int, from: int)
    requires
        0 <= from,
        layers_fault(conv@, channels, from) is Some,
        forall|l: int|
            0 <= l < from ==> layer_sound(
                #[trigger] conv@[l],
                channels,
                if l == 0 {
                    13
                } else {
                    channels
                },
            ),
    ensures
        layer_of(layers_fault(conv@, channels, from)->0) matches Some(layer) && {
            &&& layer < conv@.len()
            &&& forall|l: int|
                0 <= l < layer ==> layer_sound(
                    #[trigger] conv@[l],
                    channels,
                    if l == 0 {
                        13
                    } else {
                        channels
                    },
                )
        },
    decreases conv@.len() - from,
{
    assert(conv@.len() == conv.len());
    let inputs = inputs_of(channels, from);
    let layer = conv@[from];
    if layer_fault(layer, channels, inputs, from as usize) is None {
        layer_faults_are_unsoundness(layer, channels, inputs, from as usize);
        a_layer_fault_names_its_layer(conv, channels, from + 1);
    } else if layer.w@.len() == channels {
        if outputs_fault(layer.w@, inputs, from as usize, 0) is Some {
            an_output_fault_names_its_layer(layer.w@, inputs, from as usize, 0);
        } else if layer.b@.len() == channels {
            an_entry_fault_names_its_list(layer.b@, Row::Bias(from as usize), 0);
        }
    }
}

proof fn a_channel_fault_names_its_head(w: Seq<Vec<Vec<u64>>>, head: Head, from: int)
    requires
        channels_fault(w, head, from) is Some,
    ensures
        head_of(channels_fault(w, head, from)->0) == Some(head),
        layer_of(channels_fault(w, head, from)->0) is None,
        !in_value_head(channels_fault(w, head, from)->0),
    decreases w.len() - from,
{
    if channel_fault(w[from]@, head, from as usize) is None {
        a_channel_fault_names_its_head(w, head, from + 1);
    }
}

proof fn a_hidden_fault_is_the_value_heads(rows: Seq<Vec<u64>>, channels: int, from: int)
    requires
        hidden_fault(rows, channels, from) is Some,
    ensures
        in_value_head(hidden_fault(rows, channels, from)->0),
        layer_of(hidden_fault(rows, channels, from)->0) is None,
        head_of(hidden_fault(rows, channels, from)->0) is None,
    decreases rows.len() - from,
{
    if row_fault(rows[from]@, channels, Row::Hidden(from as usize)) is None {
        a_hidden_fault_is_the_value_heads(rows, channels, from + 1);
    } else if rows[from]@.len() == channels {
        an_entry_fault_names_its_list(rows[from]@, Row::Hidden(from as usize), 0);
    }
}

/// Every weight list of a head has one finite one-by-one kernel a channel.
pub open spec fn head_weights_sound(raw: RawHead, channels: int) -> bool {
    &&& raw.w@.len() == channels
    &&& forall|c: int|
        0 <= c < channels ==> (#[trigger] raw.w@[c])@.len() == 1 && raw.w@[c]@[0]@.len() == 1
            && fits(raw.w@[c]@[0]@[0])
}

/// What is read first is reported first: a fault in a layer means the layers
/// before it are sound, one in a head's weights that all layers are, and the
/// move head's weights before the pair head's, and one in the value head that
/// everything else is.
pub proof fn what_is_read_first_is_reported_first(raw: RawNet)
    requires
        fault_of(raw) is Some,
        raw.meta.channels > 0,
    ensures
        ({
            let fault = fault_of(raw)->0;
            let channels = raw.meta.channels as int;
            let layers_sound = forall|l: int|
                0 <= l < raw.conv@.len() ==> layer_sound(
                    #[trigger] raw.conv@[l],
                    channels,
                    if l == 0 {
                        13
                    } else {
                        channels
                    },
                );
            &&& layer_of(fault) matches Some(layer) ==> forall|l: int|
                0 <= l < layer ==> layer_sound(
                    #[trigger] raw.conv@[l],
                    channels,
                    if l == 0 {
                        13
                    } else {
                        channels
                    },
                )
            &&& head_of(fault) is Some ==> layers_sound
            &&& head_of(fault) == Some(Head::Pair) ==> head_weights_sound(raw.move_head, channels)
            &&& in_value_head(fault) ==> {
                &&& layers_sound
                &&& head_sound(raw.move_head, channels)
                &&& head_sound(raw.pair_head, channels)
                &&& fits(raw.pair_bias)
            }
        }),
{
    let channels = raw.meta.channels as int;
    head_faults_are_unsoundness(raw.move_head, channels, Head::Move);
    head_faults_are_unsoundness(raw.pair_head, channels, Head::Pair);
    if layers_fault(raw.conv@, channels, 0) is Some {
        a_layer_fault_names_its_layer(raw.conv, channels, 0);
    } else {
        assert forall|l: int| 0 <= l < raw.conv@.len() implies layer_sound(
            #[trigger] raw.conv@[l],
            channels,
            if l == 0 {
                13
            } else {
                channels
            },
        ) by {
            layers_are_sound(raw.conv@, channels, 0, l);
            layer_faults_are_unsoundness(
                raw.conv@[l],
                channels,
                inputs_of(channels, l),
                l as usize,
            );
        }
        if head_fault(raw.move_head, channels, Head::Move) is None {
            assert forall|c: int| 0 <= c < channels implies (
            #[trigger] raw.move_head.w@[c])@.len() == 1 && raw.move_head.w@[c]@[0]@.len() == 1
                && fits(raw.move_head.w@[c]@[0]@[0]) by {
                channels_are_sound(raw.move_head.w@, Head::Move, 0, c);
            }
        }
        if channels_fault(raw.move_head.w@, Head::Move, 0) is Some {
            a_channel_fault_names_its_head(raw.move_head.w@, Head::Move, 0);
        }
        if channels_fault(raw.pair_head.w@, Head::Pair, 0) is Some {
            a_channel_fault_names_its_head(raw.pair_head.w@, Head::Pair, 0);
        }
        if let Some(head) = raw.value_head {
            if hidden_fault(head.fc1_w@, channels, 0) is Some {
                a_hidden_fault_is_the_value_heads(head.fc1_w@, channels, 0);
            }
            if entries_fault(head.fc1_b@, Row::HiddenBias, 0) is Some {
                an_entry_fault_names_its_list(head.fc1_b@, Row::HiddenBias, 0);
            }
            if entries_fault(head.fc2_w@, Row::Output, 0) is Some {
                an_entry_fault_names_its_list(head.fc2_w@, Row::Output, 0);
            }
        }
    }
}

} // verus!
