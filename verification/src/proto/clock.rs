//! The turn clock: how a turn's time is split across its actions, and when a
//! search has run long enough.

use crate::time::{Duration, Instant, MAX_NANOS};
use vstd::prelude::*;

verus! {

/// Actions in a turn.
pub const ACTIONS_PER_TURN: u8 = 3;

/// Relative weights of a turn's three actions, first to last: the first decides
/// the turn's plan and gets the most.
pub const FIRST_WEIGHT: u32 = 5;

pub const SECOND_WEIGHT: u32 = 3;

pub const THIRD_WEIGHT: u32 = 2;

/// The least an action is ever given, in milliseconds, however empty the bank.
pub const MIN_ACTION_MILLIS: u64 = 50;

/// How far past its target an unstable root may run, as a percentage.
pub const EXTENSION_PERCENT: u32 = 150;

/// What one action of a turn is allowed to spend.
#[derive(Clone, Copy, PartialEq, Eq, Debug, Structural)]
pub struct MoveAllocation {
    /// What the search aims to spend. A stable root stops here or earlier.
    pub target: Duration,
    /// The most an *unstable* root may spend.
    pub ceiling: Duration,
}

impl MoveAllocation {
    /// A fixed allocation with no room to extend.
    pub fn fixed(budget: Duration) -> (r: MoveAllocation)
        ensures
            r.target == budget,
            r.ceiling == budget,
    {
        MoveAllocation { target: budget, ceiling: budget }
    }

    /// The target deadline for a search started at `started`.
    pub fn target_deadline(&self, started: Instant) -> (r: Instant)
        requires
            started@ + self.target@ <= MAX_NANOS,
        ensures
            r@ == started@ + self.target@,
    {
        started.plus(self.target)
    }

    /// The ceiling deadline for a search started at `started`.
    pub fn ceiling_deadline(&self, started: Instant) -> (r: Instant)
        requires
            started@ + self.ceiling@ <= MAX_NANOS,
        ensures
            r@ == started@ + self.ceiling@,
    {
        started.plus(self.ceiling)
    }
}

/// The weight of an action with `moves_left` actions left in the turn.
pub open spec fn weight(moves_left: int) -> int {
    if moves_left >= 3 {
        5
    } else if moves_left == 2 {
        3
    } else {
        2
    }
}

/// That weight and the weights of the actions after it.
pub open spec fn weight_left(moves_left: int) -> int {
    if moves_left >= 3 {
        10
    } else if moves_left == 2 {
        5
    } else {
        2
    }
}

/// `part / whole` of `amount`, to the nearest nanosecond.
pub open spec fn portion(amount: int, part: int, whole: int) -> int {
    (2 * amount * part + whole) / (2 * whole)
}

/// What an action with `moves_left` actions left is owed of `bank`.
pub open spec fn share(bank: int, moves_left: int) -> int {
    portion(bank, weight(moves_left), weight_left(moves_left))
}

/// The floor under every action's target.
pub open spec fn floor_nanos() -> int {
    50_000_000
}

/// An action's target out of `bank`: its share, but never less than the floor.
pub open spec fn target_of(bank: int, moves_left: int) -> int {
    if share(bank, moves_left) >= floor_nanos() {
        share(bank, moves_left)
    } else {
        floor_nanos()
    }
}

/// An action's ceiling out of `bank`: one and a half targets, borrowed from the
/// bank and from nowhere else, and never less than the target.
pub open spec fn ceiling_of(bank: int, moves_left: int) -> int {
    let target = target_of(bank, moves_left);
    let extended = portion(target, 150, 100);
    let lent = if extended <= bank {
        extended
    } else {
        bank
    };
    if lent >= target {
        lent
    } else {
        target
    }
}

/// An allocator as mathematical values.
#[verifier::ext_equal]
pub struct ClockView {
    /// The whole turn.
    pub turn: int,
    /// The per-action override, if there is one.
    pub fixed: Option<int>,
    /// What is left of the turn.
    pub bank: int,
    pub last_moves_left: u8,
    pub turn_ended: bool,
}

impl ClockView {
    /// An allocation for `moves_left` opens a fresh turn: the last one was
    /// announced over, or `moves_left` went up, which only a new turn does.
    pub open spec fn reopens(self, moves_left: u8) -> bool {
        self.turn_ended || moves_left > self.last_moves_left
    }

    /// The bank an allocation for `moves_left` divides.
    pub open spec fn bank_for(self, moves_left: u8) -> int {
        if self.reopens(moves_left) {
            self.turn
        } else {
            self.bank
        }
    }

    /// The clock after an allocation for `moves_left`.
    pub open spec fn allocated(self, moves_left: u8) -> ClockView {
        if self.fixed is Some {
            self
        } else {
            ClockView {
                bank: self.bank_for(moves_left),
                turn_ended: false,
                last_moves_left: moves_left,
                ..self
            }
        }
    }

    /// The target of an allocation for `moves_left`.
    pub open spec fn target(self, moves_left: u8) -> int {
        match self.fixed {
            Some(budget) => budget,
            None => target_of(self.bank_for(moves_left), moves_left as int),
        }
    }

    /// The ceiling of an allocation for `moves_left`.
    pub open spec fn ceiling(self, moves_left: u8) -> int {
        match self.fixed {
            Some(budget) => budget,
            None => ceiling_of(self.bank_for(moves_left), moves_left as int),
        }
    }

    /// The clock after an action took `elapsed`.
    pub open spec fn charged(self, elapsed: int) -> ClockView {
        if self.fixed is Some {
            self
        } else {
            ClockView {
                bank: if self.bank >= elapsed {
                    self.bank - elapsed
                } else {
                    0
                },
                ..self
            }
        }
    }
}

/// Splits a turn's wall clock across the turn's actions.
#[derive(Clone, Copy, Debug)]
pub struct TurnAllocator {
    turn: Duration,
    fixed: Option<Duration>,
    bank: Duration,
    last_moves_left: u8,
    /// The position stopped being ours, so the next allocation opens a fresh
    /// turn even if `movesLeft` did not go up.
    turn_ended: bool,
}

impl View for TurnAllocator {
    type V = ClockView;

    closed spec fn view(&self) -> ClockView {
        ClockView {
            turn: self.turn@,
            fixed: match self.fixed {
                Some(budget) => Some(budget@),
                None => None,
            },
            bank: self.bank@,
            last_moves_left: self.last_moves_left,
            turn_ended: self.turn_ended,
        }
    }
}

/// `part / whole` of `amount`.
fn scaled(amount: Duration, part: u32, whole: u32) -> (r: Duration)
    requires
        0 < part <= 1_000,
        0 < whole <= 1_000,
    ensures
        r@ == if portion(amount@, part as int, whole as int) <= MAX_NANOS {
            portion(amount@, part as int, whole as int)
        } else {
            MAX_NANOS as int
        },
{
    let nanos: u128 = amount.as_nanos();
    assert(0 <= 2 * nanos * part <= 2 * MAX_NANOS * 1_000) by (nonlinear_arith)
        requires
            0 <= nanos <= MAX_NANOS,
            0 < part <= 1_000,
    ;
    Duration::from_nanos((2 * nanos * part as u128 + whole as u128) / (2 * whole as u128))
}

impl TurnAllocator {
    /// An allocator that splits `turn` across a turn's actions.
    pub fn new(turn: Duration) -> (r: TurnAllocator)
        ensures
            r@ == (ClockView {
                turn: turn@,
                fixed: None,
                bank: turn@,
                last_moves_left: 0,
                turn_ended: true,
            }),
    {
        TurnAllocator { turn, fixed: None, bank: turn, last_moves_left: 0, turn_ended: true }
    }

    /// An allocator disabled by a per-action override: every action gets
    /// exactly `budget` and nothing is banked.
    pub fn fixed(budget: Duration) -> (r: TurnAllocator)
        ensures
            r@ == (ClockView {
                turn: if budget@ * 3 <= MAX_NANOS {
                    budget@ * 3
                } else {
                    MAX_NANOS as int
                },
                fixed: Some(budget@),
                bank: budget@,
                last_moves_left: 0,
                turn_ended: true,
            }),
    {
        TurnAllocator {
            turn: budget.saturating_mul(ACTIONS_PER_TURN as u32),
            fixed: Some(budget),
            bank: budget,
            last_moves_left: 0,
            turn_ended: true,
        }
    }

    /// Whether a per-action override is in force, i.e. the allocator is off.
    pub fn is_fixed(&self) -> (r: bool)
        ensures
            r == (self@.fixed is Some),
    {
        self.fixed.is_some()
    }

    /// The whole-turn budget this allocator divides.
    pub fn turn_budget(&self) -> (r: Duration)
        ensures
            r@ == self@.turn,
    {
        self.turn
    }

    /// What is left of the current turn.
    pub fn bank(&self) -> (r: Duration)
        ensures
            r@ == self@.bank,
    {
        self.bank
    }

    /// Records that the turn is over, so the next allocation opens a fresh bank.
    pub fn end_turn(&mut self)
        ensures
            final(self)@ == (ClockView { turn_ended: true, ..old(self)@ }),
    {
        self.turn_ended = true;
    }

    /// Allocates for an action with `moves_left` actions remaining in the turn.
    pub fn allocate(&mut self, moves_left: u8) -> (r: MoveAllocation)
        ensures
            final(self)@ == old(self)@.allocated(moves_left),
            r.target@ == old(self)@.target(moves_left),
            r.ceiling@ == old(self)@.ceiling(moves_left),
            r.target@ <= r.ceiling@,
    {
        if let Some(budget) = self.fixed {
            return MoveAllocation::fixed(budget);
        }
        if self.turn_ended || moves_left > self.last_moves_left {
            self.bank = self.turn;
            self.turn_ended = false;
        }
        self.last_moves_left = moves_left;
        let (part, whole): (u32, u32) = if moves_left >= ACTIONS_PER_TURN {
            (FIRST_WEIGHT, FIRST_WEIGHT + SECOND_WEIGHT + THIRD_WEIGHT)
        } else if moves_left == 2 {
            (SECOND_WEIGHT, SECOND_WEIGHT + THIRD_WEIGHT)
        } else {
            (THIRD_WEIGHT, THIRD_WEIGHT)
        };
        let limit: u128 = self.bank.as_nanos();
        proof {
            a_share_fits_the_bank(limit as int, moves_left as int);
        }
        let owed = scaled(self.bank, part, whole);
        let target = owed.longer(Duration::from_millis(MIN_ACTION_MILLIS));
        let extended = scaled(target, EXTENSION_PERCENT, 100);
        let ceiling = extended.shorter(self.bank).longer(target);
        MoveAllocation { target, ceiling }
    }

    /// Deducts what an action actually spent from the turn's bank. What it did
    /// not spend stays there for the next allocation to divide.
    pub fn spent(&mut self, elapsed: Duration)
        ensures
            final(self)@ == old(self)@.charged(elapsed@),
    {
        if self.fixed.is_some() {
            return ;
        }
        self.bank = self.bank.saturating_sub(elapsed);
    }
}

impl Default for TurnAllocator {
    fn default() -> (r: TurnAllocator)
        ensures
            r@ == (ClockView {
                turn: 12_000_000_000,
                fixed: None,
                bank: 12_000_000_000,
                last_moves_left: 0,
                turn_ended: true,
            }),
    {
        TurnAllocator::new(Duration::from_millis(12_000))
    }
}

/// No share is more than what it is a share of, and the last one is all of it.
pub proof fn a_share_fits_the_bank(bank: int, moves_left: int)
    requires
        bank >= 0,
    ensures
        0 <= share(bank, moves_left) <= bank,
        moves_left <= 1 ==> share(bank, moves_left) == bank,
{
    if moves_left >= 3 {
        assert(share(bank, moves_left) == (10 * bank + 10) / 20);
    } else if moves_left == 2 {
        assert(share(bank, moves_left) == (6 * bank + 5) / 10);
    } else {
        assert(share(bank, moves_left) == (4 * bank + 2) / 4);
    }
}

/// An extension is borrowed from the turn and never added to it: unless the
/// floor alone overdraws the bank, no ceiling reaches past the bank.
pub proof fn an_extension_is_borrowed_from_the_bank(bank: int, moves_left: int)
    requires
        target_of(bank, moves_left) <= bank,
    ensures
        target_of(bank, moves_left) <= ceiling_of(bank, moves_left) <= bank,
{
}

/// The three shares of a turn add up to the turn, to the nanosecond, and the
/// first is the largest, as long as no share falls below the floor.
pub proof fn a_fully_spent_turn_is_spent_exactly(clock: ClockView)
    requires
        clock.fixed is None,
        clock.reopens(3),
        clock.turn >= 0,
        share(clock.turn, 3) >= floor_nanos(),
        share(clock.turn - share(clock.turn, 3), 2) >= floor_nanos(),
        clock.turn - share(clock.turn, 3) - share(clock.turn - share(clock.turn, 3), 2)
            >= floor_nanos(),
    ensures
        ({
            let first = clock.target(3);
            let one = clock.allocated(3).charged(first);
            let second = one.target(2);
            let two = one.allocated(2).charged(second);
            let third = two.target(1);
            let three = two.allocated(1).charged(third);
            &&& first + second + third == clock.turn
            &&& first >= second >= third
            &&& three.bank == 0
        }),
{
    let first = clock.target(3);
    let one = clock.allocated(3).charged(first);
    assert(first == (10 * clock.turn + 10) / 20);
    let second = one.target(2);
    assert(second == (6 * one.bank + 5) / 10);
    let two = one.allocated(2).charged(second);
    assert(share(two.bank, 1) == (4 * two.bank + 2) / 4);
}

/// Three actions that each run to their ceiling never spend more than the
/// turn, and neither do three that stop earlier, as long as the floor does not
/// overdraw what is left of the turn.
pub proof fn no_sequence_of_extensions_breaks_the_turn(
    clock: ClockView,
    first: int,
    second: int,
    third: int,
)
    requires
        clock.fixed is None,
        clock.reopens(3),
        0 <= first <= clock.ceiling(3),
        clock.target(3) <= clock.turn,
        ({
            let one = clock.allocated(3).charged(first);
            let two = one.allocated(2).charged(second);
            &&& 0 <= second <= one.ceiling(2)
            &&& one.target(2) <= one.bank
            &&& 0 <= third <= two.ceiling(1)
            &&& two.target(1) <= two.bank
        }),
    ensures
        first + second + third <= clock.turn,
{
}

/// An override gives every action the same budget whatever was spent before.
pub proof fn an_override_ignores_the_bank(clock: ClockView, elapsed: int, moves_left: u8)
    requires
        clock.fixed is Some,
    ensures
        clock.charged(elapsed) == clock,
        clock.allocated(moves_left) == clock,
        clock.target(moves_left) == clock.fixed->0,
        clock.ceiling(moves_left) == clock.fixed->0,
{
}

/// Which visit-based stop rules a search should apply.
#[derive(Clone, Copy, PartialEq, Eq, Debug, Structural)]
pub struct StopPolicy {
    /// Stop as soon as the visit leader is mathematically uncatchable.
    pub early_stop: bool,
    /// Run past the target toward the ceiling while the root looks unstable.
    pub extension: bool,
    /// Top-2 visit gap, in millionths of the leader's visits, below which the
    /// root counts as unstable.
    pub unstable_gap: u32,
}

/// A fifth, in millionths.
pub const DEFAULT_UNSTABLE_GAP: u32 = 200_000;

/// The whole, in millionths.
pub const GAP_WHOLE: u32 = 1_000_000;

impl Default for StopPolicy {
    fn default() -> (r: StopPolicy)
        ensures
            r == (StopPolicy {
                early_stop: true,
                extension: true,
                unstable_gap: DEFAULT_UNSTABLE_GAP,
            }),
    {
        StopPolicy { early_stop: true, extension: true, unstable_gap: DEFAULT_UNSTABLE_GAP }
    }
}

impl StopPolicy {
    /// Both rules off: spend exactly the target, every time.
    pub fn off() -> (r: StopPolicy)
        ensures
            r == (StopPolicy { early_stop: false, extension: false, unstable_gap: 0 }),
    {
        StopPolicy { early_stop: false, extension: false, unstable_gap: 0 }
    }
}

/// Everything the stop rules read from a search in progress.
#[derive(Clone, Copy, PartialEq, Eq, Debug, Structural)]
pub struct RootProgress {
    /// Visits of the most-visited root action.
    pub leader_visits: u64,
    /// Visits of the second most-visited root action.
    pub runner_up_visits: u64,
    /// Simulations **this search** has run.
    pub sims: u64,
    /// The visit leader changed after the halfway mark of the target.
    pub leader_changed_late: bool,
}

impl Default for RootProgress {
    fn default() -> (r: RootProgress)
        ensures
            r == (RootProgress {
                leader_visits: 0,
                runner_up_visits: 0,
                sims: 0,
                leader_changed_late: false,
            }),
    {
        RootProgress {
            leader_visits: 0,
            runner_up_visits: 0,
            sims: 0,
            leader_changed_late: false,
        }
    }
}

/// `leader` and `runner_up` are the two largest of `visits`, counted as often
/// as they occur; zero stands in where there are fewer than two.
pub open spec fn top_two(visits: Seq<u32>, leader: int, runner_up: int) -> bool {
    if visits.len() == 0 {
        leader == 0 && runner_up == 0
    } else {
        exists|at: int|
            {
                &&& 0 <= at < visits.len()
                &&& #[trigger] visits[at] == leader
                &&& forall|j: int| 0 <= j < visits.len() ==> #[trigger] visits[j] <= leader
                &&& forall|j: int|
                    0 <= j < visits.len() && j != at ==> #[trigger] visits[j] <= runner_up
                &&& runner_up <= leader
                &&& runner_up == 0 || exists|j: int|
                    0 <= j < visits.len() && j != at && #[trigger] visits[j] == runner_up
            }
    }
}

impl RootProgress {
    /// The leader leads.
    pub open spec fn wf(self) -> bool {
        self.runner_up_visits <= self.leader_visits
    }

    /// How far the leader is ahead.
    pub open spec fn lead(self) -> int {
        self.leader_visits - self.runner_up_visits
    }

    /// The root is too unsettled to answer on: the leader changed late, or
    /// there is none, or it is ahead by less than the policy's share of its own
    /// visits.
    pub open spec fn unstable(self, policy: StopPolicy) -> bool {
        self.leader_changed_late || self.leader_visits == 0 || self.lead() * GAP_WHOLE
            < policy.unstable_gap * self.leader_visits
    }

    /// Reads the top two visit counts out of a root's per-action visit vector.
    pub fn from_visits(visits: &[u32], sims: u64, leader_changed_late: bool) -> (r: RootProgress)
        ensures
            r.wf(),
            top_two(visits@, r.leader_visits as int, r.runner_up_visits as int),
            r.sims == sims,
            r.leader_changed_late == leader_changed_late,
    {
        let mut leader: u64 = 0;
        let mut runner_up: u64 = 0;
        let mut i: usize = 0;
        let ghost mut at: int = 0;
        while i < visits.len()
            invariant
                i <= visits@.len(),
                runner_up <= leader,
                i > 0 ==> 0 <= at < i && visits@[at] == leader,
                i == 0 ==> leader == 0 && runner_up == 0,
                forall|j: int| 0 <= j < i ==> #[trigger] visits@[j] <= leader,
                forall|j: int| 0 <= j < i && j != at ==> #[trigger] visits@[j] <= runner_up,
                runner_up == 0 || exists|j: int|
                    0 <= j < i && j != at && #[trigger] visits@[j] == runner_up,
            decreases visits@.len() - i,
        {
            let n: u64 = visits[i] as u64;
            let ghost before = at;
            if n > leader {
                runner_up = leader;
                leader = n;
                proof {
                    at = i as int;
                    if runner_up != 0 {
                        assert(visits@[before] == runner_up);
                    }
                }
            } else {
                if n > runner_up {
                    runner_up = n;
                    assert(visits@[i as int] == runner_up);
                }
                proof {
                    if i == 0 {
                        at = 0;
                    }
                }
            }
            i += 1;
        }
        RootProgress {
            leader_visits: leader,
            runner_up_visits: runner_up,
            sims,
            leader_changed_late,
        }
    }

    /// Whether the root is too unsettled to answer on.
    pub fn is_unstable(&self, policy: &StopPolicy) -> (r: bool)
        requires
            self.wf(),
        ensures
            r == self.unstable(*policy),
    {
        if self.leader_changed_late {
            return true;
        }
        if self.leader_visits == 0 {
            return true;
        }
        let lead: u64 = self.leader_visits - self.runner_up_visits;
        assert(0 <= policy.unstable_gap * self.leader_visits <= u32::MAX * u64::MAX)
            by (nonlinear_arith)
            requires
                0 <= policy.unstable_gap <= u32::MAX,
                0 <= self.leader_visits <= u64::MAX,
        ;
        (lead as u128 * GAP_WHOLE as u128) < policy.unstable_gap as u128
            * self.leader_visits as u128
    }
}

/// Why a search stopped, or that it should keep going.
#[derive(Clone, Copy, PartialEq, Eq, Debug, Structural)]
pub enum Verdict {
    /// Keep simulating.
    Continue,
    /// The runner-up cannot overtake the leader in the time that is left.
    StopUncatchable,
    /// The target passed with a settled root.
    StopTarget,
    /// The ceiling passed. The last word, always.
    StopCeiling,
}

impl Verdict {
    /// Whether the search must stop.
    pub fn is_stop(self) -> (r: bool)
        ensures
            r == (self != Verdict::Continue),
    {
        self != Verdict::Continue
    }
}

/// A product of a 64-bit and a 128-bit number, as its part above 2^64 and the
/// part below.
fn wide_product(a: u64, b: u128) -> (r: (u128, u64))
    requires
        b <= MAX_NANOS,
    ensures
        r.0 * 0x1_0000_0000_0000_0000 + r.1 == a * b,
{
    let high: u64 = (b >> 64) as u64;
    let low: u64 = (b & 0xFFFF_FFFF_FFFF_FFFF) as u64;
    assert(high == b >> 64 && low == b & 0xFFFF_FFFF_FFFF_FFFF && b == (b >> 64)
        * 0x1_0000_0000_0000_0000 + (b & 0xFFFF_FFFF_FFFF_FFFF)) by (bit_vector)
        requires
            high == (b >> 64) as u64,
            low == (b & 0xFFFF_FFFF_FFFF_FFFF) as u64,
    ;
    assert(0 <= a * low <= 0xFFFF_FFFF_FFFF_FFFF * 0xFFFF_FFFF_FFFF_FFFF && 0 <= a * high
        <= 0xFFFF_FFFF_FFFF_FFFF * 0xFFFF_FFFF_FFFF_FFFF) by (nonlinear_arith)
        requires
            0 <= a <= 0xFFFF_FFFF_FFFF_FFFF,
            0 <= low <= 0xFFFF_FFFF_FFFF_FFFF,
            0 <= high <= 0xFFFF_FFFF_FFFF_FFFF,
    ;
    let lower: u128 = a as u128 * low as u128;
    let upper: u128 = a as u128 * high as u128;
    let carry: u128 = lower / 0x1_0000_0000_0000_0000;
    let rest: u128 = lower % 0x1_0000_0000_0000_0000;
    assert(a * b == upper * 0x1_0000_0000_0000_0000 + lower) by (nonlinear_arith)
        requires
            b == high * 0x1_0000_0000_0000_0000 + low,
            lower == a * low,
            upper == a * high,
    ;
    (upper + carry, rest as u64)
}

/// The runner-up cannot catch up in the time to the ceiling, at the rate this
/// search has kept, and the lead is one this search could have produced.
pub open spec fn uncatchable(progress: RootProgress, elapsed: int, ceiling: int) -> bool {
    &&& progress.sims > 0
    &&& elapsed > 0
    &&& progress.lead() * elapsed > progress.sims * (ceiling - elapsed)
    &&& progress.lead() <= progress.sims
}

/// The stop rules, as a function of the clock and the root's visits.
pub open spec fn ruling(
    progress: RootProgress,
    elapsed: int,
    target: int,
    ceiling: int,
    policy: StopPolicy,
) -> Verdict {
    if elapsed >= ceiling {
        Verdict::StopCeiling
    } else if policy.early_stop && uncatchable(progress, elapsed, ceiling) {
        Verdict::StopUncatchable
    } else if elapsed < target {
        Verdict::Continue
    } else if policy.extension && progress.unstable(policy) {
        Verdict::Continue
    } else {
        Verdict::StopTarget
    }
}

/// The stop rules, as a pure function of the clock and the root's visits.
///
/// `elapsed` is time since the search started. The horizon of the
/// uncatchability test is the **ceiling**: a search that could still extend is
/// not cut short by a rule that assumed it would stop at the target.
pub fn verdict(
    progress: RootProgress,
    elapsed: Duration,
    allocation: MoveAllocation,
    policy: &StopPolicy,
) -> (r: Verdict)
    requires
        progress.wf(),
    ensures
        r == ruling(progress, elapsed@, allocation.target@, allocation.ceiling@, *policy),
{
    if elapsed.as_nanos() >= allocation.ceiling.as_nanos() {
        return Verdict::StopCeiling;
    }
    if policy.early_stop && progress.sims > 0 && !elapsed.is_zero() {
        let horizon = allocation.ceiling.saturating_sub(elapsed);
        let lead: u64 = progress.leader_visits - progress.runner_up_visits;
        let needed = wide_product(lead, elapsed.as_nanos());
        let available = wide_product(progress.sims, horizon.as_nanos());
        let ahead = needed.0 > available.0 || (needed.0 == available.0 && needed.1 > available.1);
        assert(ahead == (lead * elapsed@ > progress.sims * horizon@));
        if ahead && lead <= progress.sims {
            return Verdict::StopUncatchable;
        }
    }
    if elapsed.as_nanos() < allocation.target.as_nanos() {
        return Verdict::Continue;
    }
    if policy.extension && progress.is_unstable(policy) {
        return Verdict::Continue;
    }
    Verdict::StopTarget
}

/// The ceiling is the last word, whatever the root looks like and whichever
/// rules are on.
pub proof fn the_ceiling_is_the_last_word(
    progress: RootProgress,
    elapsed: int,
    target: int,
    ceiling: int,
    policy: StopPolicy,
)
    requires
        elapsed >= ceiling,
    ensures
        ruling(progress, elapsed, target, ceiling, policy) == Verdict::StopCeiling,
{
}

/// A search that grew its own tree cannot have a lead beyond its simulations,
/// so for it the early stop is decided by the time that is left alone.
pub proof fn the_guard_is_free_for_a_cold_tree(progress: RootProgress, elapsed: int, ceiling: int)
    requires
        progress.wf(),
        progress.leader_visits <= progress.sims,
        progress.sims > 0,
        elapsed > 0,
    ensures
        uncatchable(progress, elapsed, ceiling) <==> progress.lead() * elapsed > progress.sims * (
        ceiling - elapsed),
{
}

/// An early stop always comes in the second half of the time to the ceiling:
/// an inherited lead does not end an action before it has searched.
pub proof fn an_early_stop_comes_past_the_halfway_mark(
    progress: RootProgress,
    elapsed: int,
    ceiling: int,
)
    requires
        progress.wf(),
        uncatchable(progress, elapsed, ceiling),
    ensures
        elapsed > ceiling - elapsed,
{
    let lead = progress.lead();
    let horizon = ceiling - elapsed;
    if elapsed <= horizon {
        assert(lead * elapsed <= progress.sims * horizon) by (nonlinear_arith)
            requires
                0 <= lead <= progress.sims,
                0 < elapsed <= horizon,
        ;
    }
}

/// A search that has run nothing never stops before its target.
pub proof fn nothing_searched_never_stops_early(
    progress: RootProgress,
    elapsed: int,
    target: int,
    ceiling: int,
    policy: StopPolicy,
)
    requires
        progress.sims == 0,
        elapsed < target,
        elapsed < ceiling,
    ensures
        ruling(progress, elapsed, target, ceiling, policy) == Verdict::Continue,
{
}

/// A turn's first action is owed half of what is left of it, the second three
/// fifths, the last all of it, each to the nearest nanosecond.
pub proof fn the_weights_divide_what_is_left(bank: int, moves_left: int)
    requires
        bank >= 0,
    ensures
        moves_left >= 3 ==> -1 <= 2 * share(bank, moves_left) - bank <= 1,
        moves_left == 2 ==> -5 <= 2 * (5 * share(bank, moves_left) - 3 * bank) <= 5,
        moves_left <= 1 ==> share(bank, moves_left) == bank,
{
    if moves_left >= 3 {
        assert(share(bank, moves_left) == (10 * bank + 10) / 20);
    } else if moves_left == 2 {
        assert(share(bank, moves_left) == (6 * bank + 5) / 10);
    } else {
        assert(share(bank, moves_left) == (4 * bank + 2) / 4);
    }
}

/// An action is given its share of the turn that is left, or fifty milliseconds
/// if that is more. It may run to one and a half times that, as far as the bank
/// covers it. The turn that is left is the whole turn where a new one begins:
/// after the last was ended, or when there are more actions left than before.
pub proof fn an_allocation_divides_the_turn_that_is_left(clock: ClockView, moves_left: u8)
    requires
        clock.fixed is None,
        clock.turn >= 0,
        clock.bank >= 0,
    ensures
        ({
            let bank = if clock.turn_ended || moves_left > clock.last_moves_left {
                clock.turn
            } else {
                clock.bank
            };
            let target = clock.target(moves_left);
            let ceiling = clock.ceiling(moves_left);
            let after = clock.allocated(moves_left);
            &&& target >= 50_000_000
            &&& target > 50_000_000 ==> target <= bank
            &&& moves_left >= 3 && bank >= 100_000_000 ==> -1 <= 2 * target - bank <= 1
            &&& moves_left == 2 && bank >= 100_000_000 ==> -5 <= 2 * (5 * target - 3 * bank) <= 5
            &&& moves_left <= 1 && bank >= 50_000_000 ==> target == bank
            &&& bank < 50_000_000 ==> target == 50_000_000
            &&& target <= ceiling
            &&& 2 * ceiling <= 3 * target + 1
            &&& ceiling == target || ceiling <= bank
            &&& 2 * bank >= 3 * target + 1 ==> 2 * ceiling >= 3 * target
            &&& target <= bank && 2 * bank < 3 * target ==> ceiling == bank
            &&& after.bank == bank
            &&& after.last_moves_left == moves_left
            &&& !after.turn_ended
            &&& after.turn == clock.turn
            &&& after.fixed is None
        }),
{
    let bank = clock.bank_for(moves_left);
    the_weights_divide_what_is_left(bank, moves_left as int);
    a_share_fits_the_bank(bank, moves_left as int);
    let target = clock.target(moves_left);
    assert(portion(target, 150, 100) == (300 * target + 100) / 200);
}

/// A turn that begins is given the same time whatever the one before it left:
/// only the turn's budget and the actions in it count.
pub proof fn a_new_turn_owes_nothing_to_the_last(a: ClockView, b: ClockView, moves_left: u8)
    requires
        a.fixed is None,
        b.fixed is None,
        a.turn == b.turn,
        a.turn_ended || moves_left > a.last_moves_left,
        b.turn_ended || moves_left > b.last_moves_left,
    ensures
        a.target(moves_left) == b.target(moves_left),
        a.ceiling(moves_left) == b.ceiling(moves_left),
        a.allocated(moves_left) == b.allocated(moves_left),
{
}

/// What an action spends comes off the bank, to nothing and no further, and two
/// charges are one charge of both. Nothing else changes.
pub proof fn what_is_spent_comes_off_the_bank(clock: ClockView, first: int, second: int)
    requires
        clock.fixed is None,
        clock.bank >= 0,
        first >= 0,
        second >= 0,
    ensures
        clock.bank >= first ==> clock.charged(first).bank == clock.bank - first,
        clock.bank < first ==> clock.charged(first).bank == 0,
        clock.charged(first).charged(second) == clock.charged(first + second),
        clock.charged(first).turn == clock.turn,
        clock.charged(first).turn_ended == clock.turn_ended,
        clock.charged(first).last_moves_left == clock.last_moves_left,
{
}

/// When a search stops early: never unless asked to, and then exactly when its
/// leader is so far ahead that, at the rate of simulations kept so far, the
/// time to the ceiling is too short to catch up, and no further ahead than this
/// search can have made it.
pub proof fn an_early_stop_means_nobody_can_catch_up(
    progress: RootProgress,
    elapsed: int,
    target: int,
    ceiling: int,
    policy: StopPolicy,
)
    requires
        progress.wf(),
    ensures
        ruling(progress, elapsed, target, ceiling, policy) == Verdict::StopUncatchable <==> {
            let lead = progress.leader_visits - progress.runner_up_visits;
            &&& elapsed < ceiling
            &&& policy.early_stop
            &&& progress.sims > 0
            &&& elapsed > 0
            &&& lead * elapsed > progress.sims * (ceiling - elapsed)
            &&& lead <= progress.sims
        },
{
}

/// A search that is not stopped early runs on to its target; there it stops,
/// unless it may extend and its root is unsettled, and then it runs on to its
/// ceiling.
pub proof fn a_search_runs_to_its_target_or_its_ceiling(
    progress: RootProgress,
    elapsed: int,
    target: int,
    ceiling: int,
    policy: StopPolicy,
)
    requires
        progress.wf(),
        ruling(progress, elapsed, target, ceiling, policy) != Verdict::StopUncatchable,
    ensures
        ({
            let lead = progress.leader_visits - progress.runner_up_visits;
            let unsettled = progress.leader_changed_late || progress.leader_visits == 0 || lead
                * 1_000_000 < policy.unstable_gap * progress.leader_visits;
            let verdict = ruling(progress, elapsed, target, ceiling, policy);
            &&& verdict == Verdict::StopCeiling <==> elapsed >= ceiling
            &&& verdict == Verdict::Continue <==> elapsed < ceiling && (elapsed < target || (
            policy.extension && unsettled))
            &&& verdict == Verdict::StopTarget <==> target <= elapsed < ceiling && !(
            policy.extension && unsettled)
        }),
{
}

/// A root is unsettled when its leader changed late, when nothing was visited,
/// or when its leader is ahead by too small a share of its own visits; a leader
/// alone with the visits is settled for any share up to the whole.
pub proof fn a_close_race_is_unsettled(progress: RootProgress, policy: StopPolicy)
    requires
        progress.wf(),
    ensures
        progress.leader_changed_late ==> progress.unstable(policy),
        progress.leader_visits == 0 ==> progress.unstable(policy),
        progress.leader_visits > 0 && !progress.leader_changed_late ==> (progress.unstable(policy)
            <==> (progress.leader_visits - progress.runner_up_visits) * 1_000_000
            < policy.unstable_gap * progress.leader_visits),
        progress.leader_visits > 0 && !progress.leader_changed_late && progress.runner_up_visits
            == 0 && policy.unstable_gap <= 1_000_000 ==> !progress.unstable(policy),
        progress.leader_visits == progress.runner_up_visits && policy.unstable_gap > 0
            ==> progress.unstable(policy),
{
    if progress.leader_visits > 0 && progress.runner_up_visits == 0 && policy.unstable_gap
        <= 1_000_000 {
        assert(policy.unstable_gap * progress.leader_visits <= 1_000_000 * progress.leader_visits)
            by (nonlinear_arith)
            requires
                policy.unstable_gap <= 1_000_000,
                0 <= progress.leader_visits,
        ;
    }
    if progress.leader_visits == progress.runner_up_visits && progress.leader_visits > 0
        && policy.unstable_gap > 0 {
        assert(0 < policy.unstable_gap * progress.leader_visits) by (nonlinear_arith)
            requires
                policy.unstable_gap > 0,
                progress.leader_visits > 0,
        ;
    }
}

} // verus!
