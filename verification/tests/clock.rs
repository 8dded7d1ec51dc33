use virus_bot::proto::clock::{
    verdict, MoveAllocation, RootProgress, StopPolicy, TurnAllocator, Verdict, MIN_ACTION_MILLIS,
};
use virus_bot::time::Duration;
fn turn() -> Duration {
    millis(12_000)
}

fn floor() -> Duration {
    millis(MIN_ACTION_MILLIS)
}

fn millis(value: u64) -> Duration {
    Duration::from_millis(value)
}

// ------------------------------------------------------------ allocation

#[test]
fn a_fully_spent_turn_splits_uneven_with_the_first_action_largest() {
    let mut clock = TurnAllocator::new(turn());

    let first = clock.allocate(3);
    assert_eq!(first.target, millis(6_000));
    clock.spent(first.target);

    let second = clock.allocate(2);
    assert_eq!(second.target, millis(3_600));
    clock.spent(second.target);

    let third = clock.allocate(1);
    assert_eq!(third.target, millis(2_400));
    clock.spent(third.target);

    // Uneven, largest first, and the whole turn is spent — not a millisecond
    // more, which is the UX bound the owner set.
    assert!(first.target > second.target && second.target > third.target);
    assert_eq!(
        first.target.saturating_add(second.target).saturating_add(third.target),
        turn(),
        "the three shares must add up to the turn budget exactly"
    );
    assert_eq!(clock.bank(), Duration::zero());
}

#[test]
fn clock_a_stable_root_releases_its_remainder_to_the_next_action() {
    let mut clock = TurnAllocator::new(turn());

    let first = clock.allocate(3);
    assert_eq!(first.target, millis(6_000));
    // Early stop after a second: 11 s is left, not 6 s.
    clock.spent(millis(1_000));
    assert_eq!(clock.bank(), millis(11_000));

    let second = clock.allocate(2);
    assert_eq!(
        second.target,
        millis(6_600),
        "the released remainder must be re-divided, not forfeited"
    );
    clock.spent(second.target);

    let third = clock.allocate(1);
    assert_eq!(third.target, millis(4_400));
    assert_eq!(
        millis(1_000).saturating_add(second.target).saturating_add(third.target),
        turn(),
        "the turn bound still holds after a release"
    );
}

#[test]
fn an_overrun_shrinks_the_rest_of_the_turn_instead_of_extending_it() {
    let mut clock = TurnAllocator::new(turn());
    clock.allocate(3);
    clock.spent(millis(11_800));

    let second = clock.allocate(2);
    assert_eq!(second.target, millis(120));
    clock.spent(millis(120));

    let third = clock.allocate(1);
    assert_eq!(third.target, millis(80));
}

#[test]
fn an_exhausted_bank_still_leaves_a_floor_to_search_with() {
    let mut clock = TurnAllocator::new(turn());
    clock.allocate(3);
    clock.spent(millis(60_000));
    assert_eq!(clock.bank(), Duration::zero());

    let second = clock.allocate(2);
    assert_eq!(second.target, floor());
    assert_eq!(
        second.ceiling, floor(),
        "an empty bank has nothing to lend an extension"
    );
}

#[test]
fn the_ceiling_extends_past_the_target_but_never_past_the_bank() {
    let mut clock = TurnAllocator::new(turn());
    let first = clock.allocate(3);
    assert_eq!(first.ceiling, millis(9_000));
    assert!(first.ceiling <= clock.bank());

    clock.spent(first.target);
    let second = clock.allocate(2);
    assert_eq!(second.ceiling, millis(5_400));

    clock.spent(second.target);
    let third = clock.allocate(1);
    // The last action's share *is* the bank, so there is nothing to borrow.
    assert_eq!(third.ceiling, third.target);
}

#[test]
fn a_new_turn_reopens_the_bank() {
    let mut clock = TurnAllocator::new(turn());
    clock.allocate(3);
    clock.spent(millis(6_000));
    clock.allocate(2);
    clock.spent(millis(3_600));

    // movesLeft going up is a turn boundary all by itself.
    let next_turn = clock.allocate(3);
    assert_eq!(next_turn.target, millis(6_000));
}

/// `PlaceNeutrals` consumes a whole turn from `movesLeft == 3`, so two of
/// our turns in a row can both open at 3 with no decrement between them.
/// Only [`TurnAllocator::end_turn`] can see that boundary.
#[test]
fn back_to_back_turns_at_moves_left_three_still_reopen_the_bank() {
    let mut clock = TurnAllocator::new(turn());
    let neutral_turn = clock.allocate(3);
    clock.spent(neutral_turn.target);
    assert_eq!(clock.bank(), millis(6_000));

    clock.end_turn();
    let next_turn = clock.allocate(3);
    assert_eq!(
        next_turn.target,
        millis(6_000),
        "the opponent's turn in between must have reopened the bank"
    );
}

/// A repeated snapshot for the same action (a resync replaying
/// `game_state`) must not hand out a second full turn.
#[test]
fn a_repeated_moves_left_does_not_reopen_the_bank() {
    let mut clock = TurnAllocator::new(turn());
    let first = clock.allocate(3);
    clock.spent(first.target);
    let repeat = clock.allocate(3);
    assert_eq!(repeat.target, millis(3_000), "half of the 6 s that is left");
}

#[test]
fn a_per_action_override_disables_the_allocator_entirely() {
    let mut clock = TurnAllocator::fixed(millis(1_000));
    assert!(clock.is_fixed());
    for moves_left in [3, 2, 1, 3, 2, 1] {
        let allocation = clock.allocate(moves_left);
        assert_eq!(allocation.target, millis(1_000));
        assert_eq!(
            allocation.ceiling,
            millis(1_000),
            "an override has no extension room: it is an exact per-action budget"
        );
        clock.spent(millis(5_000));
    }
}

// ------------------------------------------------------------ stop rules

fn allocation(target: u64, ceiling: u64) -> MoveAllocation {
    MoveAllocation {
        target: millis(target),
        ceiling: millis(ceiling),
    }
}

#[test]
fn top_two_visits_are_read_off_the_visit_vector() {
    let progress = RootProgress::from_visits(&[3, 40, 7, 40, 1], 91, false);
    assert_eq!(progress.leader_visits, 40);
    assert_eq!(progress.runner_up_visits, 40);
    assert_eq!(progress.sims, 91);

    let empty = RootProgress::from_visits(&[], 0, false);
    assert_eq!(empty.leader_visits, 0);
    assert_eq!(empty.runner_up_visits, 0);
}

#[test]
fn an_uncatchable_leader_stops_the_search_early() {
    // 7000 sims in 3.5 s is 2000/s, so at most 5000 more before the 6 s
    // ceiling. A 6000-visit lead cannot be closed by 5000 simulations even
    // if every one of them went to the runner-up.
    let progress = RootProgress::from_visits(&[6_500, 500], 7_000, false);
    assert_eq!(
        verdict(
            progress,
            millis(3_500),
            allocation(4_000, 6_000),
            &StopPolicy::default()
        ),
        Verdict::StopUncatchable
    );
    // Switching the rule off spends the rest of the target anyway.
    assert_eq!(
        verdict(
            progress,
            millis(3_500),
            allocation(4_000, 6_000),
            &StopPolicy {
                early_stop: false,
                ..StopPolicy::default()
            }
        ),
        Verdict::Continue
    );
}

/// A lead this search did not produce is not a reason to
/// stop it.
///
/// The numbers are a real line from the instrumented soak — a pondered
/// action that inherited 7326 visits and had run 128 simulations of its own
/// when the rule fired, 37 ms into a 739 ms allocation.
#[test]
fn an_inherited_lead_does_not_end_an_action_before_it_has_searched() {
    let warm = RootProgress::from_visits(&[7_448, 3], 128, false);
    assert_eq!(
        verdict(
            warm,
            millis(37),
            allocation(739, 1_108),
            &StopPolicy::default()
        ),
        Verdict::Continue,
        "the 7445-visit lead came from the opponent's turn; 128 simulations of our own \
         is not evidence that this action has settled"
    );

    // The same tree once the action has actually produced the lead it is
    // invoking. `sims >= lead` and the runner-up cannot catch up, so the
    // rule is earned and fires.
    let earned = RootProgress::from_visits(&[7_448, 3], 8_000, false);
    assert_eq!(
        verdict(
            earned,
            millis(600),
            allocation(739, 1_108),
            &StopPolicy::default()
        ),
        Verdict::StopUncatchable
    );
}

/// The new condition must be *free* for a search that grew its own tree.
///
/// Every simulation adds one visit to one root edge, so a cold search's
/// lead can never exceed its simulation count and the guard can never
/// change a verdict. A deployment that does not ponder must see exactly the
/// behaviour it saw before.
#[test]
fn the_guard_cannot_change_a_verdict_for_a_search_that_grew_its_own_tree() {
    for (leader, runner_up, elapsed_ms) in [
        (6_500u32, 500u32, 3_500u64),
        (4_000, 2_000, 3_500),
        (900, 100, 4_000),
        (600, 500, 1_000),
        (1_050, 1_000, 4_000),
    ] {
        // A cold search's simulation count is at least the visits on the
        // tree; anything from there up leaves the guard satisfied.
        let sims = u64::from(leader) + u64::from(runner_up);
        let progress = RootProgress::from_visits(&[leader, runner_up], sims, false);
        let lead = u64::from(leader - runner_up);
        assert!(
            lead <= progress.sims,
            "a cold search cannot have a lead of {lead} after {sims} simulations"
        );
        // And the verdict is decided by the horizon arithmetic alone.
        let allocation = allocation(4_000, 6_000);
        let horizon = allocation.ceiling.saturating_sub(millis(elapsed_ms));
        let rate = sims as f64 / (elapsed_ms as f64 / 1_000.0);
        let uncatchable = lead as f64 > rate * (horizon.as_nanos() as f64 / 1e9);
        let ruling = verdict(
            progress,
            millis(elapsed_ms),
            allocation,
            &StopPolicy::default(),
        );
        assert_eq!(
            ruling == Verdict::StopUncatchable,
            uncatchable,
            "the guard changed the verdict for a cold root {leader}/{runner_up}"
        );
    }
}

#[test]
fn a_catchable_runner_up_keeps_the_search_running() {
    // Same clock, but the lead is 100 visits and thousands of simulations
    // are still to come.
    let progress = RootProgress::from_visits(&[600, 500], 1_100, false);
    assert_eq!(
        verdict(
            progress,
            millis(1_000),
            allocation(4_000, 6_000),
            &StopPolicy::default()
        ),
        Verdict::Continue
    );
}

/// The uncatchability horizon is the ceiling, not the target. Measuring it
/// against the target would cut short searches that were about to extend.
#[test]
fn the_uncatchable_horizon_reaches_to_the_ceiling() {
    // 6000 sims in 3.5 s is ~1714/s: 857 more before the 4 s target, 4285
    // before the 6 s ceiling. A 2000-visit lead is uncatchable within the
    // target and catchable within the ceiling — so the rule must not fire.
    let progress = RootProgress::from_visits(&[4_000, 2_000], 6_000, false);
    assert_eq!(
        verdict(
            progress,
            millis(3_500),
            allocation(4_000, 6_000),
            &StopPolicy::default()
        ),
        Verdict::Continue
    );
    // The same root against a search with no room to extend *is* settled.
    assert_eq!(
        verdict(
            progress,
            millis(3_500),
            allocation(4_000, 4_000),
            &StopPolicy::default()
        ),
        Verdict::StopUncatchable
    );
}

#[test]
fn a_settled_root_stops_at_the_target() {
    // Fast enough that the runner-up could still theoretically catch up, so
    // the stop is the target rule and not the uncatchable one.
    let progress = RootProgress::from_visits(&[900, 100], 100_000, false);
    assert_eq!(
        verdict(
            progress,
            millis(4_000),
            allocation(4_000, 6_000),
            &StopPolicy::default()
        ),
        Verdict::StopTarget
    );
}

#[test]
fn an_unstable_root_extends_past_the_target() {
    // Top-2 gap of 5%, well inside the 20% instability threshold.
    let close = RootProgress::from_visits(&[1_050, 1_000], 2_050, false);
    assert!(close.is_unstable(&StopPolicy::default()));
    assert_eq!(
        verdict(
            close,
            millis(4_000),
            allocation(4_000, 6_000),
            &StopPolicy::default()
        ),
        Verdict::Continue
    );

    // A late leader change is instability even with a comfortable gap.
    let flipped = RootProgress::from_visits(&[900, 100], 100_000, true);
    assert!(flipped.is_unstable(&StopPolicy::default()));
    assert_eq!(
        verdict(
            flipped,
            millis(4_000),
            allocation(4_000, 6_000),
            &StopPolicy::default()
        ),
        Verdict::Continue
    );
}

#[test]
fn the_ceiling_is_the_last_word_even_for_an_unstable_root() {
    let unstable = RootProgress::from_visits(&[1_010, 1_000], 2_010, true);
    assert_eq!(
        verdict(
            unstable,
            millis(6_000),
            allocation(4_000, 6_000),
            &StopPolicy::default()
        ),
        Verdict::StopCeiling
    );
    assert_eq!(
        verdict(
            unstable,
            millis(9_999),
            allocation(4_000, 6_000),
            &StopPolicy::default()
        ),
        Verdict::StopCeiling
    );
}

#[test]
fn the_extension_rule_can_be_switched_off() {
    let unstable = RootProgress::from_visits(&[1_010, 1_000], 2_010, true);
    assert_eq!(
        verdict(
            unstable,
            millis(4_000),
            allocation(4_000, 6_000),
            &StopPolicy::off()
        ),
        Verdict::StopTarget
    );
}

#[test]
fn a_search_that_has_run_nothing_yet_never_stops_early() {
    let nothing = RootProgress::default();
    assert_eq!(
        verdict(
            nothing,
            Duration::zero(),
            allocation(4_000, 6_000),
            &StopPolicy::default()
        ),
        Verdict::Continue
    );
    assert_eq!(
        verdict(
            nothing,
            millis(10),
            allocation(4_000, 6_000),
            &StopPolicy::default()
        ),
        Verdict::Continue
    );
}

/// The whole point of the exercise: whatever the rules do, three actions
/// never add up to more than the turn bound.
#[test]
fn no_sequence_of_extensions_can_break_the_turn_bound() {
    let mut clock = TurnAllocator::new(turn());
    let mut total = Duration::zero();
    for moves_left in [3, 2, 1] {
        let allocation = clock.allocate(moves_left);
        assert!(allocation.ceiling <= clock.bank());
        // Every action extends all the way to its ceiling.
        clock.spent(allocation.ceiling);
        total = total.saturating_add(allocation.ceiling);
    }
    assert!(
        total <= turn(),
        "three maximally-extended actions spent {total:?}, over the bound"
    );
}
