use std::collections::BTreeSet;
use virus_bot::game::{Action, Pos};
use virus_bot::mcts::action_id::{action_from_id, action_id, ACTION_ID_COUNT, CELLS};
use virus_bot::mcts::search::{frame_sign, logit_source, LogitSource};

fn pos(row: i32, col: i32) -> Pos {
    Pos { row, col }
}

fn mv(row: i32, col: i32) -> Action {
    Action::Move { target: pos(row, col) }
}

fn neutrals(a: Pos, b: Pos) -> Action {
    Action::PlaceNeutrals { cells: [a, b] }
}

#[test]
fn flat_action_ids_round_trip() {
    for index in 0..CELLS {
        let action = mv((index / 12) as i32, (index % 12) as i32);
        assert_eq!(action_id(action), index);
        assert_eq!(action_from_id(index), Some(action));
    }
    for (i, j) in [(0usize, 1usize), (5, 100), (0, 143), (142, 143)] {
        let action = neutrals(
            pos((i / 12) as i32, (i % 12) as i32),
            pos((j / 12) as i32, (j % 12) as i32),
        );
        let id = action_id(action);
        assert_eq!(id, CELLS + i * CELLS + j, "matches the trainer's numbering");
        assert!(id < ACTION_ID_COUNT);
        assert_eq!(action_from_id(id), Some(action));
    }
    assert_eq!(action_from_id(ACTION_ID_COUNT), None);
    // i >= j is not a pair the enumerator can produce.
    assert_eq!(action_from_id(CELLS + 5 * CELLS + 5), None);
}

#[test]
fn pair_ids_are_order_independent() {
    let a = pos(0, 5);
    let b = pos(3, 2);
    assert_eq!(action_id(neutrals(a, b)), action_id(neutrals(b, a)));
}

#[test]
fn every_pair_has_its_own_id() {
    let mut ids = BTreeSet::new();
    for i in 0..CELLS {
        for j in i + 1..CELLS {
            let action = neutrals(
                pos((i / 12) as i32, (i % 12) as i32),
                pos((j / 12) as i32, (j % 12) as i32),
            );
            assert!(ids.insert(action_id(action)));
        }
    }
    assert_eq!(ids.len(), CELLS * (CELLS - 1) / 2);
}

#[test]
fn a_logit_is_read_where_the_action_points() {
    assert_eq!(logit_source(mv(3, 4), 12, 144), LogitSource::Move(40));
    assert_eq!(
        logit_source(neutrals(pos(0, 1), pos(11, 11)), 12, 144),
        LogitSource::Pair(1, 143)
    );
}

#[test]
fn the_absolute_frame_is_player_ones() {
    assert_eq!(frame_sign(1), 1);
    assert_eq!(frame_sign(2), -1);
}
