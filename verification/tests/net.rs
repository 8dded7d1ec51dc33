use virus_bot::game::{Cell, CellKind, State};
use virus_bot::mcts::net::{
    batch_planes, input_planes, minus_one, symbol, Encoded, Fault, Head, Place, PolicyValueNet,
    RawConv, RawHead, RawMeta, RawNet, RawValueHead, Row,
};

fn bits(values: &[f64]) -> Vec<u64> {
    values.iter().map(|v| v.to_bits()).collect()
}

fn kernel(value: f64) -> Vec<Vec<u64>> {
    vec![bits(&[value; 3]); 3]
}

/// A minimal but well-formed artifact, as a template for the rejection tests.
fn tiny_artifact() -> RawNet {
    RawNet {
        meta: RawMeta {
            arch: "conv-policy-value-v1".to_owned(),
            board: 12,
            planes: 13,
            channels: 2,
            layers: 1,
        },
        conv: vec![RawConv { w: vec![vec![kernel(0.01); 13]; 2], b: bits(&[0.0, 0.0]) }],
        move_head: RawHead { w: vec![vec![bits(&[0.5])], vec![bits(&[0.25])]], b: 0.1f64.to_bits() },
        pair_head: RawHead { w: vec![vec![bits(&[0.2])], vec![bits(&[0.3])]], b: (-0.1f64).to_bits() },
        pair_bias: (-0.05f64).to_bits(),
        value_head: Some(RawValueHead {
            fc1_w: vec![bits(&[0.1, 0.2])],
            fc1_b: bits(&[0.0]),
            fc2_w: bits(&[1.0]),
            fc2_b: 0.0f64.to_bits(),
        }),
    }
}

fn load(raw: RawNet) -> Result<PolicyValueNet, Fault> {
    PolicyValueNet::from_raw(raw)
}

fn fault(raw: RawNet) -> Fault {
    load(raw).expect_err("the artifact is broken")
}

#[test]
fn a_well_formed_tiny_artifact_loads() {
    let net = load(tiny_artifact()).expect("template artifact is valid");
    assert_eq!(net.channels(), 2);
    assert!(net.has_value_head());
    assert_eq!(net.arch(), "conv-policy-value-v1");
    assert_eq!(net.layers(), 1);
    assert_eq!(f64::from_bits(net.pair_bias()), -0.05);
}

#[test]
fn a_wrong_board_is_rejected_at_load() {
    let mut raw = tiny_artifact();
    raw.meta.board = 19;
    let fault = fault(raw);
    assert_eq!(fault, Fault::Board { board: 19, planes: 13 });
    assert_eq!(fault.message(""), "meta board/planes 19/13 unsupported, expected 12/13");
}

#[test]
fn a_conv_layer_count_mismatch_is_rejected_at_load() {
    let mut raw = tiny_artifact();
    raw.meta.layers = 2;
    let fault = fault(raw);
    assert_eq!(fault, Fault::Layers { found: 1, declared: 2 });
    assert_eq!(fault.message(""), "conv has 1 layers, meta declares 2");
}

#[test]
fn a_short_conv_row_is_rejected_at_load() {
    let mut raw = tiny_artifact();
    raw.conv[0].w[0].truncate(12);
    let fault = fault(raw);
    assert_eq!(fault, Fault::Inputs { layer: 0, output: 0, found: 12, expected: 13 });
    assert_eq!(fault.message(""), "conv[0].w[0] has 12 input channels, expected 13");
}

#[test]
fn a_short_bias_vector_is_rejected_at_load() {
    let mut raw = tiny_artifact();
    raw.conv[0].b = bits(&[0.0]);
    let fault = fault(raw);
    assert_eq!(fault, Fault::Length { row: Row::Bias(0), found: 1, expected: 2 });
    assert_eq!(fault.message(""), "conv[0].b must have 2 entries, got 1");
}

#[test]
fn a_non_finite_weight_is_rejected_at_load() {
    let mut raw = tiny_artifact();
    raw.conv[0].w[0][0][0][0] = 1e300f64.to_bits();
    let fault = fault(raw);
    assert_eq!(
        fault,
        Fault::NotFinite { place: Place::Kernel(0, 0, 0, 0, 0), bits: 1e300f64.to_bits() }
    );
    assert!(fault.message("").contains("not finite"));
    assert_eq!(fault.message(""), "conv[0].w[0][0][0][0] is not finite");
}

#[test]
fn a_mis_sized_head_is_rejected_at_load() {
    let mut raw = tiny_artifact();
    raw.move_head.w = vec![vec![bits(&[0.5])]];
    let fault = fault(raw);
    assert_eq!(fault, Fault::Channels { head: Head::Move, found: 1, expected: 2 });
    assert_eq!(fault.message(""), "move_head.w has 1 channels, expected 2");
}

#[test]
fn a_head_kernel_wider_than_1x1_is_rejected_at_load() {
    let mut raw = tiny_artifact();
    raw.move_head.w = vec![vec![bits(&[0.5, 0.4])], vec![bits(&[0.25, 0.1])]];
    let wide = fault(raw);
    assert!(wide.message("").contains("1x1 kernel"));
    assert_eq!(wide.message(""), "move_head.w[0] must be a 1x1 kernel, got 1x2");

    let mut raw = tiny_artifact();
    raw.pair_head.w = vec![
        vec![bits(&[0.2]), bits(&[0.9])],
        vec![bits(&[0.3]), bits(&[0.7])],
    ];
    assert_eq!(
        fault(raw),
        Fault::HeadKernel { head: Head::Pair, channel: 0, rows: 2, columns: 1 }
    );
}

#[test]
fn a_mis_sized_value_head_row_is_rejected_at_load() {
    let mut raw = tiny_artifact();
    raw.value_head.as_mut().unwrap().fc1_w = vec![bits(&[0.1])];
    let fault = fault(raw);
    assert_eq!(fault, Fault::Length { row: Row::Hidden(0), found: 1, expected: 2 });
    assert_eq!(fault.message(""), "value_head.fc1_w[0] must have 2 entries, got 1");
}

#[test]
fn a_policy_only_artifact_loads_without_a_value_head() {
    let mut raw = tiny_artifact();
    raw.value_head = None;
    let net = load(raw).expect("policy-only artifacts stay loadable");
    assert!(!net.has_value_head());
    assert!(net.value.is_none(), "no head, no value");
}

#[test]
fn an_unknown_architecture_is_rejected_by_name() {
    let mut raw = tiny_artifact();
    raw.meta.arch = "res\"net".to_owned();
    let fault = fault(raw);
    assert_eq!(fault, Fault::Arch);
    assert_eq!(
        fault.message("res\"net"),
        "meta arch \"res\\\"net\" unsupported, expected one of [\"conv-policy-v1\", \"conv-policy-value-v1\"]"
    );
    let mut raw = tiny_artifact();
    raw.meta.arch = "conv-policy-v1".to_owned();
    assert!(load(raw).is_ok());
}

#[test]
fn every_other_fault_is_told_apart() {
    let mut raw = tiny_artifact();
    raw.meta.channels = minus_one();
    let sizes = fault(raw);
    assert_eq!(sizes, Fault::Sizes { channels: -1, layers: 1 });
    assert_eq!(sizes.message(""), "meta channels/layers must be positive, got -1/1");

    let mut raw = tiny_artifact();
    raw.conv[0].w.pop();
    assert_eq!(fault(raw).message(""), "conv[0].w has 1 rows, expected 2");

    let mut raw = tiny_artifact();
    raw.conv[0].w[1][4].pop();
    assert_eq!(fault(raw).message(""), "conv[0].w[1][4] has 2 rows, expected 3");

    let mut raw = tiny_artifact();
    raw.conv[0].w[1][4][2].push(0);
    assert_eq!(fault(raw).message(""), "conv[0].w[1][4][2] has 4 columns, expected 3");

    let mut raw = tiny_artifact();
    raw.value_head.as_mut().unwrap().fc1_w.clear();
    assert_eq!(fault(raw), Fault::NoHidden);
    assert_eq!(Fault::NoHidden.message(""), "value_head.fc1_w is empty");

    let mut raw = tiny_artifact();
    raw.pair_head.w[1].clear();
    assert_eq!(
        fault(raw),
        Fault::HeadKernel { head: Head::Pair, channel: 1, rows: 0, columns: 0 }
    );

    let mut raw = tiny_artifact();
    raw.value_head.as_mut().unwrap().fc2_w = bits(&[1.0, 2.0]);
    assert_eq!(fault(raw).message(""), "value_head.fc2_w must have 1 entries, got 2");

    for (place, name) in [
        (0, "conv[0].b[1]"),
        (1, "move_head.w[1]"),
        (2, "move_head.b"),
        (3, "pair_head.b"),
        (4, "pair_bias"),
        (5, "value_head.fc1_w[0][1]"),
        (6, "value_head.fc1_b[0]"),
        (7, "value_head.fc2_w[0]"),
        (8, "value_head.fc2_b"),
    ] {
        let mut raw = tiny_artifact();
        let nan = f64::NAN.to_bits();
        {
            let value = raw.value_head.as_mut().unwrap();
            match place {
                0 => raw.conv[0].b[1] = nan,
                1 => raw.move_head.w[1][0][0] = nan,
                2 => raw.move_head.b = nan,
                3 => raw.pair_head.b = nan,
                4 => raw.pair_bias = nan,
                5 => value.fc1_w[0][1] = nan,
                6 => value.fc1_b[0] = nan,
                7 => value.fc2_w[0] = nan,
                _ => value.fc2_b = nan,
            }
        }
        assert_eq!(fault(raw).message(""), format!("{name} is not finite"));
    }
}

/// A weight is refused exactly when it stops being finite on narrowing.
#[test]
fn finiteness_is_judged_after_narrowing() {
    let limit = f64::from_bits(0x47EF_FFFF_F000_0000);
    let below = f64::from_bits(0x47EF_FFFF_EFFF_FFFF);
    for value in [
        0.0,
        -0.0,
        f64::from(f32::MAX),
        f64::from(f32::MIN),
        below,
        -below,
        limit,
        -limit,
        1e39,
        -1e39,
        f64::MIN_POSITIVE,
        5e-324,
        f64::INFINITY,
        f64::NEG_INFINITY,
        f64::NAN,
    ] {
        let mut raw = tiny_artifact();
        raw.pair_bias = value.to_bits();
        assert_eq!(load(raw).is_ok(), (value as f32).is_finite(), "{value:e}");
    }
}

#[test]
fn a_loaded_weight_stands_where_the_kernel_reads_it() {
    let mut raw = tiny_artifact();
    raw.meta.layers = 2;
    raw.conv.push(RawConv { w: vec![vec![kernel(0.5); 2]; 2], b: bits(&[1.0, 2.0]) });
    for (layer, conv) in raw.conv.iter_mut().enumerate() {
        for (o, row) in conv.w.iter_mut().enumerate() {
            for (ic, kernel) in row.iter_mut().enumerate() {
                for (kr, krow) in kernel.iter_mut().enumerate() {
                    for (kc, weight) in krow.iter_mut().enumerate() {
                        let value = (layer * 10_000 + o * 1_000 + ic * 10 + kr * 3 + kc) as f64;
                        *weight = value.to_bits();
                    }
                }
            }
        }
    }
    let expected = raw.clone();
    let net = load(raw).expect("two layers load");
    for layer in 0..2 {
        let inputs = if layer == 0 { 13 } else { 2 };
        for o in 0..2 {
            for ic in 0..inputs {
                for kr in 0..3 {
                    for kc in 0..3 {
                        assert_eq!(
                            net.conv_w[layer][o * inputs * 9 + ic * 9 + kr * 3 + kc],
                            expected.conv[layer].w[o][ic][kr][kc]
                        );
                    }
                }
            }
        }
    }
    assert_eq!(net.move_w, bits(&[0.5, 0.25]));
    assert_eq!(net.value.unwrap().fc1_w, bits(&[0.1, 0.2]));
}

fn blank(mover: u8) -> State {
    let mut cells = vec![Cell { kind: CellKind::Empty, owner: 0 }; 144];
    cells[0] = Cell { kind: CellKind::Base, owner: 1 };
    cells[143] = Cell { kind: CellKind::Base, owner: 2 };
    cells[1] = Cell { kind: CellKind::Normal, owner: 1 };
    cells[2] = Cell { kind: CellKind::Fortified, owner: 2 };
    cells[3] = Cell { kind: CellKind::Neutral, owner: 0 };
    State {
        rows: 12,
        cols: 12,
        players: 2,
        cells,
        current_player: mover,
        moves_left: 2,
        neutral_used: vec![true, false],
        game_over: false,
        winner: 0,
        outcome_winner: 0,
        can_place_neutrals: false,
        legal_actions: vec![],
        legal_targets: vec![],
        hash: 0,
    }
}

#[test]
fn a_position_is_encoded_from_the_movers_chair() {
    let one = Encoded::from_state(&blank(1));
    assert_eq!(one.sym[..5], [2, 4, 7, 1, 0]);
    assert_eq!(one.sym[143], 3);
    assert_eq!((one.moves_left, one.nu_own, one.nu_opp), (2, true, false));
    let two = Encoded::from_state(&blank(2));
    assert_eq!(two.sym[..5], [3, 5, 6, 1, 0]);
    assert_eq!(two.sym[143], 2);
    assert_eq!((two.nu_own, two.nu_opp), (false, true));
    assert_eq!(symbol(Cell { kind: CellKind::Normal, owner: 2 }, 1), 5);
}

#[test]
fn the_planes_say_what_the_encoding_says() {
    let input = Encoded::from_state(&blank(1));
    let planes = input_planes(&input);
    assert_eq!(planes.len(), 13 * 144);
    for i in 0..144 {
        let hot: Vec<usize> = (0..8).filter(|p| planes[p * 144 + i]).collect();
        assert_eq!(hot, vec![input.sym[i] as usize]);
        assert_eq!((8..11).filter(|p| planes[p * 144 + i]).collect::<Vec<_>>(), vec![9]);
        assert!(planes[11 * 144 + i]);
        assert!(!planes[12 * 144 + i]);
    }
    // A count outside one to three lands on the nearest plane.
    let stretched = Encoded { moves_left: 9, ..input.clone() };
    assert!(input_planes(&stretched)[10 * 144]);
    let shrunk = Encoded { moves_left: 0, ..input };
    assert!(input_planes(&shrunk)[8 * 144]);
}

#[test]
fn a_batch_interleaves_its_positions() {
    let group = vec![
        Encoded::from_state(&blank(1)),
        Encoded::from_state(&blank(2)),
        Encoded { moves_left: 3, ..Encoded::from_state(&blank(1)) },
    ];
    let batch = batch_planes(&group);
    assert_eq!(batch.len(), 13 * 144 * 8);
    for (lane, input) in group.iter().enumerate() {
        let single = input_planes(input);
        for place in 0..13 * 144 {
            assert_eq!(batch[place * 8 + lane], single[place]);
        }
    }
    for place in 0..13 * 144 {
        for lane in 3..8 {
            assert!(!batch[place * 8 + lane], "an unused lane stays zero");
        }
    }
}
