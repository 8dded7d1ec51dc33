use virus_bot::mcts::gumbel::{rounds_for, GumbelConfig, GumbelPlan};
use virus_bot::mcts::rng::Rng;
use virus_bot::score::Score;

fn score(value: f64) -> Score {
    Score { bits: value.to_bits() }
}

fn uniform(rng: &mut Rng) -> f64 {
    rng.next_mantissa() as f64 * (1.0 / (1u64 << 53) as f64)
}

fn gumbel_variate(rng: &mut Rng) -> f64 {
    loop {
        let u = uniform(rng);
        if u > 0.0 {
            return -(-u.ln()).ln();
        }
    }
}

fn draw(prior: &[f32], config: &GumbelConfig, seed: u64) -> (GumbelPlan, Vec<f64>) {
    let mut rng = Rng::new(seed);
    let logits: Vec<f64> = prior.iter().map(|p| f64::from(*p).max(1e-30).ln()).collect();
    let scores: Vec<Score> = logits.iter().map(|l| score(gumbel_variate(&mut rng) + l)).collect();
    (GumbelPlan::new(&scores, config), logits)
}

fn plan(k: usize, m: u16, sims: u32, seed: u64) -> GumbelPlan {
    let prior = vec![1.0 / k as f32; k];
    let config = GumbelConfig { m, sims, ..GumbelConfig::default() };
    draw(&prior, &config, seed).0
}

fn descending(k: usize) -> Vec<Score> {
    (0..k).map(|a| score(-(a as f64))).collect()
}

#[test]
fn rounds_is_ceil_log2() {
    assert_eq!(rounds_for(0), 1);
    assert_eq!(rounds_for(1), 1);
    assert_eq!(rounds_for(2), 1);
    assert_eq!(rounds_for(3), 2);
    assert_eq!(rounds_for(4), 2);
    assert_eq!(rounds_for(5), 3);
    assert_eq!(rounds_for(16), 4);
    assert_eq!(rounds_for(17), 5);
}

#[test]
fn the_schedule_spends_the_budget_in_halving_phases() {
    let mut plan = plan(34, 16, 192, 7);
    let mut visits = [0u32; 34];
    let mut alive_sizes = vec![plan.alive.len()];
    // Rank by edge index so the halving is a fixed, checkable order.
    let scores = descending(34);
    for _ in 0..192 {
        if plan.needs_halving() {
            plan.halve(&scores);
            alive_sizes.push(plan.alive.len());
        }
        visits[plan.take()] += 1;
    }
    // Four phases of 48 simulations each, the candidate set halving between
    // them. The last cut is due exactly as the budget runs out.
    assert_eq!(alive_sizes, vec![16, 8, 4, 2]);
    assert!(plan.needs_halving(), "the budget ends on a phase boundary");
    plan.halve(&scores);
    assert_eq!(plan.alive.len(), 1);
    assert_eq!(visits.iter().sum::<u32>(), 192);
    // Only the candidate set is ever visited.
    assert_eq!(visits.iter().filter(|v| **v > 0).count(), 16);
}

#[test]
fn a_starved_budget_still_gives_every_candidate_a_visit() {
    let mut plan = plan(34, 16, 4, 7);
    let scores = descending(34);
    let mut visits = [0u32; 34];
    for _ in 0..16 {
        if plan.needs_halving() {
            plan.halve(&scores);
        }
        visits[plan.take()] += 1;
    }
    assert_eq!(visits.iter().filter(|v| **v > 0).count(), 16);
}

#[test]
fn a_surplus_budget_goes_to_the_last_survivor() {
    let mut plan = plan(8, 4, 16, 11);
    let scores = descending(8);
    let mut last = 0;
    let mut visits = [0u32; 8];
    for _ in 0..64 {
        if plan.needs_halving() {
            plan.halve(&scores);
        }
        last = plan.take();
        visits[last] += 1;
    }
    assert_eq!(plan.alive.len(), 1);
    assert_eq!(plan.alive[0], last);
    assert!(visits[last] > 16, "the survivor absorbs the surplus");
    assert_eq!(plan.phase_remaining(), u32::MAX);
}

#[test]
fn m_is_clamped_to_the_legal_actions() {
    let plan = plan(3, 64, 32, 3);
    assert_eq!(plan.alive.len(), 3);
}

#[test]
fn the_draw_follows_the_seed() {
    let a = plan(34, 16, 192, 99);
    let b = plan(34, 16, 192, 99);
    let c = plan(34, 16, 192, 100);
    assert_eq!(a.alive, b.alive);
    assert_ne!(a.alive, c.alive, "a different seed is a different draw");
}

#[test]
fn a_zero_prior_is_ranked_rather_than_infinite() {
    let prior = vec![0.0f32, 1.0, 0.0];
    let (plan, logits) = draw(&prior, &GumbelConfig::default(), 5);
    assert!(logits.iter().all(|l| l.is_finite()));
    assert_eq!(plan.alive.len(), 3);
}

#[test]
fn a_draw_keeps_the_best_first() {
    let scores: Vec<Score> = [0.5, -1.0, 2.0, 0.5, f64::NEG_INFINITY].iter().map(|v| score(*v)).collect();
    let config = GumbelConfig { m: 4, sims: 8, ..GumbelConfig::default() };
    let plan = GumbelPlan::new(&scores, &config);
    assert_eq!(plan.alive, vec![2, 0, 3, 1]);
    assert_eq!(plan.rounds, 2);
    // Eight simulations over two phases of four candidates: one each.
    assert_eq!(plan.per_action, 1);
    assert_eq!(plan.phase_remaining(), 4);
}

#[test]
fn a_cut_ranks_the_two_zeros_alike() {
    let config = GumbelConfig { m: 2, sims: 2, ..GumbelConfig::default() };
    let mut plan = GumbelPlan::new(&vec![score(1.0), score(2.0)], &config);
    assert_eq!(plan.alive, vec![1, 0]);
    let zeros = vec![score(-0.0), score(0.0)];
    assert_eq!(plan.choice(&zeros), 1, "the first of equals in the current order");
    plan.take();
    plan.take();
    plan.halve(&zeros);
    assert_eq!(plan.alive, vec![0], "ties are cut by edge index");
}

#[test]
fn scores_order_like_their_numbers() {
    let values = [f64::NEG_INFINITY, -1.5, -0.0, 0.0, 1e-310, 2.0, f64::INFINITY];
    for pair in values.windows(2) {
        assert!(score(pair[0]).order_key() < score(pair[1]).order_key());
        assert!(score(pair[0]).rank_key() <= score(pair[1]).rank_key());
    }
    assert_eq!(score(-0.0).rank_key(), score(0.0).rank_key());
    assert!(score(f64::NAN).is_nan());
    assert!(!score(f64::INFINITY).is_nan());
}

#[test]
fn equal_seeds_give_equal_streams_and_the_first_draw_is_known() {
    // The published first output of the generator for seed 0.
    assert_eq!(Rng::new(0).next_u64(), 0xE220_A839_7B1D_CDAF);
    let mut a = Rng::new(12345);
    let mut b = Rng::new(12345);
    for _ in 0..32 {
        assert_eq!(a.next_u64(), b.next_u64());
    }
    assert!(Rng::new(7).next_mantissa() < 1 << 53);
}

#[test]
fn candidates_are_cut_only_by_scores_that_put_them_in_order() {
    let score = |v: f64| Score { bits: v.to_bits() };
    let scores = |values: [f64; 3]| -> Vec<Score> { values.iter().map(|v| score(*v)).collect() };
    let config = GumbelConfig { m: 3, sims: 12, ..GumbelConfig::default() };
    let mut plan = GumbelPlan::new(&scores([3.0, 2.0, 1.0]), &config);
    assert!(plan.can_halve(&scores([1.0, 2.0, 3.0])));
    // Nothing is above or below what is not a number, so the index decides.
    assert!(plan.can_halve(&scores([f64::NAN, f64::NAN, f64::NAN])));
    // 0 before 1 before 2 by index, but 2 before 0 by score.
    assert!(!plan.can_halve(&scores([1.0, f64::NAN, 2.0])));
    plan.halve(&scores([f64::NAN, f64::NAN, f64::NAN]));
    assert_eq!(plan.alive, vec![0, 1]);
}
