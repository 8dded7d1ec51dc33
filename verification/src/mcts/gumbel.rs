//! Root-only Gumbel selection: the top-`m` draw and the sequential-halving
//! schedule that spends a simulation budget on it.
//!
//! The Gumbel variates, the logits and the values are real numbers and are
//! worked out elsewhere. What is decided here is decided from how the resulting
//! scores compare: which edges are candidates, which of them the next
//! simulation goes to, which half is cut, and which edge is the answer.
//!
//! Ranking is a total order, by score first and edge index second, so a
//! schedule is a function of its scores alone.

use crate::score::Score;
use vstd::arithmetic::power2::{lemma_pow2, lemma_pow2_unfold, pow2};
use vstd::prelude::*;

verus! {

/// Default candidate-set size.
pub const DEFAULT_GUMBEL_M: u16 = 16;

/// Default `c_visit` in `sigma`: the bits of 50.
pub const DEFAULT_GUMBEL_C_VISIT: u64 = 0x4049_0000_0000_0000;

/// Default `c_scale` in `sigma`: the bits of one tenth.
pub const DEFAULT_GUMBEL_C_SCALE: u64 = 0x3FB9_9999_9999_999A;

/// Root-only Gumbel selection settings. **Self-play only.**
///
/// `sims` is the budget the schedule is planned against. A search that runs
/// fewer simulations stops mid-schedule; one that runs more spends the surplus
/// on the last survivor.
#[derive(Clone, Copy, Debug, PartialEq, Eq, Structural)]
pub struct GumbelConfig {
    /// How many of the legal root actions the draw keeps. Clamped down to the
    /// number of legal actions.
    pub m: u16,
    /// The simulation budget the phase schedule is planned for.
    pub sims: u32,
    /// `c_visit` in `sigma`.
    pub c_visit: Score,
    /// `c_scale` in `sigma`.
    pub c_scale: Score,
}

impl Default for GumbelConfig {
    fn default() -> (r: GumbelConfig)
        ensures
            r == (GumbelConfig {
                m: DEFAULT_GUMBEL_M,
                sims: 192,
                c_visit: Score { bits: DEFAULT_GUMBEL_C_VISIT },
                c_scale: Score { bits: DEFAULT_GUMBEL_C_SCALE },
            }),
            r.m == 16,
            r.sims == 192,
            r.c_visit.bits == 0x4049_0000_0000_0000,
            r.c_scale.bits == 0x3FB9_9999_9999_999A,
    {
        GumbelConfig {
            m: DEFAULT_GUMBEL_M,
            sims: 192,
            c_visit: Score { bits: DEFAULT_GUMBEL_C_VISIT },
            c_scale: Score { bits: DEFAULT_GUMBEL_C_SCALE },
        }
    }
}

/// What edges are ranked by.
#[derive(Clone, Copy, Debug, PartialEq, Eq, Structural)]
pub enum Ranking {
    /// The total order, in which what is not a number has a place too.
    Total,
    /// The numeric order, in which what is not a number is neither above nor
    /// below anything.
    Numeric,
}

/// Edge `x` ranks ahead of edge `y`: a higher score, or one that is neither
/// higher nor lower and a lower index.
pub open spec fn ahead(scores: Seq<Score>, by: Ranking, x: int, y: int) -> bool {
    match by {
        Ranking::Total => scores[x].order() > scores[y].order() || (scores[x].order()
            == scores[y].order() && x < y),
        Ranking::Numeric => scores[x].beats(scores[y]) || (!scores[y].beats(scores[x]) && x < y),
    }
}

/// The ranking is an order on the listed edges: what is ahead of an edge is
/// ahead of everything that edge is ahead of. Among numbers it always is.
pub open spec fn ordered(scores: Seq<Score>, by: Ranking, edges: Seq<usize>) -> bool {
    forall|i: int, j: int, k: int|
        0 <= i < edges.len() && 0 <= j < edges.len() && 0 <= k < edges.len() && #[trigger] ahead(
            scores,
            by,
            edges[i] as int,
            edges[j] as int,
        ) && #[trigger] ahead(scores, by, edges[j] as int, edges[k] as int) ==> ahead(
            scores,
            by,
            edges[i] as int,
            edges[k] as int,
        )
}

/// `edges` lists edges best-first.
pub open spec fn best_first(scores: Seq<Score>, by: Ranking, edges: Seq<usize>) -> bool {
    forall|i: int, j: int|
        0 <= i < j < edges.len() ==> ahead(
            scores,
            by,
            #[trigger] edges[i] as int,
            #[trigger] edges[j] as int,
        )
}

/// `kept` is the first `count` of `pool`, ranked: `count` different members of
/// it, best-first, each ahead of every member left out.
pub open spec fn top_of(
    scores: Seq<Score>,
    by: Ranking,
    pool: Set<int>,
    count: int,
    kept: Seq<usize>,
) -> bool {
    &&& kept.len() == count
    &&& best_first(scores, by, kept)
    &&& forall|i: int| 0 <= i < kept.len() ==> pool.contains(#[trigger] kept[i] as int)
    &&& forall|i: int, e: int|
        0 <= i < kept.len() && pool.contains(e) && !holds(kept, e) ==> #[trigger] ahead(
            scores,
            by,
            kept[i] as int,
            e,
        )
}

/// Edge `e` is listed.
pub open spec fn holds(edges: Seq<usize>, e: int) -> bool {
    exists|i: int| 0 <= i < edges.len() && #[trigger] edges[i] == e
}

/// The listed edges.
pub open spec fn members(edges: Seq<usize>) -> Set<int> {
    Set::new(|e: int| holds(edges, e))
}

/// Simulations per candidate in a phase: what is left of the budget, over what
/// is left of the phases, over the candidates, and never less than one.
pub open spec fn share(alive: int, budget: int, scheduled: int, rounds: int, phase: int) -> int {
    let left = if budget > scheduled {
        budget - scheduled
    } else {
        0
    };
    let phases_left = if rounds - phase > 1 {
        rounds - phase
    } else {
        1
    };
    let each = left / (phases_left * alive);
    if each > 1 {
        each
    } else {
        1
    }
}

/// Half of `count`, rounded up.
pub open spec fn halved(count: int) -> int {
    (count + 1) / 2
}

/// The sequential-halving schedule for one root.
#[derive(Debug)]
pub struct GumbelPlan {
    /// Root edges there are.
    pub edges: usize,
    /// Root edge indices still in contention, best-first.
    pub alive: Vec<usize>,
    /// Simulations each surviving candidate gets in the current phase.
    pub per_action: u32,
    /// Simulations handed out in the current phase.
    pub given: u32,
    /// Simulations handed out over the whole plan.
    pub scheduled: u32,
    /// Halvings done so far.
    pub phase: u32,
    /// Halvings the schedule was planned for, `ceil(log2(m))`.
    pub rounds: u32,
    /// Budget the schedule was planned against.
    pub budget: u32,
}

/// A [`GumbelPlan`] as mathematical values.
#[verifier::ext_equal]
pub struct PlanView {
    pub edges: int,
    pub alive: Seq<usize>,
    pub per_action: u32,
    pub given: u32,
    pub scheduled: u32,
    pub phase: u32,
    pub rounds: u32,
    pub budget: u32,
}

impl View for GumbelPlan {
    type V = PlanView;

    open spec fn view(&self) -> PlanView {
        PlanView {
            edges: self.edges as int,
            alive: self.alive@,
            per_action: self.per_action,
            given: self.given,
            scheduled: self.scheduled,
            phase: self.phase,
            rounds: self.rounds,
            budget: self.budget,
        }
    }
}

/// Whether edge `x` ranks ahead of edge `y`.
fn is_ahead(scores: &Vec<Score>, by: Ranking, x: usize, y: usize) -> (r: bool)
    requires
        x < scores@.len(),
        y < scores@.len(),
    ensures
        r == ahead(scores@, by, x as int, y as int),
{
    match by {
        Ranking::Total => {
            let (a, b): (i64, i64) = (scores[x].order_key(), scores[y].order_key());
            a > b || (a == b && x < y)
        },
        Ranking::Numeric => {
            scores[x].exceeds(&scores[y]) || (!scores[y].exceeds(&scores[x]) && x < y)
        },
    }
}

/// Being ahead carries over among listed edges.
proof fn ahead_carries_over(
    scores: Seq<Score>,
    by: Ranking,
    edges: Seq<usize>,
    x: int,
    y: int,
    z: int,
)
    requires
        ordered(scores, by, edges),
        holds(edges, x),
        holds(edges, y),
        holds(edges, z),
        ahead(scores, by, x, y),
        ahead(scores, by, y, z),
    ensures
        ahead(scores, by, x, z),
{
    let i = choose|i: int| 0 <= i < edges.len() && #[trigger] edges[i] == x;
    let j = choose|j: int| 0 <= j < edges.len() && #[trigger] edges[j] == y;
    let k = choose|k: int| 0 <= k < edges.len() && #[trigger] edges[k] == z;
    assert(ahead(scores, by, edges[i] as int, edges[j] as int));
    assert(ahead(scores, by, edges[j] as int, edges[k] as int));
}

/// Scores that are numbers can always be ranked.
pub proof fn numbers_are_ordered(scores: Seq<Score>, edges: Seq<usize>)
    requires
        forall|i: int| 0 <= i < edges.len() ==> !scores[#[trigger] edges[i] as int].nan(),
    ensures
        ordered(scores, Ranking::Numeric, edges),
{
}

/// The total order ranks any scores.
pub proof fn the_total_order_is_one(scores: Seq<Score>, edges: Seq<usize>)
    ensures
        ordered(scores, Ranking::Total, edges),
{
}

/// The listed edges, ranked.
fn ranked(scores: &Vec<Score>, by: Ranking, edges: &Vec<usize>) -> (r: Vec<usize>)
    requires
        forall|i: int| 0 <= i < edges@.len() ==> #[trigger] edges@[i] < scores@.len(),
        edges@.no_duplicates(),
        ordered(scores@, by, edges@),
    ensures
        r@.len() == edges@.len(),
        best_first(scores@, by, r@),
        forall|e: int| holds(r@, e) <==> #[trigger] holds(edges@, e),
{
    let mut out: Vec<usize> = Vec::new();
    let mut i: usize = 0;
    while i < edges.len()
        invariant
            i <= edges.len(),
            out.len() == i,
            edges@.no_duplicates(),
            ordered(scores@, by, edges@),
            forall|j: int| 0 <= j < edges@.len() ==> #[trigger] edges@[j] < scores@.len(),
            forall|j: int| 0 <= j < out@.len() ==> #[trigger] out@[j] < scores@.len(),
            best_first(scores@, by, out@),
            forall|e: int| holds(out@, e) <==> #[trigger] holds(edges@.take(i as int), e),
        decreases edges.len() - i,
    {
        let x: usize = edges[i];
        assert(!holds(out@, x as int)) by {
            assert(!holds(edges@.take(i as int), x as int));
        }
        let mut p: usize = 0;
        while p < out.len() && is_ahead(scores, by, out[p], x)
            invariant
                p <= out.len(),
                x < scores@.len(),
                forall|j: int| 0 <= j < out@.len() ==> #[trigger] out@[j] < scores@.len(),
                forall|j: int|
                    0 <= j < p ==> ahead(scores@, by, #[trigger] out@[j] as int, x as int),
            decreases out.len() - p,
        {
            p += 1;
        }
        let ghost before = out@;
        out.insert(p, x);
        proof {
            assert(out@ =~= before.insert(p as int, x));
            if p < before.len() {
                assert(before[p as int] != x) by {
                    assert(holds(before, before[p as int] as int));
                }
                assert(ahead(scores@, by, x as int, before[p as int] as int));
            }
            assert forall|q: int| 0 <= q < before.len() implies holds(
                edges@,
                #[trigger] before[q] as int,
            ) by {
                assert(holds(before, before[q] as int));
                assert(holds(edges@.take(i as int), before[q] as int));
                let s = choose|s: int| 0 <= s < i && #[trigger] edges@.take(i as int)[s] == before[q];
                assert(edges@[s] == before[q]);
            }
            assert(holds(edges@, x as int)) by {
                assert(edges@[i as int] == x);
            }
            assert forall|a: int, b: int| 0 <= a < b < out@.len() implies ahead(
                scores@,
                by,
                #[trigger] out@[a] as int,
                #[trigger] out@[b] as int,
            ) by {
                let la = if a < p {
                    a
                } else {
                    a - 1
                };
                let lb = if b < p {
                    b
                } else {
                    b - 1
                };
                if a < p {
                    assert(out@[a] == before[a]);
                    if b == p {
                    } else {
                        assert(out@[b] == before[lb]);
                    }
                } else if a == p {
                    assert(out@[b] == before[lb]);
                    if lb > p {
                        assert(ahead(scores@, by, before[p as int] as int, before[lb] as int));
                        ahead_carries_over(
                            scores@,
                            by,
                            edges@,
                            x as int,
                            before[p as int] as int,
                            before[lb] as int,
                        );
                    }
                } else {
                    assert(out@[a] == before[la]);
                    assert(out@[b] == before[lb]);
                }
            }
            assert forall|e: int| holds(out@, e) <==> #[trigger] holds(
                edges@.take(i as int + 1),
                e,
            ) by {
                let grown = edges@.take(i as int + 1);
                if holds(out@, e) {
                    let q = choose|q: int| 0 <= q < out@.len() && #[trigger] out@[q] == e;
                    if q == p {
                        assert(grown[i as int] == e);
                    } else {
                        let o = if q < p {
                            q
                        } else {
                            q - 1
                        };
                        assert(before[o] == e);
                        assert(holds(edges@.take(i as int), e));
                        let q2 = choose|q2: int|
                            0 <= q2 < i && #[trigger] edges@.take(i as int)[q2] == e;
                        assert(grown[q2] == e);
                    }
                }
                if holds(grown, e) {
                    let q = choose|q: int| 0 <= q < grown.len() && #[trigger] grown[q] == e;
                    if q == i {
                        assert(out@[p as int] == e);
                    } else {
                        assert(edges@.take(i as int)[q] == e);
                        assert(holds(edges@.take(i as int), e));
                        assert(holds(before, e));
                        let o = choose|o: int| 0 <= o < before.len() && #[trigger] before[o] == e;
                        if o < p {
                            assert(out@[o] == e);
                        } else {
                            assert(out@[o + 1] == e);
                        }
                    }
                }
            }
        }
        i += 1;
    }
    assert(edges@.take(i as int) =~= edges@);
    out
}

/// A ranked list holds no edge twice.
proof fn ranked_is_distinct(scores: Seq<Score>, by: Ranking, edges: Seq<usize>)
    requires
        best_first(scores, by, edges),
    ensures
        edges.no_duplicates(),
{
    assert forall|i: int, j: int| 0 <= i < edges.len() && 0 <= j < edges.len() && i != j implies edges[i]
        != edges[j] by {
        if i < j {
            assert(ahead(scores, by, edges[i] as int, edges[j] as int));
        } else {
            assert(ahead(scores, by, edges[j] as int, edges[i] as int));
        }
    }
}

/// Cutting a ranked pool short leaves its top.
proof fn cut_is_top(
    scores: Seq<Score>,
    by: Ranking,
    pool: Set<int>,
    whole: Seq<usize>,
    count: int,
)
    requires
        best_first(scores, by, whole),
        forall|e: int| pool.contains(e) <==> holds(whole, e),
        0 <= count <= whole.len(),
    ensures
        top_of(scores, by, pool, count, whole.take(count)),
{
    let kept = whole.take(count);
    assert forall|i: int, j: int| 0 <= i < j < kept.len() implies ahead(
        scores,
        by,
        #[trigger] kept[i] as int,
        #[trigger] kept[j] as int,
    ) by {
        assert(kept[i] == whole[i] && kept[j] == whole[j]);
    }
    assert forall|i: int| 0 <= i < kept.len() implies pool.contains(#[trigger] kept[i] as int) by {
        assert(whole[i] == kept[i]);
        assert(holds(whole, kept[i] as int));
    }
    assert forall|i: int, e: int|
        0 <= i < kept.len() && pool.contains(e) && !holds(kept, e) implies #[trigger] ahead(
        scores,
        by,
        kept[i] as int,
        e,
    ) by {
        let q = choose|q: int| 0 <= q < whole.len() && #[trigger] whole[q] == e;
        if q < count {
            assert(kept[q] == e);
        }
        assert(kept[i] == whole[i]);
    }
}

impl PlanView {
    /// The candidate set is not empty, names each edge at most once and only
    /// edges there are; a phase's simulations fit a counter, and no phase has
    /// been overdrawn.
    pub open spec fn wf(self) -> bool {
        &&& 1 <= self.alive.len() <= u16::MAX
        &&& self.alive.no_duplicates()
        &&& forall|i: int| 0 <= i < self.alive.len() ==> #[trigger] self.alive[i] < self.edges
        &&& self.per_action >= 1
        &&& self.per_action * self.alive.len() <= u32::MAX
        &&& self.alive.len() > 1 ==> self.given <= self.per_action * self.alive.len()
        &&& self.rounds <= 64
    }

    /// The phase is used up and a halving is due.
    pub open spec fn halving_due(self) -> bool {
        self.alive.len() > 1 && self.given >= self.per_action * self.alive.len()
    }

    /// The share the current counters call for.
    pub open spec fn due_share(self) -> int {
        share(
            self.alive.len() as int,
            self.budget as int,
            self.scheduled as int,
            self.rounds as int,
            self.phase as int,
        )
    }

    /// The edge the next simulation takes: round-robin over the candidates.
    pub open spec fn next_edge(self) -> usize {
        self.alive[self.given as int % self.alive.len() as int]
    }

    /// The plan after that simulation was handed out.
    pub open spec fn took(self) -> PlanView {
        PlanView {
            given: (self.given + 1) as u32,
            scheduled: (self.scheduled + 1) as u32,
            ..self
        }
    }

    /// The counters have room for one more simulation.
    pub open spec fn has_room(self) -> bool {
        self.given < u32::MAX && self.scheduled < u32::MAX
    }

    /// Cutting this plan by `scores` gives `next`.
    pub open spec fn halves_to(self, scores: Seq<Score>, next: PlanView) -> bool {
        &&& top_of(
            scores,
            Ranking::Numeric,
            members(self.alive),
            halved(self.alive.len() as int),
            next.alive,
        )
        &&& next.phase == self.phase + 1
        &&& next.given == 0
        &&& next.per_action == next.due_share()
        &&& next.scheduled == self.scheduled
        &&& next.edges == self.edges
        &&& next.rounds == self.rounds
        &&& next.budget == self.budget
    }
}

impl GumbelPlan {
    /// Picks the top-`m` candidate set. `scores` is `g + logit` for every root
    /// edge, in edge order.
    pub fn new(scores: &Vec<Score>, config: &GumbelConfig) -> (r: GumbelPlan)
        requires
            scores@.len() > 0,
        ensures
            r@.wf(),
            r.edges == scores@.len(),
            top_of(
                scores@,
                Ranking::Total,
                Set::new(|e: int| 0 <= e < scores@.len()),
                candidates(config.m as int, scores@.len() as int),
                r.alive@,
            ),
            r.rounds == rounds_of(candidates(config.m as int, scores@.len() as int)),
            r.budget == (if config.sims >= 1 {
                config.sims
            } else {
                1
            }),
            r.phase == 0,
            r.given == 0,
            r.scheduled == 0,
            r.per_action == r@.due_share(),
    {
        let k: usize = scores.len();
        let wanted: usize = if config.m >= 1 {
            config.m as usize
        } else {
            1
        };
        let m: usize = if wanted <= k {
            wanted
        } else {
            k
        };
        let mut all: Vec<usize> = Vec::new();
        let mut i: usize = 0;
        while i < k
            invariant
                i <= k,
                k == scores@.len(),
                all@.len() == i,
                forall|j: int| 0 <= j < i ==> #[trigger] all@[j] == j,
            decreases k - i,
        {
            all.push(i);
            i += 1;
        }
        proof {
            the_total_order_is_one(scores@, all@);
        }
        let mut alive = ranked(scores, Ranking::Total, &all);
        let ghost whole = alive@;
        let ghost pool = Set::new(|e: int| 0 <= e < scores@.len());
        proof {
            assert forall|e: int| pool.contains(e) <==> holds(whole, e) by {
                if pool.contains(e) {
                    assert(all@[e] == e);
                    assert(holds(all@, e));
                }
                if holds(whole, e) {
                    assert(holds(all@, e));
                }
            }
            cut_is_top(scores@, Ranking::Total, pool, whole, m as int);
            ranked_is_distinct(scores@, Ranking::Total, whole);
        }
        alive.truncate(m);
        assert(alive@ =~= whole.take(m as int));
        proof {
            ranked_is_distinct(scores@, Ranking::Total, alive@);
            assert forall|i: int| 0 <= i < alive@.len() implies #[trigger] alive@[i] < k by {
                assert(pool.contains(alive@[i] as int));
            }
        }
        let rounds: u32 = rounds_for(m);
        proof {
            rounds_is_unique(m as int, rounds as int);
        }
        let budget: u32 = if config.sims >= 1 {
            config.sims
        } else {
            1
        };
        let mut plan = GumbelPlan {
            edges: k,
            alive,
            per_action: 1,
            given: 0,
            scheduled: 0,
            phase: 0,
            rounds,
            budget,
        };
        plan.per_action = plan.phase_share();
        proof {
            share_fits(m as int, budget as int, 0, rounds as int, 0);
            assert(0 <= plan.per_action * plan.alive@.len()) by (nonlinear_arith);
        }
        plan
    }

    /// Simulations per candidate in the current phase.
    fn phase_share(&self) -> (r: u32)
        requires
            1 <= self.alive@.len() <= u16::MAX,
            self.rounds <= 64,
        ensures
            r == self@.due_share(),
    {
        let alive: u32 = self.alive.len() as u32;
        let left: u32 = self.budget.saturating_sub(self.scheduled);
        let phases_left: u32 = if self.rounds > self.phase && self.rounds - self.phase > 1 {
            self.rounds - self.phase
        } else {
            1
        };
        assert(1 <= phases_left * alive <= 64 * 65535) by (nonlinear_arith)
            requires
                1 <= phases_left <= 64,
                1 <= alive <= 65535,
        ;
        let each: u32 = left / (phases_left * alive);
        if each >= 1 {
            each
        } else {
            1
        }
    }

    /// Whether the current phase is used up and a halving is due.
    pub fn needs_halving(&self) -> (r: bool)
        requires
            self@.wf(),
        ensures
            r == self@.halving_due(),
    {
        self.alive.len() > 1 && self.given >= self.per_action * self.alive.len() as u32
    }

    /// Simulations left before the next halving decision, or [`u32::MAX`] once
    /// a single candidate remains.
    pub fn phase_remaining(&self) -> (r: u32)
        requires
            self@.wf(),
        ensures
            self.alive@.len() == 1 ==> r == u32::MAX,
            self.alive@.len() > 1 ==> r == self.per_action * self.alive@.len() - self.given,
    {
        if self.alive.len() <= 1 {
            return u32::MAX;
        }
        self.per_action * self.alive.len() as u32 - self.given
    }

    /// The root edge the next descent must take: round-robin over the
    /// candidates.
    pub fn take(&mut self) -> (r: usize)
        requires
            old(self)@.wf(),
            !old(self)@.halving_due(),
            old(self)@.has_room(),
        ensures
            final(self)@.wf(),
            r == old(self)@.next_edge(),
            r < final(self).edges,
            final(self)@ == old(self)@.took(),
    {
        let slot: usize = self.given as usize % self.alive.len();
        self.given = self.given + 1;
        self.scheduled = self.scheduled + 1;
        assert(self@ =~= old(self)@.took());
        self.alive[slot]
    }

    /// Whether `scores` put the candidates in an order to cut them by. Numbers
    /// always do.
    pub fn can_halve(&self, scores: &Vec<Score>) -> (r: bool)
        requires
            self@.wf(),
            scores@.len() == self.edges,
        ensures
            r == ordered(scores@, Ranking::Numeric, self.alive@),
    {
        let count: usize = self.alive.len();
        let mut numbers: usize = 0;
        while numbers < count && !scores[self.alive[numbers]].is_nan()
            invariant
                self@.wf(),
                scores@.len() == self.edges,
                count == self.alive@.len(),
                numbers <= count,
                forall|q: int|
                    0 <= q < numbers ==> !scores@[#[trigger] self.alive@[q] as int].nan(),
            decreases count - numbers,
        {
            numbers += 1;
        }
        if numbers == count {
            proof {
                numbers_are_ordered(scores@, self.alive@);
            }
            return true;
        }
        let mut i: usize = 0;
        while i < count
            invariant
                self@.wf(),
                scores@.len() == self.edges,
                count == self.alive@.len(),
                i <= count,
                forall|a: int, b: int, c: int|
                    0 <= a < i && 0 <= b < count && 0 <= c < count ==> carries(
                        scores@,
                        #[trigger] self.alive@[a] as int,
                        #[trigger] self.alive@[b] as int,
                        #[trigger] self.alive@[c] as int,
                    ),
            decreases count - i,
        {
            let mut j: usize = 0;
            while j < count
                invariant
                    self@.wf(),
                    scores@.len() == self.edges,
                    count == self.alive@.len(),
                    i < count,
                    j <= count,
                    forall|b: int, c: int|
                        0 <= b < j && 0 <= c < count ==> carries(
                            scores@,
                            self.alive@[i as int] as int,
                            #[trigger] self.alive@[b] as int,
                            #[trigger] self.alive@[c] as int,
                        ),
                decreases count - j,
            {
                let mut k: usize = 0;
                while k < count
                    invariant
                        self@.wf(),
                        scores@.len() == self.edges,
                        count == self.alive@.len(),
                        i < count,
                        j < count,
                        k <= count,
                        forall|c: int|
                            0 <= c < k ==> carries(
                                scores@,
                                self.alive@[i as int] as int,
                                self.alive@[j as int] as int,
                                #[trigger] self.alive@[c] as int,
                            ),
                    decreases count - k,
                {
                    let (x, y, z): (usize, usize, usize) = (
                        self.alive[i],
                        self.alive[j],
                        self.alive[k],
                    );
                    assert(self.alive@[i as int] < self.edges && self.alive@[j as int] < self.edges
                        && self.alive@[k as int] < self.edges);
                    if is_ahead(scores, Ranking::Numeric, x, y) && is_ahead(
                        scores,
                        Ranking::Numeric,
                        y,
                        z,
                    ) && !is_ahead(scores, Ranking::Numeric, x, z) {
                        return false;
                    }
                    k += 1;
                }
                j += 1;
            }
            i += 1;
        }
        assert forall|a: int, b: int, c: int|
            0 <= a < count && 0 <= b < count && 0 <= c < count && #[trigger] ahead(
                scores@,
                Ranking::Numeric,
                self.alive@[a] as int,
                self.alive@[b] as int,
            ) && #[trigger] ahead(
                scores@,
                Ranking::Numeric,
                self.alive@[b] as int,
                self.alive@[c] as int,
            ) implies ahead(
            scores@,
            Ranking::Numeric,
            self.alive@[a] as int,
            self.alive@[c] as int,
        ) by {
            assert(carries(
                scores@,
                self.alive@[a] as int,
                self.alive@[b] as int,
                self.alive@[c] as int,
            ));
        }
        true
    }

    /// Cuts the worse half of the candidate set by `scores`, then re-plans the
    /// next phase.
    pub fn halve(&mut self, scores: &Vec<Score>)
        requires
            old(self)@.wf(),
            old(self).phase < u32::MAX,
            scores@.len() == old(self).edges,
            ordered(scores@, Ranking::Numeric, old(self).alive@),
        ensures
            final(self)@.wf(),
            old(self)@.halves_to(scores@, final(self)@),
    {
        let mut alive = ranked(scores, Ranking::Numeric, &self.alive);
        let half: usize = (self.alive.len() + 1) / 2;
        let ghost whole = alive@;
        let ghost pool = members(self.alive@);
        proof {
            assert forall|e: int| pool.contains(e) <==> holds(whole, e) by {
                assert(holds(self.alive@, e) == pool.contains(e));
            }
            cut_is_top(scores@, Ranking::Numeric, pool, whole, half as int);
        }
        alive.truncate(half);
        assert(alive@ =~= whole.take(half as int));
        proof {
            ranked_is_distinct(scores@, Ranking::Numeric, alive@);
            assert forall|i: int| 0 <= i < alive@.len() implies #[trigger] alive@[i] < self.edges by {
                assert(pool.contains(alive@[i] as int));
                assert(holds(self.alive@, alive@[i] as int));
            }
        }
        self.alive = alive;
        self.phase = self.phase + 1;
        self.given = 0;
        self.per_action = self.phase_share();
        proof {
            share_fits(
                half as int,
                self.budget as int,
                self.scheduled as int,
                self.rounds as int,
                self.phase as int,
            );
            assert(0 <= self.per_action * self.alive@.len()) by (nonlinear_arith);
        }
    }

    /// The edge to play: the best-scored candidate, the earliest listed one
    /// among equals. A candidate whose score is not a number is passed over,
    /// unless it is listed first: then nothing beats it.
    pub fn choice(&self, scores: &Vec<Score>) -> (r: usize)
        requires
            self@.wf(),
            scores@.len() == self.edges,
        ensures
            first_best(self.alive@, scores@, r),
    {
        let mut at: usize = 0;
        let mut i: usize = 1;
        while i < self.alive.len()
            invariant
                self@.wf(),
                scores@.len() == self.edges,
                at < i <= self.alive@.len(),
                scores@[self.alive@[0] as int].nan() ==> at == 0,
                !scores@[self.alive@[0] as int].nan() ==> !scores@[self.alive@[at as int] as int].nan(),
                forall|j: int|
                    0 <= j < i ==> !scores@[#[trigger] self.alive@[j] as int].beats(
                        scores@[self.alive@[at as int] as int],
                    ),
                forall|j: int|
                    0 <= j < at ==> scores@[#[trigger] self.alive@[j] as int].nan()
                        || scores@[self.alive@[at as int] as int].beats(
                        scores@[self.alive@[j] as int],
                    ),
            decreases self.alive@.len() - i,
        {
            assert(self.alive@[i as int] < self.edges && self.alive@[at as int] < self.edges);
            if scores[self.alive[i]].exceeds(&scores[self.alive[at]]) {
                at = i;
            }
            i += 1;
        }
        self.alive[at]
    }
}

/// Being ahead carries over from `x` by way of `y` to `z`.
spec fn carries(scores: Seq<Score>, x: int, y: int, z: int) -> bool {
    ahead(scores, Ranking::Numeric, x, y) && ahead(scores, Ranking::Numeric, y, z) ==> ahead(
        scores,
        Ranking::Numeric,
        x,
        z,
    )
}

/// `best` is listed and no listed edge beats it. Listed first with a score that
/// is not a number, it stays the best; otherwise it beats every edge listed
/// before it whose score is a number.
pub open spec fn first_best(alive: Seq<usize>, scores: Seq<Score>, best: usize) -> bool {
    exists|at: int|
        {
            &&& 0 <= at < alive.len()
            &&& #[trigger] alive[at] == best
            &&& scores[alive[0] as int].nan() ==> at == 0
            &&& !scores[alive[0] as int].nan() ==> !scores[best as int].nan()
            &&& forall|j: int|
                0 <= j < alive.len() ==> !scores[#[trigger] alive[j] as int].beats(
                    scores[best as int],
                )
            &&& forall|j: int|
                0 <= j < at ==> scores[#[trigger] alive[j] as int].nan()
                    || scores[best as int].beats(scores[alive[j] as int])
        }
}

/// There is one best edge only.
pub proof fn the_best_is_the_only_one(alive: Seq<usize>, scores: Seq<Score>, a: usize, b: usize)
    requires
        first_best(alive, scores, a),
        first_best(alive, scores, b),
    ensures
        a == b,
{
    let i = choose|at: int|
        {
            &&& 0 <= at < alive.len()
            &&& #[trigger] alive[at] == a
            &&& scores[alive[0] as int].nan() ==> at == 0
            &&& forall|j: int|
                0 <= j < at ==> scores[#[trigger] alive[j] as int].nan()
                    || scores[a as int].beats(scores[alive[j] as int])
        };
    let k = choose|at: int|
        {
            &&& 0 <= at < alive.len()
            &&& #[trigger] alive[at] == b
            &&& scores[alive[0] as int].nan() ==> at == 0
            &&& forall|j: int|
                0 <= j < at ==> scores[#[trigger] alive[j] as int].nan()
                    || scores[b as int].beats(scores[alive[j] as int])
        };
    if i < k {
        assert(scores[alive[i] as int].nan() || scores[b as int].beats(scores[alive[i] as int]));
        assert(!scores[alive[k] as int].beats(scores[a as int]));
    } else if k < i {
        assert(scores[alive[k] as int].nan() || scores[a as int].beats(scores[alive[k] as int]));
        assert(!scores[alive[i] as int].beats(scores[b as int]));
    }
}

/// How many candidates a request for `m` of `legal` actions keeps.
pub open spec fn candidates(m: int, legal: int) -> int {
    let wanted = if m >= 1 {
        m
    } else {
        1
    };
    if wanted <= legal {
        wanted
    } else {
        legal
    }
}

/// `ceil(log2(m))`, at least one.
pub open spec fn rounds_of(m: int) -> int {
    choose|r: int| rounds_fit(m, r)
}

/// `r` is the least count, not below one, with `m <= 2^r`.
pub open spec fn rounds_fit(m: int, r: int) -> bool {
    &&& r >= 1
    &&& m <= pow2(r as nat)
    &&& r > 1 ==> pow2((r - 1) as nat) < m
}

proof fn rounds_is_unique(m: int, r: int)
    requires
        rounds_fit(m, r),
    ensures
        rounds_of(m) == r,
{
    let other = rounds_of(m);
    if other < r {
        if other < r - 1 {
            vstd::arithmetic::power2::lemma_pow2_strictly_increases(other as nat, (r - 1) as nat);
        }
    } else if r < other {
        if r < other - 1 {
            vstd::arithmetic::power2::lemma_pow2_strictly_increases(r as nat, (other - 1) as nat);
        }
    }
}

/// `ceil(log2(m))`, at least 1: the number of halvings that reduce `m`
/// candidates to one.
pub fn rounds_for(m: usize) -> (r: u32)
    ensures
        rounds_fit(m as int, r as int),
        r == rounds_of(m as int),
        r <= 64,
{
    let mut r: u32 = 1;
    let mut reach: u128 = 2;
    proof {
        vstd::arithmetic::power2::lemma2_to64();
    }
    while reach < m as u128
        invariant
            1 <= r <= 64,
            reach == pow2(r as nat),
            r > 1 ==> pow2((r - 1) as nat) < m,
            pow2(64) == 0x1_0000_0000_0000_0000,
        decreases 64 - r,
    {
        proof {
            if r == 64 {
                assert(m as int <= 0xFFFF_FFFF_FFFF_FFFF);
                assert(false);
            }
            lemma_pow2_unfold((r + 1) as nat);
            if r < 64 {
                vstd::arithmetic::power2::lemma_pow2_strictly_increases(r as nat, 64);
            }
        }
        reach = reach * 2;
        r += 1;
    }
    proof {
        rounds_is_unique(m as int, r as int);
    }
    r
}

/// A phase's simulations never exceed the larger of the budget and the
/// candidate count.
proof fn share_fits(alive: int, budget: int, scheduled: int, rounds: int, phase: int)
    requires
        1 <= alive <= u16::MAX,
        0 <= budget <= u32::MAX,
        0 <= scheduled,
    ensures
        1 <= share(alive, budget, scheduled, rounds, phase),
        share(alive, budget, scheduled, rounds, phase) * alive <= u32::MAX,
{
    let left = if budget > scheduled {
        budget - scheduled
    } else {
        0
    };
    let phases_left = if rounds - phase > 1 {
        rounds - phase
    } else {
        1
    };
    let d = phases_left * alive;
    assert(d >= alive) by (nonlinear_arith)
        requires
            phases_left >= 1,
            alive >= 1,
            d == phases_left * alive,
    ;
    let each = left / d;
    assert(each * alive <= left && each >= 0) by (nonlinear_arith)
        requires
            d >= alive,
            alive >= 1,
            left >= 0,
            each == left / d,
    ;
}

/// How many of the first `given` simulations of a phase with `count`
/// candidates went to the candidate listed at `slot`.
pub open spec fn taken(slot: int, given: nat, count: int) -> int
    decreases given,
{
    if given == 0 {
        0
    } else {
        taken(slot, (given - 1) as nat, count) + if (given - 1) % count == slot {
            1int
        } else {
            0int
        }
    }
}

proof fn taken_so_far(slot: int, whole: nat, part: nat, count: int)
    requires
        0 <= slot < count,
        part <= count,
    ensures
        taken(slot, (whole * count + part) as nat, count) == whole + if part > slot {
            1int
        } else {
            0int
        },
    decreases whole, part,
{
    assert(whole * count >= 0) by (nonlinear_arith)
        requires
            count > 0,
    ;
    if part > 0 {
        taken_so_far(slot, whole, (part - 1) as nat, count);
        let given = (whole * count + part) as nat;
        assert((given - 1) % count == part - 1) by {
            vstd::arithmetic::div_mod::lemma_fundamental_div_mod_converse(
                given - 1,
                count,
                whole as int,
                part - 1,
            );
        }
    } else if whole > 0 {
        taken_so_far(slot, (whole - 1) as nat, count as nat, count);
        assert((whole - 1) * count + count == whole * count) by (nonlinear_arith);
    } else {
        assert(whole * count == 0) by (nonlinear_arith)
            requires
                whole == 0,
        ;
    }
}

/// When a halving is due every candidate has been measured, and equally often:
/// each got exactly the phase's share.
pub proof fn every_candidate_is_measured_before_a_cut(plan: PlanView, slot: int)
    requires
        plan.wf(),
        plan.halving_due(),
        0 <= slot < plan.alive.len(),
    ensures
        taken(slot, plan.given as nat, plan.alive.len() as int) == plan.per_action,
        plan.per_action >= 1,
{
    taken_so_far(slot, plan.per_action as nat, 0, plan.alive.len() as int);
}

/// Halving `count` candidates `times` times.
pub open spec fn halved_times(count: int, times: nat) -> int
    decreases times,
{
    if times == 0 {
        count
    } else {
        halved_times(halved(count), (times - 1) as nat)
    }
}

proof fn halving_reaches_one(count: int, times: nat)
    requires
        1 <= count <= pow2(times),
    ensures
        halved_times(count, times) == 1,
    decreases times,
{
    if times == 0 {
        lemma_pow2(0);
        vstd::arithmetic::power2::lemma2_to64();
    } else {
        lemma_pow2_unfold(times);
        halving_reaches_one(halved(count), (times - 1) as nat);
    }
}

/// The planned number of halvings leaves exactly one candidate.
pub proof fn the_planned_halvings_leave_one(m: int, rounds: int)
    requires
        m >= 1,
        rounds_fit(m, rounds),
    ensures
        halved_times(m, rounds as nat) == 1,
{
    halving_reaches_one(m, rounds as nat);
}

/// A budget beyond the schedule goes to the last survivor: no halving is ever
/// due again, and every further simulation takes the one edge left.
pub proof fn a_surplus_goes_to_the_last_survivor(plan: PlanView)
    requires
        plan.wf(),
        plan.alive.len() == 1,
    ensures
        !plan.halving_due(),
        plan.next_edge() == plan.alive[0],
{
}

/// A phase gives every candidate as much as the rest of the budget allows, the
/// phases still to come counted alike: as many times over as that, and not once
/// more, fits what is left. It always gives one.
pub proof fn a_phase_spends_what_the_budget_allows(
    alive: int,
    budget: int,
    scheduled: int,
    rounds: int,
    phase: int,
)
    requires
        alive >= 1,
        0 <= scheduled <= budget,
        phase < rounds,
    ensures
        ({
            let each = share(alive, budget, scheduled, rounds, phase);
            let phases = rounds - phase;
            &&& each >= 1
            &&& each * (phases * alive) <= budget - scheduled || each == 1
            &&& (each + 1) * (phases * alive) > budget - scheduled
        }),
{
    let left = budget - scheduled;
    let phases = rounds - phase;
    let d = phases * alive;
    assert(d >= 1) by (nonlinear_arith)
        requires
            phases >= 1,
            alive >= 1,
            d == phases * alive,
    ;
    let quotient = left / d;
    vstd::arithmetic::div_mod::lemma_fundamental_div_mod(left, d);
    vstd::arithmetic::div_mod::lemma_mod_bound(left, d);
    assert(quotient * d <= left < (quotient + 1) * d) by (nonlinear_arith)
        requires
            left == d * quotient + left % d,
            0 <= left % d < d,
    ;
    if quotient <= 1 {
        assert((quotient + 1) * d <= 2 * d) by (nonlinear_arith)
            requires
                quotient <= 1,
                d >= 1,
        ;
    }
}

/// Nothing left of the budget, or no phase left to share it, never stops a
/// candidate from being measured once, or the last phase from taking the rest.
pub proof fn the_last_phase_takes_the_rest(
    alive: int,
    budget: int,
    scheduled: int,
    rounds: int,
    phase: int,
)
    requires
        alive >= 1,
    ensures
        budget <= scheduled ==> share(alive, budget, scheduled, rounds, phase) == 1,
        phase >= rounds - 1 && budget - scheduled >= alive ==> share(
            alive,
            budget,
            scheduled,
            rounds,
            phase,
        ) == (budget - scheduled) / alive,
{
    let d = if rounds - phase > 1 {
        rounds - phase
    } else {
        1
    } * alive;
    assert(d >= 1) by (nonlinear_arith)
        requires
            alive >= 1,
            d == (if rounds - phase > 1 {
                rounds - phase
            } else {
                1
            }) * alive,
    ;
    if budget <= scheduled {
        assert(0int / d == 0) by {
            vstd::arithmetic::div_mod::lemma_div_basics(d);
        }
    }
    if phase >= rounds - 1 && budget - scheduled >= alive {
        assert(1 * alive == alive);
        assert((budget - scheduled) / alive >= 1) by (nonlinear_arith)
            requires
                budget - scheduled >= alive,
                alive >= 1,
        ;
    }
}

/// A draw keeps as many candidates as it is asked for, as many as there are
/// where that is fewer, and one at the least.
pub proof fn a_draw_keeps_what_it_is_asked_for(m: int, legal: int)
    requires
        m >= 0,
        legal >= 1,
    ensures
        1 <= candidates(m, legal) <= legal,
        1 <= m <= legal ==> candidates(m, legal) == m,
        m > legal ==> candidates(m, legal) == legal,
        candidates(0, legal) == candidates(1, legal),
{
}

/// A cut keeps the better half, the middle one included: as many as it drops,
/// or one more.
pub proof fn a_cut_keeps_the_larger_half(count: int)
    requires
        count >= 1,
    ensures
        1 <= halved(count) <= count,
        0 <= halved(count) - (count - halved(count)) <= 1,
        count > 1 ==> halved(count) < count,
{
}

/// Candidates take turns: one simulation after another goes to the next in the
/// list, and after the last to the first again.
pub proof fn candidates_take_turns(plan: PlanView)
    requires
        plan.wf(),
        plan.has_room(),
    ensures
        plan.took().alive == plan.alive,
        plan.took().given == plan.given + 1,
        plan.took().scheduled == plan.scheduled + 1,
        plan.given == 0 ==> plan.next_edge() == plan.alive[0],
        exists|at: int|
            {
                &&& 0 <= at < plan.alive.len()
                &&& plan.next_edge() == #[trigger] plan.alive[at]
                &&& at + 1 < plan.alive.len() ==> plan.took().next_edge() == plan.alive[at + 1]
                &&& at + 1 == plan.alive.len() ==> plan.took().next_edge() == plan.alive[0]
            },
{
    let count = plan.alive.len() as int;
    let at = plan.given as int % count;
    vstd::arithmetic::div_mod::lemma_mod_bound(plan.given as int, count);
    vstd::arithmetic::div_mod::lemma_fundamental_div_mod(plan.given as int, count);
    let whole = plan.given as int / count;
    assert(whole * count == count * whole) by (nonlinear_arith);
    if at + 1 < count {
        vstd::arithmetic::div_mod::lemma_fundamental_div_mod_converse(
            plan.given + 1,
            count,
            whole,
            at + 1,
        );
    } else {
        assert(count * (whole + 1) == count * whole + count) by (nonlinear_arith);
        assert((whole + 1) * count == count * (whole + 1)) by (nonlinear_arith);
        vstd::arithmetic::div_mod::lemma_fundamental_div_mod_converse(
            plan.given + 1,
            count,
            whole + 1,
            0,
        );
    }
    assert(plan.next_edge() == plan.alive[at]);
    if plan.given == 0 {
        vstd::arithmetic::div_mod::lemma_small_mod(0, count as nat);
    }
}

/// A cut keeps the candidates nothing it drops is better than.
pub proof fn a_cut_drops_nothing_better(plan: PlanView, scores: Seq<Score>, next: PlanView, e: int)
    requires
        plan.wf(),
        plan.halves_to(scores, next),
        plan.alive.contains(e as usize),
        0 <= e < plan.edges,
        e <= usize::MAX,
        !next.alive.contains(e as usize),
    ensures
        next.alive.len() == (plan.alive.len() + 1) / 2,
        next.phase == plan.phase + 1,
        next.given == 0,
        next.scheduled == plan.scheduled,
        next.budget == plan.budget,
        forall|i: int|
            0 <= i < next.alive.len() ==> plan.alive.contains(#[trigger] next.alive[i])
                && !scores[e].beats(scores[next.alive[i] as int]),
{
    let at = choose|at: int| 0 <= at < plan.alive.len() && plan.alive[at] == e as usize;
    assert(holds(plan.alive, e)) by {
        assert(plan.alive[at] == e);
    }
    assert(!holds(next.alive, e)) by {
        if holds(next.alive, e) {
            let k = choose|k: int| 0 <= k < next.alive.len() && #[trigger] next.alive[k] == e;
            assert(next.alive[k] == e as usize);
        }
    }
    assert forall|i: int| 0 <= i < next.alive.len() implies plan.alive.contains(
        #[trigger] next.alive[i],
    ) && !scores[e].beats(scores[next.alive[i] as int]) by {
        assert(members(plan.alive).contains(next.alive[i] as int));
        let k = choose|k: int|
            0 <= k < plan.alive.len() && #[trigger] plan.alive[k] == next.alive[i] as int;
        assert(plan.alive[k] == next.alive[i]);
        assert(members(plan.alive).contains(e));
        assert(ahead(scores, Ranking::Numeric, next.alive[i] as int, e));
    }
}

/// The higher score ranks ahead, and of two alike the earlier edge does. Of two
/// different edges one always ranks ahead, and never both.
pub proof fn the_higher_score_ranks_ahead(scores: Seq<Score>, by: Ranking, x: int, y: int)
    requires
        x != y,
    ensures
        scores[x].beats(scores[y]) ==> ahead(scores, by, x, y),
        scores[x] == scores[y] && x < y ==> ahead(scores, by, x, y),
        ahead(scores, by, x, y) <==> !ahead(scores, by, y, x),
        !ahead(scores, by, x, x),
{
}

/// The chosen edge is a candidate, no candidate's score is greater, and among
/// candidates with its score it is the one listed first.
pub proof fn the_choice_is_the_first_best_candidate(
    alive: Seq<usize>,
    scores: Seq<Score>,
    best: usize,
    j: int,
)
    requires
        first_best(alive, scores, best),
        alive.no_duplicates(),
        0 <= j < alive.len(),
    ensures
        alive.contains(best),
        !scores[alive[j] as int].beats(scores[best as int]),
        scores[alive[j] as int] == scores[best as int] && !scores[best as int].nan() ==> exists|
            at: int,
        | 0 <= at <= j && #[trigger] alive[at] == best,
{
    let at = choose|at: int|
        {
            &&& 0 <= at < alive.len()
            &&& #[trigger] alive[at] == best
            &&& forall|j: int|
                0 <= j < at ==> scores[#[trigger] alive[j] as int].nan()
                    || scores[best as int].beats(scores[alive[j] as int])
        };
    assert(alive[at] == best);
    if j < at {
        assert(scores[alive[j] as int].nan() || scores[best as int].beats(
            scores[alive[j] as int],
        ));
    }
}

} // verus!
