//! Client configuration.
//!
//! Plain data, constructed by the program around this library.

use crate::mcts::rng::GOLDEN_GAMMA;
use crate::proto::clock::{ClockView, StopPolicy, TurnAllocator};
use crate::text::{contains_char, percent_encode};
use crate::time::{Duration, MAX_NANOS};
use vstd::prelude::*;

verus! {

/// Everything the client needs to run.
#[derive(Clone, Debug)]
pub struct BotConfig {
    /// Base WebSocket URL. The `bot=true` and `namePrefix` query parameters are
    /// appended by [`connect_url`].
    pub backend_url: String,
    /// Prefixed onto the server-assigned bot name. Empty means "no prefix".
    pub name_prefix: String,
    /// Wall-clock budget of a whole turn, split across its actions.
    pub turn_budget: Duration,
    /// Wall-clock budget per action, overriding the split.
    pub move_budget: Option<Duration>,
    /// Which visit-based stop rules a search applies.
    pub stop_policy: StopPolicy,
    /// How long past its ceiling a search is waited for before the fallback is
    /// played.
    pub fallback_grace: Duration,
    /// Think on the opponent's time.
    pub ponder: bool,
    /// How long to think about one position that is not ours to act on.
    pub ponder_budget: Duration,
    /// Whether this instance initiates games (challenger mode).
    pub challenger: bool,
    /// How often the challenger's timer fires. The timer is the *sole* driver
    /// of challenges.
    pub challenge_interval: Duration,
    /// Board size a challenge asks for.
    pub challenge_rows: usize,
    /// Board size a challenge asks for.
    pub challenge_cols: usize,
    /// First reconnect delay; doubles up to [`BotConfig::reconnect_max`].
    pub reconnect_min: Duration,
    /// Reconnect backoff ceiling.
    pub reconnect_max: Duration,
    /// How long a session must last before its failure is treated as a fresh
    /// fault and the reconnect backoff resets.
    pub stable_session: Duration,
    /// How long an accepted-but-unstarted challenge may hold the bot out of the
    /// pool before it heals back to idle.
    pub pending_game_grace: Duration,
    /// Seed for the challenger's target choice and initial jitter. `None` takes
    /// the seed from the clock.
    pub rng_seed: Option<u64>,
}

impl Default for BotConfig {
    fn default() -> (r: BotConfig)
        ensures
            r.backend_url@ == "ws://localhost:8080/ws"@,
            r.name_prefix@.len() == 0,
            r.turn_budget@ == 12_000_000_000,
            r.move_budget matches Some(budget) && budget@ == 1_000_000_000,
            r.stop_policy.early_stop,
            r.stop_policy.extension,
            r.stop_policy.unstable_gap == 200_000,
            r.fallback_grace@ == 250_000_000,
            !r.ponder,
            r.ponder_budget@ == 120_000_000_000,
            !r.challenger,
            r.challenge_interval@ == 300_000_000_000,
            r.challenge_rows == 12,
            r.challenge_cols == 12,
            r.reconnect_min@ == 1_000_000_000,
            r.reconnect_max@ == 30_000_000_000,
            r.stable_session@ == 30_000_000_000,
            r.pending_game_grace@ == 15_000_000_000,
            r.rng_seed is None,
    {
        BotConfig {
            backend_url: "ws://localhost:8080/ws".to_owned(),
            name_prefix: String::new(),
            turn_budget: Duration::from_millis(12_000),
            move_budget: Some(Duration::from_millis(1_000)),
            stop_policy: StopPolicy::default(),
            fallback_grace: Duration::from_millis(250),
            ponder: false,
            ponder_budget: Duration::from_secs(120),
            challenger: false,
            challenge_interval: Duration::from_secs(300),
            challenge_rows: 12,
            challenge_cols: 12,
            reconnect_min: Duration::from_secs(1),
            reconnect_max: Duration::from_secs(30),
            stable_session: Duration::from_secs(30),
            pending_game_grace: Duration::from_secs(15),
            rng_seed: None,
        }
    }
}

/// The turn clock a configuration asks for, at the start of a game.
pub open spec fn fresh_clock(config: BotConfig) -> ClockView {
    match config.move_budget {
        Some(budget) => ClockView {
            turn: if budget@ * 3 <= MAX_NANOS {
                budget@ * 3
            } else {
                MAX_NANOS as int
            },
            fixed: Some(budget@),
            bank: budget@,
            last_moves_left: 0,
            turn_ended: true,
        },
        None => ClockView {
            turn: config.turn_budget@,
            fixed: None,
            bank: config.turn_budget@,
            last_moves_left: 0,
            turn_ended: true,
        },
    }
}

impl BotConfig {
    /// The turn clock this configuration asks for: the per-action override
    /// when there is one, the turn budget otherwise.
    pub fn allocator(&self) -> (r: TurnAllocator)
        ensures
            r@ == fresh_clock(*self),
    {
        match self.move_budget {
            Some(budget) => TurnAllocator::fixed(budget),
            None => TurnAllocator::new(self.turn_budget),
        }
    }
}

/// The dial URL of a base URL and a name prefix.
pub open spec fn dial_url(base: Seq<char>, prefix: Seq<char>) -> Seq<char> {
    let opened = base + (if base.contains('?') {
        "&"@
    } else {
        "?"@
    }) + "bot=true"@;
    if prefix.len() == 0 {
        opened
    } else {
        opened + "&namePrefix="@ + crate::text::escaped_all(vstd::utf8::encode_utf8(prefix))
    }
}

/// Builds the dial URL: `backend_url` plus `bot=true` and an optional
/// `namePrefix`, joined with `?` or `&` as the base URL requires.
pub fn connect_url(config: &BotConfig) -> (r: String)
    ensures
        r@ == dial_url(config.backend_url@, config.name_prefix@),
{
    let mut url = config.backend_url.clone();
    if contains_char(config.backend_url.as_str(), '?') {
        url.append("&");
    } else {
        url.append("?");
    }
    url.append("bot=true");
    if !config.name_prefix.as_str().is_empty() {
        url.append("&namePrefix=");
        url.append(percent_encode(config.name_prefix.as_str()).as_str());
    }
    url
}

/// The part of `span` a draw falls on: the draw, modulo the span's nanoseconds,
/// which are themselves counted modulo 2^64.
pub open spec fn fraction(draw: u64, span: int) -> int {
    let whole = if span == 0 {
        1
    } else {
        span % 0x1_0000_0000_0000_0000
    };
    draw as int % whole
}

/// SplitMix64: the challenger's seeded, deterministic generator.
#[derive(Debug)]
pub struct Rng(u64);

impl View for Rng {
    type V = u64;

    closed spec fn view(&self) -> u64 {
        self.0
    }
}

impl Clone for Rng {
    fn clone(&self) -> (r: Rng)
        ensures
            r@ == self@,
    {
        Rng(self.0)
    }
}

impl Rng {
    /// Seeds the generator.
    pub fn new(seed: u64) -> (r: Rng)
        ensures
            r@ == seed,
    {
        Rng(seed)
    }

    /// The next 64 bits.
    pub fn next_u64(&mut self) -> (r: u64)
        ensures
            final(self)@ == old(self)@.wrapping_add(GOLDEN_GAMMA),
            r == crate::mcts::rng::mixed(final(self)@),
    {
        self.0 = self.0.wrapping_add(GOLDEN_GAMMA);
        let mut z: u64 = self.0;
        z = (z ^ (z >> 30)).wrapping_mul(0xBF58_476D_1CE4_E5B9u64);
        z = (z ^ (z >> 27)).wrapping_mul(0x94D0_49BB_1331_11EBu64);
        z ^ (z >> 31)
    }

    /// A uniform index in `0..len`, or `None`, drawing nothing, when `len` is
    /// zero.
    pub fn below(&mut self, len: usize) -> (r: Option<usize>)
        ensures
            len == 0 ==> r is None && final(self)@ == old(self)@,
            len > 0 ==> {
                &&& final(self)@ == old(self)@.wrapping_add(GOLDEN_GAMMA)
                &&& r matches Some(index) && index == crate::mcts::rng::mixed(final(self)@) as int
                    % len as int && index < len
            },
    {
        if len == 0 {
            return None;
        }
        Some((self.next_u64() % len as u64) as usize)
    }

    /// A uniform fraction of `span`, used for the challenger's start jitter.
    /// The span's nanoseconds are counted modulo 2^64.
    pub fn fraction_of(&mut self, span: Duration) -> (r: Duration)
        requires
            span@ == 0 || span@ % 0x1_0000_0000_0000_0000 != 0,
        ensures
            final(self)@ == old(self)@.wrapping_add(GOLDEN_GAMMA),
            r@ == fraction(crate::mcts::rng::mixed(final(self)@), span@),
            r@ == crate::mcts::rng::mixed(final(self)@) as int % (if span@ == 0 {
                1
            } else {
                span@ % 0x1_0000_0000_0000_0000
            }),
    {
        let nanos: u128 = span.as_nanos();
        let whole: u64 = if nanos == 0 {
            1
        } else {
            (nanos % 0x1_0000_0000_0000_0000) as u64
        };
        let part: u64 = self.next_u64() % whole;
        Duration::from_nanos(part as u128)
    }
}

/// A game starts with a full clock: with an override every action gets exactly
/// that, and without one the first allocation divides the whole turn budget.
pub proof fn a_game_starts_with_a_full_clock(config: BotConfig, moves_left: u8)
    ensures
        config.move_budget matches Some(budget) ==> {
            &&& fresh_clock(config).fixed == Some(budget@)
            &&& fresh_clock(config).target(moves_left) == budget@
            &&& fresh_clock(config).ceiling(moves_left) == budget@
        },
        config.move_budget is None ==> {
            &&& fresh_clock(config).fixed is None
            &&& fresh_clock(config).turn == config.turn_budget@
            &&& fresh_clock(config).turn_ended
            &&& fresh_clock(config).allocated(moves_left).bank == config.turn_budget@
        },
{
}

/// The dial URL is the base, `bot=true` joined on by whichever of `?` and `&`
/// the base calls for, and the escaped prefix if there is one.
pub proof fn the_dial_url_extends_the_base(base: Seq<char>, prefix: Seq<char>)
    ensures
        base.is_prefix_of(dial_url(base, prefix)),
        prefix.len() == 0 && !base.contains('?') ==> dial_url(base, prefix) == base
            + "?bot=true"@,
        prefix.len() == 0 && base.contains('?') ==> dial_url(base, prefix) == base + "&bot=true"@,
        prefix.len() > 0 && !base.contains('?') ==> dial_url(base, prefix) == base
            + "?bot=true&namePrefix="@ + crate::text::escaped_all(
            vstd::utf8::encode_utf8(prefix),
        ),
        prefix.len() > 0 && base.contains('?') ==> dial_url(base, prefix) == base
            + "&bot=true&namePrefix="@ + crate::text::escaped_all(
            vstd::utf8::encode_utf8(prefix),
        ),
{
    reveal_strlit("&");
    reveal_strlit("?");
    reveal_strlit("bot=true");
    reveal_strlit("&namePrefix=");
    reveal_strlit("?bot=true");
    reveal_strlit("&bot=true");
    reveal_strlit("?bot=true&namePrefix=");
    reveal_strlit("&bot=true&namePrefix=");
    let rest = crate::text::escaped_all(vstd::utf8::encode_utf8(prefix));
    assert(base + "?"@ + "bot=true"@ =~= base + "?bot=true"@);
    assert(base + "&"@ + "bot=true"@ =~= base + "&bot=true"@);
    assert(base + "?"@ + "bot=true"@ + "&namePrefix="@ + rest =~= base
        + "?bot=true&namePrefix="@ + rest);
    assert(base + "&"@ + "bot=true"@ + "&namePrefix="@ + rest =~= base
        + "&bot=true&namePrefix="@ + rest);
    assert(base =~= dial_url(base, prefix).subrange(0, base.len() as int));
}

/// A jitter is shorter than its span, every nanosecond below the span is one,
/// and an empty span has none.
pub proof fn a_jitter_is_shorter_than_its_span(draw: u64, span: int)
    requires
        0 <= span < 0x1_0000_0000_0000_0000,
    ensures
        span > 0 ==> 0 <= fraction(draw, span) < span,
        span == 0 ==> fraction(draw, span) == 0,
        (draw as int) < span ==> fraction(draw, span) == draw,
{
    if span > 0 {
        vstd::arithmetic::div_mod::lemma_small_mod(span as nat, 0x1_0000_0000_0000_0000nat);
        vstd::arithmetic::div_mod::lemma_mod_bound(draw as int, span);
        if (draw as int) < span {
            vstd::arithmetic::div_mod::lemma_small_mod(draw as nat, span as nat);
        }
    }
}

} // verus!
