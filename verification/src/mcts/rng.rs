//! The searcher's seeded generator.

use vstd::prelude::*;

verus! {

/// The increment of the generator's state.
pub const GOLDEN_GAMMA: u64 = 0x9E37_79B9_7F4A_7C15;

/// SplitMix64's output function.
pub open spec fn mixed(state: u64) -> u64 {
    let a: u64 = state ^ (state >> 30);
    let b: u64 = a.wrapping_mul(0xBF58_476D_1CE4_E5B9u64);
    let c: u64 = b ^ (b >> 27);
    let d: u64 = c.wrapping_mul(0x94D0_49BB_1331_11EBu64);
    d ^ (d >> 31)
}

/// The top 53 bits of a draw.
pub open spec fn mantissa(draw: u64) -> u64 {
    draw >> 11
}

/// The state after `count` draws from `seed`.
pub open spec fn advanced(seed: u64, count: nat) -> u64
    decreases count,
{
    if count == 0 {
        seed
    } else {
        advanced(seed, (count - 1) as nat).wrapping_add(GOLDEN_GAMMA)
    }
}

/// A seeded SplitMix64 generator.
#[derive(Debug)]
pub struct Rng {
    state: u64,
}

impl View for Rng {
    type V = u64;

    closed spec fn view(&self) -> u64 {
        self.state
    }
}

impl Clone for Rng {
    fn clone(&self) -> (r: Rng)
        ensures
            r@ == self@,
    {
        Rng { state: self.state }
    }
}

impl Rng {
    /// Creates a generator from a seed. Equal seeds give equal streams.
    pub fn new(seed: u64) -> (r: Rng)
        ensures
            r@ == seed,
    {
        Rng { state: seed }
    }

    /// Next raw 64 bits.
    pub fn next_u64(&mut self) -> (r: u64)
        ensures
            final(self)@ == old(self)@.wrapping_add(GOLDEN_GAMMA),
            r == mixed(final(self)@),
    {
        self.state = self.state.wrapping_add(GOLDEN_GAMMA);
        let mut z: u64 = self.state;
        z = (z ^ (z >> 30)).wrapping_mul(0xBF58_476D_1CE4_E5B9u64);
        z = (z ^ (z >> 27)).wrapping_mul(0x94D0_49BB_1331_11EBu64);
        z ^ (z >> 31)
    }

    /// The top 53 bits of the next draw: the numerator, over `2^53`, of a
    /// uniform value in `[0, 1)`.
    pub fn next_mantissa(&mut self) -> (r: u64)
        ensures
            final(self)@ == old(self)@.wrapping_add(GOLDEN_GAMMA),
            r == mixed(final(self)@) >> 11,
            r == mantissa(mixed(final(self)@)),
            r < 0x20_0000_0000_0000,
    {
        let raw: u64 = self.next_u64();
        assert(raw >> 11 < 0x20_0000_0000_0000) by (bit_vector);
        raw >> 11
    }
}

/// The stream is a function of the seed alone: after `count` draws two
/// generators of one seed are in one state, so every later draw agrees.
pub proof fn equal_seeds_give_equal_streams(first: Rng, second: Rng, seed: u64, count: nat)
    requires
        first@ == advanced(seed, count),
        second@ == advanced(seed, count),
    ensures
        first@.wrapping_add(GOLDEN_GAMMA) == advanced(seed, count + 1),
        second@.wrapping_add(GOLDEN_GAMMA) == advanced(seed, count + 1),
        mixed(first@.wrapping_add(GOLDEN_GAMMA)) == mixed(second@.wrapping_add(GOLDEN_GAMMA)),
{
}

/// The state a draw came from, read off the draw.
pub open spec fn unmixed(draw: u64) -> u64 {
    let d: u64 = draw ^ (draw >> 31) ^ (draw >> 62);
    let c: u64 = d.wrapping_mul(0x3196_42B2_D24D_8EC3u64);
    let b: u64 = c ^ (c >> 27) ^ (c >> 54);
    let a: u64 = b.wrapping_mul(0x96DE_1B17_3F11_9089u64);
    a ^ (a >> 30) ^ (a >> 60)
}

proof fn first_factor_is_undone(x: u64)
    ensures
        x.wrapping_mul(0xBF58_476D_1CE4_E5B9u64).wrapping_mul(0x96DE_1B17_3F11_9089u64) == x,
{
    let m = 0x1_0000_0000_0000_0000int;
    let product = x as int * 0xBF58_476D_1CE4_E5B9;
    let y = x.wrapping_mul(0xBF58_476D_1CE4_E5B9u64);
    assert(y as int == product % m);
    let q = product / m;
    assert(product == q * m + y as int) by {
        vstd::arithmetic::div_mod::lemma_fundamental_div_mod(product, m);
    }
    let back = y as int * 0x96DE_1B17_3F11_9089;
    assert(back == m * (x as int * 8125545580553827436 - q * 0x96DE_1B17_3F11_9089) + x as int);
    vstd::arithmetic::div_mod::lemma_mod_multiples_vanish(
        x as int * 8125545580553827436 - q * 0x96DE_1B17_3F11_9089,
        x as int,
        m,
    );
    vstd::arithmetic::div_mod::lemma_small_mod(x as nat, m as nat);
}

proof fn second_factor_is_undone(x: u64)
    ensures
        x.wrapping_mul(0x94D0_49BB_1331_11EBu64).wrapping_mul(0x3196_42B2_D24D_8EC3u64) == x,
{
    let m = 0x1_0000_0000_0000_0000int;
    let product = x as int * 0x94D0_49BB_1331_11EB;
    let y = x.wrapping_mul(0x94D0_49BB_1331_11EBu64);
    assert(y as int == product % m);
    let q = product / m;
    assert(product == q * m + y as int) by {
        vstd::arithmetic::div_mod::lemma_fundamental_div_mod(product, m);
    }
    let back = y as int * 0x3196_42B2_D24D_8EC3;
    assert(back == m * (x as int * 2077064247507883091 - q * 0x3196_42B2_D24D_8EC3) + x as int);
    vstd::arithmetic::div_mod::lemma_mod_multiples_vanish(
        x as int * 2077064247507883091 - q * 0x3196_42B2_D24D_8EC3,
        x as int,
        m,
    );
    vstd::arithmetic::div_mod::lemma_small_mod(x as nat, m as nat);
}

/// A draw can be undone: it gives its state back. So no two states give the
/// same draw.
pub proof fn a_draw_gives_its_state_back(state: u64, other: u64)
    ensures
        unmixed(mixed(state)) == state,
        mixed(state) == mixed(other) ==> state == other,
{
    a_state_comes_back(state);
    a_state_comes_back(other);
}

proof fn a_state_comes_back(state: u64)
    ensures
        unmixed(mixed(state)) == state,
{
    let a: u64 = state ^ (state >> 30);
    let b: u64 = a.wrapping_mul(0xBF58_476D_1CE4_E5B9u64);
    let c: u64 = b ^ (b >> 27);
    let d: u64 = c.wrapping_mul(0x94D0_49BB_1331_11EBu64);
    let draw: u64 = d ^ (d >> 31);
    assert(draw ^ (draw >> 31) ^ (draw >> 62) == d) by (bit_vector)
        requires
            draw == d ^ (d >> 31),
    ;
    second_factor_is_undone(c);
    assert(c ^ (c >> 27) ^ (c >> 54) == b) by (bit_vector)
        requires
            c == b ^ (b >> 27),
    ;
    first_factor_is_undone(a);
    assert(a ^ (a >> 30) ^ (a >> 60) == state) by (bit_vector)
        requires
            a == state ^ (state >> 30),
    ;
}

/// The state moves on by the same odd step with every draw, modulo 2^64.
pub proof fn the_state_moves_on_by_one_step(seed: u64, count: nat)
    ensures
        advanced(seed, count) as int == (seed + count * 0x9E37_79B9_7F4A_7C15) % 0x1_0000_0000_0000_0000,
    decreases count,
{
    let m = 0x1_0000_0000_0000_0000int;
    let step = 0x9E37_79B9_7F4A_7C15int;
    if count == 0 {
        vstd::arithmetic::div_mod::lemma_small_mod(seed as nat, m as nat);
    } else {
        let before = (count - 1) as nat;
        the_state_moves_on_by_one_step(seed, before);
        let sum = seed + before * step;
        let reached = advanced(seed, before) as int;
        assert(reached == sum % m);
        assert(advanced(seed, count) as int == (reached + step) % m) by {
            if reached + step < m {
                vstd::arithmetic::div_mod::lemma_small_mod((reached + step) as nat, m as nat);
            } else {
                vstd::arithmetic::div_mod::lemma_mod_multiples_vanish(
                    1,
                    reached + step - m,
                    m,
                );
                vstd::arithmetic::div_mod::lemma_small_mod((reached + step - m) as nat, m as nat);
            }
        }
        vstd::arithmetic::div_mod::lemma_add_mod_noop(sum, step, m);
        vstd::arithmetic::div_mod::lemma_small_mod(step as nat, m as nat);
        assert(sum + step == seed + count * step) by (nonlinear_arith)
            requires
                sum == seed + before * step,
                before + 1 == count,
        ;
    }
}

/// A mantissa is what is left of a draw once its lowest eleven bits are gone, so
/// every one of the 2^53 stands for as many draws.
pub proof fn a_mantissa_is_the_top_of_a_draw(draw: u64)
    ensures
        mantissa(draw) * 2048 <= draw < (mantissa(draw) + 1) * 2048,
        mantissa(draw) < 0x20_0000_0000_0000,
{
    assert(draw >> 11 == draw / 2048) by (bit_vector);
}

} // verus!
