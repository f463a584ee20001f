//! A small deterministic PRNG (SplitMix64), so shuffles are seedable and
//! testable.

use vstd::prelude::*;

verus! {

/// The SplitMix64 increment (the golden-ratio constant).
pub const GOLDEN_GAMMA: u64 = 0x9E37_79B9_7F4A_7C15;

/// State after one step.
pub open spec fn rng_step(state: u64) -> u64 {
    vstd::wrapping::u64_specs::wrapping_add(state, GOLDEN_GAMMA)
}

/// The SplitMix64 output finaliser applied to a state.
pub open spec fn rng_mix(state: u64) -> u64 {
    let z1 = vstd::wrapping::u64_specs::wrapping_mul(state ^ (state >> 30u64), 0xBF58_476D_1CE4_E5B9u64);
    let z2 = vstd::wrapping::u64_specs::wrapping_mul(z1 ^ (z1 >> 27u64), 0x94D0_49BB_1331_11EBu64);
    z2 ^ (z2 >> 31u64)
}

/// The number that `next_u64` returns from a given state.
pub open spec fn rng_output(state: u64) -> u64 {
    rng_mix(rng_step(state))
}

#[derive(Clone)]
pub struct Rng(u64);

impl View for Rng {
    type V = u64;

    closed spec fn view(&self) -> u64 {
        self.0
    }
}

impl Rng {
    pub fn new(seed: u64) -> (r: Rng)
        ensures
            r@ == vstd::wrapping::u64_specs::wrapping_add(seed, GOLDEN_GAMMA),
    {
        Rng(seed.wrapping_add(GOLDEN_GAMMA))
    }

    pub fn next_u64(&mut self) -> (r: u64)
        ensures
            final(self)@ == rng_step(old(self)@),
            r == rng_output(old(self)@),
    {
        self.0 = self.0.wrapping_add(GOLDEN_GAMMA);
        let mut z = self.0;
        z = (z ^ (z >> 30)).wrapping_mul(0xBF58_476D_1CE4_E5B9);
        z = (z ^ (z >> 27)).wrapping_mul(0x94D0_49BB_1331_11EB);
        z ^ (z >> 31)
    }

    /// Uniform integer in `0..n`.
    pub fn below(&mut self, n: usize) -> (r: usize)
        requires
            n > 0,
        ensures
            final(self)@ == rng_step(old(self)@),
            r == rng_output(old(self)@) % (n as u64),
            r < n,
    {
        let x = self.next_u64();
        let r = x % (n as u64);
        r as usize
    }

    /// The top 24 bits of the next output: `unit()` in `0.0..1.0` is this
    /// number divided by `2^24`.
    pub fn unit_bits(&mut self) -> (r: u32)
        ensures
            final(self)@ == rng_step(old(self)@),
            r == rng_output(old(self)@) >> 40u64,
            r < 0x100_0000,
    {
        let x = self.next_u64();
        let r = x >> 40;
        assert(r < 0x100_0000) by (bit_vector)
            requires
                r == x >> 40u64,
        ;
        r as u32
    }
}

/// Multiplying by `c` is undone by multiplying by `ci` when `c * ci` is 1
/// modulo 2^64.
proof fn lemma_mul_undone(x: u64, c: u64, ci: u64, k: int)
    requires
        k >= 0,
        c * ci == 1 + k * 0x1_0000_0000_0000_0000,
    ensures
        vstd::wrapping::u64_specs::wrapping_mul(vstd::wrapping::u64_specs::wrapping_mul(x, c), ci) == x,
{
    let m: int = 0x1_0000_0000_0000_0000;
    let xc: int = x as int * c as int;
    vstd::arithmetic::div_mod::lemma_mod_bound(xc, m);
    vstd::arithmetic::div_mod::lemma_mul_mod_noop_left(xc, ci as int, m);
    vstd::arithmetic::mul::lemma_mul_is_associative(x as int, c as int, ci as int);
    assert(x as int * (1 + k * m) == m * (x as int * k) + x as int) by (nonlinear_arith);
    vstd::arithmetic::div_mod::lemma_mod_multiples_vanish(x as int * k, x as int, m);
    vstd::arithmetic::div_mod::lemma_small_mod(x as nat, m as nat);
}

/// The output finaliser never maps two states to the same number: each of
/// its steps (a xor-shift, or a multiplication by an odd constant) can be
/// undone.
pub proof fn lemma_mix_injective(a: u64, b: u64)
    requires
        rng_mix(a) == rng_mix(b),
    ensures
        a == b,
{
    let a1 = a ^ (a >> 30u64);
    let b1 = b ^ (b >> 30u64);
    let a2 = vstd::wrapping::u64_specs::wrapping_mul(a1, 0xBF58_476D_1CE4_E5B9u64);
    let b2 = vstd::wrapping::u64_specs::wrapping_mul(b1, 0xBF58_476D_1CE4_E5B9u64);
    let a3 = a2 ^ (a2 >> 27u64);
    let b3 = b2 ^ (b2 >> 27u64);
    let a4 = vstd::wrapping::u64_specs::wrapping_mul(a3, 0x94D0_49BB_1331_11EBu64);
    let b4 = vstd::wrapping::u64_specs::wrapping_mul(b3, 0x94D0_49BB_1331_11EBu64);
    assert(a4 ^ (a4 >> 31u64) == b4 ^ (b4 >> 31u64));
    assert(a4 == b4) by (bit_vector)
        requires a4 ^ (a4 >> 31u64) == b4 ^ (b4 >> 31u64);
    lemma_mul_undone(a3, 0x94D0_49BB_1331_11EBu64, 0x3196_42B2_D24D_8EC3u64, 2077064247507883091);
    lemma_mul_undone(b3, 0x94D0_49BB_1331_11EBu64, 0x3196_42B2_D24D_8EC3u64, 2077064247507883091);
    assert(a3 == b3);
    assert(a2 == b2) by (bit_vector)
        requires a2 ^ (a2 >> 27u64) == b2 ^ (b2 >> 27u64);
    lemma_mul_undone(a1, 0xBF58_476D_1CE4_E5B9u64, 0x96DE_1B17_3F11_9089u64, 8125545580553827436);
    lemma_mul_undone(b1, 0xBF58_476D_1CE4_E5B9u64, 0x96DE_1B17_3F11_9089u64, 8125545580553827436);
    assert(a1 == b1);
    assert(a == b) by (bit_vector)
        requires a ^ (a >> 30u64) == b ^ (b >> 30u64);
}

/// Different seeds give different generators: already their first
/// outputs differ.
pub proof fn lemma_seeds_differ(a: u64, b: u64)
    requires
        a != b,
    ensures
        rng_output(vstd::wrapping::u64_specs::wrapping_add(a, GOLDEN_GAMMA))
            != rng_output(vstd::wrapping::u64_specs::wrapping_add(b, GOLDEN_GAMMA)),
{
    let sa = rng_step(vstd::wrapping::u64_specs::wrapping_add(a, GOLDEN_GAMMA));
    let sb = rng_step(vstd::wrapping::u64_specs::wrapping_add(b, GOLDEN_GAMMA));
    assert(sa != sb);
    if rng_mix(sa) == rng_mix(sb) {
        lemma_mix_injective(sa, sb);
    }
}

/// Every number is the output of some state: the state found by undoing
/// each step of the finaliser (a xor-shift, or a multiplication by an odd
/// constant) and then the increment.
pub proof fn lemma_every_output_reachable(y: u64)
    ensures
        exists|state: u64| #[trigger] rng_output(state) == y,
{
    let z2 = y ^ (y >> 31u64) ^ (y >> 62u64);
    assert(z2 ^ (z2 >> 31u64) == y) by (bit_vector)
        requires z2 == y ^ (y >> 31u64) ^ (y >> 62u64);
    let w = vstd::wrapping::u64_specs::wrapping_mul(z2, 0x3196_42B2_D24D_8EC3u64);
    lemma_mul_undone(z2, 0x3196_42B2_D24D_8EC3u64, 0x94D0_49BB_1331_11EBu64, 2077064247507883091);
    let z1 = w ^ (w >> 27u64) ^ (w >> 54u64);
    assert(z1 ^ (z1 >> 27u64) == w) by (bit_vector)
        requires z1 == w ^ (w >> 27u64) ^ (w >> 54u64);
    let v = vstd::wrapping::u64_specs::wrapping_mul(z1, 0x96DE_1B17_3F11_9089u64);
    lemma_mul_undone(z1, 0x96DE_1B17_3F11_9089u64, 0xBF58_476D_1CE4_E5B9u64, 8125545580553827436);
    let x = v ^ (v >> 30u64) ^ (v >> 60u64);
    assert(x ^ (x >> 30u64) == v) by (bit_vector)
        requires x == v ^ (v >> 30u64) ^ (v >> 60u64);
    assert(rng_mix(x) == y);
    let state = vstd::wrapping::u64_specs::wrapping_sub(x, GOLDEN_GAMMA);
    assert(rng_step(state) == x);
    assert(rng_output(state) == y);
}

} // verus!
