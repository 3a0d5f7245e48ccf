//! Deterministic pseudo-random number generation for the simulation core.
//!
//! xoshiro256++ seeded through SplitMix64. Identical seeds reproduce identical
//! markets bit for bit, on every platform: the whole stream is a function of
//! the seed.

use vstd::prelude::*;

verus! {

/// One, in the units of `next_unit`: a draw is a fraction of this.
pub const UNIT: u64 = 0x0020_0000_0000_0000;

/// The state of the generator.
pub struct RngState {
    pub a: u64,
    pub b: u64,
    pub c: u64,
    pub d: u64,
}

/// The bits of `x` rotated left by `k` places.
pub open spec fn rotated(x: u64, k: u64) -> u64 {
    (x << k) | (x >> ((64 - k) as u64))
}

/// The `n`-th state of SplitMix64 after its seed.
pub open spec fn split_mix_state(seed: u64, n: nat) -> u64
    decreases n,
{
    if n == 0 {
        seed
    } else {
        split_mix_state(seed, (n - 1) as nat).wrapping_add(0x9E37_79B9_7F4A_7C15)
    }
}

/// What SplitMix64 makes of its state.
pub open spec fn split_mix_output(state: u64) -> u64 {
    let x = (state ^ (state >> 30)).wrapping_mul(0xBF58_476D_1CE4_E5B9);
    let y = (x ^ (x >> 27)).wrapping_mul(0x94D0_49BB_1331_11EB);
    y ^ (y >> 31)
}

impl RngState {
    /// The state that `seed` leads to: four SplitMix64 outputs.
    pub open spec fn seeded(seed: u64) -> Self {
        RngState {
            a: split_mix_output(split_mix_state(seed, 1)),
            b: split_mix_output(split_mix_state(seed, 2)),
            c: split_mix_output(split_mix_state(seed, 3)),
            d: split_mix_output(split_mix_state(seed, 4)),
        }
    }

    /// The number that this state yields.
    pub open spec fn output(self) -> u64 {
        rotated(self.a.wrapping_add(self.d), 23).wrapping_add(self.a)
    }

    /// The state after one draw.
    pub open spec fn next(self) -> Self {
        let c = self.c ^ self.a;
        let d = self.d ^ self.b;
        RngState {
            a: self.a ^ d,
            b: self.b ^ c,
            c: c ^ (self.b << 17),
            d: rotated(d, 45),
        }
    }

    /// The state after `n` draws.
    pub open spec fn after(self, n: nat) -> Self
        decreases n,
    {
        if n == 0 {
            self
        } else {
            self.after((n - 1) as nat).next()
        }
    }

    /// The leading 53 bits of the output.
    pub open spec fn unit(self) -> u64 {
        self.output() >> 11
    }

    /// The output mapped onto `low..=high`.
    pub open spec fn ranged(self, low: int, high: int) -> int {
        low + (self.output() as int) % (high - low + 1)
    }
}

fn rotate_left(x: u64, k: u64) -> (y: u64)
    requires
        0 < k < 64,
    ensures
        y == rotated(x, k),
{
    (x << k) | (x >> (64 - k))
}

/// xoshiro256++ generator seeded via SplitMix64.
#[derive(Clone, Debug)]
pub struct Rng {
    a: u64,
    b: u64,
    c: u64,
    d: u64,
}

impl View for Rng {
    type V = RngState;

    closed spec fn view(&self) -> RngState {
        RngState { a: self.a, b: self.b, c: self.c, d: self.d }
    }
}

impl Rng {
    /// Builds a generator from a single 64-bit seed.
    pub fn seed_from_u64(seed: u64) -> (rng: Self)
        ensures
            rng@ == RngState::seeded(seed),
    {
        let mut sm = SplitMix64 { state: seed };
        proof {
            reveal_with_fuel(split_mix_state, 5);
        }
        let a = sm.next();
        let b = sm.next();
        let c = sm.next();
        let d = sm.next();
        Rng { a, b, c, d }
    }

    /// Raw 64-bit output.
    pub fn next_u64(&mut self) -> (value: u64)
        ensures
            value == old(self)@.output(),
            final(self)@ == old(self)@.next(),
    {
        let value = rotate_left(self.a.wrapping_add(self.d), 23).wrapping_add(self.a);
        let t: u64 = self.b << 17;
        self.c = self.c ^ self.a;
        self.d = self.d ^ self.b;
        self.b = self.b ^ self.c;
        self.a = self.a ^ self.d;
        self.c = self.c ^ t;
        self.d = rotate_left(self.d, 45);
        value
    }

    /// Uniform in `0..UNIT`: the 53 bits of a fraction in `[0, 1)`.
    pub fn next_unit(&mut self) -> (value: u64)
        ensures
            value == old(self)@.unit(),
            value < UNIT,
            final(self)@ == old(self)@.next(),
    {
        let bits = self.next_u64();
        proof {
            assert(bits >> 11 < 0x0020_0000_0000_0000) by (bit_vector);
        }
        bits >> 11
    }

    /// Uniform integer in `[low, high]` (inclusive on both ends).
    pub fn uniform_int(&mut self, low: i64, high: i64) -> (value: i64)
        requires
            low <= high,
            high - low < i64::MAX,
        ensures
            value == old(self)@.ranged(low as int, high as int),
            low <= value <= high,
            final(self)@ == old(self)@.next(),
    {
        let span = (high - low + 1) as u64;
        let offset = self.next_u64() % span;
        low + offset as i64
    }

    /// Returns `true` with probability `chance / UNIT`.
    pub fn bernoulli(&mut self, chance: u64) -> (hit: bool)
        requires
            chance <= UNIT,
        ensures
            hit == (old(self)@.unit() < chance),
            final(self)@ == old(self)@.next(),
    {
        self.next_unit() < chance
    }
}

struct SplitMix64 {
    state: u64,
}

impl SplitMix64 {
    fn next(&mut self) -> (value: u64)
        ensures
            final(self).state == old(self).state.wrapping_add(0x9E37_79B9_7F4A_7C15),
            value == split_mix_output(final(self).state),
    {
        self.state = self.state.wrapping_add(0x9E37_79B9_7F4A_7C15);
        let mut z: u64 = self.state;
        z = (z ^ (z >> 30)).wrapping_mul(0xBF58_476D_1CE4_E5B9);
        z = (z ^ (z >> 27)).wrapping_mul(0x94D0_49BB_1331_11EB);
        z ^ (z >> 31)
    }
}

/// Generators in the same state yield the same stream: after any number of
/// draws they still agree on the next one.
pub proof fn lemma_same_seed_same_stream(a: RngState, b: RngState, n: nat)
    requires
        a == b,
    ensures
        a.after(n) == b.after(n),
        a.after(n).output() == b.after(n).output(),
{
}

/// Every draw is a proper fraction, so a chance of nothing never hits and a
/// chance of `UNIT` always does.
pub proof fn lemma_unit_bounds(state: RngState)
    ensures
        state.unit() < UNIT,
{
    let bits = state.output();
    assert(bits >> 11 < 0x0020_0000_0000_0000) by (bit_vector);
}

/// A ranged draw stays in its range.
pub proof fn lemma_ranged_bounds(state: RngState, low: int, high: int)
    requires
        low <= high,
    ensures
        low <= state.ranged(low, high) <= high,
{
    assert(0 <= (state.output() as int) % (high - low + 1) < high - low + 1) by (nonlinear_arith)
        requires
            high - low + 1 > 0,
    ;
}

} // verus!
