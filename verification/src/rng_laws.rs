//! The arithmetic of the generator.

use vstd::prelude::*;

use crate::rng;
use crate::rng::RngState;

verus! {

/// Rotation by 23 places: the leading 23 bits go behind the others.
pub proof fn lemma_rotated_by_23(x: u64)
    ensures
        rng::rotated(x, 23) == (x as int % 0x200_0000_0000) * 0x80_0000 + x as int
            / 0x200_0000_0000,
{
    assert(((x << 23u64) | (x >> 41u64)) == (x % 0x200_0000_0000u64) * 0x80_0000u64 + x
        / 0x200_0000_0000u64) by (bit_vector);
}

/// Rotation by 45 places: the leading 45 bits go behind the others.
pub proof fn lemma_rotated_by_45(x: u64)
    ensures
        rng::rotated(x, 45) == (x as int % 0x8_0000) * 0x2000_0000_0000 + x as int / 0x8_0000,
{
    assert(((x << 45u64) | (x >> 19u64)) == (x % 0x8_0000u64) * 0x2000_0000_0000u64 + x
        / 0x8_0000u64) by (bit_vector);
}

/// The step of the generator: each word and its successor differ by what the
/// others say, and nothing is lost.
pub proof fn lemma_step(s: RngState)
    ensures
        ({
            let t = s.next();
            &&& t.a ^ s.a == s.b ^ s.d
            &&& t.b ^ s.b == s.a ^ s.c
            &&& t.c ^ s.c ^ s.a == s.b << 17
            &&& t.d == rng::rotated(s.b ^ s.d, 45)
        }),
{
    let (a, b, c, d) = (s.a, s.b, s.c, s.d);
    assert((a ^ (d ^ b)) ^ a == b ^ d) by (bit_vector);
    assert((b ^ (c ^ a)) ^ b == a ^ c) by (bit_vector);
    assert(((c ^ a) ^ (b << 17)) ^ c ^ a == b << 17) by (bit_vector);
    assert(d ^ b == b ^ d) by (bit_vector);
}

/// No two states have the same successor: the generator never merges streams.
pub proof fn lemma_step_loses_nothing(s: RngState, t: RngState)
    requires
        s.next() == t.next(),
    ensures
        s == t,
{
    lemma_rotated_by_45(s.d ^ s.b);
    lemma_rotated_by_45(t.d ^ t.b);
    let x = s.d ^ s.b;
    let y = t.d ^ t.b;
    assert(x == y) by {
        assert(x as int % 0x8_0000 == y as int % 0x8_0000 && x as int / 0x8_0000 == y as int
            / 0x8_0000);
    }
    let (a, b, c, d) = (s.a, s.b, s.c, s.d);
    let (e, f, g, h) = (t.a, t.b, t.c, t.d);
    assert(a == e && b == f && c == g && d == h) by (bit_vector)
        requires
            d ^ b == h ^ f,
            a ^ (d ^ b) == e ^ (h ^ f),
            b ^ (c ^ a) == f ^ (g ^ e),
            (c ^ a) ^ (b << 17) == (g ^ e) ^ (f << 17),
    ;
}

/// The output of a state, modulo the word size: its outer words added, rotated,
/// and the first added again.
pub proof fn lemma_output(s: RngState)
    ensures
        ({
            let sum = (s.a + s.d) % 0x1_0000_0000_0000_0000;
            let turned = (sum % 0x200_0000_0000) * 0x80_0000 + sum / 0x200_0000_0000;
            s.output() == (turned + s.a) % 0x1_0000_0000_0000_0000
        }),
{
    lemma_rotated_by_23(s.a.wrapping_add(s.d));
}

/// A fraction is the leading 53 bits of the output.
pub proof fn lemma_unit(s: RngState)
    ensures
        2048 * s.unit() <= s.output() < 2048 * s.unit() + 2048,
{
    let x = s.output();
    assert(x >> 11 == x / 2048) by (bit_vector);
}

/// A ranged draw is the output reduced to the range.
pub proof fn lemma_ranged(s: RngState, low: int, high: int)
    requires
        low <= high,
    ensures
        low <= s.ranged(low, high) <= high,
        (s.output() - (s.ranged(low, high) - low)) % (high - low + 1) == 0,
        s.output() <= high - low ==> s.ranged(low, high) == low + s.output(),
{
    let n = high - low + 1;
    let x = s.output() as int;
    rng::lemma_ranged_bounds(s, low, high);
    assert((x - x % n) % n == 0) by (nonlinear_arith)
        requires
            n > 0,
    ;
    if x < n {
        assert(x % n == x) by (nonlinear_arith)
            requires
                0 <= x < n,
        ;
    }
}

/// Draws add up: after `m` and then `n` of them, `m + n` are done.
pub proof fn lemma_draws_add_up(s: RngState, m: nat, n: nat)
    ensures
        s.after(0) == s,
        s.after(1) == s.next(),
        s.after(m).after(n) == s.after(m + n),
    decreases n,
{
    reveal_with_fuel(RngState::after, 2);
    if n > 0 {
        lemma_draws_add_up(s, m, (n - 1) as nat);
        assert(s.after(m).after(n) == s.after(m).after((n - 1) as nat).next());
        assert((m + n) as nat - 1 == m + (n - 1) as nat);
        assert(s.after(m + n) == s.after((m + n - 1) as nat).next());
    }
}

/// The seeding sequence is an arithmetic progression modulo the word size.
pub proof fn lemma_seeding_progression(seed: u64, n: nat)
    ensures
        rng::split_mix_state(seed, n) == (seed + n * 0x9E37_79B9_7F4A_7C15int)
            % 0x1_0000_0000_0000_0000,
    decreases n,
{
    if n > 0 {
        lemma_seeding_progression(seed, (n - 1) as nat);
        let step: int = 0x9E37_79B9_7F4A_7C15;
        let size: int = 0x1_0000_0000_0000_0000;
        let before = rng::split_mix_state(seed, (n - 1) as nat);
        let reached = seed + (n - 1) * step;
        assert((n - 1) * step + step == n * step) by (nonlinear_arith);
        assert(rng::split_mix_state(seed, n) == before.wrapping_add(0x9E37_79B9_7F4A_7C15));
        assert(rng::split_mix_state(seed, n) == (before + step) % size) by {
            if before + step < size {
                vstd::arithmetic::div_mod::lemma_small_mod((before + step) as nat, size as nat);
            } else {
                vstd::arithmetic::div_mod::lemma_mod_sub_multiples_vanish(before + step, size);
                vstd::arithmetic::div_mod::lemma_small_mod(
                    (before + step - size) as nat,
                    size as nat,
                );
            }
        }
        vstd::arithmetic::div_mod::lemma_add_mod_noop(reached, step, size);
        vstd::arithmetic::div_mod::lemma_small_mod(step as nat, size as nat);
    }
}

/// The three mixing stages of the seeding, each a product modulo the word size
/// of the word and its own leading bits folded in.
pub proof fn lemma_seeding_mix(state: u64)
    ensures
        ({
            let first = ((state ^ (state >> 30)) * 0xBF58_476D_1CE4_E5B9int)
                % 0x1_0000_0000_0000_0000;
            let second = (((first as u64) ^ ((first as u64) >> 27)) * 0x94D0_49BB_1331_11EBint)
                % 0x1_0000_0000_0000_0000;
            rng::split_mix_output(state) == (second as u64) ^ ((second as u64) >> 31)
        }),
{
}

/// A seed leads to a state of four words, mixed from four successive members of
/// the seeding progression.
pub proof fn lemma_seeded(seed: u64)
    ensures
        ({
            let s = RngState::seeded(seed);
            let step: int = 0x9E37_79B9_7F4A_7C15;
            let size: int = 0x1_0000_0000_0000_0000;
            &&& s.a == rng::split_mix_output(((seed + step) % size) as u64)
            &&& s.b == rng::split_mix_output(((seed + 2 * step) % size) as u64)
            &&& s.c == rng::split_mix_output(((seed + 3 * step) % size) as u64)
            &&& s.d == rng::split_mix_output(((seed + 4 * step) % size) as u64)
        }),
{
    lemma_seeding_progression(seed, 1);
    lemma_seeding_progression(seed, 2);
    lemma_seeding_progression(seed, 3);
    lemma_seeding_progression(seed, 4);
}

} // verus!
