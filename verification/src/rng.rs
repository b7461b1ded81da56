//! The xoshiro256++ pseudo-random generator, seeded through splitmix64.
use vstd::prelude::*;
use vstd::wrapping::u64_specs::{wrapping_add, wrapping_mul};

verus! {

/// The splitmix64 counter increment (the golden-ratio constant).
pub const GOLDEN_GAMMA: u64 = 0x9e37_79b9_7f4a_7c15u64;

/// The first splitmix64 mixing multiplier.
pub const MIX_A: u64 = 0xbf58_476d_1ce4_e5b9u64;

/// The second splitmix64 mixing multiplier.
pub const MIX_B: u64 = 0x94d0_49bb_1331_11ebu64;

/// `x` rotated left by `k` bits, for `0 < k < 64`.
pub open spec fn spec_rotl(x: u64, k: u64) -> u64 {
    (x << k) | (x >> ((64 - k) as u64))
}

/// The splitmix64 output function applied to a counter value.
pub open spec fn splitmix64_mix(x: u64) -> u64 {
    let z1 = wrapping_mul(x ^ (x >> 30u64), MIX_A);
    let z2 = wrapping_mul(z1 ^ (z1 >> 27u64), MIX_B);
    z2 ^ (z2 >> 31u64)
}

/// The splitmix64 counter after `n` steps from `seed`.
pub open spec fn splitmix64_counter(seed: u64, n: nat) -> u64
    decreases n,
{
    if n == 0 {
        seed
    } else {
        wrapping_add(splitmix64_counter(seed, (n - 1) as nat), GOLDEN_GAMMA)
    }
}

/// The state words that `seed` gives: the first four splitmix64 outputs.
pub open spec fn seeded_state(seed: u64) -> Seq<u64> {
    Seq::new(4, |i: int| splitmix64_mix(splitmix64_counter(seed, (i + 1) as nat)))
}

/// The xoshiro256++ output for state `s`.
pub open spec fn xoshiro_output(s: Seq<u64>) -> u64 {
    wrapping_add(spec_rotl(wrapping_add(s[0], s[3]), 23), s[0])
}

/// The xoshiro256++ state that follows state `s`.
pub open spec fn xoshiro_next(s: Seq<u64>) -> Seq<u64> {
    let t = s[1] << 17u64;
    let a2 = s[2] ^ s[0];
    let a3 = s[3] ^ s[1];
    let a1 = s[1] ^ a2;
    let a0 = s[0] ^ a3;
    seq![a0, a1, a2 ^ t, spec_rotl(a3, 45)]
}

/// The state after `n` outputs from state `s`.
pub open spec fn xoshiro_advance(s: Seq<u64>, n: nat) -> Seq<u64>
    decreases n,
{
    if n == 0 {
        s
    } else {
        xoshiro_next(xoshiro_advance(s, (n - 1) as nat))
    }
}

/// The `n`-th output (counting from 0) from state `s`.
pub open spec fn xoshiro_stream(s: Seq<u64>, n: nat) -> u64 {
    xoshiro_output(xoshiro_advance(s, n))
}

fn rotl(x: u64, k: u32) -> (r: u64)
    requires
        0 < k < 64,
    ensures
        r == spec_rotl(x, k as u64),
{
    (x << k) | (x >> (64 - k))
}

/// Advances the splitmix64 counter `x` and returns the mixed new value.
fn splitmix64(x: &mut u64) -> (r: u64)
    ensures
        *final(x) == wrapping_add(*old(x), GOLDEN_GAMMA),
        r == splitmix64_mix(*final(x)),
{
    *x = x.wrapping_add(GOLDEN_GAMMA);
    let mut z: u64 = *x;
    z = (z ^ (z >> 30)).wrapping_mul(MIX_A);
    z = (z ^ (z >> 27)).wrapping_mul(MIX_B);
    z ^ (z >> 31)
}

/// A xoshiro256++ generator: four words of state.
pub struct Rng {
    s: [u64; 4],
}

impl View for Rng {
    type V = Seq<u64>;

    /// The four state words.
    closed spec fn view(&self) -> Seq<u64> {
        self.s@
    }
}

impl Rng {
    /// A generator whose state is the first four splitmix64 outputs from `seed`.
    pub fn new(seed: u64) -> (r: Rng)
        ensures
            r@ == seeded_state(seed),
    {
        let mut x: u64 = seed;
        let mut s: [u64; 4] = [0, 0, 0, 0];
        let mut i: usize = 0;
        while i < 4
            invariant
                i <= 4,
                x == splitmix64_counter(seed, i as nat),
                forall|k: int| 0 <= k < i ==> s[k] == splitmix64_mix(splitmix64_counter(seed, (k + 1) as nat)),
            decreases 4 - i,
        {
            s[i] = splitmix64(&mut x);
            i = i + 1;
        }
        Rng { s }
    }

    /// A generator with the given state words.
    pub fn from_state(s: [u64; 4]) -> (r: Rng)
        ensures
            r@ == s@,
    {
        Rng { s }
    }

    /// The next output; the state moves on by one xoshiro256++ step.
    pub fn next_u64(&mut self) -> (r: u64)
        ensures
            r == xoshiro_output(old(self)@),
            final(self)@ == xoshiro_next(old(self)@),
    {
        let result: u64 = rotl(self.s[0].wrapping_add(self.s[3]), 23).wrapping_add(self.s[0]);
        let t: u64 = self.s[1] << 17;
        self.s[2] = self.s[2] ^ self.s[0];
        self.s[3] = self.s[3] ^ self.s[1];
        self.s[1] = self.s[1] ^ self.s[2];
        self.s[0] = self.s[0] ^ self.s[3];
        self.s[2] = self.s[2] ^ t;
        self.s[3] = rotl(self.s[3], 45);
        result
    }
}

/// Drawing one output moves a generator one place along its stream: the
/// outputs that follow are the stream of the next state. So the outputs of a
/// generator are the stream of its state, and a generator built from a seed
/// produces `xoshiro_stream(seeded_state(seed), n)` as its `n`-th output.
pub proof fn lemma_stream_shift(s: Seq<u64>, n: nat)
    ensures
        xoshiro_stream(xoshiro_next(s), n) == xoshiro_stream(s, n + 1),
        xoshiro_advance(xoshiro_next(s), n) == xoshiro_advance(s, n + 1),
    decreases n,
{
    if n == 0 {
        assert(xoshiro_advance(s, 0) == s);
        assert(xoshiro_advance(s, 1) == xoshiro_next(xoshiro_advance(s, 0)));
    } else {
        lemma_stream_shift(s, (n - 1) as nat);
        assert(xoshiro_advance(s, n + 1) == xoshiro_next(xoshiro_advance(s, n)));
    }
}

/// The left shift by 17 in a xoshiro256++ step drops the top 17 bits: it is
/// multiplication by 2^17 modulo 2^64.
pub proof fn lemma_shl17_is_mul(x: u64)
    ensures
        x << 17u64 == (x * 131072u64) as u64,
{
    assert(x << 17u64 == (x * 131072u64) as u64) by (bit_vector);
}

/// Wrapping addition of two words is their sum truncated to 64 bits.
proof fn lemma_wrapping_add_truncates(a: u64, b: u64)
    ensures
        wrapping_add(a, b) == (a + b) as u64,
{
    assert(wrapping_add(a, b) == (a + b) as u64) by (bit_vector);
}

/// One xoshiro256++ step, in terms of the four input words alone: the new
/// words are xors of the old ones, with `s[1]` multiplied by 2^17 modulo
/// 2^64 (its top 17 bits dropped) folded into word 2 and word 3 rotated left
/// by 45 bits; the output is `s[0]` plus `s[0] + s[3]` rotated left by 23
/// bits, all modulo 2^64.
pub proof fn lemma_xoshiro_step(s: Seq<u64>)
    requires
        s.len() == 4,
    ensures
        xoshiro_next(s).len() == 4,
        xoshiro_next(s)[0] == s[0] ^ s[3] ^ s[1],
        xoshiro_next(s)[1] == s[1] ^ s[2] ^ s[0],
        xoshiro_next(s)[2] == s[2] ^ s[0] ^ (s[1] * 131072u64) as u64,
        xoshiro_next(s)[3] == ((s[3] ^ s[1]) * 35184372088832u64) as u64 | (s[3] ^ s[1]) / 524288u64,
        xoshiro_output(s) == ((((s[0] + s[3]) as u64 * 8388608u64) as u64 | (s[0] + s[3]) as u64
            / 2199023255552u64) + s[0]) as u64,
{
    let s0 = s[0];
    let s1 = s[1];
    let s2 = s[2];
    let s3 = s[3];
    lemma_shl17_is_mul(s1);
    assert(s0 ^ (s3 ^ s1) == s0 ^ s3 ^ s1) by (bit_vector);
    assert(s1 ^ (s2 ^ s0) == s1 ^ s2 ^ s0) by (bit_vector);
    let a3 = s3 ^ s1;
    assert(spec_rotl(a3, 45) == (a3 * 35184372088832u64) as u64 | a3 / 524288u64) by (bit_vector);
    lemma_wrapping_add_truncates(s0, s3);
    let x = wrapping_add(s0, s3);
    assert(spec_rotl(x, 23) == (x * 8388608u64) as u64 | x / 2199023255552u64) by (bit_vector);
    lemma_wrapping_add_truncates(spec_rotl(x, 23), s0);
}

/// The splitmix64 counter after `n` steps is `seed + n * GOLDEN_GAMMA` modulo 2^64.
proof fn lemma_splitmix64_counter(seed: u64, n: nat)
    ensures
        splitmix64_counter(seed, n) == (seed + n * GOLDEN_GAMMA) % 0x1_0000_0000_0000_0000,
    decreases n,
{
    let m: int = 0x1_0000_0000_0000_0000;
    if n > 0 {
        lemma_splitmix64_counter(seed, (n - 1) as nat);
        let c = splitmix64_counter(seed, (n - 1) as nat);
        vstd::arithmetic::div_mod::lemma_add_mod_noop(seed + (n - 1) * GOLDEN_GAMMA, GOLDEN_GAMMA as int, m);
        vstd::arithmetic::div_mod::lemma_small_mod(GOLDEN_GAMMA as nat, m as nat);
        if c + GOLDEN_GAMMA > u64::MAX {
            vstd::arithmetic::div_mod::lemma_mod_add_multiples_vanish(c + GOLDEN_GAMMA - m, m);
            vstd::arithmetic::div_mod::lemma_small_mod((c + GOLDEN_GAMMA - m) as nat, m as nat);
        } else {
            vstd::arithmetic::div_mod::lemma_small_mod((c + GOLDEN_GAMMA) as nat, m as nat);
        }
        assert(seed + (n - 1) * GOLDEN_GAMMA + GOLDEN_GAMMA == seed + n * GOLDEN_GAMMA);
    } else {
        vstd::arithmetic::div_mod::lemma_small_mod(seed as nat, m as nat);
    }
}

/// Seeding, in terms of the seed alone: state word `k` is the standard
/// splitmix64 output number `k + 1` of the seed, that is the splitmix64 mix
/// of `seed + (k + 1) * 0x9e3779b97f4a7c15` modulo 2^64.
pub proof fn lemma_seeded_state_words(seed: u64, k: int)
    requires
        0 <= k < 4,
    ensures
        seeded_state(seed).len() == 4,
        seeded_state(seed)[k] == ({
            let m: int = 0x1_0000_0000_0000_0000int;
            let x = ((seed + (k + 1) * 0x9e37_79b9_7f4a_7c15int) % m) as u64;
            let z1 = (((x ^ (x >> 30u64)) as int * 0xbf58_476d_1ce4_e5b9int) % m) as u64;
            let z2 = (((z1 ^ (z1 >> 27u64)) as int * 0x94d0_49bb_1331_11ebint) % m) as u64;
            z2 ^ (z2 >> 31u64)
        }),
{
    lemma_splitmix64_counter(seed, (k + 1) as nat);
}

} // verus!
