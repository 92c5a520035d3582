use vstd::prelude::*;

verus! {

/// Increment added to the state on every draw (the odd "golden gamma" of splitmix64).
pub const GAMMA: u64 = 0x9E37_79B9_7F4A_7C15;

/// The splitmix64 output function applied to a freshly advanced state.
#[verifier::opaque]
pub open spec fn mix(z0: u64) -> u64 {
    let z1 = ((z0 ^ (z0 >> 30u64)) as nat * 0xBF58_476D_1CE4_E5B9nat % 0x1_0000_0000_0000_0000nat) as u64;
    let z2 = ((z1 ^ (z1 >> 27u64)) as nat * 0x94D0_49BB_1331_11EBnat % 0x1_0000_0000_0000_0000nat) as u64;
    z2 ^ (z2 >> 31u64)
}

/// The state that follows `state` after one draw.
pub open spec fn advance(state: u64) -> u64 {
    ((state as nat + GAMMA as nat) % 0x1_0000_0000_0000_0000nat) as u64
}

/// Deterministic splitmix64 generator: the whole output stream is a function of the seed.
pub struct Rng {
    state: u64,
}

impl View for Rng {
    type V = u64;

    closed spec fn view(&self) -> u64 {
        self.state
    }
}

impl Rng {
    /// A generator whose state is the seed.
    pub fn new(seed: u64) -> (r: Self)
        ensures
            r@ == seed,
    {
        Rng { state: seed }
    }

    /// Advances the state by `GAMMA` (wrapping) and returns the mixed new state.
    pub fn next_u64(&mut self) -> (r: u64)
        ensures
            final(self)@ == advance(old(self)@),
            r == mix(final(self)@),
    {
        reveal(mix);
        self.state = self.state.wrapping_add(GAMMA);
        let mut z = self.state;
        z = (z ^ (z >> 30)).wrapping_mul(0xBF58_476D_1CE4_E5B9);
        z = (z ^ (z >> 27)).wrapping_mul(0x94D0_49BB_1331_11EB);
        z ^ (z >> 31)
    }
}

/// The state after `n` draws from a generator seeded with `seed`.
pub open spec fn state_after(seed: u64, n: nat) -> u64
    decreases n,
{
    if n == 0 {
        seed
    } else {
        advance(state_after(seed, (n - 1) as nat))
    }
}

/// The `n`-th number (counting from 0) drawn from a generator seeded with `seed`.
pub open spec fn draw(seed: u64, n: nat) -> u64 {
    mix(state_after(seed, n + 1))
}

/// Draws compose: `a` draws and then `b` more are `a + b` draws.
pub proof fn lemma_state_after_add(seed: u64, a: nat, b: nat)
    ensures
        state_after(state_after(seed, a), b) == state_after(seed, a + b),
    decreases b,
{
    if b > 0 {
        lemma_state_after_add(seed, a, (b - 1) as nat);
    }
}

/// Reproducibility: after `n` draws the state is the seed plus `n` times `GAMMA`
/// (mod 2^64), so the `n`-th number drawn depends on nothing but the seed and `n`.
pub proof fn lemma_stream_closed_form(seed: u64, n: nat)
    ensures
        state_after(seed, n) as nat == (seed as nat + n * GAMMA as nat) % 0x1_0000_0000_0000_0000nat,
        draw(seed, n) == mix(((seed as nat + (n + 1) * GAMMA as nat) % 0x1_0000_0000_0000_0000nat) as u64),
    decreases n,
{
    let m: int = 0x1_0000_0000_0000_0000;
    if n > 0 {
        lemma_stream_closed_form(seed, (n - 1) as nat);
        let x: int = seed as int + (n - 1) * GAMMA as int;
        vstd::arithmetic::div_mod::lemma_add_mod_noop(x, GAMMA as int, m);
        assert((GAMMA as int) % m == GAMMA as int);
        assert(x + GAMMA as int == seed as int + n * GAMMA as int) by (nonlinear_arith)
            requires
                x == seed as int + (n - 1) * GAMMA as int,
        ;
    }
    let y: int = seed as int + n * GAMMA as int;
    vstd::arithmetic::div_mod::lemma_add_mod_noop(y, GAMMA as int, m);
    assert((GAMMA as int) % m == GAMMA as int);
    assert(y + GAMMA as int == seed as int + (n + 1) * GAMMA as int) by (nonlinear_arith)
        requires
            y == seed as int + n * GAMMA as int,
    ;
}

} // verus!
