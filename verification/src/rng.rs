//! The random source: a splitmix64 stream.
use vstd::prelude::*;

verus! {

/// The step of the stream's state.
pub const GOLDEN_GAMMA: u64 = 0x9E37_79B9_7F4A_7C15;

/// A splitmix64 stream.
#[derive(Debug, Clone, Copy)]
pub struct Rng {
    state: u64,
}

/// The state that a seed starts from.
pub open spec fn seeded(seed: u64) -> u64 {
    seed ^ GOLDEN_GAMMA
}

/// The state after one draw.
pub open spec fn stepped(state: u64) -> u64 {
    state.wrapping_add(GOLDEN_GAMMA)
}

/// The number that a state hands out.
pub open spec fn mixed(state: u64) -> u64 {
    let a = (state ^ (state >> 30)).wrapping_mul(0xBF58_476D_1CE4_E5B9u64);
    let b = (a ^ (a >> 27)).wrapping_mul(0x94D0_49BB_1331_11EBu64);
    b ^ (b >> 31)
}

/// The state after `n` draws.
pub open spec fn stepped_by(state: u64, n: nat) -> u64
    decreases n,
{
    if n == 0 {
        state
    } else {
        stepped(stepped_by(state, (n - 1) as nat))
    }
}

impl Rng {
    /// The stream's state.
    pub closed spec fn state(&self) -> u64 {
        self.state
    }

    /// A stream that starts from `seed`.
    pub fn new(seed: u64) -> (r: Self)
        ensures
            r.state() == seeded(seed),
    {
        Rng { state: seed ^ GOLDEN_GAMMA }
    }

    /// The next draw.
    pub fn next_u64(&mut self) -> (r: u64)
        ensures
            final(self).state() == stepped(old(self).state()),
            r == mixed(final(self).state()),
    {
        self.state = self.state.wrapping_add(GOLDEN_GAMMA);
        let z: u64 = self.state;
        let a: u64 = (z ^ (z >> 30)).wrapping_mul(0xBF58_476D_1CE4_E5B9u64);
        let b: u64 = (a ^ (a >> 27)).wrapping_mul(0x94D0_49BB_1331_11EBu64);
        b ^ (b >> 31)
    }
}

/// The stream does not stand still: its state changes with every draw.
pub proof fn lemma_stream_advances(state: u64)
    ensures
        stepped(state) != state,
{
}

/// The number in `0..n` that a raw draw stands for.
pub open spec fn below_spec(draw: u64, n: u64) -> u64 {
    if n <= 1 {
        0
    } else {
        ((draw as int * n as int) / 0x1_0000_0000_0000_0000) as u64
    }
}

/// A draw scaled to `0..n` stays in that range.
pub proof fn lemma_below_range(draw: u64, n: u64)
    requires
        n > 0,
    ensures
        below_spec(draw, n) < n,
        n > 1 ==> below_spec(draw, n) as int == (draw as int * n as int)
            / 0x1_0000_0000_0000_0000,
{
    if n > 1 {
        let p = draw as int * n as int;
        assert(0 <= p < 0x1_0000_0000_0000_0000 * n) by (nonlinear_arith)
            requires
                p == draw as int * n as int,
                0 <= draw < 0x1_0000_0000_0000_0000,
                n > 1,
        ;
        assert(0 <= p / 0x1_0000_0000_0000_0000 < n) by (nonlinear_arith)
            requires
                0 <= p < 0x1_0000_0000_0000_0000 * n,
        ;
    }
}

/// The number in `0..n` that a raw draw stands for; 0 when there is no choice.
pub fn below(draw: u64, n: u64) -> (r: u64)
    ensures
        r == below_spec(draw, n),
        n > 0 ==> r < n,
{
    if n <= 1 {
        return 0;
    }
    proof {
        lemma_below_range(draw, n);
        assert(draw as int * n as int <= 0xffff_ffff_ffff_ffff * 0xffff_ffff_ffff_ffff)
            by (nonlinear_arith)
            requires
                0 <= draw <= 0xffff_ffff_ffff_ffff,
                0 <= n <= 0xffff_ffff_ffff_ffff,
        ;
    }
    let p: u128 = (draw as u128) * (n as u128);
    (p / 0x1_0000_0000_0000_0000u128) as u64
}

} // verus!
