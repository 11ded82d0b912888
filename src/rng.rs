//! The seeded linear-congruential stream every generator draws from.
use vstd::prelude::*;

verus! {

/// Multiplier of the linear-congruential step.
pub const LCG_MUL: u64 = 6364136223846793005;

/// Increment of the linear-congruential step.
pub const LCG_INC: u64 = 1442695040888963407;

/// One step of the generator: `s * LCG_MUL + LCG_INC` modulo 2^64.
pub open spec fn lcg_next(s: u64) -> u64 {
    ((s as nat * LCG_MUL as nat + LCG_INC as nat) % 0x1_0000_0000_0000_0000) as u64
}

/// The state reached from `s` after `t` steps.
pub open spec fn lcg_iter(s: u64, t: nat) -> u64
    decreases t,
{
    if t == 0 {
        s
    } else {
        lcg_next(lcg_iter(s, (t - 1) as nat))
    }
}

/// Running `a` steps and then `b` more is running `a + b` steps.
pub proof fn lemma_lcg_iter_add(s: u64, a: nat, b: nat)
    ensures
        lcg_iter(lcg_iter(s, a), b) == lcg_iter(s, a + b),
    decreases b,
{
    if b > 0 {
        lemma_lcg_iter_add(s, a, (b - 1) as nat);
    }
}

/// The upper half of a state: what one draw hands out.
pub open spec fn upper_half(s: u64) -> u32 {
    (s >> 32u64) as u32
}

/// The draw with index `t` of the stream that starts in state `s`.
pub open spec fn draw_at(s: u64, t: nat) -> u32 {
    upper_half(lcg_iter(s, t + 1))
}

/// The state a generator seeded with `seed` starts in: the low bit is forced to one.
pub open spec fn seeded(seed: u64) -> u64 {
    seed | 1u64
}

/// A draw reduced onto `0..max(n, 1)`.
pub open spec fn reduce(x: u32, n: int) -> int {
    if n >= 1 {
        x as int % n
    } else {
        0
    }
}

/// Two draws turned into a pair of distinct node ids below `n`: each draw is
/// reduced by remainder, and a repeated id is repaired by moving the second one
/// on by one place, modulo `n`.
pub open spec fn pair_of_draws(x: u32, y: u32, n: int) -> (int, int) {
    let a = x as int % n;
    let b = y as int % n;
    if a == b {
        (a, (b + 1) % n)
    } else {
        (a, b)
    }
}

/// The pair with index `t` of the stream that starts in state `s`: made of the
/// draws `2t` and `2t + 1`.
pub open spec fn random_pair(s: u64, n: int, t: int) -> (int, int) {
    pair_of_draws(draw_at(s, (2 * t) as nat), draw_at(s, (2 * t + 1) as nat), n)
}

/// A linear-congruential generator over a 64-bit state.
#[derive(Clone)]
pub struct Lcg {
    state: u64,
}

impl Lcg {
    /// The current state.
    pub closed spec fn state(&self) -> u64 {
        self.state
    }

    pub fn new(seed: u64) -> (r: Self)
        ensures
            r.state() == seeded(seed),
    {
        Lcg { state: seed | 1 }
    }

    /// Advances the state by one step and returns its upper 32 bits.
    pub fn next_u32(&mut self) -> (r: u32)
        ensures
            final(self).state() == lcg_next(old(self).state()),
            r == upper_half(final(self).state()),
    {
        let s = self.state;
        let m = s.wrapping_mul(LCG_MUL);
        let t = m.wrapping_add(LCG_INC);
        proof {
            let big: int = 0x1_0000_0000_0000_0000;
            let sum: int = m as int + LCG_INC as int;
            if sum > u64::MAX {
                vstd::arithmetic::div_mod::lemma_mod_sub_multiples_vanish(sum, big);
                vstd::arithmetic::div_mod::lemma_small_mod((sum - big) as nat, big as nat);
            } else {
                vstd::arithmetic::div_mod::lemma_small_mod(sum as nat, big as nat);
            }
            vstd::arithmetic::div_mod::lemma_add_mod_noop(s as int * LCG_MUL as int, LCG_INC as int, big);
            vstd::arithmetic::div_mod::lemma_small_mod(LCG_INC as nat, big as nat);
        }
        self.state = t;
        (t >> 32) as u32
    }

    /// A draw reduced onto `0..max(n, 1)` by remainder; for a bound that is not a
    /// power of two the reduction slightly favours small values.
    pub fn pick_usize(&mut self, n: usize) -> (r: usize)
        ensures
            final(self).state() == lcg_next(old(self).state()),
            r as int == reduce(upper_half(final(self).state()), n as int),
            r < if n == 0 { 1 } else { n },
    {
        let x = self.next_u32();
        let m: usize = if n >= 1 { n } else { 1 };
        (x as usize) % m
    }

    /// Two consecutive draws turned into a pair of distinct ids below `n`.
    pub fn pick_pair(&mut self, n: usize) -> (r: (usize, usize))
        requires
            n >= 2,
        ensures
            final(self).state() == lcg_next(lcg_next(old(self).state())),
            (r.0 as int, r.1 as int) == pair_of_draws(
                upper_half(lcg_next(old(self).state())),
                upper_half(final(self).state()),
                n as int,
            ),
            r.0 < n,
            r.1 < n,
            r.0 != r.1,
    {
        let a = self.pick_usize(n);
        let mut b = self.pick_usize(n);
        if a == b {
            proof {
                if b + 1 < n {
                    vstd::arithmetic::div_mod::lemma_small_mod((b + 1) as nat, n as nat);
                } else {
                    vstd::arithmetic::div_mod::lemma_mod_self_0(n as int);
                }
            }
            b = (b + 1) % n;
        }
        (a, b)
    }
}

} // verus!
