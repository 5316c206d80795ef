//! The 48-bit linear congruential generator of `java.util.Random`.
//! The layered layout breaks ties with it, so the exact stream of
//! values it yields for a seed is part of the layout result.

use vstd::prelude::*;
use vstd::arithmetic::div_mod::{lemma_mod_mod, lemma_add_mod_noop};

verus! {

const MULTIPLIER: u64 = 0x5_DEEC_E66D;
const ADDEND: u64 = 0xB;
const MASK: u64 = 0xFFFF_FFFF_FFFF;

/// Number of states of the generator (2^48).
pub open spec fn java_modulus() -> nat {
    0x1_0000_0000_0000
}

/// The state that `setSeed(seed)` installs: the seed scrambled with the
/// multiplier and cut to 48 bits.
pub open spec fn java_scramble(seed: i64) -> u64 {
    ((seed as u64) ^ 0x5_DEEC_E66Du64) & 0xFFFF_FFFF_FFFFu64
}

/// One step of the generator: `state * 0x5DEECE66D + 0xB (mod 2^48)`.
#[verifier::opaque]
pub open spec fn java_step(s: u64) -> u64 {
    ((s as int * 0x5_DEEC_E66D + 0xB) % (java_modulus() as int)) as u64
}

/// `next(bits)` from state `s`: advance, then return the top `bits`
/// bits of the new 48-bit state as a Java `int`.
#[verifier::opaque]
pub open spec fn java_draw(s: u64, bits: u32) -> i32 {
    (java_step(s) >> (48 - bits) as u64) as i64 as i32
}

/// `next(31)` rejection test of `nextInt(bound)`: a draw `r` is kept
/// when `r - r % bound + (bound - 1)` does not overflow a Java `int`.
pub open spec fn java_int_accepts(r: i32, bound: i32) -> bool {
    (r - r % bound) + (bound - 1) <= i32::MAX
}

/// `bound` is a power of two (Java's `(bound & -bound) == bound`).
pub open spec fn java_is_pow2(bound: i32) -> bool {
    bound & (-bound) as i32 == bound
}

/// Value of `nextInt(bound)` for a power-of-two `bound` drawn from state
/// `s`: `(bound * next(31)) >> 31`, i.e. the product divided by 2^31.
pub open spec fn java_int_pow2(s: u64, bound: i32) -> i32 {
    ((bound * java_draw(s, 31)) / 0x8000_0000) as i32
}

/// `nextLong()` from state `s`: `((long) next(32) << 32) + next(32)`,
/// wrapping as a Java `long`.
pub open spec fn java_long(s: u64) -> i64 {
    ((java_draw(s, 32) as i64 * 0x1_0000_0000i64) as i64).wrapping_add(java_draw(java_step(s), 32) as i64)
}

/// `nextBoolean()` from state `s`: `next(1) != 0`.
pub open spec fn java_boolean(s: u64) -> bool {
    java_draw(s, 1) != 0
}

/// The rejection loop of `nextInt(bound)` started in state `s`, looking at
/// no more than `fuel + 1` draws: the accepted value, the state after the
/// accepted draw, and the number of draws used; `None` when no draw among
/// them is accepted.
#[verifier::opaque]
pub open spec fn java_int_search(s: u64, bound: i32, fuel: nat) -> Option<(i32, u64, nat)>
    decreases fuel,
{
    let r = java_draw(s, 31);
    if java_int_accepts(r, bound) {
        Some(((r % bound) as i32, java_step(s), 1nat))
    } else if fuel == 0 {
        None
    } else {
        match java_int_search(java_step(s), bound, (fuel - 1) as nat) {
            Some((v, t, n)) => Some((v, t, n + 1)),
            None => None,
        }
    }
}

/// `nextInt(bound)` returns at all from state `s`: the power-of-two path
/// never loops, and otherwise some draw among the first 2^48 + 1 is
/// accepted. (The generator has 2^48 states, so when none of those draws
/// is accepted the state sequence has entered a cycle of rejected draws and
/// the rejection loop never ends.)
pub open spec fn java_int_returns(s: u64, bound: i32) -> bool {
    java_is_pow2(bound) || java_int_search(s, bound, java_modulus()) is Some
}

/// Exact `java.util.Random` generator: same seed, same stream.
#[derive(Debug, Clone)]
pub struct JavaRandom {
    seed: u64,
    draws: u64,
}

proof fn lemma_step_exec(s: u64)
    ensures
        (s.wrapping_mul(MULTIPLIER).wrapping_add(ADDEND)) & MASK == java_step(s),
        java_step(s) <= MASK,
{
    reveal(java_step);
    let w = s.wrapping_mul(MULTIPLIER);
    let v = w.wrapping_add(ADDEND);
    assert(w == (s as nat * 0x5_DEEC_E66Dnat) % 0x1_0000_0000_0000_0000nat);
    assert(v == (w as nat + 0xBnat) % 0x1_0000_0000_0000_0000nat);
    assert(v & MASK == v % 0x1_0000_0000_0000) by (bit_vector);
    let x: int = s as int * 0x5_DEEC_E66D;
    assert(0x1_0000_0000_0000_0000int == 0x1_0000_0000_0000int * 0x1_0000int);
    lemma_mod_mod(x, 0x1_0000_0000_0000int, 0x1_0000int);
    lemma_mod_mod(w as int + 0xB, 0x1_0000_0000_0000int, 0x1_0000int);
    lemma_add_mod_noop(x % 0x1_0000_0000_0000_0000int, 0xB, 0x1_0000_0000_0000int);
    lemma_add_mod_noop(x, 0xB, 0x1_0000_0000_0000int);
    assert((x % 0x1_0000_0000_0000_0000int) % 0x1_0000_0000_0000int == x % 0x1_0000_0000_0000int);
    assert(0xBint % 0x1_0000_0000_0000int == 0xB);
}

proof fn lemma_draw31_range(s: u64)
    ensures
        0 <= java_draw(s, 31) < 0x8000_0000,
{
    reveal(java_draw);
    reveal(java_step);
    let t = java_step(s);
    assert(t < 0x1_0000_0000_0000);
    assert(t >> 17u64 < 0x8000_0000) by (bit_vector)
        requires t < 0x1_0000_0000_0000u64;
}

/// `count` advanced by `n` draws, wrapping at 2^64.
pub open spec fn wrap_count(count: u64, n: nat) -> u64 {
    ((count as int + n) % 0x1_0000_0000_0000_0000int) as u64
}

proof fn lemma_wrap_count_step(count: u64, n: nat)
    ensures
        wrap_count(count, n).wrapping_add(1) == wrap_count(count, n + 1),
{
    let a = count as int + n;
    let m = 0x1_0000_0000_0000_0000int;
    lemma_add_mod_noop(a, 1, m);
    assert(1int % m == 1);
    assert((a % m + 1) % m == (a + 1) % m);
}

proof fn lemma_search_unfold(s: u64, bound: i32, fuel: nat)
    requires
        bound > 0,
        java_int_search(s, bound, fuel) is Some,
    ensures
        java_int_accepts(java_draw(s, 31), bound) ==> java_int_search(s, bound, fuel) == Some(
            ((java_draw(s, 31) % bound) as i32, java_step(s), 1nat),
        ),
        !java_int_accepts(java_draw(s, 31), bound) ==> {
            &&& fuel > 0
            &&& java_int_search(java_step(s), bound, (fuel - 1) as nat) is Some
            &&& java_int_search(java_step(s), bound, (fuel - 1) as nat).unwrap().0
                == java_int_search(s, bound, fuel).unwrap().0
            &&& java_int_search(java_step(s), bound, (fuel - 1) as nat).unwrap().1
                == java_int_search(s, bound, fuel).unwrap().1
            &&& java_int_search(java_step(s), bound, (fuel - 1) as nat).unwrap().2 + 1
                == java_int_search(s, bound, fuel).unwrap().2
        },
{
    reveal(java_int_search);
}

proof fn lemma_search_accepts(s: u64, bound: i32, fuel: nat)
    requires
        bound > 0,
        java_int_search(s, bound, fuel) is Some,
    ensures
        0 <= java_int_search(s, bound, fuel).unwrap().0 < bound,
        java_int_search(s, bound, fuel).unwrap().2 >= 1,
    decreases fuel,
{
    reveal(java_int_search);
    lemma_draw31_range(s);
    let r = java_draw(s, 31);
    if !java_int_accepts(r, bound) && fuel > 0 {
        lemma_search_accepts(java_step(s), bound, (fuel - 1) as nat);
    }
}

impl JavaRandom {
    /// Current 48-bit state of the generator.
    pub closed spec fn state(self) -> u64 {
        self.seed
    }

    /// Number of draws made so far (wrapping at 2^64).
    pub closed spec fn draw_count(self) -> u64 {
        self.draws
    }

    /// A generator seeded with `seed`.
    pub fn new(seed: i64) -> (r: Self)
        ensures
            r.state() == java_scramble(seed),
            r.draw_count() == 0,
    {
        let s = (seed as u64 ^ MULTIPLIER) & MASK;
        Self { seed: s, draws: 0 }
    }

    /// The generator step returning the top `bits` bits.
    fn next(&mut self, bits: u32) -> (r: i32)
        requires
            1 <= bits <= 32,
        ensures
            r == java_draw(old(self).state(), bits),
            final(self).state() == java_step(old(self).state()),
            final(self).draw_count() == old(self).draw_count().wrapping_add(1),
    {
        self.draws = self.draws.wrapping_add(1);
        proof { lemma_step_exec(self.seed); }
        self.seed = self.seed.wrapping_mul(MULTIPLIER).wrapping_add(ADDEND) & MASK;
        proof { reveal(java_draw); }
        (self.seed >> (48 - bits) as u64) as i64 as i32
    }

    /// `java.util.Random.nextLong()`.
    pub fn next_long(&mut self) -> (r: i64)
        ensures
            r == java_long(old(self).state()),
            final(self).state() == java_step(java_step(old(self).state())),
            final(self).draw_count() == wrap_count(old(self).draw_count(), 2),
    {
        proof {
            lemma_wrap_count_step(self.draws, 0);
            lemma_wrap_count_step(self.draws, 1);
            assert(wrap_count(self.draws, 0) == self.draws);
        }
        let hi = self.next(32) as i64;
        let lo = self.next(32) as i64;
        (hi * 0x1_0000_0000i64).wrapping_add(lo)
    }

    /// `java.util.Random.nextBoolean()`.
    pub fn next_boolean(&mut self) -> (r: bool)
        ensures
            r == java_boolean(old(self).state()),
            final(self).state() == java_step(old(self).state()),
            final(self).draw_count() == old(self).draw_count().wrapping_add(1),
    {
        self.next(1) != 0
    }

    /// `java.util.Random.nextInt(bound)`: a power-of-two `bound` scales one
    /// 31-bit draw; any other `bound` takes the first draw `r` that passes
    /// the rejection test and returns `r % bound`.
    pub fn next_int(&mut self, bound: i32) -> (r: i32)
        requires
            bound > 0,
            java_int_returns(old(self).state(), bound),
        ensures
            0 <= r < bound,
            java_is_pow2(bound) ==> {
                &&& r == java_int_pow2(old(self).state(), bound)
                &&& final(self).state() == java_step(old(self).state())
                &&& final(self).draw_count() == old(self).draw_count().wrapping_add(1)
            },
            !java_is_pow2(bound) ==> {
                let found = java_int_search(old(self).state(), bound, java_modulus());
                &&& r == found.unwrap().0
                &&& final(self).state() == found.unwrap().1
                &&& final(self).draw_count() == wrap_count(old(self).draw_count(), found.unwrap().2)
            },
    {
        if (bound & -bound) == bound {
            let x = self.next(31);
            proof { lemma_draw31_range(old(self).state()); }
            assert(0 <= bound as i64 * x as i64 <= 0x7FFF_FFFF * 0x7FFF_FFFF) by (nonlinear_arith)
                requires 0 <= x < 0x8000_0000, 0 < bound;
            let p = bound as i64 * x as i64;
            assert(p >> 31u64 == p / 0x8000_0000) by (bit_vector)
                requires p >= 0;
            assert(p / 0x8000_0000 < bound) by (nonlinear_arith)
                requires p == bound * x, 0 <= x < 0x8000_0000, bound > 0;
            return (p >> 31u64) as i32;
        }
        assert(!java_is_pow2(bound));
        let ghost d0 = self.draws;
        let ghost found = java_int_search(self.seed, bound, java_modulus());
        proof { lemma_search_accepts(self.seed, bound, java_modulus()); }
        let mut fuel: u64 = 0x1_0000_0000_0000;
        loop
            invariant
                bound > 0,
                !java_is_pow2(bound),
                found == java_int_search(old(self).state(), bound, java_modulus()),
                d0 == old(self).draw_count(),
                found is Some,
                0 <= found.unwrap().0 < bound,
                java_int_search(self.seed, bound, fuel as nat) is Some,
                java_int_search(self.seed, bound, fuel as nat).unwrap().0 == found.unwrap().0,
                java_int_search(self.seed, bound, fuel as nat).unwrap().1 == found.unwrap().1,
                java_int_search(self.seed, bound, fuel as nat).unwrap().2 <= found.unwrap().2,
                self.draws == wrap_count(d0, (found.unwrap().2 - java_int_search(self.seed, bound, fuel as nat).unwrap().2) as nat),
            decreases fuel,
        {
            let ghost s = self.seed;
            let ghost used = (found.unwrap().2 - java_int_search(s, bound, fuel as nat).unwrap().2) as nat;
            proof {
                lemma_draw31_range(s);
                lemma_search_accepts(s, bound, fuel as nat);
                lemma_search_unfold(s, bound, fuel as nat);
                lemma_wrap_count_step(d0, used);
            }
            let bits = self.next(31);
            let val = bits % bound;
            if (bits as i64 - val as i64) + (bound as i64 - 1) <= 0x7FFF_FFFFi64 {
                assert(java_int_accepts(bits, bound));
                return val;
            }
            fuel = fuel - 1;
        }
    }

    /// Number of `next()` draws consumed so far.
    pub fn draws(&self) -> (r: u64)
        ensures
            r == self.draw_count(),
    {
        self.draws
    }

    /// The 48-bit state split into its upper and lower 24 bits.
    pub fn seed_hi_lo(&self) -> (r: (u64, u64))
        ensures
            r.0 == self.state() >> 24u64,
            r.1 == self.state() & 0xFF_FFFFu64,
    {
        (self.seed >> 24, self.seed & 0xFF_FFFF)
    }

    /// `java.util.Random.setSeed(long)`: the same scramble as construction.
    /// The draw counter is left as it is.
    pub fn set_seed(&mut self, seed: i64)
        ensures
            final(self).state() == java_scramble(seed),
            final(self).draw_count() == old(self).draw_count(),
    {
        let s = (seed as u64 ^ MULTIPLIER) & MASK;
        self.seed = s;
    }
}

} // verus!
