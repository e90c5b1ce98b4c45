//! A small deterministic random number generator.
//!
//! The simulator needs to be reproducible: the same deck and seed must give the same numbers,
//! or a score would wobble between runs and the optimizer would chase noise.
//!
//! This is PCG-XSH-RR, the standard 64-to-32 variant. It is not cryptographic and does not
//! need to be.

use vstd::prelude::*;

verus! {

/// PCG's published multiplier.
pub const MULTIPLIER: u64 = 6_364_136_223_846_793_005;

/// PCG's published increment.
pub const DEFAULT_INCREMENT: u64 = 1_442_695_040_888_963_407;

/// A seeded generator.
#[derive(Debug, Clone, Copy)]
pub struct Rng {
    state: u64,
    increment: u64,
}

/// One step of the underlying linear congruential generator.
pub open spec fn advance(state: u64, increment: u64) -> u64 {
    ((state as nat * MULTIPLIER as nat + increment as nat) % 0x1_0000_0000_0000_0000) as u64
}

/// A 32-bit word rotated right.
pub open spec fn rotate_right(x: u32, r: u32) -> u32 {
    if r % 32 == 0 {
        x
    } else {
        (x >> (r % 32)) | (x << ((32 - r % 32) as u32))
    }
}

/// The output PCG-XSH-RR draws from a state: an xorshift, truncated, then a random rotation.
pub open spec fn output(state: u64) -> u32 {
    rotate_right((((state >> 18u64) ^ state) >> 27u64) as u32, (state >> 59u64) as u32)
}

/// The state after `n` steps.
pub open spec fn advanced(state: u64, increment: u64, n: nat) -> u64
    decreases n,
{
    if n == 0 {
        state
    } else {
        advance(advanced(state, increment, (n - 1) as nat), increment)
    }
}

/// The state a seed starts a generator in.
pub open spec fn seeded(seed: u64) -> u64 {
    advance(
        ((advance(0, DEFAULT_INCREMENT | 1) as nat + seed as nat) % 0x1_0000_0000_0000_0000) as u64,
        DEFAULT_INCREMENT | 1,
    )
}

/// The value `below` returns, and the state it leaves, from a state: outputs are drawn until
/// one is at least `threshold`, and its remainder by `bound` is the value. At most `budget`
/// draws are made; a full period of the generator holds every output, so the budget given is
/// never what ends the search.
pub open spec fn draw_below(state: u64, increment: u64, bound: u32, threshold: u32, budget: nat) -> (u32, u64)
    decreases budget,
{
    let value = output(state);
    let next = advance(state, increment);
    if value >= threshold || budget <= 1 {
        ((value % bound) as u32, next)
    } else {
        draw_below(next, increment, bound, threshold, (budget - 1) as nat)
    }
}

/// The threshold below which outputs are rejected: what keeps `value % bound` unbiased.
pub open spec fn rejection_threshold(bound: u32) -> u32 {
    ((0x1_0000_0000 - bound as int) % 0x1_0000_0000int % (bound as int)) as u32
}

/// The draw budget: one full period of the generator.
pub open spec fn period() -> nat {
    0x1_0000_0000_0000_0000
}


/// A list with two items exchanged.
pub open spec fn swapped<T>(s: Seq<T>, i: int, j: int) -> Seq<T> {
    s.update(i, s[j]).update(j, s[i])
}

/// Fisher-Yates over the first `n` items, from the last down: each position in turn is
/// exchanged with one drawn below it. The list and the generator state it leaves.
pub open spec fn fisher_yates<T>(s: Seq<T>, state: u64, increment: u64, n: nat) -> (Seq<T>, u64)
    decreases n,
{
    if n <= 1 {
        (s, state)
    } else {
        let bound = n as u32;
        let (j, next) = draw_below(state, increment, bound, rejection_threshold(bound), period());
        fisher_yates(swapped(s, n - 1, j as int), next, increment, (n - 1) as nat)
    }
}

fn step(state: u64, increment: u64) -> (r: u64)
    ensures
        r == advance(state, increment),
{
    let product = state.wrapping_mul(MULTIPLIER);
    let r = product.wrapping_add(increment);
    assert(r == advance(state, increment)) by (nonlinear_arith)
        requires
            product == (state as nat * MULTIPLIER as nat) % 0x1_0000_0000_0000_0000,
            r == (product as nat + increment as nat) % 0x1_0000_0000_0000_0000,
    {
        vstd::arithmetic::div_mod::lemma_add_mod_noop(
            (state as nat * MULTIPLIER as nat) as int,
            increment as int,
            0x1_0000_0000_0000_0000int,
        );
        vstd::arithmetic::div_mod::lemma_mod_twice(increment as int, 0x1_0000_0000_0000_0000int);
    }
    r
}

fn output_of(previous: u64) -> (r: u32)
    ensures
        r == output(previous),
{
    let xorshifted = (((previous >> 18u64) ^ previous) >> 27u64) as u32;
    let rotation = (previous >> 59u64) as u32;
    let r = rotation % 32;
    if r == 0 {
        xorshifted
    } else {
        (xorshifted >> r) | (xorshifted << (32 - r))
    }
}

impl Rng {
    pub closed spec fn state(&self) -> u64 {
        self.state
    }

    pub closed spec fn increment(&self) -> u64 {
        self.increment
    }

    /// Creates a generator from a seed. The same seed always gives the same sequence.
    pub fn new(seed: u64) -> (r: Rng)
        ensures
            r.state() == seeded(seed),
            r.increment() == DEFAULT_INCREMENT | 1,
    {
        // The increment must be odd for the generator to reach its full period.
        let mut rng = Rng { state: 0, increment: DEFAULT_INCREMENT | 1 };
        rng.next_u32();
        rng.state = rng.state.wrapping_add(seed);
        rng.next_u32();
        rng
    }

    /// The next 32 random bits.
    pub fn next_u32(&mut self) -> (r: u32)
        ensures
            r == output(old(self).state()),
            final(self).state() == advance(old(self).state(), old(self).increment()),
            final(self).increment() == old(self).increment(),
    {
        let previous = self.state;
        self.state = step(previous, self.increment);
        output_of(previous)
    }

    /// A uniform integer in `0..bound`. Returns 0 when `bound` is 0.
    ///
    /// Rejection-sampled rather than taking a modulus: the naive version is biased towards
    /// small values, which for a shuffle means the deck is not actually shuffled.
    pub fn below(&mut self, bound: u32) -> (r: u32)
        ensures
            bound == 0 ==> r == 0 && final(self).state() == old(self).state(),
            bound > 0 ==> (r, final(self).state()) == draw_below(
                old(self).state(),
                old(self).increment(),
                bound,
                rejection_threshold(bound),
                period(),
            ),
            bound > 0 ==> r < bound,
            final(self).increment() == old(self).increment(),
    {
        if bound == 0 {
            return 0;
        }
        let threshold = 0u32.wrapping_sub(bound) % bound;
        assert(threshold == rejection_threshold(bound));
        let mut budget: u128 = 0x1_0000_0000_0000_0000;
        loop
            invariant
                1 <= budget <= period(),
                bound > 0,
                threshold == rejection_threshold(bound),
                draw_below(self.state(), self.increment(), bound, threshold, budget as nat)
                    == draw_below(old(self).state(), old(self).increment(), bound, threshold, period()),
                self.increment() == old(self).increment(),
            decreases budget,
        {
            let value = self.next_u32();
            if value >= threshold || budget <= 1 {
                return value % bound;
            }
            budget = budget - 1;
        }
    }

    /// Fisher-Yates, which is the only shuffle that is actually uniform. The items come out
    /// in a new order, every one of them still there.
    pub fn shuffle<T>(&mut self, items: &mut Vec<T>)
        requires
            old(items)@.len() <= u32::MAX,
        ensures
            (final(items)@, final(self).state()) == fisher_yates(
                old(items)@,
                old(self).state(),
                old(self).increment(),
                old(items)@.len(),
            ),
            final(items)@.to_multiset() == old(items)@.to_multiset(),
            final(items)@.len() == old(items)@.len(),
            final(self).increment() == old(self).increment(),
    {
        let mut i: usize = items.len();
        while i > 1
            invariant
                i <= items@.len(),
                items@.len() <= u32::MAX,
                items@.to_multiset() == old(items)@.to_multiset(),
                items@.len() == old(items)@.len(),
                self.increment() == old(self).increment(),
                fisher_yates(items@, self.state(), self.increment(), i as nat) == fisher_yates(
                    old(items)@,
                    old(self).state(),
                    old(self).increment(),
                    old(items)@.len(),
                ),
            decreases i,
        {
            let j = self.below(i as u32) as usize;
            swap(items, i - 1, j);
            i = i - 1;
        }
    }
}

/// Exchanges two items of a list.
fn swap<T>(items: &mut Vec<T>, i: usize, j: usize)
    requires
        i < old(items)@.len(),
        j < old(items)@.len(),
    ensures
        final(items)@ == old(items)@.update(i as int, old(items)@[j as int]).update(
            j as int,
            old(items)@[i as int],
        ),
        final(items)@.to_multiset() == old(items)@.to_multiset(),
{
    let ghost s = items@;
    if i == j {
        assert(s.update(i as int, s[j as int]).update(j as int, s[i as int]) =~= s);
        return;
    }
    let (lo, hi) = if i < j { (i, j) } else { (j, i) };
    let high = items.remove(hi);
    let low = items.remove(lo);
    items.insert(lo, high);
    items.insert(hi, low);
    assert(items@ =~= s.update(i as int, s[j as int]).update(j as int, s[i as int]));
    proof {
        lemma_swap_multiset(s, i as int, j as int);
    }
}

proof fn lemma_swap_multiset<T>(s: Seq<T>, i: int, j: int)
    requires
        0 <= i < s.len(),
        0 <= j < s.len(),
    ensures
        s.update(i, s[j]).update(j, s[i]).to_multiset() == s.to_multiset(),
{
    broadcast use vstd::multiset::group_multiset_axioms;
    let t = s.update(i, s[j]);
    if i == j {
        assert(t.update(j, s[i]) =~= s);
        return;
    }
    let a = s[j];
    let b = s[i];
    vstd::seq_lib::to_multiset_update(s, i, a);
    vstd::seq_lib::to_multiset_update(t, j, b);
    s.to_multiset_ensures();
    assert(s.contains(b));
    assert(t[j] == a);
    let m0 = s.to_multiset();
    let m1 = m0.insert(a).remove(b);
    let m2 = m1.insert(b).remove(a);
    assert(m0.count(b) > 0);
    assert(m0.insert(a).count(b) > 0);
    assert(m1.insert(b).count(a) > 0) by {
        if a == b {
        } else {
            assert(m0.insert(a).count(a) > 0);
        }
    }
    assert forall|x: T| m2.count(x) == m0.count(x) by {}
    assert(m2 =~= m0);
}

/// The first `n` values a generator in `state` draws with [`Rng::next_u32`], in order.
pub open spec fn draws(state: u64, increment: u64, n: nat) -> Seq<u32>
    decreases n,
{
    if n == 0 {
        Seq::empty()
    } else {
        draws(state, increment, (n - 1) as nat).push(output(advanced(state, increment, (n - 1) as nat)))
    }
}

/// The same seed gives the same sequence. Two generators made from one seed (which is all
/// [`Rng::new`] says of what it makes) draw the same first `n` values for every `n`, and the
/// `k`-th of them is fixed by the seed and `k` alone.
pub proof fn law_same_seed_same_sequence(a: Rng, b: Rng, seed: u64, n: nat)
    requires
        a.state() == seeded(seed),
        a.increment() == DEFAULT_INCREMENT | 1,
        b.state() == seeded(seed),
        b.increment() == DEFAULT_INCREMENT | 1,
    ensures
        draws(a.state(), a.increment(), n) == draws(b.state(), b.increment(), n),
        draws(a.state(), a.increment(), n).len() == n,
        forall|k: int|
            0 <= k < n ==> #[trigger] draws(a.state(), a.increment(), n)[k] == output(
                advanced(seeded(seed), DEFAULT_INCREMENT | 1, k as nat),
            ),
    decreases n,
{
    if n > 0 {
        law_same_seed_same_sequence(a, b, seed, (n - 1) as nat);
        let d = draws(a.state(), a.increment(), n);
        assert forall|k: int| 0 <= k < n implies #[trigger] d[k] == output(
            advanced(seeded(seed), DEFAULT_INCREMENT | 1, k as nat),
        ) by {
            if k < n - 1 {
                assert(d[k] == draws(a.state(), a.increment(), (n - 1) as nat)[k]);
            }
        }
    }
}

} // verus!
