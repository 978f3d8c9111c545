//! A tiny random number generator.
use vstd::prelude::*;
use std::time::{Duration, SystemTime, SystemTimeError, UNIX_EPOCH};

verus! {

#[verifier::external_type_specification]
#[verifier::external_body]
pub struct ExSystemTime(SystemTime);

#[verifier::external_type_specification]
#[verifier::external_body]
pub struct ExSystemTimeError(SystemTimeError);

/// One step of the xorshift32 generator: three shift-and-XOR steps that
/// scramble the bits.
pub open spec fn xorshift(x: u32) -> u32 {
    let a = x ^ (x << 13u32);
    let b = a ^ (a >> 17u32);
    b ^ (b << 5u32)
}

/// The state a generator starts from for `seed`: a zero seed is replaced,
/// because xorshift would stay at zero forever.
pub open spec fn seed_state(seed: u32) -> u32 {
    if seed == 0 {
        0x9E37_79B9
    } else {
        seed
    }
}

/// The integer that `range_i32` draws from the value `v`: `min` plus `v`
/// reduced modulo the length of the range.
pub open spec fn in_range(min: i32, max: i32, v: u32) -> int {
    min + (v as int % (max - min))
}

/// A fast pseudo-random number generator (the "xorshift32" algorithm).
///
/// Good enough for games (particle directions, enemy spawns...). It is *not*
/// suitable for anything security-related like passwords or keys.
///
/// The same seed always produces the same sequence, which is handy for tests
/// and for replaying a game exactly.
#[derive(Debug)]
pub struct Rng {
    state: u32,
}

impl View for Rng {
    type V = u32;

    /// The generator's current state.
    closed spec fn view(&self) -> u32 {
        self.state
    }
}

/// The current time, from the system clock.
#[verifier::external_body]
fn system_time_now() -> SystemTime {
    SystemTime::now()
}

/// The time elapsed between the Unix epoch and `t`, or an error if `t` is
/// earlier than the epoch. What comes back depends on the clock.
#[verifier::external_body]
fn since_unix_epoch(t: &SystemTime) -> Result<Duration, SystemTimeError> {
    t.duration_since(UNIX_EPOCH)
}

/// `Duration::subsec_nanos`: the fractional part of the duration, in
/// nanoseconds, which std documents to be less than one billion.
#[verifier::external_body]
fn subsec_nanos(d: &Duration) -> (n: u32)
    ensures
        n < 1_000_000_000,
{
    d.subsec_nanos()
}

impl Clone for Rng {
    /// A copy of the generator: it will produce the same sequence.
    fn clone(&self) -> (copy: Self)
        ensures
            copy@ == self@,
    {
        proof {
            use_type_invariant(self);
        }
        Rng { state: self.state }
    }
}

impl Rng {
    /// A generator's state is never zero, so it never gets stuck. Any
    /// holder of a generator `rng` learns this with `use_type_invariant(&rng)`.
    #[verifier::type_invariant]
    pub open spec fn never_zero(self) -> bool {
        self@ != 0
    }

    pub fn new(seed: u32) -> (rng: Self)
        ensures
            rng@ == seed_state(seed),
    {
        // xorshift gets stuck forever at 0, so replace a zero seed with any other number.
        let state: u32 = if seed == 0 { 0x9E37_79B9 } else { seed };
        Rng { state }
    }

    /// A generator seeded from a reading of the clock: the nanoseconds of
    /// the current second, or `None` when the clock is set before 1970, in
    /// which case the seed is 1.
    pub fn from_clock_reading(nanos: Option<u32>) -> (rng: Self)
        ensures
            rng@ == seed_state(match nanos {
                Some(n) => n,
                None => 1,
            }),
    {
        let seed: u32 = match nanos {
            Some(n) => n,
            None => 1,
        };
        Self::new(seed)
    }

    /// A generator seeded from the clock, so every run of the game is
    /// different. If the clock is set before 1970 the seed is 1.
    pub fn from_time() -> (rng: Self)
        ensures
            (exists|n: u32| n < 1_000_000_000 && rng@ == #[trigger] seed_state(n)) || rng@ == seed_state(1),
    {
        let now = system_time_now();
        let reading: Option<u32> = match since_unix_epoch(&now) {
            Ok(d) => Some(subsec_nanos(&d)),
            Err(_) => None,
        };
        Self::from_clock_reading(reading)
    }

    /// The next random 32-bit number. The three shift-and-XOR steps scramble the bits.
    pub fn next_u32(&mut self) -> (x: u32)
        ensures
            x == xorshift(old(self)@),
            final(self)@ == x,
            x != 0,
    {
        proof {
            use_type_invariant(&*self);
            lemma_xorshift_nonzero(self.state);
        }
        let mut x = self.state;
        x = x ^ (x << 13u32);
        x = x ^ (x >> 17u32);
        x = x ^ (x << 5u32);
        self.state = x;
        x
    }

    /// A random integer in `min..max` (`max` excluded). Returns `min`, and
    /// draws nothing, if the range is empty.
    pub fn range_i32(&mut self, min: i32, max: i32) -> (r: i32)
        ensures
            max <= min ==> r == min && final(self)@ == old(self)@,
            min < max ==> r == in_range(min, max, xorshift(old(self)@))
                && final(self)@ == xorshift(old(self)@),
    {
        if max <= min {
            return min;
        }
        let span: u64 = (max as i64 - min as i64) as u64;
        let v = self.next_u32();
        proof {
            law_range_in_bounds(min, max, v);
        }
        let offset: u64 = v as u64 % span;
        (min as i64 + offset as i64) as i32
    }
}

/// xorshift never reaches zero from a nonzero state, so a generator never gets stuck.
pub proof fn lemma_xorshift_nonzero(x: u32)
    requires
        x != 0,
    ensures
        xorshift(x) != 0,
{
    assert(x != 0 ==> ({
        let a = x ^ (x << 13u32);
        let b = a ^ (a >> 17u32);
        b ^ (b << 5u32)
    }) != 0) by (bit_vector);
}

/// A zero seed still gives a generator that moves: its state is not zero,
/// and neither is any state after it.
pub proof fn law_zero_seed_still_works(x: u32)
    ensures
        seed_state(0) != 0,
        x != 0 ==> xorshift(x) != 0,
{
    if x != 0 {
        lemma_xorshift_nonzero(x);
    }
}

/// The first `n` numbers a generator in state `state` draws, in order.
pub open spec fn draws(state: u32, n: nat) -> Seq<u32>
    decreases n,
{
    if n == 0 {
        Seq::empty()
    } else {
        seq![xorshift(state)] + draws(xorshift(state), (n - 1) as nat)
    }
}

/// The state of a generator in state `state` after `n` draws: the last
/// number drawn, or `state` itself before any draw.
pub open spec fn state_after(state: u32, n: nat) -> u32 {
    if n == 0 {
        state
    } else {
        draws(state, n)[n - 1]
    }
}

/// The same seed always produces the same sequence: the numbers drawn
/// from `Rng::new(seed)` are `draws(seed_state(seed), n)`, each one the
/// xorshift of the one before, none of them zero; a zero seed draws what
/// the seed `0x9E37_79B9` draws.
pub proof fn law_same_seed_same_sequence(seed: u32, n: nat)
    ensures
        draws(seed_state(seed), n).len() == n,
        forall|i: int| 0 <= i < n ==> #[trigger] draws(seed_state(seed), n)[i] != 0,
        n > 0 ==> draws(seed_state(seed), n)[0] == xorshift(seed_state(seed)),
        forall|i: int| 0 <= i < n - 1 ==> #[trigger] draws(seed_state(seed), n)[i + 1]
            == xorshift(draws(seed_state(seed), n)[i]),
        draws(seed_state(0), n) == draws(seed_state(0x9E37_79B9), n),
{
    lemma_draws_nonzero(seed_state(seed), n);
    lemma_draws_chain(seed_state(seed), n);
}

/// One more call of `next_u32` extends what a generator has drawn by one
/// number: `n + 1` draws are the first `n` followed by the xorshift of the
/// state those `n` left behind. A loop that calls `next_u32` keeps
/// `drawn == draws(start, i)` and `rng@ == state_after(start, i)` with this.
pub proof fn lemma_draws_push(state: u32, n: nat)
    ensures
        draws(state, n + 1) == draws(state, n).push(xorshift(state_after(state, n))),
        state_after(state, n + 1) == xorshift(state_after(state, n)),
    decreases n,
{
    if n > 0 {
        lemma_draws_push(xorshift(state), (n - 1) as nat);
        lemma_draws_len(xorshift(state), (n - 1) as nat);
        assert(draws(state, n + 1) =~= draws(state, n).push(xorshift(state_after(state, n))));
    } else {
        assert(draws(xorshift(state), 0) =~= Seq::<u32>::empty());
        assert(draws(state, 1) =~= seq![xorshift(state)]);
    }
}

proof fn lemma_draws_len(state: u32, n: nat)
    ensures
        draws(state, n).len() == n,
    decreases n,
{
    if n > 0 {
        lemma_draws_len(xorshift(state), (n - 1) as nat);
    }
}

proof fn lemma_draws_chain(state: u32, n: nat)
    ensures
        forall|i: int| 0 <= i < n - 1 ==> #[trigger] draws(state, n)[i + 1] == xorshift(draws(state, n)[i]),
    decreases n,
{
    if n > 0 {
        let rest = draws(xorshift(state), (n - 1) as nat);
        lemma_draws_chain(xorshift(state), (n - 1) as nat);
        lemma_draws_len(xorshift(state), (n - 1) as nat);
        let full = draws(state, n);
        assert(full == seq![xorshift(state)] + rest);
        assert forall|i: int| 0 <= i < n - 1 implies #[trigger] draws(state, n)[i + 1] == xorshift(draws(state, n)[i]) by {
            assert(full[i + 1] == rest[i]);
            if i > 0 {
                assert(full[i] == rest[i - 1]);
                let j = i - 1;
                assert(draws(xorshift(state), (n - 1) as nat)[j + 1] == xorshift(draws(xorshift(state), (n - 1) as nat)[j]));
            } else {
                assert(full[0] == xorshift(state));
                assert(rest == seq![xorshift(xorshift(state))] + draws(xorshift(xorshift(state)), (n - 2) as nat));
            }
        }
    }
}

proof fn lemma_draws_nonzero(state: u32, n: nat)
    requires
        state != 0,
    ensures
        draws(state, n).len() == n,
        forall|i: int| 0 <= i < n ==> #[trigger] draws(state, n)[i] != 0,
    decreases n,
{
    if n > 0 {
        lemma_xorshift_nonzero(state);
        lemma_draws_nonzero(xorshift(state), (n - 1) as nat);
        let rest = draws(xorshift(state), (n - 1) as nat);
        assert forall|i: int| 0 <= i < n implies #[trigger] draws(state, n)[i] != 0 by {
            if i > 0 {
                assert(draws(state, n)[i] == rest[i - 1]);
            }
        }
    }
}

/// Every integer `range_i32` returns for a non-empty range lies in `min..max`.
pub proof fn law_range_in_bounds(min: i32, max: i32, v: u32)
    requires
        min < max,
    ensures
        min <= in_range(min, max, v) < max,
{
}

} // verus!
