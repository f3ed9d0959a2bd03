//! A small random number generator for pictures.

use std::time::{Duration, SystemTime, SystemTimeError, UNIX_EPOCH};
use vstd::prelude::*;

verus! {

/// `std::time::SystemTime`, carried through from the clock.
#[verifier::external_type_specification]
#[verifier::external_body]
pub struct ExSystemTime(SystemTime);

/// `std::time::SystemTimeError`, carried through from the clock.
#[verifier::external_type_specification]
#[verifier::external_body]
pub struct ExSystemTimeError(SystemTimeError);

/// `SystemTime::now` reads the clock; nothing is claimed of what it says.
pub assume_specification[ SystemTime::now ]() -> SystemTime
;

/// `Duration::as_nanos` counts the nanoseconds of a span; nothing is claimed of
/// how many there are.
pub assume_specification[ Duration::as_nanos ](d: &Duration) -> u128
;

/// `SystemTime::duration_since` measures from the Unix epoch to `t`, or fails
/// where `t` is before it; nothing is claimed of which, or how long.
#[verifier::external_body]
fn since_epoch(t: SystemTime) -> (r: Result<Duration, SystemTimeError>) {
    t.duration_since(UNIX_EPOCH)
}

/// One step of the generator.
pub open spec fn stepped(x: u64) -> u64 {
    let a = x ^ (x << 13);
    let b = a ^ (a >> 7);
    b ^ (b << 17)
}

/// `n` steps of the generator.
pub open spec fn stepped_by(x: u64, n: nat) -> u64
    decreases n,
{
    if n == 0 {
        x
    } else {
        stepped(stepped_by(x, (n - 1) as nat))
    }
}

/// A draw as a choice among `n`.
pub open spec fn draw_below(draw: u64, n: nat) -> nat {
    draw as nat % n
}

/// A draw as a fair coin: whether its top 24 bits are in their lower half.
pub open spec fn draw_coin(draw: u64) -> bool {
    draw >> 40 < 0x80_0000
}

/// xorshift: enough randomness for pictures, and it keeps the dependency list
/// short. The same seed gives the same numbers.
pub struct Rng(u64);

impl View for Rng {
    type V = u64;

    closed spec fn view(&self) -> u64 {
        self.0
    }
}

/// A step never comes to zero, where the generator would stay for ever.
pub proof fn steps_avoid_zero(x: u64)
    requires
        x != 0,
    ensures
        stepped(x) != 0,
{
    assert(({
        let a = x ^ (x << 13);
        let b = a ^ (a >> 7);
        b ^ (b << 17)
    }) != 0) by (bit_vector)
        requires
            x != 0,
    ;
}

/// However many numbers are drawn, the generator never sticks at zero.
pub proof fn generator_never_sticks(x: u64, n: nat)
    requires
        x != 0,
    ensures
        stepped_by(x, n) != 0,
    decreases n,
{
    if n > 0 {
        generator_never_sticks(x, (n - 1) as nat);
        steps_avoid_zero(stepped_by(x, (n - 1) as nat));
    }
}

/// No two states step to the same one.
pub proof fn steps_keep_states_apart(x: u64, y: u64)
    requires
        stepped(x) == stepped(y),
    ensures
        x == y,
{
    let (xa, ya) = (x ^ (x << 13), y ^ (y << 13));
    let (xb, yb) = (xa ^ (xa >> 7), ya ^ (ya >> 7));
    assert(xb == yb) by (bit_vector)
        requires
            xb ^ (xb << 17) == yb ^ (yb << 17),
    ;
    assert(xa == ya) by (bit_vector)
        requires
            xa ^ (xa >> 7) == ya ^ (ya >> 7),
    ;
    assert(x == y) by (bit_vector)
        requires
            x ^ (x << 13) == y ^ (y << 13),
    ;
}

/// A step treats every bit of the state alike, whatever the others are: where two states
/// differ decides alone where the next ones do.
pub proof fn steps_are_linear(x: u64, y: u64)
    ensures
        stepped(x ^ y) == stepped(x) ^ stepped(y),
{
    let z = x ^ y;
    let (xa, ya, za) = (x ^ (x << 13), y ^ (y << 13), z ^ (z << 13));
    let (xb, yb, zb) = (xa ^ (xa >> 7), ya ^ (ya >> 7), za ^ (za >> 7));
    assert(za == xa ^ ya) by (bit_vector)
        requires
            z == x ^ y,
            xa == x ^ (x << 13),
            ya == y ^ (y << 13),
            za == z ^ (z << 13),
    ;
    assert(zb == xb ^ yb) by (bit_vector)
        requires
            za == xa ^ ya,
            xb == xa ^ (xa >> 7),
            yb == ya ^ (ya >> 7),
            zb == za ^ (za >> 7),
    ;
    assert(zb ^ (zb << 17) == (xb ^ (xb << 17)) ^ (yb ^ (yb << 17))) by (bit_vector)
        requires
            zb == xb ^ yb,
    ;
}

/// A coin is fair: of all the numbers that can be drawn it is one side for the lower
/// half and the other for the upper.
pub proof fn a_coin_is_fair(draw: u64)
    ensures
        draw_coin(draw) == (draw < 0x8000_0000_0000_0000),
{
    assert((draw >> 40 < 0x80_0000) == (draw < 0x8000_0000_0000_0000)) by (bit_vector);
}

/// A choice among so many is one of them, and as the draw counts up each comes in turn.
pub proof fn choices_come_in_turn(draw: u64, n: nat)
    requires
        0 < n,
        draw < u64::MAX,
    ensures
        draw_below(draw, n) < n,
        draw_below(0, n) == 0,
        draw_below((draw + 1) as u64, n) == if draw_below(draw, n) + 1 == n {
            0
        } else {
            draw_below(draw, n) + 1
        },
{
    let q = draw as int / n as int;
    let r = draw as int % n as int;
    vstd::arithmetic::div_mod::lemma_small_mod(0, n);
    vstd::arithmetic::div_mod::lemma_fundamental_div_mod(draw as int, n as int);
    assert(n * q == q * n) by (nonlinear_arith);
    assert((q + 1) * n == q * n + n) by (nonlinear_arith);
    if r + 1 == n {
        vstd::arithmetic::div_mod::lemma_fundamental_div_mod_converse(
            draw + 1,
            n as int,
            q + 1,
            0,
        );
    } else {
        vstd::arithmetic::div_mod::lemma_fundamental_div_mod_converse(draw + 1, n as int, q, r + 1);
    }
}

/// The seed that the clock gives: the low 64 bits of its nanoseconds, or a fixed
/// one where the clock stands before its epoch.
pub fn clock_seed(nanos: Option<u128>) -> (r: u64)
    ensures
        r == (match nanos {
            Some(n) => (n % 0x1_0000_0000_0000_0000) as u64,
            None => 0x2545F4914F6CDD1D,
        }),
{
    match nanos {
        Some(n) => (n % 0x1_0000_0000_0000_0000) as u64,
        None => 0x2545F4914F6CDD1D,
    }
}

impl Rng {
    /// A generator that begins at the seed, its lowest bit set.
    pub fn seeded(seed: u64) -> (r: Rng)
        ensures
            r@ == seed | 1,
            r@ != 0,
    {
        assert(seed | 1 != 0) by (bit_vector);
        Rng(seed | 1)
    }

    /// A generator from the seed, or from the clock where none is given.
    pub fn new(seed: Option<u64>) -> (r: Rng)
        ensures
            seed matches Some(s) ==> r@ == s | 1,
            r@ & 1 == 1,
            r@ != 0,
    {
        let s: u64 = match seed {
            Some(s) => s,
            None => {
                match since_epoch(SystemTime::now()) {
                    Ok(d) => clock_seed(Some(d.as_nanos())),
                    Err(_) => clock_seed(None),
                }
            },
        };
        assert((s | 1) & 1 == 1) by (bit_vector);
        Rng::seeded(s)
    }

    /// The next number.
    pub fn next_u64(&mut self) -> (r: u64)
        ensures
            r == stepped(old(self)@),
            final(self)@ == r,
    {
        let mut x: u64 = self.0;
        x = x ^ (x << 13);
        x = x ^ (x >> 7);
        x = x ^ (x << 17);
        self.0 = x;
        x
    }

    /// The next number's top 24 bits: in 2^24ths, a number from 0 up to but not
    /// including 1.
    pub fn unit(&mut self) -> (r: u32)
        ensures
            r == stepped(old(self)@) >> 40,
            r < 0x100_0000,
            final(self)@ == stepped(old(self)@),
    {
        let x: u64 = self.next_u64();
        assert(x >> 40 < 0x100_0000) by (bit_vector);
        (x >> 40) as u32
    }

    /// One of the numbers below `n`.
    pub fn below(&mut self, n: usize) -> (r: usize)
        requires
            n > 0,
        ensures
            r < n,
            r == draw_below(stepped(old(self)@), n as nat),
            final(self)@ == stepped(old(self)@),
    {
        let x: u64 = self.next_u64();
        (x % n as u64) as usize
    }

    /// A fair coin.
    pub fn coin(&mut self) -> (r: bool)
        ensures
            r == draw_coin(stepped(old(self)@)),
            final(self)@ == stepped(old(self)@),
    {
        self.unit() < 0x80_0000
    }
}

} // verus!
