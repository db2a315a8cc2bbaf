//! The seeded generator that every workload decision is drawn from.

use vstd::prelude::*;
use vstd::arithmetic::div_mod::*;
use vstd::arithmetic::mul::*;

verus! {

/// The step between two successive generator states.
pub const GAMMA: u64 = 0x9e3779b97f4a7c15;

/// The first multiplier of the output mixer.
pub const MIX_A: u64 = 0xbf58476d1ce4e5b9;

/// The second multiplier of the output mixer.
pub const MIX_B: u64 = 0x94d049bb133111eb;

/// The number of 64-bit words.
pub open spec fn words() -> nat {
    0x1_0000_0000_0000_0000
}

/// The output that belongs to a generator state (splitmix64).
pub open spec fn mix(s: u64) -> u64 {
    let a = (s ^ (s >> 30)).wrapping_mul(MIX_A);
    let b = (a ^ (a >> 27)).wrapping_mul(MIX_B);
    b ^ (b >> 31)
}

/// The generator state `k` draws after state `s`.
pub open spec fn advance(s: u64, k: nat) -> u64 {
    ((s + k * GAMMA) % words() as int) as u64
}

/// The `k`-th draw, counted from zero, of a generator in state `s`.
pub open spec fn draw(s: u64, k: nat) -> u64 {
    mix(advance(s, k + 1))
}

/// The value that draw `d` selects in `[lo, hi]`.
pub open spec fn in_range(d: u64, lo: u64, hi: u64) -> u64 {
    (lo + d as int % (hi - lo + 1)) as u64
}

/// Whether draw `d` hits a chance of `permille` in a thousand.
pub open spec fn hits(d: u64, permille: u64) -> bool {
    d % 1000 < permille
}

/// Advancing twice is advancing by the sum.
pub broadcast proof fn lemma_advance_compose(s: u64, a: nat, b: nat)
    ensures
        #[trigger] advance(advance(s, a), b) == advance(s, a + b),
{
    let m = words() as int;
    let x = s + a * GAMMA;
    let y = b * GAMMA;
    lemma_add_mod_noop(x, y, m);
    lemma_add_mod_noop(x % m, y, m);
    lemma_small_mod((x % m) as nat, m as nat);
    assert((a + b) * GAMMA == a * GAMMA + b * GAMMA) by {
        lemma_mul_is_distributive_add(GAMMA as int, a as int, b as int);
        lemma_mul_is_commutative(GAMMA as int, (a + b) as int);
        lemma_mul_is_commutative(GAMMA as int, a as int);
        lemma_mul_is_commutative(GAMMA as int, b as int);
    }
}

/// Draws after some draws are later draws of the same stream.
pub broadcast proof fn lemma_draw_compose(s: u64, a: nat, b: nat)
    ensures
        #[trigger] draw(advance(s, a), b) == draw(s, a + b),
{
    lemma_advance_compose(s, a, b + 1);
    assert(a + (b + 1) == a + b + 1);
}

/// A generator, holding its 64-bit state.
pub struct Prng(pub u64);

impl Prng {
    /// The next draw.
    pub fn next(&mut self) -> (r: u64)
        ensures
            r == draw(old(self).0, 0),
            final(self).0 == advance(old(self).0, 1),
    {
        self.0 = self.0.wrapping_add(GAMMA);
        assert(self.0 == advance(old(self).0, 1)) by {
            let x = old(self).0 + GAMMA;
            if x >= words() {
                lemma_mod_multiples_vanish(-1, x as int, words() as int);
                lemma_small_mod((x - words()) as nat, words());
            } else {
                lemma_small_mod(x as nat, words());
            }
        }
        let mut z: u64 = self.0;
        z = (z ^ (z >> 30)).wrapping_mul(MIX_A);
        z = (z ^ (z >> 27)).wrapping_mul(MIX_B);
        z ^ (z >> 31)
    }

    /// A draw in `[lo, hi]`. When that is every word, it is the draw itself.
    pub fn range(&mut self, lo: u64, hi: u64) -> (r: u64)
        requires
            lo <= hi,
        ensures
            r == in_range(draw(old(self).0, 0), lo, hi),
            lo <= r <= hi,
            final(self).0 == advance(old(self).0, 1),
    {
        if hi - lo == u64::MAX {
            let d = self.next();
            proof {
                lemma_small_mod(d as nat, words());
            }
            return d;
        }
        lo + self.next() % (hi - lo + 1)
    }

    /// Whether a chance of `permille` in a thousand comes up.
    pub fn chance(&mut self, permille: u64) -> (r: bool)
        ensures
            r == hits(draw(old(self).0, 0), permille),
            final(self).0 == advance(old(self).0, 1),
    {
        self.next() % 1000 < permille
    }
}

/// Multiplying by `c` and then by its inverse modulo the word size gives the
/// first factor back.
proof fn lemma_mul_undone(x: u64, c: u64, inverse: u64)
    requires
        (c * inverse) % words() as int == 1,
    ensures
        x.wrapping_mul(c).wrapping_mul(inverse) == x,
{
    let m = words() as int;
    let p = x as int * c as int;
    lemma_mul_mod_noop(p, inverse as int, m);
    lemma_mul_mod_noop(p % m, inverse as int, m);
    lemma_mod_twice(p, m);
    assert((p % m) * inverse as int % m == p * inverse as int % m);
    lemma_mul_is_associative(x as int, c as int, inverse as int);
    lemma_mul_mod_noop(x as int, c as int * inverse as int, m);
    lemma_small_mod(x as nat, m as nat);
    assert((x as int % m) * 1 == x);
}

/// The generator state that mixes to `y`.
pub open spec fn unmix(y: u64) -> u64 {
    let b = y ^ (y >> 31) ^ (y >> 62);
    let p = b.wrapping_mul(0x319642b2d24d8ec3);
    let a = p ^ (p >> 27) ^ (p >> 54);
    let q = a.wrapping_mul(0x96de1b173f119089);
    q ^ (q >> 30) ^ (q >> 60)
}

proof fn lemma_mixer_inverses()
    ensures
        (MIX_A * 0x96de1b173f119089u64) % words() as int == 1,
        (0x96de1b173f119089u64 * MIX_A) % words() as int == 1,
        (MIX_B * 0x319642b2d24d8ec3u64) % words() as int == 1,
        (0x319642b2d24d8ec3u64 * MIX_B) % words() as int == 1,
        (GAMMA * 0xf1de83e19937733du64) % words() as int == 1,
{
}

/// The output mixer loses nothing: every state is recovered from its output,
/// and every word is the output of exactly one state.
pub proof fn law_mix_is_a_bijection(s: u64)
    ensures
        unmix(mix(s)) == s,
        mix(unmix(s)) == s,
{
    lemma_mixer_inverses();
    let x = s ^ (s >> 30);
    let a = x.wrapping_mul(MIX_A);
    let y = a ^ (a >> 27);
    let b = y.wrapping_mul(MIX_B);
    let out = b ^ (b >> 31);
    assert(out ^ (out >> 31) ^ (out >> 62) == b) by (bit_vector)
        requires
            out == b ^ (b >> 31),
    ;
    lemma_mul_undone(y, MIX_B, 0x319642b2d24d8ec3);
    assert(y ^ (y >> 27) ^ (y >> 54) == a) by (bit_vector)
        requires
            y == a ^ (a >> 27),
    ;
    lemma_mul_undone(x, MIX_A, 0x96de1b173f119089);
    assert(x ^ (x >> 30) ^ (x >> 60) == s) by (bit_vector)
        requires
            x == s ^ (s >> 30),
    ;

    let b2 = s ^ (s >> 31) ^ (s >> 62);
    let p2 = b2.wrapping_mul(0x319642b2d24d8ec3);
    let a2 = p2 ^ (p2 >> 27) ^ (p2 >> 54);
    let q2 = a2.wrapping_mul(0x96de1b173f119089);
    let z2 = q2 ^ (q2 >> 30) ^ (q2 >> 60);
    assert(z2 ^ (z2 >> 30) == q2) by (bit_vector)
        requires
            z2 == q2 ^ (q2 >> 30) ^ (q2 >> 60),
    ;
    lemma_mul_undone(a2, 0x96de1b173f119089, MIX_A);
    assert(a2 ^ (a2 >> 27) == p2) by (bit_vector)
        requires
            a2 == p2 ^ (p2 >> 27) ^ (p2 >> 54),
    ;
    lemma_mul_undone(b2, 0x319642b2d24d8ec3, MIX_B);
    assert(b2 ^ (b2 >> 31) == s) by (bit_vector)
        requires
            b2 == s ^ (s >> 31) ^ (s >> 62),
    ;
}

/// Two draws of one stream are the same word only when they lie a whole number
/// of periods, each as long as there are words, apart.
pub proof fn law_draws_repeat_only_after_a_period(s: u64, i: nat, j: nat)
    requires
        i <= j,
    ensures
        draw(s, i) == draw(s, j) <==> (j - i) % words() as int == 0,
{
    let m = words() as int;
    let k = j - i;
    law_mix_is_a_bijection(advance(s, i + 1));
    law_mix_is_a_bijection(advance(s, j + 1));
    let t = advance(s, i + 1);
    lemma_advance_compose(s, i + 1, k as nat);
    assert(advance(s, j + 1) == advance(t, k as nat));
    lemma_small_mod(t as nat, m as nat);
    lemma_mixer_inverses();
    let inverse = 0xf1de83e19937733du64;
    if advance(t, k as nat) == t {
        // The step is invertible modulo the word size, so `k` steps that lead
        // nowhere are a multiple of it.
        lemma_mod_equivalence(t + k * GAMMA, t as int, m);
        assert((k * GAMMA) % m == 0);
        lemma_mul_mod_noop(k * GAMMA, inverse as int, m);
        assert((k * GAMMA) * inverse as int % m == 0);
        lemma_mul_is_associative(k, GAMMA as int, inverse as int);
        lemma_mul_mod_noop(k, GAMMA as int * inverse as int, m);
        assert((k % m) * 1 == k % m);
        lemma_mod_twice(k, m);
    }
    if k % m == 0 {
        lemma_mul_mod_noop(k, GAMMA as int, m);
        assert((k * GAMMA) % m == 0);
        lemma_add_mod_noop(t as int, k * GAMMA, m);
        lemma_mod_twice(t as int, m);
    }
}

/// A ranged draw stays in its range, and every value of the range is drawn
/// from some state.
pub proof fn law_range_covers_its_range(lo: u64, hi: u64, v: u64)
    requires
        lo <= v <= hi,
    ensures
        forall|d: u64| lo <= #[trigger] in_range(d, lo, hi) <= hi,
        exists|s: u64| in_range(#[trigger] draw(s, 0), lo, hi) == v,
{
    let m = words() as int;
    let target = (v - lo) as u64;
    let t = unmix(target);
    law_mix_is_a_bijection(target);
    let s = t.wrapping_sub(GAMMA);
    assert(advance(s, 1) == t) by {
        lemma_mod_multiples_vanish(-1, s + GAMMA, m);
        lemma_small_mod(t as nat, m as nat);
    }
    lemma_small_mod(target as nat, (hi - lo + 1) as nat);
    assert(in_range(draw(s, 0), lo, hi) == v);
    assert forall|d: u64| lo <= #[trigger] in_range(d, lo, hi) <= hi by {
        lemma_mod_bound(d as int, hi - lo + 1);
    }
}

/// A chance of nothing never comes up, and one of a thousand in a thousand
/// always does.
pub proof fn law_chance_extremes(d: u64, permille: u64)
    ensures
        !hits(d, 0),
        permille >= 1000 ==> hits(d, permille),
{
}

/// How a draw is put to use: the remainder by the size of the range, counted from
/// its lower end; and a chance comes up for that many of the thousand remainders.
pub proof fn law_draws_are_used_by_remainder(d: u64, lo: u64, hi: u64, permille: u64)
    requires
        lo <= hi,
    ensures
        in_range(d, lo, hi) - lo == d as int % (hi - lo + 1),
        hits(d, permille) <==> d % 1000 < permille,
        hi > d as int + lo ==> in_range(d, lo, hi) == lo + d,
{
    lemma_mod_bound(d as int, hi - lo + 1);
    if hi > d as int + lo {
        lemma_small_mod(d as nat, (hi - lo + 1) as nat);
    }
}

/// The stream of a generator: no draw is skipped, none comes twice, and a
/// generator that was advanced goes on with the same stream.
pub proof fn law_streams_go_on(s: u64, k: nat)
    ensures
        advance(s, 0) == s,
        advance(s, k + 1) == advance(s, k).wrapping_add(0x9e3779b97f4a7c15),
        draw(advance(s, 1), k) == draw(s, k + 1),
        draw(s, k) == mix(advance(s, k + 1)),
{
    let m = words() as int;
    lemma_small_mod(s as nat, words());
    lemma_advance_compose(s, k, 1);
    lemma_draw_compose(s, 1, k);
    let t = advance(s, k);
    let x = t + GAMMA;
    if x >= words() {
        lemma_mod_multiples_vanish(-1, x as int, m);
        lemma_small_mod((x - words()) as nat, words());
    } else {
        lemma_small_mod(x as nat, words());
    }
}

} // verus!
