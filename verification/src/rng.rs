//! The random source of tower heights.
use rand::rngs::SmallRng;
use rand::{Rng, RngCore, SeedableRng};
use vstd::arithmetic::div_mod::{
    lemma_fundamental_div_mod, lemma_mod_breakdown, lemma_mod_multiples_basic,
};
use vstd::arithmetic::power2::{
    lemma2_to64, lemma_pow2_adds, lemma_pow2_pos, lemma_pow2_unfold, pow2,
};
use vstd::prelude::*;
use vstd::set_lib::{lemma_int_range, lemma_map_size, set_int_range};
use vstd::std_specs::bits::axiom_u32_trailing_zeros;

use crate::node::MAX_HEIGHT;

verus! {

/// The generator `rand::rngs::SmallRng`. Nothing is known of its state.
#[verifier::external_type_specification]
#[verifier::external_body]
pub struct ExSmallRng(SmallRng);

/// Calls `SeedableRng::try_from_os_rng` for `SmallRng`, which seeds a generator with
/// entropy of the operating system, or fails if the system has none to give. Nothing
/// is claimed of the outcome: it rests on chance and on the machine.
#[verifier::external_body]
pub(crate) fn seeded_from_os() -> (rng: Option<SmallRng>) {
    SmallRng::try_from_os_rng().ok()
}

/// Calls `SeedableRng::seed_from_u64` for `SmallRng`, which makes a generator from a
/// number. Nothing is claimed of its state, which differs from one platform to
/// another.
#[verifier::external_body]
pub(crate) fn seeded_from(seed: u64) -> (rng: SmallRng) {
    SmallRng::seed_from_u64(seed)
}

/// Calls `Rng::random::<u32>` on a `SmallRng`, which draws a word from the
/// uniform distribution. Nothing is claimed of the word: it rests on chance.
#[verifier::external_body]
pub(crate) fn random_word(rng: &mut SmallRng) -> (word: u32) {
    rng.random::<u32>()
}

/// Calls `RngCore::next_u32` of `SmallRng`, which draws 32 random bits. Nothing is
/// claimed of them.
#[verifier::external_body]
pub(crate) fn small_next_u32(rng: &mut SmallRng) -> (word: u32) {
    rng.next_u32()
}

/// Calls `RngCore::next_u64` of `SmallRng`, which draws 64 random bits. Nothing is
/// claimed of them.
#[verifier::external_body]
pub(crate) fn small_next_u64(rng: &mut SmallRng) -> (word: u64) {
    rng.next_u64()
}

/// Calls `RngCore::fill_bytes` of `SmallRng`, which overwrites a slice with random
/// bytes. The slice keeps its length; nothing is claimed of the bytes.
#[verifier::external_body]
pub(crate) fn small_fill_bytes(rng: &mut SmallRng, dest: &mut [u8])
    ensures
        final(dest)@.len() == old(dest)@.len(),
{
    rng.fill_bytes(dest)
}

/// The seed of a generator for which the operating system has no entropy.
pub const FALLBACK_SEED: u64 = 0x9e37_79b9_7f4a_7c15;

/// The generator can come from the entropy of the operating system, or else, if that
/// can fail, from the fallback seed.
pub closed spec fn fresh_small(rng: SmallRng) -> bool {
    ||| call_ensures(seeded_from_os, (), Some(rng))
    ||| call_ensures(seeded_from_os, (), None) && call_ensures(seeded_from, (FALLBACK_SEED,), rng)
}

/// A uniform draw from the generator can give the word.
pub closed spec fn uniform_of_small(rng: &mut SmallRng, word: u32) -> bool {
    call_ensures(random_word, (rng,), word)
}

/// The next 32 bits of the generator can be the word.
pub closed spec fn word_of_small(rng: &mut SmallRng, word: u32) -> bool {
    call_ensures(small_next_u32, (rng,), word)
}

/// The next 64 bits of the generator can be the word.
pub closed spec fn long_word_of_small(rng: &mut SmallRng, word: u64) -> bool {
    call_ensures(small_next_u64, (rng,), word)
}

/// The generator can fill the slice.
pub closed spec fn filled_by_small(rng: &mut SmallRng, dest: &mut [u8]) -> bool {
    call_ensures(small_fill_bytes, (rng, dest), ())
}

/// A small generator that is seeded when it is first used.
#[derive(Debug)]
pub struct ThreadSmallRng {
    inner: Option<SmallRng>,
}

/// A generator that will seed itself.
pub fn rng() -> (rng: ThreadSmallRng)
    ensures
        rng.generator() is None,
{
    ThreadSmallRng { inner: None }
}

impl Default for ThreadSmallRng {
    fn default() -> (rng: Self)
        ensures
            rng.generator() is None,
    {
        self::rng()
    }
}

/// What is drawn rests on chance. It comes from the generator, and the generator goes
/// on from the state that the draw leaves it in.
impl ThreadSmallRng {
    /// The generator, if it has been seeded.
    pub closed spec fn generator(&self) -> Option<SmallRng> {
        self.inner
    }

    /// A draw takes the generator from its state before, or from a seed if this is the
    /// first draw, to its state after.
    pub open spec fn draws(&self, before: &Self, from: SmallRng, to: SmallRng) -> bool {
        &&& match before.generator() {
            Some(generator) => from == generator,
            None => fresh_small(from),
        }
        &&& self.generator() == Some(to)
    }

    /// Takes the generator out, to be put back after the draw.
    fn take(&mut self) -> (inner: SmallRng)
        ensures
            match old(self).inner {
                Some(rng) => inner == rng,
                None => fresh_small(inner),
            },
            final(self).inner is None,
    {
        match self.inner.take() {
            Some(inner) => inner,
            None => {
                let from_os = seeded_from_os;
                match from_os() {
                    Some(inner) => inner,
                    None => {
                        let from_number = seeded_from;
                        from_number(FALLBACK_SEED)
                    },
                }
            },
        }
    }

    /// Draws a word from the uniform distribution.
    pub fn random_u32(&mut self) -> (word: u32)
        ensures
            exists|r: &mut SmallRng|
                final(self).draws(old(self), *r, *final(r)) && #[trigger] uniform_of_small(r, word),
    {
        let mut inner: SmallRng = self.take();
        assert(forall|r: &mut SmallRng, w: u32| #[trigger]
            call_ensures(random_word, (r,), w) ==> uniform_of_small(r, w));
        let draw = random_word;
        let word: u32 = draw(&mut inner);
        self.inner = Some(inner);
        word
    }

    /// Draws 32 random bits.
    pub fn next_u32(&mut self) -> (word: u32)
        ensures
            exists|r: &mut SmallRng|
                final(self).draws(old(self), *r, *final(r)) && #[trigger] word_of_small(r, word),
    {
        let mut inner: SmallRng = self.take();
        assert(forall|r: &mut SmallRng, w: u32| #[trigger]
            call_ensures(small_next_u32, (r,), w) ==> word_of_small(r, w));
        let draw = small_next_u32;
        let word: u32 = draw(&mut inner);
        self.inner = Some(inner);
        word
    }

    /// Draws 64 random bits.
    pub fn next_u64(&mut self) -> (word: u64)
        ensures
            exists|r: &mut SmallRng|
                {
                    &&& final(self).draws(old(self), *r, *final(r))
                    &&& #[trigger] long_word_of_small(r, word)
                },
    {
        let mut inner: SmallRng = self.take();
        assert(forall|r: &mut SmallRng, w: u64| #[trigger]
            call_ensures(small_next_u64, (r,), w) ==> long_word_of_small(r, w));
        let draw = small_next_u64;
        let word: u64 = draw(&mut inner);
        self.inner = Some(inner);
        word
    }

    /// Fills a slice with random bytes.
    pub fn fill_bytes(&mut self, dest: &mut [u8])
        ensures
            final(dest)@.len() == old(dest)@.len(),
            exists|r: &mut SmallRng, d: &mut [u8]|
                {
                    &&& final(self).draws(old(self), *r, *final(r))
                    &&& d@ == old(dest)@
                    &&& final(d)@ == final(dest)@
                    &&& #[trigger] filled_by_small(r, d)
                },
    {
        let mut inner: SmallRng = self.take();
        assert(forall|r: &mut SmallRng, d: &mut [u8]| #[trigger]
            call_ensures(small_fill_bytes, (r, d), ()) ==> filled_by_small(r, d));
        let fill = small_fill_bytes;
        fill(&mut inner, dest);
        self.inner = Some(inner);
    }
}

/// The height of a tower that may still grow by `room` levels: it grows as long
/// as the bits of the draw are zero.
pub open spec fn tower_height(draw: u32, room: nat) -> nat
    decreases room,
{
    if room <= 1 || draw % 2 == 1 {
        1
    } else {
        1 + tower_height(draw / 2, (room - 1) as nat)
    }
}

/// The low `n` bits of a draw are zero.
pub open spec fn low_bits_zero(draw: u32, n: nat) -> bool {
    draw as int % pow2(n) as int == 0
}

/// The height that the draw's trailing zeros give.
proof fn lemma_tower_height(draw: u32, room: nat, zeros: u32)
    requires
        zeros < room <= 32,
        forall|j: u32| 0 <= j < zeros ==> #[trigger] (draw >> j) & 1u32 == 0u32,
        zeros == room - 1 || (draw >> zeros) & 1u32 == 1u32,
    ensures
        tower_height(draw, room) == zeros + 1,
    decreases room,
{
    assert((draw >> 0u32) & 1u32 == draw % 2) by (bit_vector);
    if zeros > 0 {
        assert((draw >> 0u32) & 1u32 == 0u32);
        let half = draw / 2;
        let below = (zeros - 1) as u32;
        assert forall|j: u32| 0 <= j < below implies #[trigger] (half >> j) & 1u32 == 0u32 by {
            let up = (j + 1) as u32;
            assert((draw >> up) & 1u32 == 0u32);
            assert(half >> j == draw >> up) by (bit_vector)
                requires
                    half == draw / 2,
                    up == j + 1,
                    up < 32,
            ;
        }
        assert(half >> below == draw >> zeros) by (bit_vector)
            requires
                half == draw / 2,
                zeros == below + 1,
                zeros < 32,
        ;
        lemma_tower_height(half, (room - 1) as nat, below);
    }
}

/// Turns a random word into a tower height.
pub fn height_of(draw: u32) -> (height: usize)
    ensures
        height == tower_height(draw, MAX_HEIGHT as nat),
        1 <= height <= MAX_HEIGHT,
{
    // This produces an exponential distribution
    let val: u32 = (1u32 << 31u32) | draw;
    let zeros: u32 = val.trailing_zeros();
    proof {
        axiom_u32_trailing_zeros(val);
        assert((val >> 31u32) & 1u32 == 1u32) by (bit_vector)
            requires
                val == (1u32 << 31u32) | draw,
        ;
        assert forall|j: u32| 0 <= j < zeros implies #[trigger] (draw >> j) & 1u32 == 0u32 by {
            assert((val >> j) & 1u32 == 0u32);
            assert((draw >> j) & 1u32 == 0u32) by (bit_vector)
                requires
                    val == (1u32 << 31u32) | draw,
                    (val >> j) & 1u32 == 0u32,
            ;
        }
        if zeros < 31 {
            assert((draw >> zeros) & 1u32 == 1u32) by (bit_vector)
                requires
                    val == (1u32 << 31u32) | draw,
                    (val >> zeros) & 1u32 == 1u32,
                    zeros < 31,
            ;
        }
        lemma_tower_height(draw, 32, zeros);
    }
    zeros as usize + 1
}

/// A random tower height: that of a word drawn from the generator.
pub fn random_height(rng: &mut ThreadSmallRng) -> (height: usize)
    ensures
        exists|r: &mut SmallRng, draw: u32|
            {
                &&& final(rng).draws(old(rng), *r, *final(r))
                &&& #[trigger] uniform_of_small(r, draw)
                &&& height == tower_height(draw, MAX_HEIGHT as nat)
            },
        1 <= height <= MAX_HEIGHT,
{
    let draw: u32 = rng.random_u32();
    height_of(draw)
}

/// What can be drawn is what the generator's own functions can give: nothing stands between
/// a draw and the generator, and a fresh generator is seeded from the operating system, or
/// from the fallback seed where that fails.
pub(crate) proof fn law_draws_are_of_the_generator(
    rng: &mut SmallRng,
    fresh: SmallRng,
    word: u32,
    long: u64,
    dest: &mut [u8],
)
    ensures
        uniform_of_small(rng, word) <==> call_ensures(random_word, (rng,), word),
        word_of_small(rng, word) <==> call_ensures(small_next_u32, (rng,), word),
        long_word_of_small(rng, long) <==> call_ensures(small_next_u64, (rng,), long),
        filled_by_small(rng, dest) <==> call_ensures(small_fill_bytes, (rng, dest), ()),
        fresh_small(fresh) <==> {
            ||| call_ensures(seeded_from_os, (), Some(fresh))
            ||| {
                &&& call_ensures(seeded_from_os, (), None)
                &&& call_ensures(seeded_from, (FALLBACK_SEED,), fresh)
            }
        },
{
}

/// A generator that has been seeded goes on from the state in which its last draw left it;
/// it is seeded once, by its first draw.
pub proof fn law_draws_go_on(
    before: &ThreadSmallRng,
    between: &ThreadSmallRng,
    after: &ThreadSmallRng,
    a: SmallRng,
    b: SmallRng,
    c: SmallRng,
    d: SmallRng,
)
    requires
        between.draws(before, a, b),
        after.draws(between, c, d),
    ensures
        before.generator() matches Some(generator) ==> a == generator,
        before.generator() is None ==> fresh_small(a),
        c == b,
        between.generator() == Some(b),
        after.generator() == Some(d),
{
}

/// A tower reaches above level `level` exactly if the low `level` bits of its draw
/// are all zero.
pub proof fn law_heights(draw: u32, level: nat)
    requires
        level < MAX_HEIGHT,
    ensures
        tower_height(draw, MAX_HEIGHT as nat) > level <==> low_bits_zero(draw, level),
        1 <= tower_height(draw, MAX_HEIGHT as nat) <= MAX_HEIGHT,
{
    lemma_reaches(draw, MAX_HEIGHT as nat, level);
}

/// The draws that give towers above a level.
pub open spec fn draws_above(level: nat) -> Set<u32> {
    Set::new(|draw: u32| tower_height(draw, MAX_HEIGHT as nat) > level)
}

/// Heights are distributed exponentially: of all draws, half as many give towers
/// above a level with each further level.
pub proof fn law_exponential_heights(level: nat)
    requires
        level < MAX_HEIGHT,
    ensures
        draws_above(level).finite(),
        draws_above(level).len() == pow2((32 - level) as nat),
{
    let m = pow2(level) as int;
    let n = pow2((32 - level) as nat) as int;
    lemma_pow2_pos(level);
    lemma_pow2_adds(level, (32 - level) as nat);
    lemma2_to64();
    assert(m * n == 0x1_0000_0000);
    let f = |k: int| (k * m) as u32;
    let ks = set_int_range(0, n);
    lemma_int_range(0, n);
    assert forall|k: int| 0 <= k < n implies 0 <= #[trigger] (k * m) < 0x1_0000_0000 && (k * m) % m
        == 0 by {
        assert(0 <= k * m < m * n) by (nonlinear_arith)
            requires
                0 <= k < n,
                m > 0,
        ;
        lemma_mod_multiples_basic(k, m);
    }
    assert forall|j: int, k: int| ks.contains(j) && ks.contains(k) && f(j) == f(k) implies j
        == k by {
        assert(f(j) == j * m && f(k) == k * m);
        assert(j == k) by (nonlinear_arith)
            requires
                j * m == k * m,
                m > 0,
        ;
    }
    assert(ks.map(f) =~= draws_above(level)) by {
        assert forall|draw: u32| draws_above(level).contains(draw) implies #[trigger] ks.map(
            f,
        ).contains(draw) by {
            law_heights(draw, level);
            let d = draw as int;
            let k = d / m;
            lemma_fundamental_div_mod(d, m);
            assert(k * m == d) by (nonlinear_arith)
                requires
                    d == m * k + 0,
            ;
            assert(0 <= k < n) by (nonlinear_arith)
                requires
                    k * m == d,
                    0 <= d < m * n,
                    m > 0,
            ;
            assert(ks.contains(k) && f(k) == draw);
        }
        assert forall|draw: u32| #[trigger] ks.map(f).contains(draw) implies draws_above(
            level,
        ).contains(draw) by {
            let k = choose|k: int| ks.contains(k) && f(k) == draw;
            assert(f(k) == k * m);
            law_heights(draw, level);
        }
    }
    lemma_map_size(ks, draws_above(level), f);
}

proof fn lemma_reaches(draw: u32, room: nat, level: nat)
    requires
        level < room,
    ensures
        tower_height(draw, room) > level <==> low_bits_zero(draw, level),
        1 <= tower_height(draw, room) <= room,
    decreases level,
{
    lemma2_to64();
    lemma_height_bounds(draw, room);
    if level > 0 {
        let half = draw / 2;
        lemma_pow2_pos((level - 1) as nat);
        lemma_pow2_unfold(level);
        let m = pow2((level - 1) as nat) as int;
        assert(pow2(level) as int == 2 * m);
        let d = draw as int;
        assert(d % (2 * m) == 0 <==> d % 2 == 0 && (d / 2) % m == 0) by {
            lemma_mod_breakdown(d, 2, m);
        }
        if draw % 2 == 0 {
            lemma_reaches(half, (room - 1) as nat, (level - 1) as nat);
        }
    }
}

proof fn lemma_height_bounds(draw: u32, room: nat)
    requires
        room >= 1,
    ensures
        1 <= tower_height(draw, room) <= room,
    decreases room,
{
    if room > 1 && draw % 2 == 0 {
        lemma_height_bounds(draw / 2, (room - 1) as nat);
    }
}

} // verus!
