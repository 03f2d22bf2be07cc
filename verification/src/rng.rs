//! Drawing random numbers.
use rand::seq::SliceRandom;
use rand::{Rng, SeedableRng};
use rand_chacha::ChaCha8Rng;
use vstd::prelude::*;

verus! {

/// The generator of `rand_chacha`, opaque here.
#[verifier::external_type_specification]
#[verifier::external_body]
pub struct ExChaCha8Rng(rand_chacha::ChaCha8Rng);

/// What `rand::Rng::gen_range` gives over `lo..=hi`, in unsigned numbers of
/// `width` bits, on the generator that `rand::SeedableRng::seed_from_u64`
/// makes of `seed`, once it gave the draws in `past`, each with its width and
/// its range.
pub uninterp spec fn drawn(
    seed: u64,
    past: Seq<(nat, int, int)>,
    width: nat,
    lo: int,
    hi: int,
) -> int;

/// How a generator came to be in its state: its seed and the draws so far,
/// each with its width and its range.
pub struct Trail {
    pub seed: u64,
    pub past: Seq<(nat, int, int)>,
}

impl Trail {
    /// Nothing was drawn yet.
    pub open spec fn start(seed: u64) -> Trail {
        Trail { seed, past: Seq::empty() }
    }

    /// What the next draw gives.
    pub open spec fn next(self, width: nat, lo: int, hi: int) -> int {
        drawn(self.seed, self.past, width, lo, hi)
    }

    /// After the next draw.
    pub open spec fn after(self, width: nat, lo: int, hi: int) -> Trail {
        Trail { seed: self.seed, past: self.past.push((width, lo, hi)) }
    }
}

/// A generator. It is known how it came to be in its state until something
/// else draws from it.
pub struct Generator {
    rng: ChaCha8Rng,
    trail: Ghost<Option<Trail>>,
}

impl View for Generator {
    type V = Option<Trail>;

    closed spec fn view(&self) -> Option<Trail> {
        self.trail@
    }
}

impl Generator {
    /// A generator with the given seed.
    pub fn new(seed: u64) -> (r: Self)
        ensures
            r@ == Some(Trail::start(seed)),
    {
        seeded(seed)
    }

    /// What is underneath, for draws that are not made here.
    pub fn inner(&mut self) -> (r: &mut ChaCha8Rng)
        ensures
            final(self)@ is None,
    {
        self.trail = Ghost(None);
        &mut self.rng
    }
}

/// What is known of a generator after a draw: one more draw, where it was
/// known how it came to be in its state.
pub open spec fn moved_on(
    before: Option<Trail>,
    width: nat,
    lo: int,
    hi: int,
    after: Option<Trail>,
) -> bool {
    match before {
        Some(t) => after == Some(t.after(width, lo, hi)),
        None => after is None,
    }
}

/// The word is what a generator gives, and what is known of it then.
pub open spec fn word_drawn(before: Option<Trail>, word: u32, after: Option<Trail>) -> bool {
    &&& before matches Some(t) ==> word == t.next(32, 0, u32::MAX as int)
    &&& moved_on(before, 32, 0, u32::MAX as int, after)
}

/// After so many words.
pub open spec fn past_words(t: Trail, n: nat) -> Trail
    decreases n,
{
    if n == 0 {
        t
    } else {
        past_words(t, (n - 1) as nat).after(32, 0, u32::MAX as int)
    }
}

/// The words are what a generator gives, one after the other, and what is
/// known of it then.
pub open spec fn words_drawn(before: Option<Trail>, words: Seq<u32>, after: Option<Trail>) -> bool {
    match before {
        Some(t) => after == Some(past_words(t, words.len())) && forall|i: int|
            0 <= i < words.len() ==> #[trigger] words[i] == past_words(t, i as nat).next(
                32,
                0,
                u32::MAX as int,
            ),
        None => after is None,
    }
}

/// The width of the numbers by which `rand` chooses among so many.
pub open spec fn choice_width(len: int) -> nat {
    if len <= u32::MAX {
        32
    } else {
        usize::BITS as nat
    }
}

/// `rand::SeedableRng::seed_from_u64`: the generator for a seed, from which
/// nothing was drawn yet.
#[verifier::external_body]
pub(crate) fn seeded(seed: u64) -> (r: Generator)
    ensures
        r@ == Some(Trail::start(seed)),
{
    Generator { rng: ChaCha8Rng::seed_from_u64(seed), trail: Ghost(Some(Trail::start(seed))) }
}

/// `rand::Rng::gen_range` over `lo..=hi`: what is drawn lies in the range, and
/// depends on the seed and the draws so far alone.
#[verifier::external_body]
pub(crate) fn draw_u8(rng: &mut Generator, lo: u8, hi: u8) -> (r: u8)
    requires
        lo <= hi,
    ensures
        lo <= r <= hi,
        old(rng)@ matches Some(t) ==> r == drawn(t.seed, t.past, 8, lo as int, hi as int),
        moved_on(old(rng)@, 8, lo as int, hi as int, final(rng)@),
{
    rng.rng.gen_range(lo..=hi)
}

/// `rand::Rng::gen_range` over `0..n`: what is drawn is under `n`, and depends
/// on the seed and the draws so far alone.
#[verifier::external_body]
pub(crate) fn draw_below_u32(rng: &mut Generator, n: u32) -> (r: u32)
    requires
        n > 0,
    ensures
        r < n,
        old(rng)@ matches Some(t) ==> r == drawn(t.seed, t.past, 32, 0, n - 1),
        moved_on(old(rng)@, 32, 0, n - 1, final(rng)@),
{
    rng.rng.gen_range(0..n)
}

/// `rand::Rng::gen_range` over `0..n`: what is drawn is under `n`, and depends
/// on the seed and the draws so far alone.
#[verifier::external_body]
pub(crate) fn draw_below_u64(rng: &mut Generator, n: u64) -> (r: u64)
    requires
        n > 0,
    ensures
        r < n,
        old(rng)@ matches Some(t) ==> r == drawn(t.seed, t.past, 64, 0, n - 1),
        moved_on(old(rng)@, 64, 0, n - 1, final(rng)@),
{
    rng.rng.gen_range(0..n)
}

/// `rand::Rng::gen_range` over `0..n`: what is drawn is under `n`, and depends
/// on the seed, the draws so far and the width of `usize` alone.
#[verifier::external_body]
pub(crate) fn draw_below(rng: &mut Generator, n: usize) -> (r: usize)
    requires
        n > 0,
    ensures
        r < n,
        old(rng)@ matches Some(t) ==> r == drawn(
            t.seed,
            t.past,
            usize::BITS as nat,
            0,
            n - 1,
        ),
        moved_on(old(rng)@, usize::BITS as nat, 0, n - 1, final(rng)@),
{
    rng.rng.gen_range(0..n)
}

/// `rand::Rng::gen_range` over `lo..=hi`: what is drawn lies in the range, and
/// depends on the seed and the draws so far alone.
#[verifier::external_body]
pub(crate) fn draw_between(rng: &mut Generator, lo: u32, hi: u32) -> (r: u32)
    requires
        lo <= hi,
    ensures
        lo <= r <= hi,
        old(rng)@ matches Some(t) ==> r == drawn(t.seed, t.past, 32, lo as int, hi as int),
        moved_on(old(rng)@, 32, lo as int, hi as int, final(rng)@),
{
    rng.rng.gen_range(lo..=hi)
}

/// Draws a word, which can be any. A number from zero to one takes one.
pub(crate) fn draw_word(rng: &mut Generator) -> (r: u32)
    ensures
        word_drawn(old(rng)@, r, final(rng)@),
{
    draw_between(rng, 0, u32::MAX)
}

/// `rand::seq::SliceRandom::choose`: the number at a place that is drawn as
/// `gen_range` draws one, or nothing, and no draw, where there is no number.
#[verifier::external_body]
pub(crate) fn choose_one(rng: &mut Generator, pool: &Vec<usize>) -> (r: Option<usize>)
    ensures
        match r {
            Some(x) => pool@.contains(x),
            None => pool@.len() == 0,
        },
        pool@.len() == 0 ==> final(rng)@ == old(rng)@,
        pool@.len() > 0 ==> moved_on(
            old(rng)@,
            choice_width(pool@.len() as int),
            0,
            pool@.len() - 1,
            final(rng)@,
        ),
        pool@.len() > 0 && old(rng)@ is Some ==> {
            let t = old(rng)@->0;
            let place = drawn(
                t.seed,
                t.past,
                choice_width(pool@.len() as int),
                0,
                pool@.len() - 1,
            );
            0 <= place < pool@.len() && r == Some(pool@[place])
        },
{
    pool.choose(&mut rng.rng).copied()
}

} // verus!
