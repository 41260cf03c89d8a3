//! Self-adapting operator probabilities.
//!
//! A probability is held as a whole number of parts of `PROB_SCALE`, so that
//! `0` is "never" and `PROB_SCALE` is "always".

use crate::random::draw_below;
use rand::rngs::StdRng;
use vstd::prelude::*;
use vstd::string::{to_string_from_display_ensures, StringExecFns};

verus! {

/// The number of parts that make up a probability of one.
pub const PROB_SCALE: u32 = 1_000_000;

/// A self-adaptation step moves a probability by less than this many parts.
pub const MUTATION_STEP: u32 = 50_000;

/// `x` brought back into the closed range `[0, PROB_SCALE]`.
pub open spec fn clamp(x: int) -> int {
    if x < 0 {
        0
    } else if x > PROB_SCALE {
        PROB_SCALE as int
    } else {
        x
    }
}

/// `after` is `before` moved by less than `MUTATION_STEP` parts either way,
/// then clamped.
pub open spec fn is_step_of(before: int, after: int) -> bool {
    exists|d: int| -MUTATION_STEP <= d < MUTATION_STEP && after == #[trigger] clamp(before + d)
}

/// A probability after a series of self-adaptation steps, one per delta.
pub open spec fn after_shifts(start: int, deltas: Seq<int>) -> int
    decreases deltas.len(),
{
    if deltas.len() == 0 {
        start
    } else {
        clamp(after_shifts(start, deltas.drop_last()) + deltas.last())
    }
}

/// A probability that stands in `[0, PROB_SCALE]` stays there, whatever
/// number of self-adaptation steps is applied to it and whatever their sizes.
pub proof fn lemma_shifts_stay_in_range(start: int, deltas: Seq<int>)
    requires
        0 <= start <= PROB_SCALE,
    ensures
        0 <= after_shifts(start, deltas) <= PROB_SCALE,
    decreases deltas.len(),
{
    if deltas.len() > 0 {
        lemma_shifts_stay_in_range(start, deltas.drop_last());
    }
}

/// What follows the refused value in the text of an `InvalidProbabilityError`.
pub const INVALID_PROBABILITY_TEXT: &'static str =
    " parts is not a valid probability (it should be in range [0, 1000000] parts)";

/// A probability was asked for outside `[0, PROB_SCALE]`; it holds the value.
#[derive(Clone, Copy, Debug, PartialEq, Eq)]
pub struct InvalidProbabilityError(pub u32);

impl InvalidProbabilityError {
    /// The error as text: the refused value in decimal, then
    /// `INVALID_PROBABILITY_TEXT`.
    pub fn message(&self) -> (r: String)
        ensures
            exists|digits: String|
                to_string_from_display_ensures::<u32>(&self.0, digits) && r@ == digits@
                    + INVALID_PROBABILITY_TEXT@,
    {
        let digits = self.0.to_string();
        digits.concat(INVALID_PROBABILITY_TEXT)
    }
}

/// A biased coin.
#[derive(Clone, Copy, Debug, PartialEq, Eq, Structural)]
pub struct Bernoulli {
    parts: u32,
}

impl Bernoulli {
    #[verifier::type_invariant]
    spec fn in_range(self) -> bool {
        self.parts <= PROB_SCALE
    }

    /// The probability of heads, in parts of `PROB_SCALE`.
    pub closed spec fn chance(self) -> int {
        self.parts as int
    }

    /// A coin with the given probability; a value above `PROB_SCALE` is refused.
    pub fn new(parts: u32) -> (r: Result<Bernoulli, InvalidProbabilityError>)
        ensures
            parts <= PROB_SCALE <==> r is Ok,
            r matches Ok(b) ==> b.chance() == parts,
            r matches Err(e) ==> e.0 == parts,
    {
        if parts <= PROB_SCALE {
            Ok(Bernoulli { parts })
        } else {
            Err(InvalidProbabilityError(parts))
        }
    }

    /// The probability of heads, in parts of `PROB_SCALE`.
    pub fn parts(&self) -> (r: u32)
        ensures
            r == self.chance(),
            r <= PROB_SCALE,
    {
        proof {
            use_type_invariant(self);
        }
        self.parts
    }

    /// Moves the probability by `delta` parts and clamps it to `[0, PROB_SCALE]`.
    pub fn shift(&mut self, delta: i32)
        ensures
            final(self).chance() == clamp(old(self).chance() + delta),
            0 <= final(self).chance() <= PROB_SCALE,
    {
        proof {
            use_type_invariant(&*self);
        }
        let moved: i64 = self.parts as i64 + delta as i64;
        let parts: u32 = if moved < 0 {
            0
        } else if moved > PROB_SCALE as i64 {
            PROB_SCALE
        } else {
            moved as u32
        };
        *self = Bernoulli { parts };
    }

    /// One self-adaptation step: a uniform shift in `[-MUTATION_STEP, MUTATION_STEP)`.
    pub fn mutate(&mut self, rng: &mut StdRng)
        ensures
            is_step_of(old(self).chance(), final(self).chance()),
            0 <= final(self).chance() <= PROB_SCALE,
    {
        let draw = draw_below(rng, 2 * MUTATION_STEP as u64);
        let delta: i32 = draw as i32 - MUTATION_STEP as i32;
        self.shift(delta);
        assert(final(self).chance() == clamp(old(self).chance() + delta));
    }

    /// The outcome of a toss whose uniform draw in `[0, PROB_SCALE)` is `draw`.
    pub fn sample_with(&self, draw: u32) -> (r: bool)
        requires
            draw < PROB_SCALE,
        ensures
            r == (draw < self.chance()),
    {
        draw < self.parts
    }

    /// Tosses the coin: never heads at probability zero, always at one.
    pub fn sample(&self, rng: &mut StdRng) -> (r: bool)
        ensures
            self.chance() == 0 ==> !r,
            self.chance() == PROB_SCALE ==> r,
    {
        let draw = draw_below(rng, PROB_SCALE as u64);
        self.sample_with(draw as u32)
    }
}

/// The three probabilities that pick a chromosome's mutation operator.
#[derive(Clone, Copy, Debug, PartialEq, Eq, Structural)]
pub struct Probs {
    /// Chance of the rotate-subsequence operator.
    pub rotation: Bernoulli,
    /// Chance of the reverse-subsequence operator, when rotation was not picked.
    pub reverse: Bernoulli,
    /// Chance that a rotation moves by a random amount rather than by one.
    pub random_rotate: Bernoulli,
}

impl Probs {
    /// The starting probabilities: rotation 0.2, reverse 0.7, random rotation 0.2.
    pub fn new() -> (r: Probs)
        ensures
            r.rotation.chance() == 200_000,
            r.reverse.chance() == 700_000,
            r.random_rotate.chance() == 200_000,
    {
        Probs {
            rotation: Bernoulli { parts: 200_000 },
            reverse: Bernoulli { parts: 700_000 },
            random_rotate: Bernoulli { parts: 200_000 },
        }
    }

    /// One self-adaptation step of each of the three probabilities.
    pub fn mutate(&mut self, rng: &mut StdRng)
        ensures
            is_step_of(old(self).rotation.chance(), final(self).rotation.chance()),
            is_step_of(old(self).reverse.chance(), final(self).reverse.chance()),
            is_step_of(old(self).random_rotate.chance(), final(self).random_rotate.chance()),
    {
        self.rotation.mutate(rng);
        self.reverse.mutate(rng);
        self.random_rotate.mutate(rng);
    }

    /// Field by field, `self`'s value where the flag is set and `other`'s elsewhere.
    pub fn combine(
        &self,
        other: &Probs,
        take_rotation: bool,
        take_reverse: bool,
        take_random_rotate: bool,
    ) -> (r: Probs)
        ensures
            r.rotation == (if take_rotation { self.rotation } else { other.rotation }),
            r.reverse == (if take_reverse { self.reverse } else { other.reverse }),
            r.random_rotate == (if take_random_rotate {
                self.random_rotate
            } else {
                other.random_rotate
            }),
    {
        Probs {
            rotation: if take_rotation { self.rotation } else { other.rotation },
            reverse: if take_reverse { self.reverse } else { other.reverse },
            random_rotate: if take_random_rotate { self.random_rotate } else { other.random_rotate },
        }
    }

    /// Each field taken from `self` or from `other` by its own fair coin.
    pub fn crossover(&self, other: &Probs, rng: &mut StdRng) -> (r: Probs)
        ensures
            r.rotation == self.rotation || r.rotation == other.rotation,
            r.reverse == self.reverse || r.reverse == other.reverse,
            r.random_rotate == self.random_rotate || r.random_rotate == other.random_rotate,
    {
        let a = draw_below(rng, 2) == 0;
        let b = draw_below(rng, 2) == 0;
        let c = draw_below(rng, 2) == 0;
        self.combine(other, a, b, c)
    }
}

} // verus!
